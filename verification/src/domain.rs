//! The extended domain: the coset `shift * K`, where `K` is the subgroup
//! whose order is the number of rows of the trace times `2^rate_bits`, and
//! the tables that the constraints need of its points.

use crate::field::{
    felts, finv, fmul, fpow, fsub, invertible, lemma_fmul_associates, lemma_fmul_commutes,
    lemma_fmul_one, lemma_fpow_add, lemma_fpow_canonical, lemma_fpow_fpow, lemma_fpow_of_one,
    lemma_fpow_product, lemma_reduce_canonical, lemma_view_canonical, modulus, Felt,
    MULTIPLICATIVE_GROUP_GENERATOR, ORDER, POWER_OF_TWO_GENERATOR, TWO_ADICITY,
};
use vstd::arithmetic::power2::{lemma_pow2_unfold, pow2};
use vstd::prelude::*;

verus! {

/// The generator of the subgroup of order `2^n_log`.
pub open spec fn root_of_unity(n_log: nat) -> int {
    fpow(POWER_OF_TWO_GENERATOR as int, pow2((TWO_ADICITY - n_log) as nat))
}

/// The point with index `i` of the coset of the subgroup of order
/// `2^size_log`.
pub open spec fn coset_point(size_log: nat, i: nat) -> int {
    fmul(MULTIPLICATIVE_GROUP_GENERATOR as int, fpow(root_of_unity(size_log), i))
}

/// `Z_H` at the point with index `i` of the coset, where `H` is the subgroup
/// of order `2^n_log` and the coset has `2^rate_bits` points for each of `H`:
/// the shift to the power `2^n_log`, times the power `i` of the generator of
/// the subgroup of order `2^rate_bits`, less one. The values repeat after
/// `2^rate_bits` points.
pub open spec fn vanishing_on_coset(n_log: nat, rate_bits: nat, i: nat) -> int {
    fsub(
        fmul(
            fpow(MULTIPLICATIVE_GROUP_GENERATOR as int, pow2(n_log)),
            fpow(root_of_unity(rate_bits), i % pow2(rate_bits)),
        ),
        1,
    )
}

/// The polynomial that vanishes on the last row only, `x - 1 / g` where `g`
/// generates the rows, at the point with index `i` of the coset.
pub open spec fn z_last_on_coset(n_log: nat, rate_bits: nat, i: nat) -> int {
    fsub(coset_point(n_log + rate_bits, i), finv(root_of_unity(n_log)))
}

/// One squaring more of the generator of the largest subgroup whose order is
/// a power of two.
proof fn lemma_square_step(k: nat, power: int, square: int)
    requires
        fpow(POWER_OF_TWO_GENERATOR as int, pow2(k)) == power,
        fmul(power, power) == square,
    ensures
        fpow(POWER_OF_TWO_GENERATOR as int, pow2(k + 1)) == square,
{
    lemma_fpow_add(POWER_OF_TWO_GENERATOR as int, pow2(k), pow2(k));
    lemma_pow2_unfold(k + 1);
}

/// The generator of the largest subgroup whose order is a power of two has
/// order `2^TWO_ADICITY`: squared `TWO_ADICITY` times it is one, and once
/// less it is not.
pub proof fn lemma_generator_order()
    ensures
        fpow(POWER_OF_TWO_GENERATOR as int, pow2(TWO_ADICITY as nat)) == 1,
        fpow(POWER_OF_TWO_GENERATOR as int, pow2((TWO_ADICITY - 1) as nat)) == modulus() - 1,
{
    reveal(fmul);
    vstd::arithmetic::power2::lemma2_to64();
    lemma_fmul_one(POWER_OF_TWO_GENERATOR as int);
    lemma_reduce_canonical(POWER_OF_TWO_GENERATOR as int);
    lemma_reduce_canonical(1);
    assert(fpow(POWER_OF_TWO_GENERATOR as int, 1) == fmul(
        POWER_OF_TWO_GENERATOR as int,
        fpow(POWER_OF_TWO_GENERATOR as int, 0),
    ));
    lemma_square_step(0, 7277203076849721926, 3524815499551269279);
    lemma_square_step(1, 3524815499551269279, 1905180297017055339);
    lemma_square_step(2, 1905180297017055339, 2530564950562219707);
    lemma_square_step(3, 2530564950562219707, 2147253751702802259);
    lemma_square_step(4, 2147253751702802259, 4969973714567017225);
    lemma_square_step(5, 4969973714567017225, 3757607247483852735);
    lemma_square_step(6, 3757607247483852735, 8877499657461974390);
    lemma_square_step(7, 8877499657461974390, 2709866199236980323);
    lemma_square_step(8, 2709866199236980323, 5936499541590631774);
    lemma_square_step(9, 5936499541590631774, 8124823329697072476);
    lemma_square_step(10, 8124823329697072476, 6553637399136210105);
    lemma_square_step(11, 6553637399136210105, 1971462654193939361);
    lemma_square_step(12, 1971462654193939361, 8982441859486529725);
    lemma_square_step(13, 8982441859486529725, 3411401055030829696);
    lemma_square_step(14, 3411401055030829696, 5718075921287398682);
    lemma_square_step(15, 5718075921287398682, 8167150655112846419);
    lemma_square_step(16, 8167150655112846419, 1873558160482552414);
    lemma_square_step(17, 1873558160482552414, 7126024226993609386);
    lemma_square_step(18, 7126024226993609386, 4308460244895131701);
    lemma_square_step(19, 4308460244895131701, 4355325209153869931);
    lemma_square_step(20, 4355325209153869931, 9113133275150391358);
    lemma_square_step(21, 9113133275150391358, 4255134452441852017);
    lemma_square_step(22, 4255134452441852017, 6434636298004421797);
    lemma_square_step(23, 6434636298004421797, 4404853092538523347);
    lemma_square_step(24, 4404853092538523347, 2198989700608);
    lemma_square_step(25, 2198989700608, 8);
    lemma_square_step(26, 8, 64);
    lemma_square_step(27, 64, 4096);
    lemma_square_step(28, 4096, 16777216);
    lemma_square_step(29, 16777216, 281474976710656);
    lemma_square_step(30, 281474976710656, 18446744069414584320);
    lemma_square_step(31, 18446744069414584320, 1);
}

/// The generator of the subgroup of order `2^n_log`, to the power `2^k`, is
/// the generator of the subgroup of order `2^(n_log - k)`.
pub proof fn lemma_root_of_unity_power(n_log: nat, k: nat)
    requires
        k <= n_log <= TWO_ADICITY,
    ensures
        fpow(root_of_unity(n_log), pow2(k)) == root_of_unity((n_log - k) as nat),
{
    lemma_fpow_fpow(
        POWER_OF_TWO_GENERATOR as int,
        pow2((TWO_ADICITY - n_log) as nat),
        pow2(k),
    );
    vstd::arithmetic::power2::lemma_pow2_adds((TWO_ADICITY - n_log) as nat, k);
}

/// Every row of a trace with `2^n_log` rows is a root of `Z_H`: each power
/// of the generator of the rows, to the power `2^n_log`, is one.
pub proof fn lemma_rows_are_roots(n_log: nat, row: nat)
    requires
        n_log <= TWO_ADICITY,
    ensures
        fpow(fpow(root_of_unity(n_log), row), pow2(n_log)) == 1,
{
    let g = root_of_unity(n_log);
    lemma_fpow_fpow(g, row, pow2(n_log));
    lemma_fpow_fpow(g, pow2(n_log), row);
    assert(row * pow2(n_log) == pow2(n_log) * row) by (nonlinear_arith);
    lemma_root_of_unity_power(n_log, n_log);
    lemma_generator_order();
    lemma_fpow_of_one(row);
}

/// The generator of the rows has an inverse.
pub proof fn lemma_root_invertible(n_log: nat)
    requires
        n_log <= TWO_ADICITY,
    ensures
        invertible(root_of_unity(n_log)),
{
    let g = root_of_unity(n_log);
    let n = pow2(n_log);
    let cofactor = pow2((TWO_ADICITY - n_log) as nat) * 4294967295;
    // g^(ORDER - 1) = (g^n)^cofactor = 1
    vstd::arithmetic::power2::lemma2_to64();
    vstd::arithmetic::power2::lemma_pow2_adds(n_log, (TWO_ADICITY - n_log) as nat);
    assert(n * cofactor == modulus() - 1) by (nonlinear_arith)
        requires
            n * pow2((TWO_ADICITY - n_log) as nat) == 4294967296,
            cofactor == pow2((TWO_ADICITY - n_log) as nat) * 4294967295,
    ;
    lemma_fpow_fpow(g, n, cofactor);
    lemma_rows_are_roots(n_log, 1);
    lemma_fpow_fpow(g, 1, n);
    assert(1 * n == n) by (nonlinear_arith);
    lemma_fpow_canonical(g, 1);
    lemma_fmul_one(g);
    assert(fpow(g, 1) == fmul(g, fpow(g, 0)));
    lemma_reduce_canonical(1);
    lemma_fpow_canonical(
        POWER_OF_TWO_GENERATOR as int,
        pow2((TWO_ADICITY - n_log) as nat),
    );
    lemma_reduce_canonical(g);
    lemma_fpow_of_one(cofactor);
    assert(fpow(g, (modulus() - 1) as nat) == fmul(g, finv(g)));
}

/// `Z_H` on the coset is `x^n - 1`: at the point `x` with index `i` of the
/// extended domain of a trace with `n = 2^n_log` rows, the value of the table
/// is `x` to the power `n`, less one.
pub proof fn lemma_vanishing_on_coset(n_log: nat, rate_bits: nat, i: nat)
    requires
        n_log + rate_bits <= TWO_ADICITY,
    ensures
        vanishing_on_coset(n_log, rate_bits, i) == fsub(
            fpow(coset_point(n_log + rate_bits, i), pow2(n_log)),
            1,
        ),
{
    let shift = MULTIPLICATIVE_GROUP_GENERATOR as int;
    let n = pow2(n_log);
    let rate = pow2(rate_bits);
    let w = root_of_unity(n_log + rate_bits);
    let v = root_of_unity(rate_bits);
    vstd::arithmetic::power2::lemma_pow2_pos(rate_bits);
    // (shift * w^i)^n = shift^n * (w^n)^i
    lemma_fpow_product(shift, fpow(w, i), n);
    lemma_fpow_fpow(w, i, n);
    lemma_fpow_fpow(w, n, i);
    assert(i * n == n * i) by (nonlinear_arith);
    lemma_root_of_unity_power(n_log + rate_bits, n_log);
    // v^i = v^(i mod rate), since v^rate = 1
    let q = (i / rate) as nat;
    let m = (i % rate) as nat;
    vstd::arithmetic::div_mod::lemma_fundamental_div_mod(i as int, rate as int);
    assert(rate * q == rate as int * (i as int / rate as int));
    lemma_fpow_add(v, rate * q, m);
    lemma_fpow_fpow(v, rate, q);
    lemma_root_of_unity_power(rate_bits, rate_bits);
    lemma_generator_order();
    lemma_fpow_of_one(q);
    lemma_fpow_canonical(v, m);
    lemma_fmul_one(fpow(v, m));
    lemma_reduce_canonical(fpow(v, m));
}

/// Two to the power `bits`, if it can be counted.
pub fn power_of_two(bits: usize) -> (r: Option<usize>)
    ensures
        r is Some <==> pow2(bits as nat) <= usize::MAX,
        r matches Some(n) ==> n == pow2(bits as nat),
{
    let mut n: usize = 1;
    let mut done: usize = 0;
    proof {
        vstd::arithmetic::power2::lemma2_to64();
    }
    while done < bits
        invariant
            done <= bits,
            n == pow2(done as nat),
        decreases bits - done,
    {
        proof {
            lemma_pow2_unfold((done + 1) as nat);
        }
        if n > usize::MAX / 2 {
            proof {
                if done + 1 < bits {
                    vstd::arithmetic::power2::lemma_pow2_strictly_increases(
                        (done + 1) as nat,
                        bits as nat,
                    );
                }
            }
            return None;
        }
        n = n * 2;
        done = done + 1;
    }
    Some(n)
}

/// The points of the coset of the subgroup of order `2^size_log`, the first
/// `len` of them.
pub fn coset_points(size_log: usize, len: usize) -> (r: Vec<Felt>)
    requires
        size_log <= TWO_ADICITY,
    ensures
        r@.len() == len,
        forall|i: int|
            0 <= i < len ==> (#[trigger] r@[i])@ == coset_point(size_log as nat, i as nat),
{
    let shift = Felt::coset_shift();
    let w = Felt::primitive_root_of_unity(size_log);
    let mut points: Vec<Felt> = Vec::new();
    let mut x = shift;
    proof {
        lemma_fmul_one(shift@);
        lemma_view_canonical(shift);
        lemma_reduce_canonical(1);
    }
    let mut i: usize = 0;
    while i < len
        invariant
            i <= len,
            w@ == root_of_unity(size_log as nat),
            shift@ == MULTIPLICATIVE_GROUP_GENERATOR as int,
            x@ == coset_point(size_log as nat, i as nat),
            points@.len() == i,
            forall|j: int|
                0 <= j < i ==> (#[trigger] points@[j])@ == coset_point(size_log as nat, j as nat),
        decreases len - i,
    {
        points.push(x);
        proof {
            // (shift * w^i) * w = shift * (w * w^i)
            lemma_fmul_associates(shift@, fpow(w@, i as nat), w@);
            lemma_fmul_commutes(fpow(w@, i as nat), w@);
        }
        x = x.mul(w);
        i = i + 1;
    }
    points
}

/// `Z_H` on the coset and its inverse, for the `2^rate_bits` points after
/// which the values repeat.
#[derive(Debug)]
pub struct ZeroPolyOnCoset {
    n_log: usize,
    rate_bits: usize,
    evals: Vec<Felt>,
    inverses: Vec<Felt>,
}

impl ZeroPolyOnCoset {
    #[verifier::type_invariant]
    spec fn valid(&self) -> bool {
        &&& self.evals@.len() == pow2(self.rate_bits as nat)
        &&& self.inverses@.len() == pow2(self.rate_bits as nat)
        &&& forall|j: int|
            0 <= j < self.evals@.len() ==> (#[trigger] self.evals@[j])@ == vanishing_on_coset(
                self.n_log as nat,
                self.rate_bits as nat,
                j as nat,
            )
        &&& forall|j: int|
            0 <= j < self.inverses@.len() ==> (#[trigger] self.inverses@[j])@ == finv(
                self.evals@[j]@,
            ) && invertible(self.evals@[j]@)
    }

    /// The number of rows is two to this power.
    pub closed spec fn n_log(&self) -> nat {
        self.n_log as nat
    }

    /// The coset has two to this power points for each row.
    pub closed spec fn rate_bits(&self) -> nat {
        self.rate_bits as nat
    }

    /// Whether `Z_H` has an inverse at every point of the coset.
    pub open spec fn all_invertible(n_log: nat, rate_bits: nat) -> bool {
        forall|j: nat|
            j < pow2(rate_bits) ==> invertible(#[trigger] vanishing_on_coset(n_log, rate_bits, j))
    }

    /// The tables for a trace of `2^n_log` rows on a coset with `2^rate_bits`
    /// points for each row; none if `Z_H` has no inverse at some point.
    pub fn new(n_log: usize, rate_bits: usize) -> (r: Option<ZeroPolyOnCoset>)
        requires
            rate_bits <= TWO_ADICITY,
            pow2(rate_bits as nat) <= usize::MAX,
        ensures
            r is Some <==> Self::all_invertible(n_log as nat, rate_bits as nat),
            r matches Some(z) ==> z.n_log() == n_log && z.rate_bits() == rate_bits,
    {
        let rate = match power_of_two(rate_bits) {
            Some(rate) => rate,
            None => {
                return None;
            },
        };
        let g_pow_n = Felt::coset_shift().exp_power_of_2(n_log);
        let v = Felt::primitive_root_of_unity(rate_bits);
        let mut evals: Vec<Felt> = Vec::new();
        let mut inverses: Vec<Felt> = Vec::new();
        let mut power = Felt::one();
        let mut j: usize = 0;
        proof {
            lemma_reduce_canonical(1);
        }
        while j < rate
            invariant
                j <= rate,
                rate == pow2(rate_bits as nat),
                g_pow_n@ == fpow(MULTIPLICATIVE_GROUP_GENERATOR as int, pow2(n_log as nat)),
                v@ == root_of_unity(rate_bits as nat),
                power@ == fpow(v@, j as nat),
                evals@.len() == j,
                inverses@.len() == j,
                forall|k: int|
                    0 <= k < j ==> (#[trigger] evals@[k])@ == vanishing_on_coset(
                        n_log as nat,
                        rate_bits as nat,
                        k as nat,
                    ),
                forall|k: int|
                    0 <= k < j ==> (#[trigger] inverses@[k])@ == finv(evals@[k]@) && invertible(
                        evals@[k]@,
                    ),
            decreases rate - j,
        {
            let eval = g_pow_n.mul(power).sub(Felt::one());
            proof {
                vstd::arithmetic::div_mod::lemma_small_mod(j as nat, rate as nat);
            }
            match eval.try_inverse() {
                None => {
                    proof {
                        assert(!invertible(
                            vanishing_on_coset(n_log as nat, rate_bits as nat, j as nat),
                        ));
                    }
                    return None;
                },
                Some(inverse) => {
                    evals.push(eval);
                    inverses.push(inverse);
                },
            }
            proof {
                lemma_fmul_commutes(power@, v@);
            }
            power = power.mul(v);
            j = j + 1;
        }
        proof {
            assert forall|k: nat| k < pow2(rate_bits as nat) implies invertible(
                #[trigger] vanishing_on_coset(n_log as nat, rate_bits as nat, k),
            ) by {
                assert(evals@[k as int]@ == vanishing_on_coset(
                    n_log as nat,
                    rate_bits as nat,
                    k,
                ));
                assert(inverses@[k as int]@ == finv(evals@[k as int]@));
            }
        }
        Some(ZeroPolyOnCoset { n_log, rate_bits, evals, inverses })
    }

    /// `Z_H` at the point with index `i` of the coset.
    pub fn eval(&self, i: usize) -> (r: Felt)
        ensures
            r@ == vanishing_on_coset(self.n_log(), self.rate_bits(), i as nat),
    {
        proof {
            use_type_invariant(self);
            vstd::arithmetic::power2::lemma_pow2_pos(self.rate_bits as nat);
            let rate = self.evals@.len() as int;
            vstd::arithmetic::div_mod::lemma_mod_bound(i as int, rate);
            vstd::arithmetic::div_mod::lemma_mod_twice(i as int, rate);
        }
        self.evals[i % self.evals.len()]
    }

    /// The inverse of `Z_H` at the point with index `i` of the coset.
    pub fn eval_inverse(&self, i: usize) -> (r: Felt)
        ensures
            r@ == finv(vanishing_on_coset(self.n_log(), self.rate_bits(), i as nat)),
            fmul(vanishing_on_coset(self.n_log(), self.rate_bits(), i as nat), r@) == 1,
    {
        proof {
            use_type_invariant(self);
            vstd::arithmetic::power2::lemma_pow2_pos(self.rate_bits as nat);
            let rate = self.evals@.len() as int;
            vstd::arithmetic::div_mod::lemma_mod_bound(i as int, rate);
            vstd::arithmetic::div_mod::lemma_mod_twice(i as int, rate);
            let j = (i as int) % rate;
            assert(self.evals@[j]@ == vanishing_on_coset(
                self.n_log as nat,
                self.rate_bits as nat,
                j as nat,
            ));
        }
        self.inverses[i % self.inverses.len()]
    }
}

/// Where `Z_H` has an inverse at each of the `2^rate_bits` points after which
/// its values repeat, it has one at every point of the coset.
pub proof fn lemma_invertible_everywhere(n_log: nat, rate_bits: nat, i: nat)
    requires
        ZeroPolyOnCoset::all_invertible(n_log, rate_bits),
    ensures
        invertible(vanishing_on_coset(n_log, rate_bits, i)),
{
    let rate = pow2(rate_bits) as int;
    vstd::arithmetic::power2::lemma_pow2_pos(rate_bits);
    vstd::arithmetic::div_mod::lemma_mod_bound(i as int, rate);
    vstd::arithmetic::div_mod::lemma_mod_twice(i as int, rate);
    let j = (i % pow2(rate_bits)) as nat;
    assert(vanishing_on_coset(n_log, rate_bits, j) == vanishing_on_coset(n_log, rate_bits, i));
}

/// The inverse of `Z_H` at each of the first `len` points of the coset.
pub open spec fn z_h_inverse_values(n_log: nat, rate_bits: nat, len: nat) -> Seq<int> {
    Seq::new(len, |i: int| finv(vanishing_on_coset(n_log, rate_bits, i as nat)))
}

/// The polynomial that vanishes on the last row only, at each of the first
/// `len` points of the coset.
pub open spec fn z_last_values(n_log: nat, rate_bits: nat, len: nat) -> Seq<int> {
    Seq::new(len, |i: int| z_last_on_coset(n_log, rate_bits, i as nat))
}

/// The inverse of `Z_H` at each of the first `len` points of the coset.
pub fn z_h_inverse_table(zero_poly: &ZeroPolyOnCoset, len: usize) -> (r: Vec<Felt>)
    ensures
        felts(r@) == z_h_inverse_values(zero_poly.n_log(), zero_poly.rate_bits(), len as nat),
{
    let mut table: Vec<Felt> = Vec::new();
    let mut i: usize = 0;
    while i < len
        invariant
            i <= len,
            table@.len() == i,
            forall|j: int|
                0 <= j < i ==> (#[trigger] table@[j])@ == finv(
                    vanishing_on_coset(zero_poly.n_log(), zero_poly.rate_bits(), j as nat),
                ),
        decreases len - i,
    {
        table.push(zero_poly.eval_inverse(i));
        i = i + 1;
    }
    proof {
        assert(felts(table@) =~= z_h_inverse_values(
            zero_poly.n_log(),
            zero_poly.rate_bits(),
            len as nat,
        ));
    }
    table
}

/// The polynomial that vanishes on the last row only, at each of the first
/// `len` points of the coset.
pub fn z_last_table(n_log: usize, rate_bits: usize, len: usize) -> (r: Vec<Felt>)
    requires
        n_log + rate_bits <= TWO_ADICITY,
    ensures
        felts(r@) == z_last_values(n_log as nat, rate_bits as nat, len as nat),
{
    // The last row is the inverse of the generator of the rows.
    let last = Felt::primitive_root_of_unity(n_log).exp_u64(ORDER - 2);
    let points = coset_points(n_log + rate_bits, len);
    let mut table: Vec<Felt> = Vec::new();
    let mut i: usize = 0;
    while i < len
        invariant
            i <= len,
            points@.len() == len,
            last@ == finv(root_of_unity(n_log as nat)),
            forall|j: int|
                0 <= j < len ==> (#[trigger] points@[j])@ == coset_point(
                    (n_log + rate_bits) as nat,
                    j as nat,
                ),
            table@.len() == i,
            forall|j: int|
                0 <= j < i ==> (#[trigger] table@[j])@ == z_last_on_coset(
                    n_log as nat,
                    rate_bits as nat,
                    j as nat,
                ),
        decreases len - i,
    {
        table.push(points[i].sub(last));
        i = i + 1;
    }
    proof {
        assert(felts(table@) =~= z_last_values(n_log as nat, rate_bits as nat, len as nat));
    }
    table
}

} // verus!
