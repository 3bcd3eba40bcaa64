//! The prime field with `2^64 - 2^32 + 1` elements, in which every trace cell,
//! challenge and constraint value lives.
//!
//! Contracts are stated over mathematical integers: the view of an element is
//! its least non-negative representative, and `fadd`, `fsub`, `fmul` are the
//! field operations on such representatives.

use vstd::arithmetic::div_mod::{
    lemma_add_mod_noop, lemma_mod_bound, lemma_mul_mod_noop_general, lemma_small_mod,
    lemma_sub_mod_noop,
};
use vstd::arithmetic::power2::{lemma_pow2_unfold, pow2};
use vstd::prelude::*;

verus! {

/// The number of field elements.
pub const ORDER: u64 = 0xFFFF_FFFF_0000_0001;

/// The largest `k` such that `2^k` divides `ORDER - 1`.
pub const TWO_ADICITY: usize = 32;

/// A generator of the whole multiplicative group; the shift of the coset on
/// which low-degree extensions are evaluated.
pub const MULTIPLICATIVE_GROUP_GENERATOR: u64 = 14293326489335486720;

/// An element of multiplicative order `2^TWO_ADICITY`.
pub const POWER_OF_TWO_GENERATOR: u64 = 7277203076849721926;

/// `ORDER` as a mathematical integer.
pub open spec fn modulus() -> int {
    0xFFFF_FFFF_0000_0001
}

/// The least non-negative representative of `x`.
pub open spec fn reduce(x: int) -> int {
    x % modulus()
}

/// Field addition on representatives.
#[verifier::opaque]
pub open spec fn fadd(a: int, b: int) -> int {
    reduce(a + b)
}

/// Field subtraction on representatives.
#[verifier::opaque]
pub open spec fn fsub(a: int, b: int) -> int {
    reduce(a - b)
}

/// Field multiplication on representatives.
#[verifier::opaque]
pub open spec fn fmul(a: int, b: int) -> int {
    reduce(a * b)
}

/// Additive inverse on representatives.
#[verifier::opaque]
pub open spec fn fneg(a: int) -> int {
    reduce(-a)
}

/// `x` raised to the power `e`.
pub open spec fn fpow(x: int, e: nat) -> int
    decreases e,
{
    if e == 0 {
        reduce(1)
    } else {
        fmul(x, fpow(x, (e - 1) as nat))
    }
}

/// Whether `x` is a representative, that is `0 <= x < ORDER`.
pub open spec fn is_canonical(x: int) -> bool {
    0 <= x < modulus()
}

/// The representatives of a sequence of elements.
pub open spec fn felts(s: Seq<Felt>) -> Seq<int> {
    Seq::new(s.len(), |i: int| s[i]@)
}

/// An element of the field.
#[derive(Clone, Copy, Debug, PartialEq, Eq, Hash)]
pub struct Felt {
    value: u64,
}

impl View for Felt {
    type V = int;

    closed spec fn view(&self) -> int {
        (self.value as int) % modulus()
    }
}

/// Reducing is idempotent, and leaves representatives alone.
pub proof fn lemma_reduce_canonical(x: int)
    ensures
        is_canonical(reduce(x)),
        is_canonical(x) ==> reduce(x) == x,
        reduce(reduce(x)) == reduce(x),
{
    lemma_mod_bound(x, modulus());
    if is_canonical(x) {
        lemma_small_mod(x as nat, modulus() as nat);
    }
    lemma_small_mod(reduce(x) as nat, modulus() as nat);
}

/// Reducing an operand of a sum does not change the reduced sum.
pub proof fn lemma_reduce_add(x: int, y: int)
    ensures
        reduce(reduce(x) + y) == reduce(x + y),
        reduce(x + reduce(y)) == reduce(x + y),
        reduce(reduce(x) + reduce(y)) == reduce(x + y),
{
    lemma_add_mod_noop(x, y, modulus());
    lemma_add_mod_noop(reduce(x), y, modulus());
    lemma_add_mod_noop(x, reduce(y), modulus());
    lemma_reduce_canonical(x);
    lemma_reduce_canonical(y);
}

/// Reducing an operand of a difference does not change the reduced difference.
pub proof fn lemma_reduce_sub(x: int, y: int)
    ensures
        reduce(reduce(x) - y) == reduce(x - y),
        reduce(x - reduce(y)) == reduce(x - y),
        reduce(reduce(x) - reduce(y)) == reduce(x - y),
{
    lemma_sub_mod_noop(x, y, modulus());
    lemma_sub_mod_noop(reduce(x), y, modulus());
    lemma_sub_mod_noop(x, reduce(y), modulus());
    lemma_reduce_canonical(x);
    lemma_reduce_canonical(y);
}

/// Reducing an operand of a product does not change the reduced product.
pub proof fn lemma_reduce_mul(x: int, y: int)
    ensures
        reduce(reduce(x) * y) == reduce(x * y),
        reduce(x * reduce(y)) == reduce(x * y),
        reduce(reduce(x) * reduce(y)) == reduce(x * y),
{
    lemma_mul_mod_noop_general(x, y, modulus());
}

/// The view of every element is a representative.
pub proof fn lemma_view_canonical(x: Felt)
    ensures
        is_canonical(x@),
        reduce(x@) == x@,
{
    lemma_reduce_canonical(x.value as int);
}

/// Powers add in the exponent.
pub proof fn lemma_fpow_add(x: int, a: nat, b: nat)
    ensures
        fpow(x, a + b) == fmul(fpow(x, a), fpow(x, b)),
    decreases a,
{
    reveal(fmul);
    if a == 0 {
        assert(fpow(x, b) == reduce(fpow(x, b))) by {
            if b == 0 {
                lemma_reduce_canonical(1);
            } else {
                lemma_reduce_canonical(x * fpow(x, (b - 1) as nat));
            }
        }
        lemma_reduce_canonical(1);
        assert(1 * fpow(x, b) == fpow(x, b)) by (nonlinear_arith);
    } else {
        let a1 = (a - 1) as nat;
        lemma_fpow_add(x, a1, b);
        let pa = fpow(x, a1);
        let pb = fpow(x, b);
        assert(fpow(x, a + b) == fmul(x, fpow(x, a1 + b)));
        lemma_reduce_mul(x, pa * pb);
        lemma_reduce_mul(x * pa, pb);
        assert(x * (pa * pb) == (x * pa) * pb) by (nonlinear_arith);
    }
}

/// Multiplication does not depend on the order of its operands.
pub proof fn lemma_fmul_commutes(a: int, b: int)
    ensures
        fmul(a, b) == fmul(b, a),
{
    reveal(fmul);
    assert(a * b == b * a) by (nonlinear_arith);
}

/// `f * x - f` is `f * (x - 1)`.
pub proof fn lemma_mul_sub_self(f: int, x: int)
    ensures
        fsub(fmul(f, x), f) == fmul(f, fsub(x, 1)),
{
    reveal(fmul);
    reveal(fsub);
    lemma_reduce_sub(f * x, f);
    lemma_reduce_mul(f, x - 1);
    assert(f * x - f == f * (x - 1)) by (nonlinear_arith);
}

/// `1 * (f * x) + (-s) * f` is `f * (x - s)`.
pub proof fn lemma_arithmetic_minus(f: int, x: int, s: int)
    ensures
        fadd(fmul(1, fmul(f, x)), fmul(fneg(s), f)) == fmul(f, fsub(x, s)),
{
    reveal(fmul);
    reveal(fsub);
    reveal(fadd);
    reveal(fneg);
    lemma_reduce_mul(1, f * x);
    assert(1 * (f * x) == f * x) by (nonlinear_arith);
    lemma_reduce_canonical(f * x);
    lemma_reduce_mul(-s, f);
    lemma_reduce_canonical((-s) * f);
    lemma_reduce_add(f * x, (-s) * f);
    lemma_reduce_mul(f, x - s);
    assert(f * x + (-s) * f == f * (x - s)) by (nonlinear_arith);
}

/// `1 * (f * (a - l)) + c * f` is `f * (a - (l - c))`.
pub proof fn lemma_arithmetic_plus(f: int, a: int, l: int, c: int)
    ensures
        fadd(fmul(1, fmul(f, fsub(a, l))), fmul(c, f)) == fmul(f, fsub(a, fsub(l, c))),
{
    reveal(fmul);
    reveal(fsub);
    reveal(fadd);
    lemma_reduce_mul(f, a - l);
    lemma_reduce_mul(1, f * (a - l));
    assert(1 * (f * (a - l)) == f * (a - l)) by (nonlinear_arith);
    lemma_reduce_canonical(f * (a - l));
    lemma_reduce_mul(1, fmul(f, fsub(a, l)));
    assert(1 * fmul(f, fsub(a, l)) == fmul(f, fsub(a, l))) by (nonlinear_arith);
    lemma_reduce_add(f * (a - l), c * f);
    lemma_reduce_sub(a, l - c);
    lemma_reduce_mul(f, a - (l - c));
    assert(f * (a - l) + c * f == f * (a - (l - c))) by (nonlinear_arith);
}

/// `l - (n - q)` is `(l - n) + q`.
pub proof fn lemma_sub_sub(l: int, n: int, q: int)
    ensures
        fsub(l, fsub(n, q)) == fadd(fsub(l, n), q),
{
    reveal(fsub);
    reveal(fadd);
    lemma_reduce_sub(l, n - q);
    lemma_reduce_add(l - n, q);
}

/// Multiplication can be bracketed either way.
pub proof fn lemma_fmul_associates(a: int, b: int, c: int)
    ensures
        fmul(fmul(a, b), c) == fmul(a, fmul(b, c)),
{
    reveal(fmul);
    lemma_reduce_mul(a * b, c);
    lemma_reduce_mul(a, b * c);
    assert((a * b) * c == a * (b * c)) by (nonlinear_arith);
}

/// The one of the field is neutral in products of representatives.
pub proof fn lemma_fmul_one(a: int)
    ensures
        fmul(a, 1) == reduce(a),
        fmul(1, a) == reduce(a),
{
    reveal(fmul);
    assert(a * 1 == a) by (nonlinear_arith);
    assert(1 * a == a) by (nonlinear_arith);
}

/// Every power is a representative.
pub proof fn lemma_fpow_canonical(x: int, e: nat)
    ensures
        is_canonical(fpow(x, e)),
{
    reveal(fmul);
    if e == 0 {
        lemma_reduce_canonical(1);
    } else {
        lemma_reduce_canonical(x * fpow(x, (e - 1) as nat));
    }
}

/// A power of a square is the power with twice the exponent.
pub proof fn lemma_fpow_square(x: int, e: nat)
    ensures
        fpow(fmul(x, x), e) == fpow(x, 2 * e),
    decreases e,
{
    if e > 0 {
        let rest = (e - 1) as nat;
        lemma_fpow_square(x, rest);
        // x^(2e) = x * (x * x^(2e - 2))
        assert(fpow(x, 2 * e) == fmul(x, fpow(x, (2 * e - 1) as nat)));
        assert(fpow(x, (2 * e - 1) as nat) == fmul(x, fpow(x, (2 * rest) as nat)));
        lemma_fmul_associates(x, x, fpow(x, (2 * rest) as nat));
    }
}

/// Every power of one is one.
pub proof fn lemma_fpow_of_one(e: nat)
    ensures
        fpow(1, e) == 1,
    decreases e,
{
    lemma_reduce_canonical(1);
    if e > 0 {
        lemma_fpow_of_one((e - 1) as nat);
        lemma_fmul_one(1);
    }
}

/// A power of a product is the product of the powers.
pub proof fn lemma_fpow_product(x: int, y: int, e: nat)
    ensures
        fpow(fmul(x, y), e) == fmul(fpow(x, e), fpow(y, e)),
    decreases e,
{
    if e == 0 {
        lemma_reduce_canonical(1);
        lemma_fmul_one(1);
    } else {
        let rest = (e - 1) as nat;
        lemma_fpow_product(x, y, rest);
        let px = fpow(x, rest);
        let py = fpow(y, rest);
        // (x * y) * (px * py) = (x * px) * (y * py)
        lemma_fmul_associates(x, y, fmul(px, py));
        lemma_fmul_associates(y, px, py);
        lemma_fmul_commutes(y, px);
        lemma_fmul_associates(px, y, py);
        lemma_fmul_associates(x, px, fmul(y, py));
    }
}

/// A power of a power is the power with the product of the exponents.
pub proof fn lemma_fpow_fpow(x: int, a: nat, b: nat)
    ensures
        fpow(fpow(x, a), b) == fpow(x, a * b),
    decreases b,
{
    if b == 0 {
        assert(a * 0 == 0) by (nonlinear_arith);
    } else {
        let rest = (b - 1) as nat;
        lemma_fpow_fpow(x, a, rest);
        lemma_fpow_add(x, a, a * rest);
        assert(a + a * rest == a * b) by (nonlinear_arith)
            requires
                rest == b - 1,
        ;
    }
}

/// The power of `x` that is the inverse of `x` wherever `x` has one.
pub open spec fn finv(x: int) -> int {
    fpow(x, (modulus() - 2) as nat)
}

/// Whether `x` times `finv(x)` is one.
pub open spec fn invertible(x: int) -> bool {
    fmul(x, finv(x)) == 1
}

/// Zero has no inverse.
pub proof fn lemma_zero_not_invertible()
    ensures
        !invertible(0),
{
    reveal(fmul);
    assert(0 * finv(0) == 0) by (nonlinear_arith);
    lemma_reduce_canonical(0);
}

impl Felt {
    /// The element that `n` represents.
    pub fn new(n: u64) -> (r: Felt)
        ensures
            r@ == reduce(n as int),
    {
        let r = Felt { value: n % ORDER };
        proof {
            lemma_reduce_canonical(n as int);
        }
        r
    }

    /// The additive identity.
    pub fn zero() -> (r: Felt)
        ensures
            r@ == 0,
    {
        let r = Felt { value: 0 };
        proof {
            lemma_reduce_canonical(0);
        }
        r
    }

    /// The multiplicative identity.
    pub fn one() -> (r: Felt)
        ensures
            r@ == 1,
    {
        let r = Felt { value: 1 };
        proof {
            lemma_reduce_canonical(1);
        }
        r
    }

    /// The element that `n` represents.
    pub fn from_canonical_u64(n: u64) -> (r: Felt)
        ensures
            r@ == reduce(n as int),
    {
        Felt::new(n)
    }

    /// The element that `n` represents.
    pub fn from_canonical_usize(n: usize) -> (r: Felt)
        ensures
            r@ == reduce(n as int),
    {
        Felt::new(n as u64)
    }

    /// The least non-negative representative.
    pub fn to_canonical_u64(self) -> (r: u64)
        ensures
            r as int == self@,
    {
        self.value % ORDER
    }

    /// Whether two elements are the same element of the field.
    pub fn equals(self, rhs: Felt) -> (r: bool)
        ensures
            r == (self@ == rhs@),
    {
        self.value % ORDER == rhs.value % ORDER
    }

    pub fn is_zero(self) -> (r: bool)
        ensures
            r == (self@ == 0),
    {
        self.value % ORDER == 0
    }

    pub fn is_one(self) -> (r: bool)
        ensures
            r == (self@ == 1),
    {
        self.value % ORDER == 1
    }

    pub fn add(self, rhs: Felt) -> (r: Felt)
        ensures
            r@ == fadd(self@, rhs@),
    {
        proof {
            reveal(fadd);
        }
        let a: u128 = self.value as u128;
        let b: u128 = rhs.value as u128;
        let sum: u128 = a + b;
        let r = Felt { value: (sum % (ORDER as u128)) as u64 };
        proof {
            lemma_reduce_add(self.value as int, rhs.value as int);
            lemma_reduce_canonical(self.value as int + rhs.value as int);
        }
        r
    }

    pub fn sub(self, rhs: Felt) -> (r: Felt)
        ensures
            r@ == fsub(self@, rhs@),
    {
        proof {
            reveal(fsub);
        }
        let a: u128 = (self.value % ORDER) as u128;
        let b: u128 = (rhs.value % ORDER) as u128;
        let lifted: u128 = a + (ORDER as u128) - b;
        let r = Felt { value: (lifted % (ORDER as u128)) as u64 };
        proof {
            let d = self@ - rhs@;
            lemma_reduce_canonical(d + modulus());
            assert(reduce(d + modulus()) == reduce(d)) by {
                vstd::arithmetic::div_mod::lemma_mod_add_multiples_vanish(d, modulus());
            }
        }
        r
    }

    pub fn mul(self, rhs: Felt) -> (r: Felt)
        ensures
            r@ == fmul(self@, rhs@),
    {
        proof {
            reveal(fmul);
        }
        let a: u128 = self.value as u128;
        let b: u128 = rhs.value as u128;
        assert(a * b <= 0xFFFF_FFFF_FFFF_FFFF * 0xFFFF_FFFF_FFFF_FFFF) by (nonlinear_arith)
            requires
                a <= 0xFFFF_FFFF_FFFF_FFFF,
                b <= 0xFFFF_FFFF_FFFF_FFFF,
        ;
        let product: u128 = a * b;
        let r = Felt { value: (product % (ORDER as u128)) as u64 };
        proof {
            lemma_reduce_mul(self.value as int, rhs.value as int);
            lemma_reduce_canonical(self.value as int * rhs.value as int);
        }
        r
    }

    pub fn neg(self) -> (r: Felt)
        ensures
            r@ == fneg(self@),
    {
        proof {
            reveal(fneg);
            reveal(fsub);
        }
        Felt::zero().sub(self)
    }

    pub fn square(self) -> (r: Felt)
        ensures
            r@ == fmul(self@, self@),
    {
        self.mul(self)
    }

    /// A generator of the subgroup of order `2^n_log`.
    pub fn primitive_root_of_unity(n_log: usize) -> (r: Felt)
        requires
            n_log <= TWO_ADICITY,
        ensures
            r@ == fpow(POWER_OF_TWO_GENERATOR as int, pow2((TWO_ADICITY - n_log) as nat)),
    {
        let base = Felt::new(POWER_OF_TWO_GENERATOR);
        proof {
            lemma_reduce_canonical(POWER_OF_TWO_GENERATOR as int);
        }
        base.exp_power_of_2(TWO_ADICITY - n_log)
    }

    /// The shift of the coset on which low-degree extensions are evaluated.
    pub fn coset_shift() -> (r: Felt)
        ensures
            r@ == MULTIPLICATIVE_GROUP_GENERATOR as int,
    {
        let r = Felt::new(MULTIPLICATIVE_GROUP_GENERATOR);
        proof {
            lemma_reduce_canonical(MULTIPLICATIVE_GROUP_GENERATOR as int);
        }
        r
    }

    /// `self` raised to the power `power`.
    pub fn exp_u64(self, power: u64) -> (r: Felt)
        ensures
            r@ == fpow(self@, power as nat),
    {
        let mut current = self;
        let mut product = Felt::one();
        let mut e = power;
        proof {
            lemma_fpow_canonical(self@, power as nat);
            lemma_fmul_one(fpow(self@, power as nat));
            lemma_reduce_canonical(fpow(self@, power as nat));
        }
        while e > 0
            invariant
                fmul(product@, fpow(current@, e as nat)) == fpow(self@, power as nat),
            decreases e,
        {
            let ghost half = (e / 2) as nat;
            proof {
                lemma_fpow_square(current@, half);
                if e % 2 == 1 {
                    assert(fpow(current@, e as nat) == fmul(
                        current@,
                        fpow(current@, (2 * half) as nat),
                    ));
                    lemma_fmul_associates(product@, current@, fpow(current@, (2 * half) as nat));
                }
            }
            if e % 2 == 1 {
                product = product.mul(current);
            }
            current = current.square();
            e = e / 2;
        }
        proof {
            lemma_view_canonical(product);
            lemma_fmul_one(product@);
            lemma_reduce_canonical(1);
        }
        product
    }

    /// The inverse, if the power that should be it is.
    pub fn try_inverse(self) -> (r: Option<Felt>)
        ensures
            r is Some <==> invertible(self@),
            r matches Some(inverse) ==> inverse@ == finv(self@),
    {
        let candidate = self.exp_u64(ORDER - 2);
        if self.mul(candidate).is_one() {
            Some(candidate)
        } else {
            None
        }
    }

    /// `self` raised to the power `2^power_log`, by repeated squaring.
    pub fn exp_power_of_2(self, power_log: usize) -> (r: Felt)
        ensures
            r@ == fpow(self@, pow2(power_log as nat)),
    {
        proof {
            reveal(fmul);
        }
        let mut res = self;
        let mut i: usize = 0;
        proof {
            vstd::arithmetic::power2::lemma2_to64();
            lemma_view_canonical(self);
            lemma_reduce_canonical(1);
            assert(fpow(self@, 0) == 1);
            assert(fpow(self@, 1) == fmul(self@, fpow(self@, 0)));
            assert(self@ * 1 == self@) by (nonlinear_arith);
        }
        while i < power_log
            invariant
                i <= power_log,
                res@ == fpow(self@, pow2(i as nat)),
            decreases power_log - i,
        {
            proof {
                lemma_fpow_add(self@, pow2(i as nat), pow2(i as nat));
                lemma_pow2_unfold((i + 1) as nat);
            }
            res = res.square();
            i = i + 1;
        }
        res
    }
}

} // verus!
