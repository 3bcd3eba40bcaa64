//! Polynomials over the field, in coefficient form: the coefficient of `x^i`
//! stands at index `i`.

use crate::field::{
    fadd, felts, fmul, fpow, lemma_fmul_commutes, lemma_reduce_add, lemma_reduce_canonical,
    lemma_reduce_mul, reduce, Felt,
};
use vstd::prelude::*;

verus! {

/// The value of the polynomial with coefficients `coeffs` at `x`.
pub open spec fn poly_eval(coeffs: Seq<int>, x: int) -> int
    decreases coeffs.len(),
{
    if coeffs.len() == 0 {
        0
    } else {
        fadd(coeffs[0], fmul(x, poly_eval(coeffs.drop_first(), x)))
    }
}

/// The number of coefficients up to the last that is not zero; 0 if all are
/// zero.
pub open spec fn degree_plus_one(coeffs: Seq<int>) -> nat
    decreases coeffs.len(),
{
    if coeffs.len() == 0 {
        0
    } else if coeffs.last() != 0 {
        coeffs.len()
    } else {
        degree_plus_one(coeffs.drop_last())
    }
}

/// `n` zeros.
pub open spec fn zeros(n: nat) -> Seq<int> {
    Seq::new(n, |i: int| 0int)
}

/// The number of chunks of `size` coefficients that `len` coefficients make,
/// the last of which may be shorter.
pub open spec fn chunk_count(len: nat, size: nat) -> nat {
    if size == 0 {
        0
    } else {
        ((len + size - 1) / (size as int)) as nat
    }
}

/// The chunk with index `j`.
pub open spec fn chunk(coeffs: Seq<int>, size: nat, j: int) -> Seq<int> {
    let start = j * size;
    let end = if start + size <= coeffs.len() {
        start + size
    } else {
        coeffs.len() as int
    };
    coeffs.subrange(start, end)
}

/// The coefficients cut into chunks of `size`.
pub open spec fn chunks_of(coeffs: Seq<int>, size: nat) -> Seq<Seq<int>> {
    Seq::new(chunk_count(coeffs.len(), size), |j: int| chunk(coeffs, size, j))
}

/// The sum over the chunks of `chunk_j(x) * x^(j * size)`.
pub open spec fn reassemble(chunks: Seq<Seq<int>>, size: nat, x: int) -> int
    decreases chunks.len(),
{
    if chunks.len() == 0 {
        0
    } else {
        fadd(
            reassemble(chunks.drop_last(), size, x),
            fmul(poly_eval(chunks.last(), x), fpow(x, ((chunks.len() - 1) * size) as nat)),
        )
    }
}

/// The value of a polynomial is a representative.
pub proof fn lemma_poly_eval_canonical(coeffs: Seq<int>, x: int)
    ensures
        reduce(poly_eval(coeffs, x)) == poly_eval(coeffs, x),
{
    reveal(fadd);
    if coeffs.len() == 0 {
        lemma_reduce_canonical(0);
    } else {
        lemma_reduce_canonical(coeffs[0] + fmul(x, poly_eval(coeffs.drop_first(), x)));
    }
}

/// The value of a polynomial whose coefficients are two runs, one after the
/// other: the value of the first, plus `x` to the length of the first times
/// the value of the second.
pub proof fn lemma_poly_eval_concat(a: Seq<int>, b: Seq<int>, x: int)
    ensures
        poly_eval(a + b, x) == fadd(poly_eval(a, x), fmul(fpow(x, a.len()), poly_eval(b, x))),
    decreases a.len(),
{
    reveal(fadd);
    reveal(fmul);
    let eb = poly_eval(b, x);
    if a.len() == 0 {
        assert(a + b =~= b);
        lemma_poly_eval_canonical(b, x);
        lemma_reduce_canonical(1);
        assert(1 * eb == eb) by (nonlinear_arith);
        lemma_reduce_add(0, 1 * eb);
    } else {
        let rest = a.drop_first();
        assert((a + b).drop_first() =~= rest + b);
        lemma_poly_eval_concat(rest, b, x);
        let er = poly_eval(rest, x);
        let p = fpow(x, rest.len());
        // Left: a0 + x * (er + p * eb). Right: (a0 + x * er) + (x * p) * eb.
        lemma_reduce_mul(p, eb);
        lemma_reduce_add(er, p * eb);
        lemma_reduce_mul(x, er + p * eb);
        lemma_reduce_add(a[0], x * (er + p * eb));
        lemma_reduce_mul(x, er);
        lemma_reduce_add(a[0], x * er);
        lemma_reduce_mul(x * p, eb);
        lemma_reduce_add(a[0] + x * er, (x * p) * eb);
        assert(a[0] + x * (er + p * eb) == (a[0] + x * er) + (x * p) * eb) by (nonlinear_arith);
        assert(fpow(x, a.len()) == fmul(x, p));
    }
}

/// Cutting a polynomial into chunks of `size` and summing
/// `chunk_j(x) * x^(j * size)` over the chunks gives the value of the
/// polynomial at `x`.
pub proof fn lemma_chunk_reassembly(coeffs: Seq<int>, size: nat, x: int)
    requires
        size > 0,
    ensures
        reassemble(chunks_of(coeffs, size), size, x) == poly_eval(coeffs, x),
    decreases coeffs.len(),
{
    let chunks = chunks_of(coeffs, size);
    let count = chunk_count(coeffs.len(), size);
    if coeffs.len() == 0 {
        assert(count == 0) by {
            lemma_chunk_count(0, size);
        }
    } else {
        lemma_chunk_count(coeffs.len(), size);
        let start = (count - 1) * size;
        let head = coeffs.subrange(0, start);
        let tail = coeffs.subrange(start, coeffs.len() as int);
        assert(head + tail =~= coeffs);
        lemma_chunk_count(head.len(), size);
        assert(chunk_count(head.len(), size) == count - 1) by {
            lemma_chunk_count_exact((count - 1) as nat, size);
        }
        assert((count - 1) * size + size == count * size) by (nonlinear_arith);
        assert(chunks.last() == chunk(coeffs, size, count - 1));
        assert(chunks.last() =~= tail);
        assert(chunks.drop_last() =~= chunks_of(head, size)) by {
            assert forall|j: int| 0 <= j < count - 1 implies chunks[j] == chunks_of(
                head,
                size,
            )[j] by {
                lemma_chunk_bounds(j, count - 1, size);
                assert(chunk(coeffs, size, j) =~= chunk(head, size, j));
            }
        }
        lemma_chunk_reassembly(head, size, x);
        lemma_poly_eval_concat(head, tail, x);
        lemma_fmul_commutes(poly_eval(tail, x), fpow(x, start as nat));
    }
}

/// Zeros at the end of the coefficients do not change the value of a
/// polynomial.
pub proof fn lemma_poly_eval_padded(coeffs: Seq<int>, n: nat, x: int)
    ensures
        poly_eval(coeffs + zeros(n), x) == poly_eval(coeffs, x),
{
    reveal(fadd);
    reveal(fmul);
    lemma_poly_eval_concat(coeffs, zeros(n), x);
    lemma_poly_eval_zeros(n, x);
    lemma_poly_eval_canonical(coeffs, x);
    assert(fpow(x, coeffs.len()) * 0 == 0) by (nonlinear_arith);
    lemma_reduce_canonical(0);
}

/// The polynomial whose coefficients are all zero has the value zero.
pub proof fn lemma_poly_eval_zeros(n: nat, x: int)
    ensures
        poly_eval(zeros(n), x) == 0,
    decreases n,
{
    reveal(fadd);
    reveal(fmul);
    if n > 0 {
        assert(zeros(n).drop_first() =~= zeros((n - 1) as nat));
        lemma_poly_eval_zeros((n - 1) as nat, x);
        assert(x * 0 == 0) by (nonlinear_arith);
        lemma_reduce_canonical(0);
    }
}

/// Removing the zeros at the end of the coefficients does not change the
/// value of a polynomial.
pub proof fn lemma_poly_eval_trimmed(coeffs: Seq<int>, x: int)
    ensures
        poly_eval(coeffs.take(degree_plus_one(coeffs) as int), x) == poly_eval(coeffs, x),
    decreases coeffs.len(),
{
    lemma_degree_bound(coeffs);
    if coeffs.len() == 0 || coeffs.last() != 0 {
        assert(coeffs.take(coeffs.len() as int) =~= coeffs);
    } else {
        let shorter = coeffs.drop_last();
        lemma_degree_bound(shorter);
        lemma_poly_eval_trimmed(shorter, x);
        assert(shorter.take(degree_plus_one(shorter) as int) =~= coeffs.take(
            degree_plus_one(coeffs) as int,
        ));
        assert(shorter + zeros(1) =~= coeffs);
        lemma_poly_eval_padded(shorter, 1, x);
    }
}

/// For `j` below `count`, the chunk with index `j` ends at or before
/// `count * size`.
proof fn lemma_chunk_bounds(j: int, count: int, size: nat)
    requires
        0 <= j < count,
    ensures
        0 <= j * size,
        j * size + size <= count * size,
{
    assert(0 <= j * size) by (nonlinear_arith)
        requires
            0 <= j,
            0 <= size,
    ;
    assert(j * size + size <= count * size) by (nonlinear_arith)
        requires
            j + 1 <= count,
            0 <= size,
    ;
}

/// `count` full chunks make `count` chunks.
proof fn lemma_chunk_count_exact(count: nat, size: nat)
    requires
        size > 0,
    ensures
        chunk_count(count * size, size) == count,
{
    vstd::arithmetic::div_mod::lemma_fundamental_div_mod_converse(
        (count * size + size - 1) as int,
        size as int,
        count as int,
        (size - 1) as int,
    );
    assert(size * count == count * size) by (nonlinear_arith);
}

/// The chunks cover the coefficients: all but the last are full, and the last
/// is not empty.
pub proof fn lemma_chunk_count(len: nat, size: nat)
    requires
        size > 0,
    ensures
        len == 0 ==> chunk_count(len, size) == 0,
        len > 0 ==> chunk_count(len, size) > 0,
        len > 0 ==> (chunk_count(len, size) - 1) * size < len <= chunk_count(len, size) * size,
{
    let total = (len + size - 1) as int;
    let d = size as int;
    vstd::arithmetic::div_mod::lemma_fundamental_div_mod(total, d);
    vstd::arithmetic::div_mod::lemma_mod_bound(total, d);
    let q = total / d;
    assert(d * q == q * d) by (nonlinear_arith);
    if len == 0 {
        vstd::arithmetic::div_mod::lemma_small_mod((size - 1) as nat, size);
        vstd::arithmetic::div_mod::lemma_fundamental_div_mod_converse(total, d, 0, total);
    } else {
        if q <= 0 {
            assert(q * d <= 0) by (nonlinear_arith)
                requires
                    q <= 0,
                    d > 0,
            ;
        }
        assert((q - 1) * d == q * d - d) by (nonlinear_arith);
    }
}

/// A polynomial in coefficient form.
#[derive(Clone, Debug)]
pub struct PolynomialCoeffs {
    pub coeffs: Vec<Felt>,
}

impl View for PolynomialCoeffs {
    type V = Seq<int>;

    open spec fn view(&self) -> Seq<int> {
        felts(self.coeffs@)
    }
}

/// Why a polynomial could not be padded.
#[derive(Clone, Copy, Debug, PartialEq, Eq)]
pub enum PadError {
    /// The polynomial has more coefficients than the length asked for.
    TooLong,
}

impl PolynomialCoeffs {
    pub fn new(coeffs: Vec<Felt>) -> (r: PolynomialCoeffs)
        ensures
            r.coeffs == coeffs,
    {
        PolynomialCoeffs { coeffs }
    }

    /// A copy of the polynomial.
    pub fn clone_poly(&self) -> (r: PolynomialCoeffs)
        ensures
            r@ == self@,
            r.coeffs@ == self.coeffs@,
    {
        let mut coeffs: Vec<Felt> = Vec::new();
        let mut i: usize = 0;
        while i < self.coeffs.len()
            invariant
                i <= self.coeffs@.len(),
                coeffs@ == self.coeffs@.take(i as int),
            decreases self.coeffs@.len() - i,
        {
            coeffs.push(self.coeffs[i]);
            proof {
                assert(coeffs@ =~= self.coeffs@.take(i + 1));
            }
            i = i + 1;
        }
        proof {
            assert(self.coeffs@.take(self.coeffs@.len() as int) =~= self.coeffs@);
        }
        PolynomialCoeffs { coeffs }
    }

    /// The number of coefficients, zeros at the end counted.
    pub fn len(&self) -> (r: usize)
        ensures
            r == self@.len(),
    {
        self.coeffs.len()
    }

    /// The number of coefficients up to the last that is not zero.
    pub fn degree_plus_one(&self) -> (r: usize)
        ensures
            r == degree_plus_one(self@),
    {
        let mut n: usize = self.coeffs.len();
        proof {
            assert(self@.take(n as int) =~= self@);
        }
        while n > 0
            invariant
                n <= self.coeffs.len(),
                degree_plus_one(self@) == degree_plus_one(self@.take(n as int)),
            decreases n,
        {
            if !self.coeffs[n - 1].is_zero() {
                return n;
            }
            proof {
                assert(self@.take(n as int).drop_last() =~= self@.take(n - 1));
            }
            n = n - 1;
        }
        n
    }

    /// Removes the zeros at the end.
    pub fn trim(&mut self)
        ensures
            final(self)@ == old(self)@.take(degree_plus_one(old(self)@) as int),
    {
        let n = self.degree_plus_one();
        proof {
            lemma_degree_bound(self@);
        }
        self.coeffs.truncate(n);
        proof {
            assert(self@ =~= old(self)@.take(n as int));
        }
    }

    /// Appends zeros up to `new_len` coefficients. A polynomial that is
    /// longer than `new_len` is left as it is, and an error is returned.
    pub fn pad(&mut self, new_len: usize) -> (r: Result<(), PadError>)
        ensures
            r is Ok <==> old(self)@.len() <= new_len,
            r is Ok ==> final(self)@ == old(self)@ + zeros((new_len - old(self)@.len()) as nat),
            r is Err ==> final(self)@ == old(self)@,
    {
        if new_len < self.coeffs.len() {
            return Err(PadError::TooLong);
        }
        let mut i: usize = self.coeffs.len();
        proof {
            assert(self@ =~= old(self)@ + zeros(0));
        }
        while i < new_len
            invariant
                old(self)@.len() <= i <= new_len,
                self.coeffs@.len() == i,
                self@ == old(self)@ + zeros((i - old(self)@.len()) as nat),
            decreases new_len - i,
        {
            let ghost before = self@;
            self.coeffs.push(Felt::zero());
            proof {
                assert(self@ =~= before.push(0));
                assert(before.push(0) =~= old(self)@ + zeros((i + 1 - old(self)@.len()) as nat));
            }
            i = i + 1;
        }
        Ok(())
    }

    /// The polynomial cut into chunks of `chunk_size` coefficients, the last
    /// of which may be shorter.
    pub fn chunks(&self, chunk_size: usize) -> (r: Vec<PolynomialCoeffs>)
        requires
            chunk_size > 0,
        ensures
            chunk_views(r@) == chunks_of(self@, chunk_size as nat),
    {
        let len = self.coeffs.len();
        let mut out: Vec<PolynomialCoeffs> = Vec::new();
        let mut start: usize = 0;
        proof {
            lemma_chunk_count(len as nat, chunk_size as nat);
            assert(0 * chunk_size == 0) by (nonlinear_arith);
        }
        while start < len
            invariant
                chunk_size > 0,
                len == self.coeffs@.len(),
                start < len ==> start == out@.len() * chunk_size,
                start >= len ==> start == len && out@.len() == chunk_count(
                    len as nat,
                    chunk_size as nat,
                ),
                forall|j: int|
                    0 <= j < out@.len() ==> (#[trigger] out@[j])@ == chunk(
                        self@,
                        chunk_size as nat,
                        j,
                    ),
            decreases len - start,
        {
            let end: usize = if len - start < chunk_size {
                len
            } else {
                start + chunk_size
            };
            let mut piece: Vec<Felt> = Vec::new();
            let mut i: usize = start;
            while i < end
                invariant
                    start <= i <= end <= len,
                    len == self.coeffs@.len(),
                    piece@.len() == i - start,
                    forall|k: int| 0 <= k < piece@.len() ==> piece@[k] == self.coeffs@[start + k],
                decreases end - i,
            {
                piece.push(self.coeffs[i]);
                i = i + 1;
            }
            let ghost j = out@.len() as int;
            proof {
                assert(felts(piece@) =~= chunk(self@, chunk_size as nat, j));
                lemma_chunk_index(len as nat, chunk_size as nat, j);
            }
            out.push(PolynomialCoeffs { coeffs: piece });
            proof {
                if end >= len {
                    lemma_chunk_last(len as nat, chunk_size as nat, j);
                } else {
                    assert(end == (j + 1) * chunk_size) by (nonlinear_arith)
                        requires
                            end == start + chunk_size,
                            start == j * chunk_size,
                    ;
                }
            }
            start = end;
        }
        proof {
            assert(chunk_views(out@) =~= chunks_of(self@, chunk_size as nat));
        }
        out
    }

    /// The value of the polynomial at `x`.
    pub fn eval(&self, x: Felt) -> (r: Felt)
        ensures
            r@ == poly_eval(self@, x@),
    {
        let mut acc = Felt::zero();
        let mut i: usize = self.coeffs.len();
        proof {
            assert(self@.skip(i as int) =~= Seq::<int>::empty());
        }
        while i > 0
            invariant
                i <= self.coeffs.len(),
                acc@ == poly_eval(self@.skip(i as int), x@),
            decreases i,
        {
            i = i - 1;
            proof {
                assert(self@.skip(i as int).drop_first() =~= self@.skip(i + 1));
                lemma_fmul_commutes(acc@, x@);
                reveal(fadd);
            }
            acc = acc.mul(x).add(self.coeffs[i]);
        }
        proof {
            assert(self@.skip(0) =~= self@);
        }
        acc
    }
}

/// The coefficients of each polynomial.
pub open spec fn chunk_views(polys: Seq<PolynomialCoeffs>) -> Seq<Seq<int>> {
    Seq::new(polys.len(), |j: int| polys[j]@)
}

/// No polynomial has more coefficients up to its last one that is not zero
/// than it has coefficients.
pub proof fn lemma_degree_bound(coeffs: Seq<int>)
    ensures
        degree_plus_one(coeffs) <= coeffs.len(),
    decreases coeffs.len(),
{
    if coeffs.len() > 0 && coeffs.last() == 0 {
        lemma_degree_bound(coeffs.drop_last());
    }
}

/// A chunk that starts before the end of the coefficients is one of the
/// chunks.
proof fn lemma_chunk_index(len: nat, size: nat, j: int)
    requires
        size > 0,
        0 <= j,
        j * size < len,
    ensures
        j < chunk_count(len, size),
{
    lemma_chunk_count(len, size);
    let count = chunk_count(len, size) as int;
    if j >= count {
        assert(j * size >= count * size) by (nonlinear_arith)
            requires
                j >= count,
                size >= 0,
        ;
    }
}

/// A chunk that reaches the end of the coefficients is the last.
proof fn lemma_chunk_last(len: nat, size: nat, j: int)
    requires
        size > 0,
        0 <= j,
        j * size < len <= j * size + size,
    ensures
        j + 1 == chunk_count(len, size),
{
    lemma_chunk_count(len, size);
    lemma_chunk_index(len, size, j);
    let count = chunk_count(len, size) as int;
    if j + 1 < count {
        assert((count - 1) * size >= (j + 1) * size) by (nonlinear_arith)
            requires
                count - 1 >= j + 1,
                size >= 0,
        ;
        assert((j + 1) * size == j * size + size) by (nonlinear_arith);
    }
}

} // verus!
