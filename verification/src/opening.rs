//! The opening set of a proof: the values of the trace and quotient
//! polynomials at the opening point `zeta` and at the point of the next row,
//! `g * zeta`.

use crate::extension::{
    ext_exp_power_of_2, ext_from_base, ext_mul, ext_one, ext_poly_eval, ExtValue,
    QuadraticExtension,
};
use crate::domain::{lemma_rows_are_roots, root_of_unity};
use crate::field::{
    fadd, fmul, fpow, is_canonical, lemma_fmul_one, lemma_fpow_add, lemma_fpow_canonical,
    lemma_reduce_canonical, Felt, TWO_ADICITY,
};
use crate::polynomial::{chunk_views, PolynomialCoeffs};
use vstd::arithmetic::power2::pow2;
use vstd::prelude::*;

verus! {

/// The elements of the extension, over representatives.
pub open spec fn ext_views(values: Seq<QuadraticExtension>) -> Seq<ExtValue> {
    Seq::new(values.len(), |j: int| values[j]@)
}

/// The value of each polynomial at `z`.
pub open spec fn evals_at(polys: Seq<Seq<int>>, z: ExtValue) -> Seq<ExtValue> {
    Seq::new(polys.len(), |j: int| ext_poly_eval(polys[j], z))
}

/// The value of each polynomial at `z`.
pub fn eval_commitment(z: QuadraticExtension, polys: &Vec<PolynomialCoeffs>) -> (r: Vec<
    QuadraticExtension,
>)
    ensures
        ext_views(r@) == evals_at(chunk_views(polys@), z@),
{
    let mut out: Vec<QuadraticExtension> = Vec::new();
    let mut j: usize = 0;
    while j < polys.len()
        invariant
            j <= polys@.len(),
            out@.len() == j,
            forall|p: int|
                0 <= p < j ==> (#[trigger] out@[p])@ == ext_poly_eval(polys@[p]@, z@),
        decreases polys@.len() - j,
    {
        out.push(polys[j].eval_extension(z));
        j = j + 1;
    }
    proof {
        assert(ext_views(out@) =~= evals_at(chunk_views(polys@), z@));
    }
    out
}

/// The values that a proof opens.
#[derive(Clone, Debug)]
pub struct StarkOpeningSet {
    /// The trace polynomials at `zeta`.
    pub local_values: Vec<QuadraticExtension>,
    /// The trace polynomials at `g * zeta`.
    pub next_values: Vec<QuadraticExtension>,
    /// The chunks of the quotient polynomials at `zeta`.
    pub quotient_polys: Vec<QuadraticExtension>,
}

impl StarkOpeningSet {
    /// The opening set at `zeta`, where `g` generates the rows of the trace.
    pub fn new(
        zeta: QuadraticExtension,
        g: Felt,
        trace_polys: &Vec<PolynomialCoeffs>,
        quotient_polys: &Vec<PolynomialCoeffs>,
    ) -> (r: StarkOpeningSet)
        ensures
            ext_views(r.local_values@) == evals_at(chunk_views(trace_polys@), zeta@),
            ext_views(r.next_values@) == evals_at(
                chunk_views(trace_polys@),
                ext_mul(zeta@, ext_from_base(g@)),
            ),
            ext_views(r.quotient_polys@) == evals_at(chunk_views(quotient_polys@), zeta@),
    {
        let next = zeta.mul(QuadraticExtension::from_base(g));
        StarkOpeningSet {
            local_values: eval_commitment(zeta, trace_polys),
            next_values: eval_commitment(next, trace_polys),
            quotient_polys: eval_commitment(zeta, quotient_polys),
        }
    }
}

/// A proof: the digest of the trace, the opening set, and the proof that the
/// opened values belong to polynomials of low degree. The digest and the
/// low-degree proof are made elsewhere and carried as they are.
#[derive(Debug)]
pub struct StarkProof<C, P> {
    pub trace_cap: C,
    pub openings: StarkOpeningSet,
    pub opening_proof: P,
}

/// Whether `zeta` lies in the subgroup of order `2^degree_bits`, the rows of
/// the trace: whether `zeta` to the power `2^degree_bits` is one.
pub open spec fn in_trace_subgroup(zeta: ExtValue, degree_bits: nat) -> bool {
    ext_exp_power_of_2(zeta, degree_bits) == ext_one()
}

/// An element of the field, squared `k` times in the extension, is its power
/// `2^k` in the field.
pub proof fn lemma_base_exp_power_of_2(x: int, k: nat)
    requires
        is_canonical(x),
    ensures
        ext_exp_power_of_2(ext_from_base(x), k) == ext_from_base(fpow(x, pow2(k))),
    decreases k,
{
    reveal(fmul);
    reveal(fadd);
    if k == 0 {
        vstd::arithmetic::power2::lemma2_to64();
        lemma_fmul_one(x);
        lemma_reduce_canonical(1);
        lemma_reduce_canonical(x);
        assert(fpow(x, 1) == fmul(x, fpow(x, 0)));
    } else {
        let rest = (k - 1) as nat;
        lemma_base_exp_power_of_2(x, rest);
        let root = fpow(x, pow2(rest));
        lemma_fpow_add(x, pow2(rest), pow2(rest));
        vstd::arithmetic::power2::lemma_pow2_unfold(k);
        // (root + 0 X)^2 = root^2 + 7 * 0 + (0 + 0) X
        assert(0 * 0 == 0) by (nonlinear_arith);
        assert(7 * 0 == 0) by (nonlinear_arith);
        assert(root * 0 == 0) by (nonlinear_arith);
        assert(0 * root == 0) by (nonlinear_arith);
        lemma_reduce_canonical(0);
        lemma_reduce_canonical(root * root);
    }
}

/// Every row of the trace is refused as opening point: each power of the
/// generator of a subgroup of order `2^degree_bits` lies in that subgroup.
pub proof fn lemma_rows_are_refused(degree_bits: nat, row: nat)
    requires
        degree_bits <= TWO_ADICITY,
    ensures
        in_trace_subgroup(ext_from_base(fpow(root_of_unity(degree_bits), row)), degree_bits),
{
    let x = fpow(root_of_unity(degree_bits), row);
    lemma_fpow_canonical(root_of_unity(degree_bits), row);
    lemma_base_exp_power_of_2(x, degree_bits);
    lemma_rows_are_roots(degree_bits, row);
}

/// Why a point cannot be opened.
#[derive(Clone, Copy, Debug, PartialEq, Eq)]
pub enum OpeningError {
    /// The point is a row of the trace: opening there would show a cell.
    PointInSubgroup,
}

/// Accepts `zeta` as opening point unless it is a row of the trace. The same
/// then holds of `g * zeta`, since `g` to the power `2^degree_bits` is one.
pub fn check_opening_point(zeta: QuadraticExtension, degree_bits: usize) -> (r: Result<
    (),
    OpeningError,
>)
    ensures
        r is Err <==> in_trace_subgroup(zeta@, degree_bits as nat),
{
    if zeta.exp_power_of_2(degree_bits).is_one() {
        Err(OpeningError::PointInSubgroup)
    } else {
        Ok(())
    }
}

} // verus!
