//! From constraint values to quotient polynomials: the division by the
//! polynomial `Z_H` that vanishes on the rows of the trace, point by point on
//! the extended domain, and the cutting of the quotient into chunks of the
//! degree of the trace.

use crate::constraint_consumer::{absorb, ConstraintConsumer, ConsumerState};
use crate::field::{felts, fmul, is_canonical, lemma_reduce_canonical, lemma_reduce_mul, Felt};
use crate::polynomial::{
    chunk_views, chunks_of, degree_plus_one, lemma_chunk_reassembly, lemma_degree_bound,
    lemma_poly_eval_padded, lemma_poly_eval_trimmed, poly_eval, reassemble, zeros,
    PolynomialCoeffs,
};
use crate::stark::Stark;
use vstd::prelude::*;

verus! {

/// What the constraints need to know of each point of the extended domain.
#[derive(Clone, Debug)]
pub struct DomainTables {
    /// The Lagrange basis polynomial of the first row, at each point.
    pub lagrange_first: Vec<Felt>,
    /// The Lagrange basis polynomial of the last row, at each point.
    pub lagrange_last: Vec<Felt>,
    /// The polynomial that vanishes on the last row only, at each point.
    pub z_last: Vec<Felt>,
    /// The inverse of `Z_H` at each point.
    pub z_h_inverse: Vec<Felt>,
}

/// The tables over representatives.
pub struct DomainValues {
    pub lagrange_first: Seq<int>,
    pub lagrange_last: Seq<int>,
    pub z_last: Seq<int>,
    pub z_h_inverse: Seq<int>,
}

impl DomainValues {
    /// Whether each table has one entry for each of `n` points.
    pub open spec fn fits(self, n: nat) -> bool {
        &&& self.lagrange_first.len() == n
        &&& self.lagrange_last.len() == n
        &&& self.z_last.len() == n
        &&& self.z_h_inverse.len() == n
    }
}

impl View for DomainTables {
    type V = DomainValues;

    open spec fn view(&self) -> DomainValues {
        DomainValues {
            lagrange_first: felts(self.lagrange_first@),
            lagrange_last: felts(self.lagrange_last@),
            z_last: felts(self.z_last@),
            z_h_inverse: felts(self.z_h_inverse@),
        }
    }
}

impl DomainTables {
    /// Whether each table has one entry for each of `n` points.
    pub open spec fn fits(&self, n: nat) -> bool {
        self@.fits(n)
    }

    /// Whether each table has one entry for each of `n` points.
    pub fn has_len(&self, n: usize) -> (r: bool)
        ensures
            r == self.fits(n as nat),
    {
        self.lagrange_first.len() == n && self.lagrange_last.len() == n && self.z_last.len() == n
            && self.z_h_inverse.len() == n
    }
}

/// The rows of a table, over representatives.
pub open spec fn rows_view(rows: Seq<Vec<Felt>>) -> Seq<Seq<int>> {
    Seq::new(rows.len(), |i: int| felts(rows[i]@))
}

/// Whether every row has `width` cells.
pub open spec fn rows_have_width(rows: Seq<Vec<Felt>>, width: nat) -> bool {
    forall|i: int| 0 <= i < rows.len() ==> (#[trigger] rows[i])@.len() == width
}

/// The state of a fresh consumer for the point with index `i`.
pub open spec fn point_state(alpha: int, domain: DomainValues, i: int) -> ConsumerState {
    ConsumerState {
        alpha,
        acc: 0,
        z_last: domain.z_last[i],
        lagrange_basis_first: domain.lagrange_first[i],
        lagrange_basis_last: domain.lagrange_last[i],
    }
}

/// The constraints of the point with index `i`, folded with weight `alpha`.
/// The row after the last point is the first: the domain is cyclic.
pub open spec fn constraint_value<S: Stark>(
    stark: &S,
    rows: Seq<Seq<int>>,
    public_inputs: Seq<int>,
    alpha: int,
    domain: DomainValues,
    i: int,
) -> int {
    let next = (i + 1) % (rows.len() as int);
    absorb(
        0,
        alpha,
        stark.constraint_terms(rows[i], rows[next], public_inputs, point_state(alpha, domain, i)),
    )
}

/// The quotient at the point with index `i`: the folded constraints, with
/// all public inputs zero, over `Z_H`.
pub open spec fn quotient_value<S: Stark>(
    stark: &S,
    rows: Seq<Seq<int>>,
    alpha: int,
    domain: DomainValues,
    i: int,
) -> int {
    fmul(
        constraint_value(stark, rows, zeros(stark.public_inputs()), alpha, domain, i),
        domain.z_h_inverse[i],
    )
}

/// For each weight in `alphas`, the quotient at every point of the extended
/// domain.
pub open spec fn quotient_values<S: Stark>(
    stark: &S,
    rows: Seq<Seq<int>>,
    alphas: Seq<int>,
    domain: DomainValues,
) -> Seq<Seq<int>> {
    Seq::new(
        alphas.len(),
        |k: int| Seq::new(rows.len(), |i: int| quotient_value(stark, rows, alphas[k], domain, i)),
    )
}

/// Dividing a constraint value by `Z_H` and multiplying by `Z_H` again gives
/// the constraint value back, at every point where the inverse is one.
pub proof fn lemma_quotient_round_trip(value: int, z_h: int, z_h_inverse: int)
    requires
        is_canonical(value),
        fmul(z_h, z_h_inverse) == 1,
    ensures
        fmul(fmul(value, z_h_inverse), z_h) == value,
{
    reveal(fmul);
    lemma_reduce_mul(value * z_h_inverse, z_h);
    assert((value * z_h_inverse) * z_h == value * (z_h * z_h_inverse)) by (nonlinear_arith);
    lemma_reduce_mul(value, z_h * z_h_inverse);
    assert(value * 1 == value) by (nonlinear_arith);
    lemma_reduce_canonical(value);
}

/// At every point where the table holds the inverse of `Z_H`, the quotient
/// times `Z_H` is the folded constraints of that point: no remainder is left.
pub proof fn lemma_quotient_values_round_trip<S: Stark>(
    stark: &S,
    rows: Seq<Seq<int>>,
    alphas: Seq<int>,
    domain: DomainValues,
    z_h: Seq<int>,
    k: int,
    i: int,
)
    requires
        0 <= k < alphas.len(),
        0 <= i < rows.len(),
        fmul(z_h[i], domain.z_h_inverse[i]) == 1,
    ensures
        fmul(quotient_values(stark, rows, alphas, domain)[k][i], z_h[i]) == constraint_value(
            stark,
            rows,
            zeros(stark.public_inputs()),
            alphas[k],
            domain,
            i,
        ),
{
    let value = constraint_value(stark, rows, zeros(stark.public_inputs()), alphas[k], domain, i);
    let next = (i + 1) % (rows.len() as int);
    lemma_absorb_canonical(
        alphas[k],
        stark.constraint_terms(
            rows[i],
            rows[next],
            zeros(stark.public_inputs()),
            point_state(alphas[k], domain, i),
        ),
    );
    lemma_quotient_round_trip(value, z_h[i], domain.z_h_inverse[i]);
}

/// What is folded from zero is a representative.
pub proof fn lemma_absorb_canonical(alpha: int, terms: Seq<int>)
    ensures
        is_canonical(absorb(0, alpha, terms)),
{
    reveal(crate::field::fadd);
    if terms.len() > 0 {
        lemma_reduce_canonical(
            fmul(absorb(0, alpha, terms.drop_last()), alpha) + terms.last(),
        );
    }
}

/// The constraints of the point with index `i`, folded with weight `alpha`.
/// `trace_lde[i]` is the row of the trace at the point with index `i`.
pub fn eval_constraints_at<S: Stark>(
    stark: &S,
    trace_lde: &Vec<Vec<Felt>>,
    public_inputs: &Vec<Felt>,
    alpha: Felt,
    domain: &DomainTables,
    i: usize,
) -> (r: Felt)
    requires
        i < trace_lde@.len(),
        domain.fits(trace_lde@.len()),
        rows_have_width(trace_lde@, stark.columns()),
        public_inputs@.len() == stark.public_inputs(),
    ensures
        r@ == constraint_value(
            stark,
            rows_view(trace_lde@),
            felts(public_inputs@),
            alpha@,
            domain@,
            i as int,
        ),
{
    let n = trace_lde.len();
    let mut consumer = ConstraintConsumer::new(
        alpha,
        domain.z_last[i],
        domain.lagrange_first[i],
        domain.lagrange_last[i],
    );
    // The row after the last point is the first.
    let next: usize = if i + 1 == n {
        0
    } else {
        i + 1
    };
    proof {
        assert(next as int == (i + 1) % (n as int)) by {
            if i + 1 == n {
                vstd::arithmetic::div_mod::lemma_mod_self_0(n as int);
            } else {
                vstd::arithmetic::div_mod::lemma_small_mod((i + 1) as nat, n as nat);
            }
        }
        assert(trace_lde@[i as int]@.len() == stark.columns());
        assert(trace_lde@[next as int]@.len() == stark.columns());
    }
    stark.eval_packed_base(&trace_lde[i], &trace_lde[next], public_inputs, &mut consumer);
    consumer.accumulator()
}

/// For each weight in `alphas`, the quotient at every point of the extended
/// domain, in value form. `trace_lde[i]` is the row of the trace at the point
/// with index `i`.
pub fn compute_quotient_polys<S: Stark>(
    stark: &S,
    trace_lde: &Vec<Vec<Felt>>,
    alphas: &Vec<Felt>,
    domain: &DomainTables,
) -> (r: Vec<Vec<Felt>>)
    requires
        domain.fits(trace_lde@.len()),
        rows_have_width(trace_lde@, stark.columns()),
    ensures
        rows_view(r@) == quotient_values(
            stark,
            rows_view(trace_lde@),
            felts(alphas@),
            domain@,
        ),
{
    let n = trace_lde.len();
    let ghost rows = rows_view(trace_lde@);
    let mut public_inputs: Vec<Felt> = Vec::new();
    let num_public_inputs = stark.num_public_inputs();
    while public_inputs.len() < num_public_inputs
        invariant
            public_inputs@.len() <= num_public_inputs,
            felts(public_inputs@) == zeros(public_inputs@.len()),
        decreases num_public_inputs - public_inputs@.len(),
    {
        let ghost before = felts(public_inputs@);
        public_inputs.push(Felt::zero());
        proof {
            assert(felts(public_inputs@) =~= before.push(0));
            assert(before.push(0) =~= zeros(public_inputs@.len()));
        }
    }
    let mut out: Vec<Vec<Felt>> = Vec::new();
    let mut k: usize = 0;
    while k < alphas.len()
        invariant
            k <= alphas@.len(),
            n == trace_lde@.len(),
            rows == rows_view(trace_lde@),
            domain.fits(n as nat),
            rows_have_width(trace_lde@, stark.columns()),
            public_inputs@.len() == stark.public_inputs(),
            felts(public_inputs@) == zeros(stark.public_inputs()),
            out@.len() == k,
            forall|j: int| 0 <= j < k ==> (#[trigger] out@[j])@.len() == n,
            forall|j: int, i: int|
                0 <= j < k && 0 <= i < n ==> (#[trigger] out@[j]@[i])@ == quotient_value(
                    stark,
                    rows,
                    alphas@[j]@,
                    domain@,
                    i,
                ),
        decreases alphas@.len() - k,
    {
        let alpha = alphas[k];
        let mut quotient_evals: Vec<Felt> = Vec::new();
        let mut i: usize = 0;
        while i < n
            invariant
                i <= n,
                n == trace_lde@.len(),
                rows == rows_view(trace_lde@),
                domain.fits(n as nat),
                rows_have_width(trace_lde@, stark.columns()),
                public_inputs@.len() == stark.public_inputs(),
                felts(public_inputs@) == zeros(stark.public_inputs()),
                quotient_evals@.len() == i,
                forall|p: int|
                    0 <= p < i ==> (#[trigger] quotient_evals@[p])@ == quotient_value(
                        stark,
                        rows,
                        alpha@,
                        domain@,
                        p,
                    ),
            decreases n - i,
        {
            let constraints_eval = eval_constraints_at(
                stark,
                trace_lde,
                &public_inputs,
                alpha,
                domain,
                i,
            );
            let denominator_inv = domain.z_h_inverse[i];
            quotient_evals.push(constraints_eval.mul(denominator_inv));
            i = i + 1;
        }
        out.push(quotient_evals);
        k = k + 1;
    }
    proof {
        let expected = quotient_values(stark, rows, felts(alphas@), domain@);
        assert forall|j: int| 0 <= j < out@.len() implies rows_view(out@)[j] == expected[j] by {
            assert(out@[j]@.len() == n);
            assert forall|i: int| 0 <= i < n implies felts(out@[j]@)[i] == expected[j][i] by {
                assert(out@[j]@[i]@ == quotient_value(stark, rows, alphas@[j]@, domain@, i));
            }
            assert(felts(out@[j]@) =~= expected[j]);
        }
        assert(rows_view(out@) =~= expected);
    }
    out
}

/// The coefficients without the zeros at their end, then with zeros up to
/// `padded_len` coefficients.
pub open spec fn padded_form(coeffs: Seq<int>, padded_len: nat) -> Seq<int> {
    let trimmed = coeffs.take(degree_plus_one(coeffs) as int);
    trimmed + zeros((padded_len - trimmed.len()) as nat)
}

/// The chunks of the first `n` polynomials, one polynomial after the other.
pub open spec fn all_chunks(polys: Seq<Seq<int>>, degree: nat, padded_len: nat, n: int) -> Seq<
    Seq<int>,
>
    decreases n,
{
    if n <= 0 {
        Seq::empty()
    } else {
        all_chunks(polys, degree, padded_len, n - 1) + chunks_of(
            padded_form(polys[n - 1], padded_len),
            degree,
        )
    }
}

/// The chunks that a quotient is cut into give its value back: the sum of
/// `chunk_j(x) * x^(j * degree)` over the chunks of the trimmed and padded
/// coefficients is the value of the quotient at `x`.
pub proof fn lemma_quotient_chunks_reassemble(
    coeffs: Seq<int>,
    degree: nat,
    padded_len: nat,
    x: int,
)
    requires
        degree > 0,
    ensures
        reassemble(chunks_of(padded_form(coeffs, padded_len), degree), degree, x) == poly_eval(
            coeffs,
            x,
        ),
{
    let trimmed = coeffs.take(degree_plus_one(coeffs) as int);
    lemma_chunk_reassembly(padded_form(coeffs, padded_len), degree, x);
    lemma_poly_eval_padded(trimmed, (padded_len - trimmed.len()) as nat, x);
    lemma_poly_eval_trimmed(coeffs, x);
}

/// Whether every polynomial fits in `padded_len` coefficients once the zeros
/// at its end are removed.
pub open spec fn all_fit(polys: Seq<Seq<int>>, padded_len: nat) -> bool {
    forall|j: int| 0 <= j < polys.len() ==> degree_plus_one(#[trigger] polys[j]) <= padded_len
}

/// Why quotient polynomials could not be cut into chunks.
#[derive(Clone, Copy, Debug, PartialEq, Eq)]
pub enum QuotientError {
    /// A quotient has more coefficients than the extended domain has points:
    /// the constraints are not divisible by `Z_H`.
    NotDivisible,
}

/// Cuts each quotient polynomial into chunks of `degree` coefficients: the
/// zeros at its end are removed, zeros are appended up to `padded_len`
/// coefficients, and the result is cut. Fails if a polynomial is longer than
/// `padded_len` without the zeros at its end.
pub fn quotient_chunks(
    quotient_polys: Vec<PolynomialCoeffs>,
    degree: usize,
    padded_len: usize,
) -> (r: Result<Vec<PolynomialCoeffs>, QuotientError>)
    requires
        degree > 0,
    ensures
        r is Ok <==> all_fit(chunk_views(quotient_polys@), padded_len as nat),
        r matches Ok(chunks) ==> chunk_views(chunks@) == all_chunks(
            chunk_views(quotient_polys@),
            degree as nat,
            padded_len as nat,
            quotient_polys@.len() as int,
        ),
{
    let ghost polys = chunk_views(quotient_polys@);
    let mut out: Vec<PolynomialCoeffs> = Vec::new();
    let mut j: usize = 0;
    let count = quotient_polys.len();
    while j < count
        invariant
            j <= count,
            degree > 0,
            count == quotient_polys@.len(),
            polys == chunk_views(quotient_polys@),
            forall|p: int| j <= p < count ==> (#[trigger] quotient_polys@[p])@ == polys[p],
            forall|p: int| 0 <= p < j ==> degree_plus_one(#[trigger] polys[p]) <= padded_len,
            chunk_views(out@) == all_chunks(polys, degree as nat, padded_len as nat, j as int),
        decreases count - j,
    {
        let mut quotient_poly = quotient_polys[j].clone_poly();
        proof {
            lemma_degree_bound(polys[j as int]);
        }
        quotient_poly.trim();
        match quotient_poly.pad(padded_len) {
            Err(_) => {
                proof {
                    assert(degree_plus_one(polys[j as int]) > padded_len);
                }
                return Err(QuotientError::NotDivisible);
            },
            Ok(_) => {},
        }
        assert(quotient_poly@ == padded_form(polys[j as int], padded_len as nat));
        // Split into chunks of the degree of the trace.
        let pieces = quotient_poly.chunks(degree);
        let ghost before = chunk_views(out@);
        let ghost added = chunk_views(pieces@);
        let mut p: usize = 0;
        let piece_count = pieces.len();
        proof {
            assert(before + added.take(0) =~= before);
        }
        while p < piece_count
            invariant
                p <= piece_count,
                piece_count == pieces@.len(),
                added == chunk_views(pieces@),
                chunk_views(out@) == before + added.take(p as int),
            decreases piece_count - p,
        {
            let piece = pieces[p].clone_poly();
            let ghost so_far = chunk_views(out@);
            out.push(piece);
            proof {
                assert(chunk_views(out@) =~= so_far.push(added[p as int]));
                assert(so_far.push(added[p as int]) =~= before + added.take(p + 1));
            }
            p = p + 1;
        }
        proof {
            assert(added.take(piece_count as int) =~= added);
        }
        j = j + 1;
    }
    Ok(out)
}

/// Whether the polynomial `quotient` times `Z_H` gives the constraint value
/// at each of the given points.
pub open spec fn quotient_consistent(
    quotient: Seq<int>,
    points: Seq<int>,
    constraint_values: Seq<int>,
    z_h: Seq<int>,
) -> bool {
    forall|i: int|
        0 <= i < points.len() ==> fmul(poly_eval(quotient, #[trigger] points[i]), z_h[i])
            == constraint_values[i]
}

/// Tests, point by point, that the quotient times `Z_H` gives the constraint
/// values back.
pub fn check_quotient(
    quotient: &PolynomialCoeffs,
    points: &Vec<Felt>,
    constraint_values: &Vec<Felt>,
    z_h: &Vec<Felt>,
) -> (r: bool)
    requires
        constraint_values@.len() == points@.len(),
        z_h@.len() == points@.len(),
    ensures
        r == quotient_consistent(
            quotient@,
            felts(points@),
            felts(constraint_values@),
            felts(z_h@),
        ),
{
    let mut i: usize = 0;
    while i < points.len()
        invariant
            i <= points@.len(),
            constraint_values@.len() == points@.len(),
            z_h@.len() == points@.len(),
            forall|p: int|
                0 <= p < i ==> fmul(
                    poly_eval(quotient@, #[trigger] felts(points@)[p]),
                    felts(z_h@)[p],
                ) == felts(constraint_values@)[p],
        decreases points@.len() - i,
    {
        let product = quotient.eval(points[i]).mul(z_h[i]);
        if !product.equals(constraint_values[i]) {
            proof {
                assert(felts(points@)[i as int] == points@[i as int]@);
            }
            return false;
        }
        i = i + 1;
    }
    true
}

/// No quotient passes the test on points that include one where `Z_H`
/// vanishes and the constraint value does not: a constraint that is violated
/// on a row of the trace is not divisible by `Z_H`.
pub proof fn lemma_violation_fails_check(
    quotient: Seq<int>,
    points: Seq<int>,
    constraint_values: Seq<int>,
    z_h: Seq<int>,
    i: int,
)
    requires
        0 <= i < points.len(),
        z_h[i] == 0,
        constraint_values[i] != 0,
    ensures
        !quotient_consistent(quotient, points, constraint_values, z_h),
{
    reveal(fmul);
    let value = poly_eval(quotient, points[i]);
    assert(value * 0 == 0) by (nonlinear_arith);
    lemma_reduce_canonical(0);
    assert(fmul(value, z_h[i]) == 0);
}

} // verus!
