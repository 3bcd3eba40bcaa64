//! The staging of a proving run.
//!
//! A run alternates between work that is done here (checking the trace,
//! evaluating constraints, cutting quotients, choosing what is opened) and
//! work that is done elsewhere (committing to polynomials, drawing challenges
//! from the transcript, transforming between values and coefficients, proving
//! low degree). `prove` is one step of a run: it takes the stage the run is
//! in and what the work done elsewhere brought, and gives the next stage and
//! the work to be done elsewhere next. The stages follow each other in one
//! fixed order, and what does not fit the current stage is refused.

use crate::domain::{
    lemma_invertible_everywhere, power_of_two, vanishing_on_coset, z_h_inverse_table,
    z_h_inverse_values, z_last_table, z_last_values, ZeroPolyOnCoset,
};
use crate::extension::{ext_from_base, ext_mul, ExtValue, QuadraticExtension};
use crate::field::{
    felts, fmul, fpow, Felt, MULTIPLICATIVE_GROUP_GENERATOR, POWER_OF_TWO_GENERATOR, TWO_ADICITY,
};
use crate::opening::{
    check_opening_point, evals_at, ext_views, in_trace_subgroup, StarkOpeningSet, StarkProof,
};
use crate::polynomial::{chunk_views, zeros, PolynomialCoeffs};
use crate::quotient::{
    all_chunks, all_fit, compute_quotient_polys, constraint_value,
    lemma_quotient_values_round_trip, quotient_chunks, quotient_values, rows_have_width,
    rows_view, DomainTables, DomainValues,
};
use crate::stark::Stark;
use vstd::arithmetic::power2::{lemma_pow2_pos, lemma_pow2_unfold, pow2};
use vstd::prelude::*;

verus! {

/// The parameters of a run that prover and verifier share.
#[derive(Clone, Copy, Debug, PartialEq, Eq)]
pub struct StarkConfig {
    pub security_bits: usize,
    /// The number of weights with which the constraints are folded, each
    /// giving a quotient polynomial of its own.
    pub num_challenges: usize,
    /// The extended domain has `2^rate_bits` points for each row of the trace.
    pub rate_bits: usize,
    /// The height of the caps of the commitments.
    pub cap_height: usize,
}

/// Why a run stopped.
#[derive(Clone, Copy, Debug, PartialEq, Eq)]
pub enum ProverError {
    /// The trace has no rows.
    EmptyTrace,
    /// A row of the trace does not have as many cells as the table has
    /// columns.
    ColumnCountMismatch,
    /// The number of rows of the trace is not a power of two.
    TraceLengthNotPowerOfTwo,
    /// The extended domain would have more points than a subgroup of the
    /// field can have, or than can be counted.
    DomainTooLarge,
    /// What the work done elsewhere brought does not have the shape that the
    /// stage asks for.
    MalformedEvent,
    /// A quotient has more coefficients than the extended domain has points:
    /// the constraints are not divisible by `Z_H`. The trace or the
    /// constraints are broken.
    QuotientNotDivisible,
    /// `Z_H` has no inverse at some point of the extended domain.
    DegenerateDomain,
    /// The opening point is a row of the trace. The run is to be repeated
    /// with fresh randomness.
    OpeningPointInSubgroup,
    /// The event does not belong to the stage the run is in.
    UnexpectedEvent,
}

/// Whether `n` is a power of two.
pub open spec fn is_power_of_two(n: int) -> bool
    decreases n,
{
    n == 1 || (n > 1 && n % 2 == 0 && is_power_of_two(n / 2))
}

/// The number of times `n` can be halved before it is at most 1.
pub open spec fn log2_floor(n: int) -> nat
    decreases n,
{
    if n <= 1 {
        0
    } else {
        1 + log2_floor(n / 2)
    }
}

/// The exponent of a power of two is the number of times it can be halved.
pub proof fn lemma_log_of_pow2(k: nat)
    ensures
        log2_floor(pow2(k) as int) == k,
        is_power_of_two(pow2(k) as int),
    decreases k,
{
    if k == 0 {
        vstd::arithmetic::power2::lemma2_to64();
    } else {
        lemma_pow2_unfold(k);
        lemma_pow2_pos((k - 1) as nat);
        lemma_log_of_pow2((k - 1) as nat);
    }
}

/// Whether `n` is a power of two.
pub fn check_power_of_two(n: usize) -> (r: bool)
    ensures
        r == is_power_of_two(n as int),
{
    let mut m = n;
    while m > 1 && m % 2 == 0
        invariant
            is_power_of_two(m as int) == is_power_of_two(n as int),
        decreases m,
    {
        m = m / 2;
    }
    m == 1
}

/// The exponent of the power of two `n`, as `plonky2_util::log2_strict`
/// computes it. That function gives `log_2(n)` and panics if `n` is not a
/// power of two; nothing is proved here of how it does so.
#[verifier::external_body]
fn log2_strict(n: usize) -> (r: usize)
    requires
        is_power_of_two(n as int),
    ensures
        pow2(r as nat) == n,
{
    plonky2_util::log2_strict(n)
}

/// The size of a trace and of its extended domain.
#[derive(Clone, Copy, Debug, PartialEq, Eq)]
pub struct TraceShape {
    /// The number of rows.
    pub degree: usize,
    /// The number of rows is `2^degree_bits`.
    pub degree_bits: usize,
    /// The number of points of the extended domain.
    pub extended_len: usize,
}

/// Whether every row has `width` cells.
pub open spec fn all_have_len(rows: Seq<Seq<int>>, width: nat) -> bool {
    forall|i: int| 0 <= i < rows.len() ==> (#[trigger] rows[i]).len() == width
}

/// The columns of a table given by its rows.
pub open spec fn transposed(rows: Seq<Seq<int>>, width: nat) -> Seq<Seq<int>> {
    Seq::new(width, |j: int| Seq::new(rows.len(), |i: int| rows[i][j]))
}

/// Why a trace cannot be proved, if it cannot.
pub open spec fn shape_error<S: Stark>(
    stark: &S,
    config: StarkConfig,
    trace: Seq<Seq<int>>,
) -> Option<ProverError> {
    if trace.len() == 0 {
        Some(ProverError::EmptyTrace)
    } else if !all_have_len(trace, stark.columns()) {
        Some(ProverError::ColumnCountMismatch)
    } else if !is_power_of_two(trace.len() as int) {
        Some(ProverError::TraceLengthNotPowerOfTwo)
    } else if log2_floor(trace.len() as int) + config.rate_bits > TWO_ADICITY || trace.len() * pow2(
        config.rate_bits as nat,
    ) > usize::MAX {
        Some(ProverError::DomainTooLarge)
    } else {
        None
    }
}

/// The shape of a trace with `rows` rows that can be proved.
pub open spec fn shape_of(config: StarkConfig, rows: nat) -> TraceShape {
    TraceShape {
        degree: rows as usize,
        degree_bits: log2_floor(rows as int) as usize,
        extended_len: (rows * pow2(config.rate_bits as nat)) as usize,
    }
}

/// Whether every row has `width` cells.
pub fn rows_all_have_len(rows: &Vec<Vec<Felt>>, width: usize) -> (r: bool)
    ensures
        r == rows_have_width(rows@, width as nat),
        r == all_have_len(rows_view(rows@), width as nat),
{
    let mut i: usize = 0;
    while i < rows.len()
        invariant
            i <= rows@.len(),
            forall|p: int| 0 <= p < i ==> (#[trigger] rows@[p])@.len() == width,
        decreases rows@.len() - i,
    {
        if rows[i].len() != width {
            proof {
                assert(rows_view(rows@)[i as int].len() != width);
            }
            return false;
        }
        i = i + 1;
    }
    proof {
        assert forall|p: int| 0 <= p < rows@.len() implies (#[trigger] rows_view(rows@)[p]).len()
            == width by {
            assert(rows@[p]@.len() == width);
        }
    }
    true
}

/// The columns of a table given by its rows.
pub fn transpose(matrix: &Vec<Vec<Felt>>, width: usize) -> (r: Vec<Vec<Felt>>)
    requires
        rows_have_width(matrix@, width as nat),
    ensures
        rows_view(r@) == transposed(rows_view(matrix@), width as nat),
{
    let mut out: Vec<Vec<Felt>> = Vec::new();
    let mut j: usize = 0;
    while j < width
        invariant
            j <= width,
            rows_have_width(matrix@, width as nat),
            out@.len() == j,
            forall|c: int|
                0 <= c < j ==> felts((#[trigger] out@[c])@) == transposed(
                    rows_view(matrix@),
                    width as nat,
                )[c],
        decreases width - j,
    {
        let mut column: Vec<Felt> = Vec::new();
        let mut i: usize = 0;
        while i < matrix.len()
            invariant
                i <= matrix@.len(),
                j < width,
                rows_have_width(matrix@, width as nat),
                column@.len() == i,
                forall|p: int| 0 <= p < i ==> (#[trigger] column@[p]) == matrix@[p]@[j as int],
            decreases matrix@.len() - i,
        {
            proof {
                assert(matrix@[i as int]@.len() == width);
            }
            column.push(matrix[i][j]);
            i = i + 1;
        }
        proof {
            assert(felts(column@) =~= transposed(rows_view(matrix@), width as nat)[j as int]);
        }
        out.push(column);
        j = j + 1;
    }
    proof {
        assert(rows_view(out@) =~= transposed(rows_view(matrix@), width as nat));
    }
    out
}

/// The stage a run is in, with what the run holds at that stage.
#[derive(Debug)]
pub enum ProverState<C> {
    /// Nothing was done yet.
    Start { trace: Vec<Vec<Felt>> },
    /// The commitment to the trace is awaited.
    CommittingTrace { shape: TraceShape },
    /// The weights of the constraints are awaited.
    DrawingAlphas {
        shape: TraceShape,
        trace_cap: C,
        trace_polys: Vec<PolynomialCoeffs>,
        trace_lde: Vec<Vec<Felt>>,
    },
    /// The coefficients of the quotients are awaited.
    Interpolating { shape: TraceShape, trace_cap: C, trace_polys: Vec<PolynomialCoeffs> },
    /// The commitment to the quotient chunks is awaited.
    CommittingQuotient { shape: TraceShape, trace_cap: C, trace_polys: Vec<PolynomialCoeffs> },
    /// The opening point is awaited.
    DrawingZeta {
        shape: TraceShape,
        trace_cap: C,
        trace_polys: Vec<PolynomialCoeffs>,
        quotient_chunks: Vec<PolynomialCoeffs>,
    },
    /// The low-degree proof is awaited.
    Opening { trace_cap: C, openings: StarkOpeningSet },
    /// The proof was handed out.
    Finished,
}

/// What the work done elsewhere brought.
#[derive(Debug)]
pub enum ProverEvent<C, P> {
    /// The run begins.
    Started,
    /// The trace was committed to: the cap of the commitment, the
    /// coefficients of each column, and the row at each point of the
    /// extended domain.
    TraceCommitted { cap: C, polynomials: Vec<PolynomialCoeffs>, lde_values: Vec<Vec<Felt>> },
    /// The cap of the trace was absorbed into the transcript and the weights
    /// were drawn; with them come the Lagrange basis polynomials of the first
    /// and of the last row, at each point of the extended domain.
    AlphasDrawn { alphas: Vec<Felt>, lagrange_first: Vec<Felt>, lagrange_last: Vec<Felt> },
    /// The quotients were brought into coefficient form.
    QuotientInterpolated { quotient_polys: Vec<PolynomialCoeffs> },
    /// The quotient chunks were committed to: the coefficients that the
    /// commitment holds.
    QuotientCommitted { polynomials: Vec<PolynomialCoeffs> },
    /// The cap of the quotient chunks was absorbed into the transcript and
    /// the opening point was drawn.
    ZetaDrawn { zeta: QuadraticExtension },
    /// The low-degree proof was made.
    OpeningsProved { opening_proof: P },
}

/// The work to be done elsewhere next.
#[derive(Debug)]
pub enum ProverAction<C, P> {
    /// Commit to the columns of the trace.
    CommitTrace { columns: Vec<Vec<Felt>>, rate_bits: usize, cap_height: usize },
    /// Absorb the cap of the trace into the transcript, then draw the
    /// weights.
    ObserveTraceCapAndDrawAlphas { num_challenges: usize },
    /// Bring the quotients, given by their values on the coset with the
    /// given shift, into coefficient form.
    InterpolateQuotient { quotient_values: Vec<Vec<Felt>>, coset_shift: Felt },
    /// Commit to the quotient chunks.
    CommitQuotient { chunks: Vec<PolynomialCoeffs>, rate_bits: usize, cap_height: usize },
    /// Absorb the cap of the quotient chunks into the transcript, then draw
    /// the opening point.
    ObserveQuotientCapAndDrawZeta,
    /// Prove that trace and quotient chunks, opened at `zeta` and `g * zeta`,
    /// are of low degree.
    ProveOpenings { zeta: QuadraticExtension, g: Felt, degree_bits: usize, rate_bits: usize },
    /// Hand out the proof.
    Finish { proof: StarkProof<C, P> },
}

/// An opening set over representatives.
pub struct OpeningValues {
    pub local_values: Seq<ExtValue>,
    pub next_values: Seq<ExtValue>,
    pub quotient_polys: Seq<ExtValue>,
}

impl View for StarkOpeningSet {
    type V = OpeningValues;

    open spec fn view(&self) -> OpeningValues {
        OpeningValues {
            local_values: ext_views(self.local_values@),
            next_values: ext_views(self.next_values@),
            quotient_polys: ext_views(self.quotient_polys@),
        }
    }
}

/// A stage over representatives.
pub enum StateView<C> {
    Start { trace: Seq<Seq<int>> },
    CommittingTrace { shape: TraceShape },
    DrawingAlphas {
        shape: TraceShape,
        trace_cap: C,
        trace_polys: Seq<Seq<int>>,
        trace_lde: Seq<Seq<int>>,
    },
    Interpolating { shape: TraceShape, trace_cap: C, trace_polys: Seq<Seq<int>> },
    CommittingQuotient { shape: TraceShape, trace_cap: C, trace_polys: Seq<Seq<int>> },
    DrawingZeta {
        shape: TraceShape,
        trace_cap: C,
        trace_polys: Seq<Seq<int>>,
        quotient_chunks: Seq<Seq<int>>,
    },
    Opening { trace_cap: C, openings: OpeningValues },
    Finished,
}

/// An event over representatives.
pub enum EventView<C, P> {
    Started,
    TraceCommitted { cap: C, polynomials: Seq<Seq<int>>, lde_values: Seq<Seq<int>> },
    AlphasDrawn { alphas: Seq<int>, lagrange_first: Seq<int>, lagrange_last: Seq<int> },
    QuotientInterpolated { quotient_polys: Seq<Seq<int>> },
    QuotientCommitted { polynomials: Seq<Seq<int>> },
    ZetaDrawn { zeta: ExtValue },
    OpeningsProved { opening_proof: P },
}

/// An action over representatives.
pub enum ActionView<C, P> {
    CommitTrace { columns: Seq<Seq<int>>, rate_bits: usize, cap_height: usize },
    ObserveTraceCapAndDrawAlphas { num_challenges: usize },
    InterpolateQuotient { quotient_values: Seq<Seq<int>>, coset_shift: int },
    CommitQuotient { chunks: Seq<Seq<int>>, rate_bits: usize, cap_height: usize },
    ObserveQuotientCapAndDrawZeta,
    ProveOpenings { zeta: ExtValue, g: int, degree_bits: usize, rate_bits: usize },
    Finish { trace_cap: C, openings: OpeningValues, opening_proof: P },
}

impl<C> View for ProverState<C> {
    type V = StateView<C>;

    open spec fn view(&self) -> StateView<C> {
        match *self {
            ProverState::Start { trace } => StateView::Start { trace: rows_view(trace@) },
            ProverState::CommittingTrace { shape } => StateView::CommittingTrace { shape },
            ProverState::DrawingAlphas { shape, trace_cap, trace_polys, trace_lde } => {
                StateView::DrawingAlphas {
                    shape,
                    trace_cap,
                    trace_polys: chunk_views(trace_polys@),
                    trace_lde: rows_view(trace_lde@),
                }
            },
            ProverState::Interpolating { shape, trace_cap, trace_polys } => {
                StateView::Interpolating {
                    shape,
                    trace_cap,
                    trace_polys: chunk_views(trace_polys@),
                }
            },
            ProverState::CommittingQuotient { shape, trace_cap, trace_polys } => {
                StateView::CommittingQuotient {
                    shape,
                    trace_cap,
                    trace_polys: chunk_views(trace_polys@),
                }
            },
            ProverState::DrawingZeta { shape, trace_cap, trace_polys, quotient_chunks } => {
                StateView::DrawingZeta {
                    shape,
                    trace_cap,
                    trace_polys: chunk_views(trace_polys@),
                    quotient_chunks: chunk_views(quotient_chunks@),
                }
            },
            ProverState::Opening { trace_cap, openings } => StateView::Opening {
                trace_cap,
                openings: openings@,
            },
            ProverState::Finished => StateView::Finished,
        }
    }
}

impl<C, P> View for ProverEvent<C, P> {
    type V = EventView<C, P>;

    open spec fn view(&self) -> EventView<C, P> {
        match *self {
            ProverEvent::Started => EventView::Started,
            ProverEvent::TraceCommitted { cap, polynomials, lde_values } => {
                EventView::TraceCommitted {
                    cap,
                    polynomials: chunk_views(polynomials@),
                    lde_values: rows_view(lde_values@),
                }
            },
            ProverEvent::AlphasDrawn { alphas, lagrange_first, lagrange_last } => {
                EventView::AlphasDrawn {
                    alphas: felts(alphas@),
                    lagrange_first: felts(lagrange_first@),
                    lagrange_last: felts(lagrange_last@),
                }
            },
            ProverEvent::QuotientInterpolated { quotient_polys } => {
                EventView::QuotientInterpolated { quotient_polys: chunk_views(quotient_polys@) }
            },
            ProverEvent::QuotientCommitted { polynomials } => EventView::QuotientCommitted {
                polynomials: chunk_views(polynomials@),
            },
            ProverEvent::ZetaDrawn { zeta } => EventView::ZetaDrawn { zeta: zeta@ },
            ProverEvent::OpeningsProved { opening_proof } => EventView::OpeningsProved {
                opening_proof,
            },
        }
    }
}

impl<C, P> View for ProverAction<C, P> {
    type V = ActionView<C, P>;

    open spec fn view(&self) -> ActionView<C, P> {
        match *self {
            ProverAction::CommitTrace { columns, rate_bits, cap_height } => {
                ActionView::CommitTrace { columns: rows_view(columns@), rate_bits, cap_height }
            },
            ProverAction::ObserveTraceCapAndDrawAlphas { num_challenges } => {
                ActionView::ObserveTraceCapAndDrawAlphas { num_challenges }
            },
            ProverAction::InterpolateQuotient { quotient_values, coset_shift } => {
                ActionView::InterpolateQuotient {
                    quotient_values: rows_view(quotient_values@),
                    coset_shift: coset_shift@,
                }
            },
            ProverAction::CommitQuotient { chunks, rate_bits, cap_height } => {
                ActionView::CommitQuotient { chunks: chunk_views(chunks@), rate_bits, cap_height }
            },
            ProverAction::ObserveQuotientCapAndDrawZeta => {
                ActionView::ObserveQuotientCapAndDrawZeta
            },
            ProverAction::ProveOpenings { zeta, g, degree_bits, rate_bits } => {
                ActionView::ProveOpenings { zeta: zeta@, g: g@, degree_bits, rate_bits }
            },
            ProverAction::Finish { proof } => ActionView::Finish {
                trace_cap: proof.trace_cap,
                openings: proof.openings@,
                opening_proof: proof.opening_proof,
            },
        }
    }
}

/// The outcome of a step over representatives.
pub open spec fn outcome_view<C, P>(
    r: Result<(ProverState<C>, ProverAction<C, P>), ProverError>,
) -> Result<(StateView<C>, ActionView<C, P>), ProverError> {
    match r {
        Ok((state, action)) => Ok((state@, action@)),
        Err(e) => Err(e),
    }
}

/// The step from the start: the trace is checked, and its columns are to be
/// committed to.
pub open spec fn start_spec<S: Stark, C, P>(
    stark: &S,
    config: StarkConfig,
    trace: Seq<Seq<int>>,
) -> Result<(StateView<C>, ActionView<C, P>), ProverError> {
    match shape_error(stark, config, trace) {
        Some(e) => Err(e),
        None => Ok(
            (
                StateView::CommittingTrace { shape: shape_of(config, trace.len()) },
                ActionView::CommitTrace {
                    columns: transposed(trace, stark.columns()),
                    rate_bits: config.rate_bits,
                    cap_height: config.cap_height,
                },
            ),
        ),
    }
}

/// The step after the commitment to the trace: what was brought is checked
/// for its shape, and the weights are to be drawn.
pub open spec fn trace_committed_spec<S: Stark, C, P>(
    stark: &S,
    config: StarkConfig,
    shape: TraceShape,
    cap: C,
    polynomials: Seq<Seq<int>>,
    lde_values: Seq<Seq<int>>,
) -> Result<(StateView<C>, ActionView<C, P>), ProverError> {
    if polynomials.len() == stark.columns() && lde_values.len() == shape.extended_len
        && all_have_len(lde_values, stark.columns()) {
        Ok(
            (
                StateView::DrawingAlphas {
                    shape,
                    trace_cap: cap,
                    trace_polys: polynomials,
                    trace_lde: lde_values,
                },
                ActionView::ObserveTraceCapAndDrawAlphas { num_challenges: config.num_challenges },
            ),
        )
    } else {
        Err(ProverError::MalformedEvent)
    }
}

/// Whether what was brought with the weights has the shape that the stage
/// asks for.
pub open spec fn alphas_well_formed<S: Stark>(
    stark: &S,
    config: StarkConfig,
    shape: TraceShape,
    trace_lde: Seq<Seq<int>>,
    alphas: Seq<int>,
    lagrange_first: Seq<int>,
    lagrange_last: Seq<int>,
) -> bool {
    &&& alphas.len() == config.num_challenges
    &&& lagrange_first.len() == trace_lde.len()
    &&& lagrange_last.len() == trace_lde.len()
    &&& all_have_len(trace_lde, stark.columns())
    &&& shape.degree_bits + config.rate_bits <= TWO_ADICITY
    &&& pow2(config.rate_bits as nat) <= usize::MAX
}

/// The tables of the extended domain: the Lagrange basis polynomials as they
/// were brought, and the polynomial that vanishes on the last row and the
/// inverse of `Z_H` at each point.
pub open spec fn domain_values(
    config: StarkConfig,
    shape: TraceShape,
    lagrange_first: Seq<int>,
    lagrange_last: Seq<int>,
) -> DomainValues {
    DomainValues {
        lagrange_first,
        lagrange_last,
        z_last: z_last_values(
            shape.degree_bits as nat,
            config.rate_bits as nat,
            lagrange_first.len(),
        ),
        z_h_inverse: z_h_inverse_values(
            shape.degree_bits as nat,
            config.rate_bits as nat,
            lagrange_first.len(),
        ),
    }
}

/// The step after the weights were drawn: the constraints are evaluated and
/// divided by `Z_H` at every point of the extended domain, and the quotients
/// are to be brought into coefficient form.
pub open spec fn alphas_drawn_spec<S: Stark, C, P>(
    stark: &S,
    config: StarkConfig,
    shape: TraceShape,
    trace_cap: C,
    trace_polys: Seq<Seq<int>>,
    trace_lde: Seq<Seq<int>>,
    alphas: Seq<int>,
    lagrange_first: Seq<int>,
    lagrange_last: Seq<int>,
) -> Result<(StateView<C>, ActionView<C, P>), ProverError> {
    if !alphas_well_formed(stark, config, shape, trace_lde, alphas, lagrange_first, lagrange_last) {
        Err(ProverError::MalformedEvent)
    } else if !ZeroPolyOnCoset::all_invertible(
        shape.degree_bits as nat,
        config.rate_bits as nat,
    ) {
        Err(ProverError::DegenerateDomain)
    } else {
        Ok(
            (
                StateView::Interpolating { shape, trace_cap, trace_polys },
                ActionView::InterpolateQuotient {
                    quotient_values: quotient_values(
                        stark,
                        trace_lde,
                        alphas,
                        domain_values(config, shape, lagrange_first, lagrange_last),
                    ),
                    coset_shift: MULTIPLICATIVE_GROUP_GENERATOR as int,
                },
            ),
        )
    }
}

/// The quotients that a step hands out leave no remainder: at every point of
/// the extended domain, the quotient times `Z_H` is the folded constraints of
/// that point.
pub proof fn lemma_step_quotients_round_trip<S: Stark>(
    stark: &S,
    config: StarkConfig,
    shape: TraceShape,
    trace_lde: Seq<Seq<int>>,
    alphas: Seq<int>,
    lagrange_first: Seq<int>,
    lagrange_last: Seq<int>,
    k: int,
    i: int,
)
    requires
        alphas_well_formed(stark, config, shape, trace_lde, alphas, lagrange_first, lagrange_last),
        ZeroPolyOnCoset::all_invertible(shape.degree_bits as nat, config.rate_bits as nat),
        0 <= k < alphas.len(),
        0 <= i < trace_lde.len(),
    ensures
        ({
            let domain = domain_values(config, shape, lagrange_first, lagrange_last);
            fmul(
                quotient_values(stark, trace_lde, alphas, domain)[k][i],
                vanishing_on_coset(shape.degree_bits as nat, config.rate_bits as nat, i as nat),
            ) == constraint_value(
                stark,
                trace_lde,
                zeros(stark.public_inputs()),
                alphas[k],
                domain,
                i,
            )
        }),
{
    let domain = domain_values(config, shape, lagrange_first, lagrange_last);
    let n_log = shape.degree_bits as nat;
    let rate_bits = config.rate_bits as nat;
    let z_h = Seq::new(trace_lde.len(), |p: int| vanishing_on_coset(n_log, rate_bits, p as nat));
    lemma_invertible_everywhere(n_log, rate_bits, i as nat);
    lemma_quotient_values_round_trip(stark, trace_lde, alphas, domain, z_h, k, i);
}

/// The step after the quotients were brought into coefficient form: they
/// are cut into chunks, which are to be committed to. A quotient that does
/// not fit the extended domain ends the run.
pub open spec fn quotient_interpolated_spec<C, P>(
    config: StarkConfig,
    shape: TraceShape,
    trace_cap: C,
    trace_polys: Seq<Seq<int>>,
    quotient_polys: Seq<Seq<int>>,
) -> Result<(StateView<C>, ActionView<C, P>), ProverError> {
    if shape.degree == 0 {
        Err(ProverError::MalformedEvent)
    } else if all_fit(quotient_polys, shape.extended_len as nat) {
        Ok(
            (
                StateView::CommittingQuotient { shape, trace_cap, trace_polys },
                ActionView::CommitQuotient {
                    chunks: all_chunks(
                        quotient_polys,
                        shape.degree as nat,
                        shape.extended_len as nat,
                        quotient_polys.len() as int,
                    ),
                    rate_bits: config.rate_bits,
                    cap_height: config.cap_height,
                },
            ),
        )
    } else {
        Err(ProverError::QuotientNotDivisible)
    }
}

/// The step after the opening point was drawn: a point among the rows of the
/// trace ends the run; else the opening set is made, and low degree is to be
/// proved.
pub open spec fn zeta_drawn_spec<C, P>(
    config: StarkConfig,
    shape: TraceShape,
    trace_cap: C,
    trace_polys: Seq<Seq<int>>,
    quotient_chunks: Seq<Seq<int>>,
    zeta: ExtValue,
) -> Result<(StateView<C>, ActionView<C, P>), ProverError> {
    if shape.degree_bits > TWO_ADICITY {
        Err(ProverError::MalformedEvent)
    } else if in_trace_subgroup(zeta, shape.degree_bits as nat) {
        Err(ProverError::OpeningPointInSubgroup)
    } else {
        let g = fpow(
            POWER_OF_TWO_GENERATOR as int,
            pow2((TWO_ADICITY - shape.degree_bits) as nat),
        );
        Ok(
            (
                StateView::Opening {
                    trace_cap,
                    openings: OpeningValues {
                        local_values: evals_at(trace_polys, zeta),
                        next_values: evals_at(trace_polys, ext_mul(zeta, ext_from_base(g))),
                        quotient_polys: evals_at(quotient_chunks, zeta),
                    },
                },
                ActionView::ProveOpenings {
                    zeta,
                    g,
                    degree_bits: shape.degree_bits,
                    rate_bits: config.rate_bits,
                },
            ),
        )
    }
}

/// One step of a run: the next stage and the work to be done elsewhere, or
/// why the run stops. Each stage takes one kind of event; every other is
/// refused.
pub open spec fn prove_spec<S: Stark, C, P>(
    stark: &S,
    config: StarkConfig,
    state: StateView<C>,
    event: EventView<C, P>,
) -> Result<(StateView<C>, ActionView<C, P>), ProverError> {
    match (state, event) {
        (StateView::Start { trace }, EventView::Started) => start_spec(stark, config, trace),
        (
            StateView::CommittingTrace { shape },
            EventView::TraceCommitted { cap, polynomials, lde_values },
        ) => trace_committed_spec(stark, config, shape, cap, polynomials, lde_values),
        (
            StateView::DrawingAlphas { shape, trace_cap, trace_polys, trace_lde },
            EventView::AlphasDrawn { alphas, lagrange_first, lagrange_last },
        ) => alphas_drawn_spec(
            stark,
            config,
            shape,
            trace_cap,
            trace_polys,
            trace_lde,
            alphas,
            lagrange_first,
            lagrange_last,
        ),
        (
            StateView::Interpolating { shape, trace_cap, trace_polys },
            EventView::QuotientInterpolated { quotient_polys },
        ) => quotient_interpolated_spec(config, shape, trace_cap, trace_polys, quotient_polys),
        (
            StateView::CommittingQuotient { shape, trace_cap, trace_polys },
            EventView::QuotientCommitted { polynomials },
        ) => Ok(
            (
                StateView::DrawingZeta {
                    shape,
                    trace_cap,
                    trace_polys,
                    quotient_chunks: polynomials,
                },
                ActionView::ObserveQuotientCapAndDrawZeta,
            ),
        ),
        (
            StateView::DrawingZeta { shape, trace_cap, trace_polys, quotient_chunks },
            EventView::ZetaDrawn { zeta },
        ) => zeta_drawn_spec(config, shape, trace_cap, trace_polys, quotient_chunks, zeta),
        (
            StateView::Opening { trace_cap, openings },
            EventView::OpeningsProved { opening_proof },
        ) => Ok((StateView::Finished, ActionView::Finish { trace_cap, openings, opening_proof })),
        _ => Err(ProverError::UnexpectedEvent),
    }
}

fn start<S: Stark, C, P>(stark: &S, config: &StarkConfig, trace: Vec<Vec<Felt>>) -> (r: Result<
    (ProverState<C>, ProverAction<C, P>),
    ProverError,
>)
    ensures
        outcome_view(r) == start_spec::<S, C, P>(stark, *config, rows_view(trace@)),
{
    let degree = trace.len();
    if degree == 0 {
        return Err(ProverError::EmptyTrace);
    }
    let width = stark.num_columns();
    if !rows_all_have_len(&trace, width) {
        return Err(ProverError::ColumnCountMismatch);
    }
    if !check_power_of_two(degree) {
        return Err(ProverError::TraceLengthNotPowerOfTwo);
    }
    let degree_bits = log2_strict(degree);
    proof {
        lemma_log_of_pow2(degree_bits as nat);
        vstd::arithmetic::power2::lemma2_to64();
    }
    if degree_bits > TWO_ADICITY || config.rate_bits > TWO_ADICITY - degree_bits {
        return Err(ProverError::DomainTooLarge);
    }
    let mut extended: u64 = degree as u64;
    let mut bits: usize = 0;
    proof {
        assert(degree * pow2(0) == degree) by (nonlinear_arith)
            requires
                pow2(0) == 1,
        ;
        vstd::arithmetic::power2::lemma_pow2_adds(degree_bits as nat, 0);
    }
    while bits < config.rate_bits
        invariant
            bits <= config.rate_bits,
            degree_bits + config.rate_bits <= TWO_ADICITY,
            degree == pow2(degree_bits as nat),
            extended == degree * pow2(bits as nat),
            extended == pow2((degree_bits + bits) as nat),
        decreases config.rate_bits - bits,
    {
        proof {
            vstd::arithmetic::power2::lemma2_to64();
            lemma_pow2_unfold((bits + 1) as nat);
            lemma_pow2_unfold((degree_bits + bits + 1) as nat);
            if degree_bits + bits + 1 < 32 {
                vstd::arithmetic::power2::lemma_pow2_strictly_increases(
                    (degree_bits + bits + 1) as nat,
                    32,
                );
            }
            assert(degree * (2 * pow2(bits as nat)) == 2 * (degree * pow2(bits as nat)))
                by (nonlinear_arith);
        }
        extended = extended * 2;
        bits = bits + 1;
    }
    if extended > usize::MAX as u64 {
        return Err(ProverError::DomainTooLarge);
    }
    let shape = TraceShape { degree, degree_bits, extended_len: extended as usize };
    let columns = transpose(&trace, width);
    Ok(
        (
            ProverState::CommittingTrace { shape },
            ProverAction::CommitTrace {
                columns,
                rate_bits: config.rate_bits,
                cap_height: config.cap_height,
            },
        ),
    )
}

fn trace_committed<S: Stark, C, P>(
    stark: &S,
    config: &StarkConfig,
    shape: TraceShape,
    cap: C,
    polynomials: Vec<PolynomialCoeffs>,
    lde_values: Vec<Vec<Felt>>,
) -> (r: Result<(ProverState<C>, ProverAction<C, P>), ProverError>)
    ensures
        outcome_view(r) == trace_committed_spec::<S, C, P>(
            stark,
            *config,
            shape,
            cap,
            chunk_views(polynomials@),
            rows_view(lde_values@),
        ),
{
    let width = stark.num_columns();
    if polynomials.len() != width || lde_values.len() != shape.extended_len || !rows_all_have_len(
        &lde_values,
        width,
    ) {
        return Err(ProverError::MalformedEvent);
    }
    Ok(
        (
            ProverState::DrawingAlphas {
                shape,
                trace_cap: cap,
                trace_polys: polynomials,
                trace_lde: lde_values,
            },
            ProverAction::ObserveTraceCapAndDrawAlphas { num_challenges: config.num_challenges },
        ),
    )
}

fn alphas_drawn<S: Stark, C, P>(
    stark: &S,
    config: &StarkConfig,
    shape: TraceShape,
    trace_cap: C,
    trace_polys: Vec<PolynomialCoeffs>,
    trace_lde: Vec<Vec<Felt>>,
    alphas: Vec<Felt>,
    lagrange_first: Vec<Felt>,
    lagrange_last: Vec<Felt>,
) -> (r: Result<(ProverState<C>, ProverAction<C, P>), ProverError>)
    ensures
        outcome_view(r) == alphas_drawn_spec::<S, C, P>(
            stark,
            *config,
            shape,
            trace_cap,
            chunk_views(trace_polys@),
            rows_view(trace_lde@),
            felts(alphas@),
            felts(lagrange_first@),
            felts(lagrange_last@),
        ),
{
    let len = trace_lde.len();
    if alphas.len() != config.num_challenges || lagrange_first.len() != len || lagrange_last.len()
        != len || !rows_all_have_len(&trace_lde, stark.num_columns()) {
        return Err(ProverError::MalformedEvent);
    }
    if shape.degree_bits > TWO_ADICITY || config.rate_bits > TWO_ADICITY - shape.degree_bits {
        return Err(ProverError::MalformedEvent);
    }
    if power_of_two(config.rate_bits).is_none() {
        return Err(ProverError::MalformedEvent);
    }
    let z_last = z_last_table(shape.degree_bits, config.rate_bits, len);
    let zero_poly = match ZeroPolyOnCoset::new(shape.degree_bits, config.rate_bits) {
        Some(zero_poly) => zero_poly,
        None => {
            return Err(ProverError::DegenerateDomain);
        },
    };
    let z_h_inverse = z_h_inverse_table(&zero_poly, len);
    let domain = DomainTables { lagrange_first, lagrange_last, z_last, z_h_inverse };
    let quotient_values = compute_quotient_polys(stark, &trace_lde, &alphas, &domain);
    Ok(
        (
            ProverState::Interpolating { shape, trace_cap, trace_polys },
            ProverAction::InterpolateQuotient { quotient_values, coset_shift: Felt::coset_shift() },
        ),
    )
}

fn quotient_interpolated<C, P>(
    config: &StarkConfig,
    shape: TraceShape,
    trace_cap: C,
    trace_polys: Vec<PolynomialCoeffs>,
    quotient_polys: Vec<PolynomialCoeffs>,
) -> (r: Result<(ProverState<C>, ProverAction<C, P>), ProverError>)
    ensures
        outcome_view(r) == quotient_interpolated_spec::<C, P>(
            *config,
            shape,
            trace_cap,
            chunk_views(trace_polys@),
            chunk_views(quotient_polys@),
        ),
{
    if shape.degree == 0 {
        return Err(ProverError::MalformedEvent);
    }
    match quotient_chunks(quotient_polys, shape.degree, shape.extended_len) {
        Err(_) => Err(ProverError::QuotientNotDivisible),
        Ok(chunks) => Ok(
            (
                ProverState::CommittingQuotient { shape, trace_cap, trace_polys },
                ProverAction::CommitQuotient {
                    chunks,
                    rate_bits: config.rate_bits,
                    cap_height: config.cap_height,
                },
            ),
        ),
    }
}

fn zeta_drawn<C, P>(
    config: &StarkConfig,
    shape: TraceShape,
    trace_cap: C,
    trace_polys: Vec<PolynomialCoeffs>,
    quotient_chunks: Vec<PolynomialCoeffs>,
    zeta: QuadraticExtension,
) -> (r: Result<(ProverState<C>, ProverAction<C, P>), ProverError>)
    ensures
        outcome_view(r) == zeta_drawn_spec::<C, P>(
            *config,
            shape,
            trace_cap,
            chunk_views(trace_polys@),
            chunk_views(quotient_chunks@),
            zeta@,
        ),
{
    if shape.degree_bits > TWO_ADICITY {
        return Err(ProverError::MalformedEvent);
    }
    // The opening points `zeta` and `g * zeta` must not be rows of the trace,
    // or the openings would show cells of it. It is enough to test `zeta`.
    match check_opening_point(zeta, shape.degree_bits) {
        Err(_) => {
            return Err(ProverError::OpeningPointInSubgroup);
        },
        Ok(_) => {},
    }
    let g = Felt::primitive_root_of_unity(shape.degree_bits);
    let openings = StarkOpeningSet::new(zeta, g, &trace_polys, &quotient_chunks);
    Ok(
        (
            ProverState::Opening { trace_cap, openings },
            ProverAction::ProveOpenings {
                zeta,
                g,
                degree_bits: shape.degree_bits,
                rate_bits: config.rate_bits,
            },
        ),
    )
}

/// One step of a proving run.
///
/// From `ProverState::Start` and `ProverEvent::Started` on, each call gives
/// the work that is to be done elsewhere and the stage at which its result is
/// awaited; the step that is brought the low-degree proof gives the proof.
pub fn prove<S: Stark, C, P>(
    stark: &S,
    config: &StarkConfig,
    state: ProverState<C>,
    event: ProverEvent<C, P>,
) -> (r: Result<(ProverState<C>, ProverAction<C, P>), ProverError>)
    ensures
        outcome_view(r) == prove_spec(stark, *config, state@, event@),
{
    match (state, event) {
        (ProverState::Start { trace }, ProverEvent::Started) => start(stark, config, trace),
        (
            ProverState::CommittingTrace { shape },
            ProverEvent::TraceCommitted { cap, polynomials, lde_values },
        ) => trace_committed(stark, config, shape, cap, polynomials, lde_values),
        (
            ProverState::DrawingAlphas { shape, trace_cap, trace_polys, trace_lde },
            ProverEvent::AlphasDrawn { alphas, lagrange_first, lagrange_last },
        ) => alphas_drawn(
            stark,
            config,
            shape,
            trace_cap,
            trace_polys,
            trace_lde,
            alphas,
            lagrange_first,
            lagrange_last,
        ),
        (
            ProverState::Interpolating { shape, trace_cap, trace_polys },
            ProverEvent::QuotientInterpolated { quotient_polys },
        ) => quotient_interpolated(config, shape, trace_cap, trace_polys, quotient_polys),
        (
            ProverState::CommittingQuotient { shape, trace_cap, trace_polys },
            ProverEvent::QuotientCommitted { polynomials },
        ) => Ok(
            (
                ProverState::DrawingZeta {
                    shape,
                    trace_cap,
                    trace_polys,
                    quotient_chunks: polynomials,
                },
                ProverAction::ObserveQuotientCapAndDrawZeta,
            ),
        ),
        (
            ProverState::DrawingZeta { shape, trace_cap, trace_polys, quotient_chunks },
            ProverEvent::ZetaDrawn { zeta },
        ) => zeta_drawn(config, shape, trace_cap, trace_polys, quotient_chunks, zeta),
        (
            ProverState::Opening { trace_cap, openings },
            ProverEvent::OpeningsProved { opening_proof },
        ) => Ok(
            (
                ProverState::Finished,
                ProverAction::Finish { proof: StarkProof { trace_cap, openings, opening_proof } },
            ),
        ),
        _ => Err(ProverError::UnexpectedEvent),
    }
}

/// A step is determined by the table, the parameters, the stage and the
/// event: two steps that agree in these agree in their outcome.
pub proof fn lemma_prove_deterministic<S: Stark, C, P>(
    stark: &S,
    config: StarkConfig,
    state_1: ProverState<C>,
    event_1: ProverEvent<C, P>,
    outcome_1: Result<(ProverState<C>, ProverAction<C, P>), ProverError>,
    state_2: ProverState<C>,
    event_2: ProverEvent<C, P>,
    outcome_2: Result<(ProverState<C>, ProverAction<C, P>), ProverError>,
)
    requires
        state_1@ == state_2@,
        event_1@ == event_2@,
        outcome_view(outcome_1) == prove_spec(stark, config, state_1@, event_1@),
        outcome_view(outcome_2) == prove_spec(stark, config, state_2@, event_2@),
    ensures
        outcome_view(outcome_1) == outcome_view(outcome_2),
{
}

} // verus!
