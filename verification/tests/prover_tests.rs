use starkcore::extension::QuadraticExtension;
use starkcore::field::{Felt, ORDER};
use starkcore::opening::StarkProof;
use starkcore::polynomial::PolynomialCoeffs;
use starkcore::prover::{
    check_power_of_two, prove, rows_all_have_len, transpose, ProverAction, ProverError,
    ProverEvent, ProverState, StarkConfig, TraceShape,
};
use starkcore::stark::CounterStark;

type Cap = u64;
type Fri = Vec<u8>;
type Step = Result<(ProverState<Cap>, ProverAction<Cap, Fri>), ProverError>;

fn f(n: u64) -> Felt {
    Felt::new(n)
}

fn fs(v: &[u64]) -> Vec<Felt> {
    v.iter().map(|&c| f(c)).collect()
}

fn inverse(a: Felt) -> Felt {
    let mut result = Felt::one();
    let mut base = a;
    let mut e = ORDER - 2;
    while e > 0 {
        if e & 1 == 1 {
            result = result.mul(base);
        }
        base = base.square();
        e >>= 1;
    }
    result
}

fn config(rate_bits: usize) -> StarkConfig {
    StarkConfig { security_bits: 100, num_challenges: 2, rate_bits, cap_height: 1 }
}

fn counter_trace(rows: usize) -> Vec<Vec<Felt>> {
    (0..rows).map(|i| vec![f(i as u64)]).collect()
}

fn step(config: &StarkConfig, state: ProverState<Cap>, event: ProverEvent<Cap, Fri>) -> Step {
    prove(&CounterStark {}, config, state, event)
}

fn begin(config: &StarkConfig, trace: Vec<Vec<Felt>>) -> Step {
    step(config, ProverState::Start { trace }, ProverEvent::Started)
}

fn error_of(s: Step) -> ProverError {
    match s {
        Err(e) => e,
        Ok(_) => panic!("the step went through"),
    }
}

#[test]
fn power_of_two_test() {
    assert!(check_power_of_two(1));
    assert!(check_power_of_two(2));
    assert!(check_power_of_two(1024));
    assert!(check_power_of_two(1 << 40));
    assert!(!check_power_of_two(0));
    assert!(!check_power_of_two(3));
    assert!(!check_power_of_two(6));
    assert!(!check_power_of_two(1023));
    assert!(!check_power_of_two((1 << 40) + 1));
}

#[test]
fn rows_width_test() {
    assert!(rows_all_have_len(&vec![fs(&[1, 2]), fs(&[3, 4])], 2));
    assert!(!rows_all_have_len(&vec![fs(&[1, 2]), fs(&[3])], 2));
    assert!(rows_all_have_len(&vec![], 7));
}

#[test]
fn transpose_turns_rows_into_columns() {
    let t = transpose(&vec![fs(&[1, 2, 3]), fs(&[4, 5, 6])], 3);
    assert_eq!(t.len(), 3);
    let got: Vec<Vec<u64>> =
        t.iter().map(|c| c.iter().map(|x| x.to_canonical_u64()).collect()).collect();
    assert_eq!(got, vec![vec![1, 4], vec![2, 5], vec![3, 6]]);
    assert_eq!(transpose(&vec![], 2).len(), 2);
    assert_eq!(transpose(&vec![vec![], vec![]], 0).len(), 0);
}

#[test]
fn the_first_step_measures_the_trace() {
    for (rows, bits) in [(1usize, 0usize), (2, 1), (4, 2), (8, 3), (1024, 10)] {
        match begin(&config(1), counter_trace(rows)) {
            Ok((
                ProverState::CommittingTrace { shape },
                ProverAction::CommitTrace { columns, rate_bits, cap_height },
            )) => {
                assert_eq!(
                    shape,
                    TraceShape { degree: rows, degree_bits: bits, extended_len: 2 * rows }
                );
                assert_eq!(rate_bits, 1);
                assert_eq!(cap_height, 1);
                assert_eq!(columns.len(), 1);
                assert_eq!(columns[0].len(), rows);
                for i in 0..rows {
                    assert_eq!(columns[0][i].to_canonical_u64(), i as u64);
                }
            },
            _ => panic!("the trace was refused"),
        }
    }
}

#[test]
fn the_extended_domain_has_two_to_the_rate_bits_points_per_row() {
    match begin(&config(3), counter_trace(4)) {
        Ok((ProverState::CommittingTrace { shape }, _)) => {
            assert_eq!(shape.extended_len, 32);
            assert_eq!(shape.degree_bits, 2);
        },
        _ => panic!("the trace was refused"),
    }
}

#[test]
fn an_empty_trace_is_refused() {
    assert_eq!(error_of(begin(&config(1), vec![])), ProverError::EmptyTrace);
}

#[test]
fn a_row_of_the_wrong_width_is_refused() {
    let trace = vec![fs(&[0]), fs(&[1, 2])];
    assert_eq!(error_of(begin(&config(1), trace)), ProverError::ColumnCountMismatch);
    let empty_rows = vec![vec![], vec![]];
    assert_eq!(error_of(begin(&config(1), empty_rows)), ProverError::ColumnCountMismatch);
}

#[test]
fn a_trace_whose_length_is_no_power_of_two_is_refused() {
    for rows in [3usize, 5, 6, 7, 12, 1000] {
        assert_eq!(
            error_of(begin(&config(1), counter_trace(rows))),
            ProverError::TraceLengthNotPowerOfTwo
        );
    }
}

#[test]
fn a_domain_beyond_the_two_adicity_is_refused() {
    assert_eq!(error_of(begin(&config(33), counter_trace(1))), ProverError::DomainTooLarge);
    assert_eq!(error_of(begin(&config(31), counter_trace(4))), ProverError::DomainTooLarge);
    assert_eq!(error_of(begin(&config(usize::MAX), counter_trace(2))), ProverError::DomainTooLarge);
    assert!(begin(&config(30), counter_trace(4)).is_ok());
}

#[test]
fn an_event_of_another_stage_is_refused() {
    let c = config(1);
    let s = step(
        &c,
        ProverState::Start { trace: counter_trace(2) },
        ProverEvent::ZetaDrawn { zeta: QuadraticExtension::from_base(f(5)) },
    );
    assert_eq!(error_of(s), ProverError::UnexpectedEvent);
    let shape = TraceShape { degree: 2, degree_bits: 1, extended_len: 4 };
    let s = step(&c, ProverState::CommittingTrace { shape }, ProverEvent::Started);
    assert_eq!(error_of(s), ProverError::UnexpectedEvent);
    let s = step(&c, ProverState::Finished, ProverEvent::Started);
    assert_eq!(error_of(s), ProverError::UnexpectedEvent);
    let s = step(
        &c,
        ProverState::Finished,
        ProverEvent::OpeningsProved { opening_proof: vec![1] },
    );
    assert_eq!(error_of(s), ProverError::UnexpectedEvent);
}

#[test]
fn a_commitment_of_the_wrong_shape_is_refused() {
    let c = config(1);
    let shape = TraceShape { degree: 2, degree_bits: 1, extended_len: 4 };
    let p = || vec![PolynomialCoeffs::new(fs(&[0, 1]))];
    let good = vec![fs(&[1]), fs(&[2]), fs(&[3]), fs(&[4])];
    let ok = step(
        &c,
        ProverState::CommittingTrace { shape },
        ProverEvent::TraceCommitted { cap: 1, polynomials: p(), lde_values: good.clone() },
    );
    match ok {
        Ok((
            ProverState::DrawingAlphas { trace_cap, trace_lde, .. },
            ProverAction::ObserveTraceCapAndDrawAlphas { num_challenges },
        )) => {
            assert_eq!(trace_cap, 1);
            assert_eq!(trace_lde.len(), 4);
            assert_eq!(num_challenges, 2);
        },
        _ => panic!("the commitment was refused"),
    }
    let short = step(
        &c,
        ProverState::CommittingTrace { shape },
        ProverEvent::TraceCommitted { cap: 1, polynomials: p(), lde_values: good[..3].to_vec() },
    );
    assert_eq!(error_of(short), ProverError::MalformedEvent);
    let wide = vec![fs(&[1]), fs(&[2, 2]), fs(&[3]), fs(&[4])];
    let ragged = step(
        &c,
        ProverState::CommittingTrace { shape },
        ProverEvent::TraceCommitted { cap: 1, polynomials: p(), lde_values: wide },
    );
    assert_eq!(error_of(ragged), ProverError::MalformedEvent);
    let no_polys = step(
        &c,
        ProverState::CommittingTrace { shape },
        ProverEvent::TraceCommitted { cap: 1, polynomials: vec![], lde_values: good },
    );
    assert_eq!(error_of(no_polys), ProverError::MalformedEvent);
}

#[test]
fn weights_of_the_wrong_number_are_refused() {
    let c = config(0);
    let shape = TraceShape { degree: 2, degree_bits: 1, extended_len: 2 };
    let state = || ProverState::DrawingAlphas {
        shape,
        trace_cap: 1,
        trace_polys: vec![PolynomialCoeffs::new(fs(&[0, 1]))],
        trace_lde: vec![fs(&[1]), fs(&[2])],
    };
    let event = |alphas: &[u64], first: usize, last: usize| ProverEvent::AlphasDrawn {
        alphas: fs(alphas),
        lagrange_first: vec![f(1); first],
        lagrange_last: vec![f(1); last],
    };
    assert_eq!(error_of(step(&c, state(), event(&[5], 2, 2))), ProverError::MalformedEvent);
    assert_eq!(error_of(step(&c, state(), event(&[5, 6], 1, 2))), ProverError::MalformedEvent);
    assert_eq!(error_of(step(&c, state(), event(&[5, 6], 2, 3))), ProverError::MalformedEvent);
    assert!(step(&c, state(), event(&[5, 6], 2, 2)).is_ok());
    // A stage whose domain is beyond the two-adicity of the field.
    let deep = ProverState::DrawingAlphas {
        shape: TraceShape { degree: 2, degree_bits: 32, extended_len: 2 },
        trace_cap: 1,
        trace_polys: vec![PolynomialCoeffs::new(fs(&[0, 1]))],
        trace_lde: vec![fs(&[1]), fs(&[2])],
    };
    assert_eq!(error_of(step(&config(1), deep, event(&[5, 6], 2, 2))), ProverError::MalformedEvent);
}

#[test]
fn a_quotient_that_does_not_fit_ends_the_run() {
    let c = config(1);
    let shape = TraceShape { degree: 2, degree_bits: 1, extended_len: 4 };
    let s = step(
        &c,
        ProverState::Interpolating { shape, trace_cap: 1, trace_polys: vec![] },
        ProverEvent::QuotientInterpolated {
            quotient_polys: vec![PolynomialCoeffs::new(fs(&[1, 2, 3, 4, 5]))],
        },
    );
    assert_eq!(error_of(s), ProverError::QuotientNotDivisible);
}

#[test]
fn an_opening_point_among_the_rows_ends_the_run() {
    let c = config(1);
    let shape = TraceShape { degree: 4, degree_bits: 2, extended_len: 8 };
    let state = || ProverState::DrawingZeta {
        shape,
        trace_cap: 1,
        trace_polys: vec![PolynomialCoeffs::new(fs(&[0, 1]))],
        quotient_chunks: vec![PolynomialCoeffs::new(fs(&[3]))],
    };
    let g = Felt::primitive_root_of_unity(2);
    for zeta in [Felt::one(), g, g.square(), g.square().mul(g)] {
        let s = step(
            &c,
            state(),
            ProverEvent::ZetaDrawn { zeta: QuadraticExtension::from_base(zeta) },
        );
        assert_eq!(error_of(s), ProverError::OpeningPointInSubgroup);
    }
    let s = step(
        &c,
        state(),
        ProverEvent::ZetaDrawn { zeta: QuadraticExtension::new(f(5), f(6)) },
    );
    assert!(s.is_ok());
}

/// What the work done elsewhere brings in a run on the counter trace with
/// two rows, with no extension of the domain.
struct Elsewhere {
    config: StarkConfig,
    half: Felt,
    points: Vec<Felt>,
    alphas: Vec<Felt>,
    zeta: QuadraticExtension,
}

impl Elsewhere {
    fn new() -> Elsewhere {
        let shift = Felt::coset_shift();
        let g = Felt::primitive_root_of_unity(1);
        Elsewhere {
            config: config(0),
            half: inverse(f(2)),
            points: vec![shift, shift.mul(g)],
            alphas: fs(&[7, 11]),
            zeta: QuadraticExtension::new(f(123456), f(789)),
        }
    }

    /// The trace polynomial: 0 at 1 and 1 at -1, that is (1 - x) / 2.
    fn trace_poly(&self) -> PolynomialCoeffs {
        PolynomialCoeffs::new(vec![self.half, self.half.neg()])
    }

    /// The Lagrange basis polynomial of the first row, (x + 1) / 2, on the
    /// points of the domain.
    fn lagrange_first(&self) -> Vec<Felt> {
        self.points.iter().map(|x| x.add(f(1)).mul(self.half)).collect()
    }

    /// The Lagrange basis polynomial of the last row, (1 - x) / 2, on the
    /// points of the domain.
    fn lagrange_last(&self) -> Vec<Felt> {
        self.points.iter().map(|x| f(1).sub(*x).mul(self.half)).collect()
    }

    fn alphas_drawn(&self) -> ProverEvent<Cap, Fri> {
        ProverEvent::AlphasDrawn {
            alphas: self.alphas.clone(),
            lagrange_first: self.lagrange_first(),
            lagrange_last: self.lagrange_last(),
        }
    }

    /// The quotient for the weight `alpha`: the constant 1 - alpha / 4.
    fn quotient(&self, alpha: Felt) -> Felt {
        f(1).sub(alpha.mul(inverse(f(4))))
    }

    fn run(&self) -> StarkProof<Cap, Fri> {
        let c = &self.config;
        let (state, action) = begin(c, counter_trace(2)).unwrap();
        match action {
            ProverAction::CommitTrace { columns, rate_bits, cap_height } => {
                assert_eq!(columns.len(), 1);
                assert_eq!(columns[0][0].to_canonical_u64(), 0);
                assert_eq!(columns[0][1].to_canonical_u64(), 1);
                assert_eq!(rate_bits, 0);
                assert_eq!(cap_height, 1);
            },
            _ => panic!("the trace is to be committed to"),
        }
        let t = self.trace_poly();
        let lde_values: Vec<Vec<Felt>> = self.points.iter().map(|x| vec![t.eval(*x)]).collect();
        let (state, action) = step(
            c,
            state,
            ProverEvent::TraceCommitted { cap: 42, polynomials: vec![t], lde_values },
        )
        .unwrap();
        assert!(matches!(
            action,
            ProverAction::ObserveTraceCapAndDrawAlphas { num_challenges: 2 }
        ));
        let (state, action) = step(c, state, self.alphas_drawn()).unwrap();
        let quotient_polys = match action {
            ProverAction::InterpolateQuotient { quotient_values, coset_shift } => {
                assert!(coset_shift.equals(Felt::coset_shift()));
                assert_eq!(quotient_values.len(), 2);
                // The quotient is constant: the constraints are divisible.
                for (k, values) in quotient_values.iter().enumerate() {
                    assert_eq!(values.len(), 2);
                    for v in values {
                        assert!(v.equals(self.quotient(self.alphas[k])));
                    }
                }
                quotient_values
                    .iter()
                    .map(|v| PolynomialCoeffs::new(vec![v[0], Felt::zero()]))
                    .collect()
            },
            _ => panic!("the quotients are to be interpolated"),
        };
        let (state, action) =
            step(c, state, ProverEvent::QuotientInterpolated { quotient_polys }).unwrap();
        let chunks = match action {
            ProverAction::CommitQuotient { chunks, rate_bits, cap_height } => {
                assert_eq!(rate_bits, 0);
                assert_eq!(cap_height, 1);
                assert_eq!(chunks.len(), 2);
                for (k, chunk) in chunks.iter().enumerate() {
                    assert_eq!(chunk.len(), 2);
                    assert!(chunk.coeffs[0].equals(self.quotient(self.alphas[k])));
                    assert!(chunk.coeffs[1].is_zero());
                }
                chunks
            },
            _ => panic!("the quotient chunks are to be committed to"),
        };
        let (state, action) =
            step(c, state, ProverEvent::QuotientCommitted { polynomials: chunks }).unwrap();
        assert!(matches!(action, ProverAction::ObserveQuotientCapAndDrawZeta));
        let (state, action) = step(c, state, ProverEvent::ZetaDrawn { zeta: self.zeta }).unwrap();
        match action {
            ProverAction::ProveOpenings { zeta, g, degree_bits, rate_bits } => {
                assert!(zeta.equals(self.zeta));
                assert_eq!(g.to_canonical_u64(), ORDER - 1);
                assert_eq!(degree_bits, 1);
                assert_eq!(rate_bits, 0);
            },
            _ => panic!("the openings are to be proved"),
        }
        let (state, action) =
            step(c, state, ProverEvent::OpeningsProved { opening_proof: vec![1, 2, 3] }).unwrap();
        assert!(matches!(state, ProverState::Finished));
        match action {
            ProverAction::Finish { proof } => proof,
            _ => panic!("the proof is to be handed out"),
        }
    }
}

#[test]
fn a_run_on_the_counter_trace_gives_a_proof() {
    let e = Elsewhere::new();
    let proof = e.run();
    assert_eq!(proof.trace_cap, 42);
    assert_eq!(proof.opening_proof, vec![1, 2, 3]);
    assert_eq!(proof.openings.local_values.len(), 1);
    assert_eq!(proof.openings.next_values.len(), 1);
    assert_eq!(proof.openings.quotient_polys.len(), 2);
}

#[test]
fn the_openings_of_a_run_meet_the_quotient_identity() {
    let e = Elsewhere::new();
    let proof = e.run();
    let one = QuadraticExtension::one();
    let zeta = e.zeta;
    let local = proof.openings.local_values[0];
    let next = proof.openings.next_values[0];
    // The trace polynomial at zeta and at g * zeta = -zeta.
    assert!(local.equals(one.sub(zeta).scalar_mul(e.half)));
    assert!(next.equals(one.add(zeta).scalar_mul(e.half)));
    let z_h = zeta.square().sub(one);
    let lagrange_first = zeta.add(one).scalar_mul(e.half);
    let z_last = zeta.add(one);
    for k in 0..2 {
        // The constraints at zeta: the first row holds the public input 0,
        // and each row but the last is followed by its value plus one.
        let first = local.mul(lagrange_first);
        let transition = next.sub(local).sub(one).mul(z_last);
        let accumulated = first.scalar_mul(e.alphas[k]).add(transition);
        let quotient = proof.openings.quotient_polys[k];
        assert!(quotient.mul(z_h).equals(accumulated));
    }
}

#[test]
fn two_runs_alike_give_the_same_proof() {
    let a = Elsewhere::new().run();
    let b = Elsewhere::new().run();
    assert_eq!(format!("{:?}", a), format!("{:?}", b));
    assert_eq!(a.trace_cap, b.trace_cap);
    assert_eq!(a.opening_proof, b.opening_proof);
    assert_eq!(a.openings.local_values, b.openings.local_values);
    assert_eq!(a.openings.next_values, b.openings.next_values);
    assert_eq!(a.openings.quotient_polys, b.openings.quotient_polys);
}

#[test]
fn a_trace_that_breaks_a_constraint_has_no_constant_quotient() {
    // The second row holds 2 where 1 is due: on the coset the constraints
    // over Z_H are no longer the values of a constant.
    let e = Elsewhere::new();
    let c = &e.config;
    let trace = vec![fs(&[0]), fs(&[2])];
    let (state, _) = begin(c, trace).unwrap();
    // The trace polynomial is now 1 - x.
    let t = PolynomialCoeffs::new(vec![f(1), f(1).neg()]);
    let lde_values: Vec<Vec<Felt>> = e.points.iter().map(|x| vec![t.eval(*x)]).collect();
    let (state, _) = step(
        c,
        state,
        ProverEvent::TraceCommitted { cap: 42, polynomials: vec![t], lde_values },
    )
    .unwrap();
    let (_, action) = step(c, state, e.alphas_drawn()).unwrap();
    match action {
        ProverAction::InterpolateQuotient { quotient_values, .. } => {
            assert!(!quotient_values[0][0].equals(quotient_values[0][1]));
        },
        _ => panic!("the quotients are to be interpolated"),
    }
}

#[test]
fn a_stage_with_a_broken_shape_is_refused() {
    let c = config(1);
    let no_rows = TraceShape { degree: 0, degree_bits: 0, extended_len: 0 };
    let s = step(
        &c,
        ProverState::Interpolating { shape: no_rows, trace_cap: 1, trace_polys: vec![] },
        ProverEvent::QuotientInterpolated { quotient_polys: vec![] },
    );
    assert_eq!(error_of(s), ProverError::MalformedEvent);
    let too_deep = TraceShape { degree: 2, degree_bits: 33, extended_len: 4 };
    let s = step(
        &c,
        ProverState::DrawingZeta {
            shape: too_deep,
            trace_cap: 1,
            trace_polys: vec![],
            quotient_chunks: vec![],
        },
        ProverEvent::ZetaDrawn { zeta: QuadraticExtension::new(f(5), f(6)) },
    );
    assert_eq!(error_of(s), ProverError::MalformedEvent);
}

#[test]
fn the_stages_follow_each_other() {
    let c = config(1);
    let shape = TraceShape { degree: 2, degree_bits: 1, extended_len: 4 };
    let s = step(
        &c,
        ProverState::CommittingQuotient { shape, trace_cap: 9, trace_polys: vec![] },
        ProverEvent::QuotientCommitted {
            polynomials: vec![PolynomialCoeffs::new(fs(&[1, 2]))],
        },
    );
    match s {
        Ok((
            ProverState::DrawingZeta { shape: kept, trace_cap, quotient_chunks, .. },
            ProverAction::ObserveQuotientCapAndDrawZeta,
        )) => {
            assert_eq!(kept, shape);
            assert_eq!(trace_cap, 9);
            assert_eq!(quotient_chunks.len(), 1);
        },
        _ => panic!("the commitment was refused"),
    }
}
