use starkcore::constraint_consumer::ConstraintConsumer;
use starkcore::extension::QuadraticExtension;
use starkcore::field::{Felt, ORDER};
use starkcore::opening::{check_opening_point, eval_commitment, OpeningError, StarkOpeningSet};
use starkcore::polynomial::PolynomialCoeffs;
use starkcore::quotient::{
    check_quotient, compute_quotient_polys, eval_constraints_at, quotient_chunks, DomainTables,
    QuotientError,
};
use starkcore::stark::{CounterStark, Stark};

fn f(n: u64) -> Felt {
    Felt::new(n)
}

fn fs(v: &[u64]) -> Vec<Felt> {
    v.iter().map(|&c| f(c)).collect()
}

fn poly(coeffs: &[u64]) -> PolynomialCoeffs {
    PolynomialCoeffs::new(fs(coeffs))
}

fn values(p: &PolynomialCoeffs) -> Vec<u64> {
    p.coeffs.iter().map(|c| c.to_canonical_u64()).collect()
}

fn inverse(a: Felt) -> Felt {
    let mut result = Felt::one();
    let mut base = a;
    let mut e = ORDER - 2;
    while e > 0 {
        if e & 1 == 1 {
            result = result.mul(base);
        }
        base = base.square();
        e >>= 1;
    }
    result
}

#[test]
fn counter_stark_has_one_column_and_one_public_input() {
    let s = CounterStark {};
    assert_eq!(s.num_columns(), 1);
    assert_eq!(s.num_public_inputs(), 1);
}

#[test]
fn counter_stark_emits_its_two_constraints() {
    let s = CounterStark {};
    let mut c = ConstraintConsumer::new(f(2), f(3), f(10), f(100));
    s.eval_packed_base(&fs(&[5]), &fs(&[9]), &fs(&[1]), &mut c);
    // first row: (5 - 1) * 10 = 40; transition: (9 - 5 - 1) * 3 = 9
    assert_eq!(c.accumulator().to_canonical_u64(), 40 * 2 + 9);
    let mut ok = ConstraintConsumer::new(f(2), f(3), f(10), f(100));
    s.eval_packed_base(&fs(&[5]), &fs(&[6]), &fs(&[5]), &mut ok);
    assert!(ok.accumulator().is_zero());
}

#[test]
fn quotient_values_fold_the_constraints_and_divide() {
    let s = CounterStark {};
    let trace_lde = vec![fs(&[5]), fs(&[9])];
    let domain = DomainTables {
        lagrange_first: fs(&[1, 0]),
        lagrange_last: fs(&[0, 1]),
        z_last: fs(&[3, 4]),
        z_h_inverse: fs(&[1, 2]),
    };
    let q = compute_quotient_polys(&s, &trace_lde, &fs(&[2, 10]), &domain);
    assert_eq!(q.len(), 2);
    assert_eq!(q[0].len(), 2);
    // Point 0: first row (5 - 0) * 1, transition (9 - 5 - 1) * 3.
    assert_eq!(q[0][0].to_canonical_u64(), 5 * 2 + 9);
    assert_eq!(q[1][0].to_canonical_u64(), 5 * 10 + 9);
    // Point 1: the next row is the first. First row 9 * 0, transition
    // (5 - 9 - 1) * 4 = -20, over Z_H: times 2.
    assert_eq!(q[0][1].to_canonical_u64(), ORDER - 40);
    assert_eq!(q[1][1].to_canonical_u64(), ORDER - 40);
}

#[test]
fn quotient_values_of_no_weights_and_no_points() {
    let s = CounterStark {};
    let empty = DomainTables {
        lagrange_first: vec![],
        lagrange_last: vec![],
        z_last: vec![],
        z_h_inverse: vec![],
    };
    let q = compute_quotient_polys(&s, &vec![], &fs(&[2]), &empty);
    assert_eq!(q.len(), 1);
    assert_eq!(q[0].len(), 0);
    let domain = DomainTables {
        lagrange_first: fs(&[1]),
        lagrange_last: fs(&[1]),
        z_last: fs(&[1]),
        z_h_inverse: fs(&[1]),
    };
    let none = compute_quotient_polys(&s, &vec![fs(&[5])], &vec![], &domain);
    assert_eq!(none.len(), 0);
}

#[test]
fn division_by_z_h_can_be_undone() {
    // Dividing and multiplying again gives the constraint value back.
    let mut x = 0x9e37_79b9_7f4a_7c15u64;
    for _ in 0..20 {
        x = x.wrapping_mul(6364136223846793005).wrapping_add(1442695040888963407);
        let value = f(x);
        let z_h = f(x >> 7).add(Felt::one());
        if z_h.is_zero() {
            continue;
        }
        let quotient = value.mul(inverse(z_h));
        assert!(quotient.mul(z_h).equals(value));
    }
}

#[test]
fn quotient_chunks_trim_pad_and_cut() {
    let polys = vec![poly(&[1, 2, 3, 0, 0, 0, 0, 0]), poly(&[7, 0, 0, 0, 9, 0, 0, 0])];
    let chunks = quotient_chunks(polys, 4, 8).unwrap();
    assert_eq!(chunks.len(), 4);
    assert_eq!(values(&chunks[0]), vec![1, 2, 3, 0]);
    assert_eq!(values(&chunks[1]), vec![0, 0, 0, 0]);
    assert_eq!(values(&chunks[2]), vec![7, 0, 0, 0]);
    assert_eq!(values(&chunks[3]), vec![9, 0, 0, 0]);
}

#[test]
fn quotient_chunks_pad_short_polynomials() {
    let chunks = quotient_chunks(vec![poly(&[5])], 2, 4).unwrap();
    assert_eq!(chunks.len(), 2);
    assert_eq!(values(&chunks[0]), vec![5, 0]);
    assert_eq!(values(&chunks[1]), vec![0, 0]);
    let none = quotient_chunks(vec![], 2, 4).unwrap();
    assert_eq!(none.len(), 0);
}

#[test]
fn quotient_chunks_refuse_a_quotient_that_is_too_long() {
    let polys = vec![poly(&[1, 2]), poly(&[1, 2, 3, 4, 5])];
    assert_eq!(quotient_chunks(polys, 2, 4).unwrap_err(), QuotientError::NotDivisible);
    // Zeros at the end do not count.
    let fits = vec![poly(&[1, 2, 3, 4, 0, 0])];
    assert!(quotient_chunks(fits, 2, 4).is_ok());
}

#[test]
fn check_quotient_accepts_an_exact_division() {
    // Z_H(x) = x^2 - 1, quotient x + 3, constraint values (x + 3)(x^2 - 1).
    let quotient = poly(&[3, 1]);
    let points = fs(&[2, 5, 7, 1, ORDER - 1]);
    let z_h: Vec<Felt> = points.iter().map(|x| x.square().sub(Felt::one())).collect();
    let constraint_values: Vec<Felt> =
        points.iter().zip(&z_h).map(|(x, z)| x.add(f(3)).mul(*z)).collect();
    assert!(check_quotient(&quotient, &points, &constraint_values, &z_h));
    assert!(check_quotient(&quotient, &vec![], &vec![], &vec![]));
}

#[test]
fn check_quotient_refuses_a_violated_constraint() {
    let quotient = poly(&[3, 1]);
    let points = fs(&[2, 5, 7, 1, ORDER - 1]);
    let z_h: Vec<Felt> = points.iter().map(|x| x.square().sub(Felt::one())).collect();
    let mut constraint_values: Vec<Felt> =
        points.iter().zip(&z_h).map(|(x, z)| x.add(f(3)).mul(*z)).collect();
    // The constraint is violated on the row at x = 1, where Z_H vanishes.
    constraint_values[3] = f(1);
    assert!(!check_quotient(&quotient, &points, &constraint_values, &z_h));
    // No other quotient passes either.
    for q in [poly(&[]), poly(&[1]), poly(&[0, 0, 1]), poly(&[9, 8, 7, 6])] {
        assert!(!check_quotient(&q, &points, &constraint_values, &z_h));
    }
}

#[test]
fn check_quotient_refuses_a_wrong_quotient() {
    let points = fs(&[2, 5]);
    let z_h = fs(&[3, 24]);
    let constraint_values = fs(&[15, 192]);
    assert!(check_quotient(&poly(&[3, 1]), &points, &constraint_values, &z_h));
    assert!(!check_quotient(&poly(&[3, 2]), &points, &constraint_values, &z_h));
}

#[test]
fn eval_commitment_evaluates_each_polynomial() {
    let z = QuadraticExtension::new(f(0), f(1));
    let v = eval_commitment(z, &vec![poly(&[1, 2, 3]), poly(&[]), poly(&[4])]);
    assert_eq!(v.len(), 3);
    assert_eq!(v[0].c0.to_canonical_u64(), 22);
    assert_eq!(v[0].c1.to_canonical_u64(), 2);
    assert!(v[1].equals(QuadraticExtension::zero()));
    assert!(v[2].equals(QuadraticExtension::from_base(f(4))));
}

#[test]
fn opening_set_holds_values_at_zeta_and_at_the_next_point() {
    let zeta = QuadraticExtension::new(f(3), f(1));
    let g = f(ORDER - 1);
    let trace = vec![poly(&[1, 1]), poly(&[0, 0, 1])];
    let quotient = vec![poly(&[5])];
    let o = StarkOpeningSet::new(zeta, g, &trace, &quotient);
    assert_eq!(o.local_values.len(), 2);
    assert_eq!(o.next_values.len(), 2);
    assert_eq!(o.quotient_polys.len(), 1);
    // 1 + zeta
    assert!(o.local_values[0].equals(QuadraticExtension::new(f(4), f(1))));
    // zeta^2 = 9 + 6X + 7
    assert!(o.local_values[1].equals(QuadraticExtension::new(f(16), f(6))));
    // 1 - zeta
    assert!(o.next_values[0].equals(QuadraticExtension::new(f(ORDER - 2), f(ORDER - 1))));
    // (-zeta)^2
    assert!(o.next_values[1].equals(QuadraticExtension::new(f(16), f(6))));
    assert!(o.quotient_polys[0].equals(QuadraticExtension::from_base(f(5))));
}

#[test]
fn opening_points_among_the_rows_are_refused() {
    for degree_bits in 0..=10usize {
        let g = Felt::primitive_root_of_unity(degree_bits);
        let mut point = Felt::one();
        for _ in 0..(1usize << degree_bits).min(64) {
            let zeta = QuadraticExtension::from_base(point);
            assert_eq!(
                check_opening_point(zeta, degree_bits),
                Err(OpeningError::PointInSubgroup)
            );
            point = point.mul(g);
        }
    }
}

#[test]
fn roots_of_unity_of_smaller_order_are_refused() {
    // A root of order 2^3 is a root of order dividing 2^k for every k >= 3.
    let zeta = QuadraticExtension::from_base(Felt::primitive_root_of_unity(3));
    assert!(check_opening_point(zeta, 2).is_ok());
    for degree_bits in 3..=32usize {
        assert!(check_opening_point(zeta, degree_bits).is_err());
    }
}

#[test]
fn roots_of_unity_of_larger_order_are_accepted() {
    // An element of the extension of order 2^33.
    let h = QuadraticExtension::new(f(0), f(7226896044987257365));
    assert!(h.exp_power_of_2(33).is_one());
    assert!(!h.exp_power_of_2(32).is_one());
    assert!(check_opening_point(h, 32).is_ok());
    assert!(check_opening_point(h.square(), 32).is_err());
    assert!(check_opening_point(h.square(), 31).is_ok());
}

#[test]
fn points_off_the_rows_are_accepted() {
    for degree_bits in 0..=12usize {
        assert!(check_opening_point(QuadraticExtension::from_base(f(2)), degree_bits).is_ok());
        assert!(check_opening_point(QuadraticExtension::new(f(0), f(1)), degree_bits).is_ok());
        assert!(check_opening_point(QuadraticExtension::new(f(1), f(1)), degree_bits).is_ok());
        assert!(check_opening_point(QuadraticExtension::zero(), degree_bits).is_ok());
    }
}

#[test]
fn constraints_at_a_point_use_the_public_inputs() {
    let s = CounterStark {};
    let trace_lde = vec![fs(&[5]), fs(&[9])];
    let domain = DomainTables {
        lagrange_first: fs(&[1, 0]),
        lagrange_last: fs(&[0, 1]),
        z_last: fs(&[3, 4]),
        z_h_inverse: fs(&[1, 2]),
    };
    // Point 0: first row (5 - 2) * 1, transition (9 - 5 - 1) * 3.
    let at_0 = eval_constraints_at(&s, &trace_lde, &fs(&[2]), f(10), &domain, 0);
    assert_eq!(at_0.to_canonical_u64(), 3 * 10 + 9);
    // Point 1: the next row is the first; (5 - 9 - 1) * 4.
    let at_1 = eval_constraints_at(&s, &trace_lde, &fs(&[2]), f(10), &domain, 1);
    assert_eq!(at_1.to_canonical_u64(), ORDER - 20);
}

#[test]
fn quotient_chunks_give_the_value_of_the_quotient_back() {
    let coeffs = [3u64, 1, 4, 1, 5, 9, 2, 6, 0, 0, 0, 0];
    let x = f(0x0123_4567_89ab_cdef);
    let whole = poly(&coeffs).eval(x);
    for (degree, padded_len) in [(16usize, 16usize), (8, 16), (4, 8), (4, 16), (3, 9), (8, 8)] {
        let chunks = quotient_chunks(vec![poly(&coeffs)], degree, padded_len).unwrap();
        let mut sum = Felt::zero();
        let mut power = Felt::one();
        let mut step = Felt::one();
        for _ in 0..degree {
            step = step.mul(x);
        }
        for chunk in &chunks {
            assert_eq!(chunk.len(), degree);
            sum = sum.add(chunk.eval(x).mul(power));
            power = power.mul(step);
        }
        assert!(sum.equals(whole));
    }
}
