use starkcore::constraint_consumer::ConstraintConsumer;
use starkcore::field::{Felt, ORDER};

fn f(n: u64) -> Felt {
    Felt::new(n)
}

#[test]
fn a_new_consumer_holds_zero() {
    let c = ConstraintConsumer::new(f(3), f(10), f(100), f(1000));
    assert_eq!(c.accumulator().to_canonical_u64(), 0);
}

#[test]
fn constraints_are_folded_with_powers_of_alpha() {
    let mut c = ConstraintConsumer::new(f(3), f(10), f(100), f(1000));
    c.constraint(f(5));
    assert_eq!(c.accumulator().to_canonical_u64(), 5);
    c.constraint(f(7));
    // 5 * 3 + 7
    assert_eq!(c.accumulator().to_canonical_u64(), 22);
    c.constraint(f(1));
    // 5 * 9 + 7 * 3 + 1
    assert_eq!(c.accumulator().to_canonical_u64(), 67);
}

#[test]
fn transition_constraints_are_weighted_by_z_last() {
    let mut c = ConstraintConsumer::new(f(3), f(10), f(100), f(1000));
    c.constraint(f(5));
    c.constraint_transition(f(2));
    // 5 * 3 + 2 * 10
    assert_eq!(c.accumulator().to_canonical_u64(), 35);
}

#[test]
fn boundary_constraints_are_weighted_by_their_selectors() {
    let mut c = ConstraintConsumer::new(f(3), f(10), f(100), f(1000));
    c.constraint_first_row(f(2));
    assert_eq!(c.accumulator().to_canonical_u64(), 200);
    c.constraint_last_row(f(4));
    // 200 * 3 + 4 * 1000
    assert_eq!(c.accumulator().to_canonical_u64(), 4600);
}

#[test]
fn folding_is_linear_in_the_constraints() {
    // Folding a + b gives the sum of folding a and folding b.
    let alpha = f(123456789);
    let a = [f(5), f(ORDER - 3), f(77)];
    let b = [f(11), f(2), f(ORDER - 1)];
    let mut ca = ConstraintConsumer::new(alpha, f(1), f(1), f(1));
    let mut cb = ConstraintConsumer::new(alpha, f(1), f(1), f(1));
    let mut cs = ConstraintConsumer::new(alpha, f(1), f(1), f(1));
    for i in 0..3 {
        ca.constraint(a[i]);
        cb.constraint(b[i]);
        cs.constraint(a[i].add(b[i]));
    }
    assert!(cs.accumulator().equals(ca.accumulator().add(cb.accumulator())));
}

#[test]
fn satisfied_constraints_leave_zero() {
    let mut c = ConstraintConsumer::new(f(987654321), f(10), f(100), f(1000));
    c.constraint(f(0));
    c.constraint_transition(f(0));
    c.constraint_first_row(f(0));
    c.constraint_last_row(f(0));
    assert!(c.accumulator().is_zero());
}
