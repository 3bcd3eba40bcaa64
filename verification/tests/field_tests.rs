use starkcore::extension::QuadraticExtension;
use starkcore::field::{Felt, MULTIPLICATIVE_GROUP_GENERATOR, ORDER, TWO_ADICITY};

fn f(n: u64) -> Felt {
    Felt::new(n)
}

#[test]
fn new_reduces_modulo_the_order() {
    assert_eq!(f(ORDER).to_canonical_u64(), 0);
    assert_eq!(f(ORDER + 5).to_canonical_u64(), 5);
    assert_eq!(f(u64::MAX).to_canonical_u64(), u64::MAX - ORDER);
    assert_eq!(Felt::from_canonical_usize(17).to_canonical_u64(), 17);
    assert_eq!(Felt::from_canonical_u64(ORDER - 1).to_canonical_u64(), ORDER - 1);
}

#[test]
fn zero_and_one() {
    assert_eq!(Felt::zero().to_canonical_u64(), 0);
    assert_eq!(Felt::one().to_canonical_u64(), 1);
    assert!(Felt::zero().is_zero());
    assert!(!Felt::one().is_zero());
    assert!(Felt::one().is_one());
    assert!(f(ORDER + 1).is_one());
}

#[test]
fn addition_wraps_at_the_order() {
    assert_eq!(f(2).add(f(3)).to_canonical_u64(), 5);
    assert_eq!(f(ORDER - 1).add(f(1)).to_canonical_u64(), 0);
    assert_eq!(f(ORDER - 1).add(f(ORDER - 1)).to_canonical_u64(), ORDER - 2);
}

#[test]
fn subtraction_wraps_below_zero() {
    assert_eq!(f(5).sub(f(3)).to_canonical_u64(), 2);
    assert_eq!(f(0).sub(f(1)).to_canonical_u64(), ORDER - 1);
    assert_eq!(f(3).sub(f(5)).to_canonical_u64(), ORDER - 2);
    assert_eq!(f(7).sub(f(7)).to_canonical_u64(), 0);
}

#[test]
fn negation() {
    assert_eq!(f(0).neg().to_canonical_u64(), 0);
    assert_eq!(f(1).neg().to_canonical_u64(), ORDER - 1);
    assert_eq!(f(ORDER - 1).neg().to_canonical_u64(), 1);
}

#[test]
fn multiplication_of_large_elements() {
    assert_eq!(f(6).mul(f(7)).to_canonical_u64(), 42);
    // (-1) * (-1) = 1
    assert_eq!(f(ORDER - 1).mul(f(ORDER - 1)).to_canonical_u64(), 1);
    // 2^32 * 2^32 = 2^64 = 2^32 - 1 modulo the order
    assert_eq!(f(1 << 32).mul(f(1 << 32)).to_canonical_u64(), (1u64 << 32) - 1);
    assert_eq!(f(5).square().to_canonical_u64(), 25);
}

#[test]
fn equality_is_equality_of_elements() {
    assert!(f(3).equals(f(3)));
    assert!(f(3).equals(f(ORDER + 3)));
    assert!(!f(3).equals(f(4)));
    assert_eq!(f(3), f(ORDER + 3));
}

#[test]
fn exp_power_of_2_squares_repeatedly() {
    assert_eq!(f(3).exp_power_of_2(0).to_canonical_u64(), 3);
    assert_eq!(f(3).exp_power_of_2(1).to_canonical_u64(), 9);
    assert_eq!(f(3).exp_power_of_2(2).to_canonical_u64(), 81);
    assert_eq!(f(2).exp_power_of_2(5).to_canonical_u64(), 1 << 32);
    // 2^64 = 2^32 - 1
    assert_eq!(f(2).exp_power_of_2(6).to_canonical_u64(), (1u64 << 32) - 1);
}

#[test]
fn primitive_roots_of_unity_have_their_order() {
    assert_eq!(Felt::primitive_root_of_unity(0).to_canonical_u64(), 1);
    assert_eq!(Felt::primitive_root_of_unity(1).to_canonical_u64(), ORDER - 1);
    let mut n_log = 1;
    while n_log <= TWO_ADICITY {
        let g = Felt::primitive_root_of_unity(n_log);
        assert!(g.exp_power_of_2(n_log).is_one());
        assert_eq!(g.exp_power_of_2(n_log - 1).to_canonical_u64(), ORDER - 1);
        n_log += 1;
    }
}

#[test]
fn coset_shift_is_the_group_generator() {
    assert_eq!(Felt::coset_shift().to_canonical_u64(), MULTIPLICATIVE_GROUP_GENERATOR);
    assert_eq!(Felt::coset_shift().to_canonical_u64(), 14293326489335486720);
}

#[test]
fn extension_multiplication_uses_x_squared_is_seven() {
    let a = QuadraticExtension::new(f(1), f(2));
    let b = QuadraticExtension::new(f(3), f(4));
    let p = a.mul(b);
    // (1 + 2X)(3 + 4X) = 3 + 10X + 8 * 7
    assert_eq!(p.c0.to_canonical_u64(), 59);
    assert_eq!(p.c1.to_canonical_u64(), 10);
    let x = QuadraticExtension::new(f(0), f(1));
    let x2 = x.square();
    assert_eq!(x2.c0.to_canonical_u64(), 7);
    assert_eq!(x2.c1.to_canonical_u64(), 0);
}

#[test]
fn extension_addition_and_subtraction() {
    let a = QuadraticExtension::new(f(1), f(2));
    let b = QuadraticExtension::new(f(3), f(ORDER - 1));
    let s = a.add(b);
    assert_eq!(s.c0.to_canonical_u64(), 4);
    assert_eq!(s.c1.to_canonical_u64(), 1);
    let d = a.sub(b);
    assert_eq!(d.c0.to_canonical_u64(), ORDER - 2);
    assert_eq!(d.c1.to_canonical_u64(), 3);
    let m = a.scalar_mul(f(5));
    assert_eq!(m.c0.to_canonical_u64(), 5);
    assert_eq!(m.c1.to_canonical_u64(), 10);
}

#[test]
fn extension_identities() {
    assert!(QuadraticExtension::one().is_one());
    assert!(!QuadraticExtension::zero().is_one());
    assert!(!QuadraticExtension::new(f(1), f(1)).is_one());
    let e = QuadraticExtension::from_base(f(9));
    assert_eq!(e.c0.to_canonical_u64(), 9);
    assert_eq!(e.c1.to_canonical_u64(), 0);
    let a = QuadraticExtension::new(f(11), f(13));
    assert!(a.mul(QuadraticExtension::one()).equals(a));
    assert!(a.add(QuadraticExtension::zero()).equals(a));
}

#[test]
fn extension_exp_power_of_2() {
    let x = QuadraticExtension::new(f(0), f(1));
    // X^4 = 49
    let p = x.exp_power_of_2(2);
    assert_eq!(p.c0.to_canonical_u64(), 49);
    assert_eq!(p.c1.to_canonical_u64(), 0);
    assert!(x.exp_power_of_2(0).equals(x));
}
