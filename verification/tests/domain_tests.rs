use starkcore::domain::{
    coset_points, power_of_two, z_h_inverse_table, z_last_table, ZeroPolyOnCoset,
};
use starkcore::field::{Felt, ORDER};

fn f(n: u64) -> Felt {
    Felt::new(n)
}

#[test]
fn exp_u64_multiplies_repeatedly() {
    assert_eq!(f(3).exp_u64(0).to_canonical_u64(), 1);
    assert_eq!(f(3).exp_u64(1).to_canonical_u64(), 3);
    assert_eq!(f(3).exp_u64(5).to_canonical_u64(), 243);
    assert_eq!(f(2).exp_u64(64).to_canonical_u64(), (1u64 << 32) - 1);
    assert_eq!(f(0).exp_u64(0).to_canonical_u64(), 1);
    assert_eq!(f(0).exp_u64(7).to_canonical_u64(), 0);
    // The multiplicative group has ORDER - 1 elements.
    assert_eq!(f(12345).exp_u64(ORDER - 1).to_canonical_u64(), 1);
    assert!(f(7).exp_u64(1 << 20).equals(f(7).exp_power_of_2(20)));
}

#[test]
fn try_inverse_inverts() {
    assert!(f(0).try_inverse().is_none());
    assert!(f(ORDER).try_inverse().is_none());
    assert_eq!(f(1).try_inverse().unwrap().to_canonical_u64(), 1);
    // 2 * (ORDER + 1) / 2 = 1
    assert_eq!(f(2).try_inverse().unwrap().to_canonical_u64(), (ORDER + 1) / 2);
    assert_eq!(f(ORDER - 1).try_inverse().unwrap().to_canonical_u64(), ORDER - 1);
    for a in [3u64, 1 << 32, 0xdead_beef_cafe, ORDER - 2] {
        let inverse = f(a).try_inverse().unwrap();
        assert!(f(a).mul(inverse).is_one());
    }
}

#[test]
fn power_of_two_counts_as_far_as_it_can() {
    assert_eq!(power_of_two(0), Some(1));
    assert_eq!(power_of_two(1), Some(2));
    assert_eq!(power_of_two(10), Some(1024));
    assert_eq!(power_of_two(usize::BITS as usize - 1), Some(1 << (usize::BITS - 1)));
    assert_eq!(power_of_two(usize::BITS as usize), None);
    assert_eq!(power_of_two(usize::MAX), None);
}

#[test]
fn coset_points_are_the_shifted_powers_of_the_generator() {
    let points = coset_points(3, 8);
    assert_eq!(points.len(), 8);
    let w = Felt::primitive_root_of_unity(3);
    let mut x = Felt::coset_shift();
    for p in &points {
        assert!(p.equals(x));
        x = x.mul(w);
    }
    // After the eighth point the coset starts again.
    assert!(x.equals(points[0]));
    assert_eq!(coset_points(0, 0).len(), 0);
}

#[test]
fn zero_poly_is_x_to_the_n_less_one_on_the_coset() {
    for (n_log, rate_bits) in [(0usize, 0usize), (1, 0), (1, 2), (3, 1), (4, 3)] {
        let z = ZeroPolyOnCoset::new(n_log, rate_bits).unwrap();
        let len = 1usize << (n_log + rate_bits);
        let points = coset_points(n_log + rate_bits, len);
        for i in 0..len {
            let expected = points[i].exp_power_of_2(n_log).sub(Felt::one());
            assert!(z.eval(i).equals(expected));
            assert!(z.eval(i).mul(z.eval_inverse(i)).is_one());
        }
        // The values repeat.
        assert!(z.eval(len).equals(z.eval(0)));
        assert!(z.eval_inverse(len + 1).equals(z.eval_inverse(1 % (1 << rate_bits))));
    }
}

#[test]
fn zero_poly_on_the_smallest_coset() {
    // One row, no extension: Z_H(x) = x - 1 at the shift.
    let z = ZeroPolyOnCoset::new(0, 0).unwrap();
    assert_eq!(z.eval(0).to_canonical_u64(), Felt::coset_shift().to_canonical_u64() - 1);
}

#[test]
fn z_h_inverse_table_lists_the_inverses() {
    let z = ZeroPolyOnCoset::new(2, 1).unwrap();
    let table = z_h_inverse_table(&z, 8);
    assert_eq!(table.len(), 8);
    for i in 0..8 {
        assert!(table[i].equals(z.eval_inverse(i)));
        assert!(table[i].mul(z.eval(i)).is_one());
    }
    assert_eq!(z_h_inverse_table(&z, 0).len(), 0);
}

#[test]
fn z_last_vanishes_on_the_last_row_only() {
    let n_log = 2;
    let rate_bits = 1;
    let table = z_last_table(n_log, rate_bits, 8);
    let points = coset_points(n_log + rate_bits, 8);
    let g = Felt::primitive_root_of_unity(n_log);
    let last = g.exp_u64(3);
    assert!(last.mul(g).is_one());
    for i in 0..8 {
        assert!(table[i].equals(points[i].sub(last)));
        assert!(!table[i].is_zero());
    }
    // With one row, the last row is the first: x - 1.
    let single = z_last_table(0, 0, 1);
    assert!(single[0].equals(Felt::coset_shift().sub(Felt::one())));
}
