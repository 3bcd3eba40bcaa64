use starkcore::extension::QuadraticExtension;
use starkcore::field::{Felt, ORDER};
use starkcore::polynomial::{PadError, PolynomialCoeffs};

fn f(n: u64) -> Felt {
    Felt::new(n)
}

fn poly(coeffs: &[u64]) -> PolynomialCoeffs {
    PolynomialCoeffs::new(coeffs.iter().map(|&c| f(c)).collect())
}

fn values(p: &PolynomialCoeffs) -> Vec<u64> {
    p.coeffs.iter().map(|c| c.to_canonical_u64()).collect()
}

fn pow(x: Felt, e: usize) -> Felt {
    let mut r = Felt::one();
    for _ in 0..e {
        r = r.mul(x);
    }
    r
}

#[test]
fn eval_is_horner() {
    // 1 + 2x + 3x^2 at 2
    assert_eq!(poly(&[1, 2, 3]).eval(f(2)).to_canonical_u64(), 17);
    assert_eq!(poly(&[]).eval(f(2)).to_canonical_u64(), 0);
    assert_eq!(poly(&[9]).eval(f(12345)).to_canonical_u64(), 9);
    // x at -1
    assert_eq!(poly(&[0, 1]).eval(f(ORDER - 1)).to_canonical_u64(), ORDER - 1);
}

#[test]
fn eval_extension_is_horner() {
    // 1 + 2z + 3z^2 at z = X: 1 + 2X + 21
    let z = QuadraticExtension::new(f(0), f(1));
    let v = poly(&[1, 2, 3]).eval_extension(z);
    assert_eq!(v.c0.to_canonical_u64(), 22);
    assert_eq!(v.c1.to_canonical_u64(), 2);
    let base = QuadraticExtension::from_base(f(2));
    let w = poly(&[1, 2, 3]).eval_extension(base);
    assert_eq!(w.c0.to_canonical_u64(), 17);
    assert_eq!(w.c1.to_canonical_u64(), 0);
}

#[test]
fn degree_plus_one_skips_zeros_at_the_end() {
    assert_eq!(poly(&[1, 2, 0, 0]).degree_plus_one(), 2);
    assert_eq!(poly(&[0, 0, 0]).degree_plus_one(), 0);
    assert_eq!(poly(&[]).degree_plus_one(), 0);
    assert_eq!(poly(&[0, 0, 5]).degree_plus_one(), 3);
    assert_eq!(poly(&[ORDER, 1, ORDER]).degree_plus_one(), 2);
}

#[test]
fn trim_removes_zeros_at_the_end() {
    let mut p = poly(&[1, 0, 2, 0, 0]);
    p.trim();
    assert_eq!(values(&p), vec![1, 0, 2]);
    let mut z = poly(&[0, 0]);
    z.trim();
    assert_eq!(z.len(), 0);
}

#[test]
fn pad_appends_zeros() {
    let mut p = poly(&[1, 2]);
    assert!(p.pad(5).is_ok());
    assert_eq!(values(&p), vec![1, 2, 0, 0, 0]);
    assert!(p.pad(5).is_ok());
    assert_eq!(p.len(), 5);
}

#[test]
fn pad_refuses_to_shorten() {
    let mut p = poly(&[1, 2, 3]);
    assert_eq!(p.pad(2), Err(PadError::TooLong));
    assert_eq!(values(&p), vec![1, 2, 3]);
}

#[test]
fn chunks_cut_in_order() {
    let p = poly(&[1, 2, 3, 4, 5]);
    let c = p.chunks(2);
    assert_eq!(c.len(), 3);
    assert_eq!(values(&c[0]), vec![1, 2]);
    assert_eq!(values(&c[1]), vec![3, 4]);
    assert_eq!(values(&c[2]), vec![5]);
    assert_eq!(poly(&[]).chunks(4).len(), 0);
    let whole = p.chunks(5);
    assert_eq!(whole.len(), 1);
    assert_eq!(values(&whole[0]), vec![1, 2, 3, 4, 5]);
    let wide = p.chunks(8);
    assert_eq!(wide.len(), 1);
    assert_eq!(values(&wide[0]), vec![1, 2, 3, 4, 5]);
}

fn reassembled(p: &PolynomialCoeffs, size: usize, x: Felt) -> Felt {
    let mut sum = Felt::zero();
    for (j, chunk) in p.chunks(size).iter().enumerate() {
        sum = sum.add(chunk.eval(x).mul(pow(x, j * size)));
    }
    sum
}

#[test]
fn chunk_reassembly_one_chunk() {
    let p = poly(&[3, 1, 4, 1, 5, 9]);
    let x = f(0x1234_5678_9abc_def0);
    assert_eq!(p.chunks(6).len(), 1);
    assert!(reassembled(&p, 6, x).equals(p.eval(x)));
}

#[test]
fn chunk_reassembly_two_chunks() {
    let p = poly(&[3, 1, 4, 1, 5, 9]);
    let x = f(0x1234_5678_9abc_def0);
    assert_eq!(p.chunks(3).len(), 2);
    assert!(reassembled(&p, 3, x).equals(p.eval(x)));
}

#[test]
fn chunk_reassembly_three_chunks() {
    let p = poly(&[3, 1, 4, 1, 5, 9]);
    let x = f(0x1234_5678_9abc_def0);
    assert_eq!(p.chunks(2).len(), 3);
    assert!(reassembled(&p, 2, x).equals(p.eval(x)));
    // 3 + x + 4x^2 + x^3 + 5x^4 + 9x^5 at 2
    assert_eq!(reassembled(&p, 2, f(2)).to_canonical_u64(), 397);
}

#[test]
fn chunk_reassembly_with_a_short_last_chunk() {
    let p = poly(&[3, 1, 4, 1, 5, 9, 2]);
    let x = f(ORDER - 12345);
    assert_eq!(p.chunks(3).len(), 3);
    assert!(reassembled(&p, 3, x).equals(p.eval(x)));
}

#[test]
fn clone_poly_copies() {
    let p = poly(&[1, 2, 3]);
    let q = p.clone_poly();
    assert_eq!(values(&q), vec![1, 2, 3]);
}
