//! Concrete checks of the GF(2^8) field laws and polynomial operations.

use polypasswordhasher::error::PPHErrorKind;
use polypasswordhasher::math::gf256::{gf_add, gf_div, gf_mul, gf_sub};
use polypasswordhasher::math::polynomial::{add_poly, compute_polynomial, full_lagrange, mul_poly};

#[test]
fn test_add_laws() {
    for a in 0..=255u8 {
        assert_eq!(gf_add(a, 0), a);
        assert_eq!(gf_add(a, a), 0);
        assert_eq!(gf_sub(a, a), 0);
    }
    let sample = [0u8, 1, 2, 3, 7, 15, 85, 128, 170, 200, 254, 255];
    for &a in &sample {
        for &b in &sample {
            assert_eq!(gf_add(a, b), gf_add(b, a));
            for &c in &sample {
                assert_eq!(gf_add(a, gf_add(b, c)), gf_add(gf_add(a, b), c));
            }
        }
    }
}

#[test]
fn test_mul_laws() {
    for a in 0..=255u8 {
        assert_eq!(gf_mul(a, 1), a);
        assert_eq!(gf_mul(1, a), a);
        assert_eq!(gf_mul(a, 0), 0);
        assert_eq!(gf_mul(0, a), 0);
    }
    assert_eq!(gf_mul(7, 3), 9);
    assert_eq!(gf_mul(0x53, 0xca), 1);
}

#[test]
fn test_div_inverts_mul() {
    for b in 1..=255u8 {
        for &a in &[0u8, 1, 5, 77, 128, 254, 255] {
            assert_eq!(gf_mul(gf_div(a, b).unwrap(), b), a);
        }
    }
    assert_eq!(gf_div(6, 3).unwrap(), 2);
    assert_eq!(gf_div(0, 9).unwrap(), 0);
}

#[test]
fn test_div_by_zero() {
    let e = gf_div(5, 0).unwrap_err();
    assert!(matches!(e.kind, PPHErrorKind::ShardError));
}

#[test]
fn test_polynomial_evaluation() {
    // 1 + 2x + 3x^2 at x = 2 in the field.
    assert_eq!(compute_polynomial(2, &vec![1, 2, 3]).unwrap(), 9);
    assert_eq!(compute_polynomial(5, &vec![7]).unwrap(), 7);
    // Evaluation at 0 would disclose the constant term.
    let e = compute_polynomial(0, &vec![1, 2, 3]).unwrap_err();
    assert!(matches!(e.kind, PPHErrorKind::ShardError));
}

#[test]
fn test_poly_add_mul() {
    assert_eq!(add_poly(&vec![1, 2, 3], &vec![4, 5]), vec![5, 7, 3]);
    // (1 + x) * (1 + x) = 1 + x^2 in characteristic 2.
    assert_eq!(mul_poly(&vec![1, 1], &vec![1, 1]), vec![1, 0, 1]);
    assert_eq!(mul_poly(&vec![2], &vec![3]), vec![6]);
}

#[test]
fn test_lagrange_round_trip() {
    // The interpolation of a polynomial's values returns its coefficients.
    let p = vec![10u8, 20, 30];
    let xs = vec![1u8, 2, 3];
    let ys: Vec<u8> = xs
        .iter()
        .map(|&x| compute_polynomial(x, &p).unwrap())
        .collect();
    assert_eq!(ys, vec![0, 90, 80]);
    assert_eq!(full_lagrange(xs, ys).unwrap(), p);
}

#[test]
fn test_lagrange_duplicate_x() {
    let e = full_lagrange(vec![2, 2, 5], vec![14, 30, 32]).unwrap_err();
    assert!(matches!(e.kind, PPHErrorKind::ShardError));
}
