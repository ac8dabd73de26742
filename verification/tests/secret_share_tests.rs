//! The secret-sharing tests as exercised through the public crate surface.

use polypasswordhasher::math::polynomial;
use polypasswordhasher::secretshare::ShamirSecret;

#[test]
fn test_secret_share_test_full_lagrange() {
    assert_eq!(
        polynomial::full_lagrange(vec![2, 4, 5], vec![14, 30, 32]).unwrap(),
        vec![43, 168, 150]
    );
}

#[test]
fn test_secret_share_test_generate_secret() {
    let message = String::from("Secret message");
    let _ = ShamirSecret::new(5, Some(message.into_bytes()));
}

#[test]
fn test_secret_share_test_recover_secret() {
    let secret = ShamirSecret::new(3, Some("Hello".to_string().into_bytes()));

    let a = secret.compute_share(1).unwrap();
    let b = secret.compute_share(2).unwrap();
    let c = secret.compute_share(3).unwrap();

    println!("A: {:?}\nB: {:?}\nC: {:?}", a, b, c);

    let mut newsecret = ShamirSecret::new(3, None);

    let _ = newsecret.recover_secretdata(vec![a, b, c]);

    assert_eq!(newsecret.secretdata, secret.secretdata);
    println!("{:?} == {:?}", newsecret.secretdata, secret.secretdata);
}

#[test]
fn test_secret_share_test_valid_share() {
    let message = String::from("Secret message");

    let s = ShamirSecret::new(2, Some(message.into_bytes()));
    let a = s.compute_share(1).unwrap();

    assert_eq!(s.is_valid_share(a).unwrap(), true);
}

#[test]
fn test_share_errors() {
    let s = ShamirSecret::new(2, Some(vec![1, 2, 3]));
    // The secret coordinate must never be handed out.
    assert!(s.compute_share(0).is_err());
    // An engine that does not know the secret cannot compute or check.
    let empty = ShamirSecret::new(2, None);
    assert!(empty.compute_share(1).is_err());
    assert!(empty.is_valid_share(vec![1, 2, 3]).is_err());
}

#[test]
fn test_tampered_share_rejected() {
    let s = ShamirSecret::new(2, Some("Secret message".to_string().into_bytes()));
    let mut a = s.compute_share(7).unwrap();
    assert_eq!(s.is_valid_share(a.clone()).unwrap(), true);
    a[3] ^= 0x40;
    assert_eq!(s.is_valid_share(a).unwrap(), false);
}

#[test]
fn test_recover_insufficient_shares() {
    let s = ShamirSecret::new(3, Some(vec![9, 9, 9]));
    let a = s.compute_share(1).unwrap();
    let b = s.compute_share(2).unwrap();
    let mut fresh = ShamirSecret::new(3, None);
    let e = fresh.recover_secretdata(vec![a, b]).unwrap_err();
    assert!(matches!(
        e.kind,
        polypasswordhasher::error::PPHErrorKind::ShardError
    ));
    assert!(fresh.secretdata.is_none());
}

#[test]
fn test_recover_ragged_shares() {
    let s = ShamirSecret::new(2, Some(vec![5, 6, 7]));
    let a = s.compute_share(1).unwrap();
    let mut b = s.compute_share(2).unwrap();
    b.pop();
    let mut fresh = ShamirSecret::new(2, None);
    assert!(fresh.recover_secretdata(vec![a, b]).is_err());
}

#[test]
fn test_recover_duplicate_coordinates() {
    let s = ShamirSecret::new(2, Some(vec![5, 6, 7]));
    let a = s.compute_share(1).unwrap();
    let mut b = s.compute_share(1).unwrap();
    // Same coordinate, different bytes: survives deduplication but must be
    // rejected for carrying a repeated x.
    b[1] ^= 1;
    let mut fresh = ShamirSecret::new(2, None);
    assert!(fresh.recover_secretdata(vec![a, b]).is_err());
}

#[test]
fn test_recover_excess_shares() {
    // More shares than the threshold: the first `threshold` distinct ones
    // are interpolated, and the secret still comes back exactly.
    let s = ShamirSecret::new(2, Some("excess".to_string().into_bytes()));
    let shares: Vec<Vec<u8>> = (1..=5).map(|x| s.compute_share(x).unwrap()).collect();
    let mut fresh = ShamirSecret::new(2, None);
    fresh.recover_secretdata(shares).unwrap();
    assert_eq!(fresh.secretdata, s.secretdata);
}
