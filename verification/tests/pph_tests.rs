//! End-to-end scenarios for the credential vault.

use polypasswordhasher::error::PPHErrorKind;
use polypasswordhasher::PolyPasswordHasher;

#[test]
fn test_create_pph() {
    let mut pph = PolyPasswordHasher::new(2, None, None).unwrap();
    pph.create_account(String::from("admin"), String::from("correct horse"), 5)
        .unwrap();
    pph.create_account(String::from("root"), String::from("battery staple"), 5)
        .unwrap();
}

#[test]
fn test_fresh_create_login() {
    let mut v = PolyPasswordHasher::new(2, None, None).unwrap();
    v.create_account(String::from("admin"), String::from("correct horse"), 5)
        .unwrap();
    v.create_account(String::from("root"), String::from("battery staple"), 5)
        .unwrap();
    assert_eq!(
        v.is_valid_login(String::from("admin"), String::from("correct horse"))
            .unwrap(),
        true
    );
    assert_eq!(
        v.is_valid_login(String::from("admin"), String::from("wrong"))
            .unwrap(),
        false
    );
    let e = v
        .is_valid_login(String::from("unknown"), String::from("x"))
        .unwrap_err();
    assert!(matches!(e.kind, PPHErrorKind::AuthError));
}

#[test]
fn test_commit_below_threshold() {
    let mut v = PolyPasswordHasher::new(3, None, None).unwrap();
    v.create_account(String::from("admin"), String::from("correct horse"), 2)
        .unwrap();
    let e = v.commit().unwrap_err();
    assert!(matches!(e.kind, PPHErrorKind::ShardError));
}

#[test]
fn test_persist_and_lock() {
    let mut v = PolyPasswordHasher::new(2, None, None).unwrap();
    v.create_account(String::from("admin"), String::from("correct horse"), 1)
        .unwrap();
    v.create_account(String::from("root"), String::from("battery staple"), 1)
        .unwrap();
    let bytes = v.commit().unwrap();
    let mut reopened = PolyPasswordHasher::new(2, Some(bytes), None).unwrap();
    // Partial verification accepts the right password while locked.
    assert_eq!(
        reopened
            .is_valid_login(String::from("admin"), String::from("correct horse"))
            .unwrap(),
        true
    );
    // A locked vault cannot take new accounts.
    let e = reopened
        .create_account(String::from("eve"), String::from("pw"), 1)
        .unwrap_err();
    assert!(matches!(e.kind, PPHErrorKind::AuthError));
    // Nor can it be committed again.
    let e = reopened.commit().unwrap_err();
    assert!(matches!(e.kind, PPHErrorKind::AuthError));
}

#[test]
fn test_unlock_then_create() {
    let mut v = PolyPasswordHasher::new(2, None, None).unwrap();
    v.create_account(String::from("admin"), String::from("correct horse"), 1)
        .unwrap();
    v.create_account(String::from("root"), String::from("battery staple"), 1)
        .unwrap();
    let bytes = v.commit().unwrap();
    let mut reopened = PolyPasswordHasher::new(2, Some(bytes), None).unwrap();
    reopened
        .unlock_database(vec![
            (String::from("admin"), String::from("correct horse")),
            (String::from("root"), String::from("battery staple")),
        ])
        .unwrap();
    // Unlocked: exact verification works again, and accounts can be added.
    assert_eq!(
        reopened
            .is_valid_login(String::from("admin"), String::from("correct horse"))
            .unwrap(),
        true
    );
    assert_eq!(
        reopened
            .is_valid_login(String::from("root"), String::from("wrong"))
            .unwrap(),
        false
    );
    reopened
        .create_account(String::from("bob"), String::from("builder"), 1)
        .unwrap();
    assert_eq!(
        reopened
            .is_valid_login(String::from("bob"), String::from("builder"))
            .unwrap(),
        true
    );
}

#[test]
fn test_unlock_too_few_shares() {
    let mut v = PolyPasswordHasher::new(2, None, None).unwrap();
    v.create_account(String::from("admin"), String::from("correct horse"), 1)
        .unwrap();
    v.create_account(String::from("root"), String::from("battery staple"), 1)
        .unwrap();
    let bytes = v.commit().unwrap();
    let mut reopened = PolyPasswordHasher::new(2, Some(bytes), None).unwrap();
    let e = reopened
        .unlock_database(vec![(String::from("admin"), String::from("correct horse"))])
        .unwrap_err();
    assert!(matches!(e.kind, PPHErrorKind::ShardError));
}

#[test]
fn test_unlock_wrong_password() {
    // The engine checks only the shape of the candidate shares, so a wrong
    // password among enough well-formed logins reconstructs a wrong secret
    // silently.  The recovered polynomials still pass through the quorum's
    // own candidate points, so those logins keep "verifying"; the damage
    // shows on any account outside the quorum, whose correct password no
    // longer checks out.
    let mut v = PolyPasswordHasher::new(2, None, None).unwrap();
    v.create_account(String::from("admin"), String::from("correct horse"), 1)
        .unwrap();
    v.create_account(String::from("root"), String::from("battery staple"), 1)
        .unwrap();
    v.create_account(String::from("carol"), String::from("tertiary"), 1)
        .unwrap();
    let bytes = v.commit().unwrap();
    let mut reopened = PolyPasswordHasher::new(2, Some(bytes), None).unwrap();
    reopened
        .unlock_database(vec![
            (String::from("admin"), String::from("correct horse")),
            (String::from("root"), String::from("battery")),
        ])
        .unwrap();
    assert_eq!(
        reopened
            .is_valid_login(String::from("carol"), String::from("tertiary"))
            .unwrap(),
        false
    );
}

#[test]
fn test_unlock_unknown_user() {
    let mut v = PolyPasswordHasher::new(2, None, None).unwrap();
    v.create_account(String::from("admin"), String::from("correct horse"), 1)
        .unwrap();
    v.create_account(String::from("root"), String::from("battery staple"), 1)
        .unwrap();
    let bytes = v.commit().unwrap();
    let mut reopened = PolyPasswordHasher::new(2, Some(bytes), None).unwrap();
    let e = reopened
        .unlock_database(vec![
            (String::from("nobody"), String::from("pw")),
            (String::from("root"), String::from("battery staple")),
        ])
        .unwrap_err();
    assert!(matches!(e.kind, PPHErrorKind::ShardError));
}

#[test]
fn test_unlock_already_unlocked() {
    let mut v = PolyPasswordHasher::new(2, None, None).unwrap();
    v.create_account(String::from("admin"), String::from("correct horse"), 1)
        .unwrap();
    let e = v
        .unlock_database(vec![(String::from("admin"), String::from("correct horse"))])
        .unwrap_err();
    assert!(matches!(e.kind, PPHErrorKind::ShardError));
}

#[test]
fn test_duplicate_username_rejected() {
    let mut v = PolyPasswordHasher::new(2, None, None).unwrap();
    v.create_account(String::from("admin"), String::from("one"), 1)
        .unwrap();
    let e = v
        .create_account(String::from("admin"), String::from("two"), 1)
        .unwrap_err();
    assert!(matches!(e.kind, PPHErrorKind::AuthError));
}

#[test]
fn test_zero_shares_rejected() {
    let mut v = PolyPasswordHasher::new(2, None, None).unwrap();
    let e = v
        .create_account(String::from("admin"), String::from("pw"), 0)
        .unwrap_err();
    assert!(matches!(e.kind, PPHErrorKind::AuthError));
}

#[test]
fn test_share_space_exhausted() {
    let mut v = PolyPasswordHasher::new(2, None, None).unwrap();
    v.create_account(String::from("admin"), String::from("pw"), 255)
        .unwrap();
    let e = v
        .create_account(String::from("bob"), String::from("pw"), 1)
        .unwrap_err();
    assert!(matches!(e.kind, PPHErrorKind::AuthError));
}

#[test]
fn test_partialbytes_must_be_one() {
    assert!(PolyPasswordHasher::new(2, None, Some(1)).is_ok());
    let e = PolyPasswordHasher::new(2, None, Some(0)).unwrap_err();
    assert!(matches!(e.kind, PPHErrorKind::AuthError));
}
