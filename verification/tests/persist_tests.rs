//! Tests for the on-disk format: JSON shape, base64 fields, and the
//! round trip through commit and reopen.

use polypasswordhasher::error::PPHErrorKind;
use polypasswordhasher::PolyPasswordHasher;

#[test]
fn test_committed_bytes_are_json() {
    let mut v = PolyPasswordHasher::new(2, None, None).unwrap();
    v.create_account(String::from("admin"), String::from("correct horse"), 1)
        .unwrap();
    v.create_account(String::from("root"), String::from("battery staple"), 1)
        .unwrap();
    let bytes = v.commit().unwrap();
    let parsed: serde_json::Value = serde_json::from_slice(&bytes).unwrap();
    let accounts = parsed["accounts"].as_object().unwrap();
    assert_eq!(accounts.len(), 2);
    let first = &accounts["1"];
    assert_eq!(first["id"].as_i64().unwrap(), 1);
    assert_eq!(first["username"].as_str().unwrap(), "admin");
    assert_eq!(first["sharenumber"].as_u64().unwrap(), 1);
    // Salt and passhash are base64 text of 16 and 33 raw bytes.
    assert_eq!(first["salt"].as_str().unwrap().len(), 24);
    assert_eq!(first["passhash"].as_str().unwrap().len(), 44);
    let second = &accounts["2"];
    assert_eq!(second["username"].as_str().unwrap(), "root");
    assert_eq!(second["sharenumber"].as_u64().unwrap(), 2);
}

#[test]
fn test_escaped_username_round_trip() {
    let tricky = String::from("we\"ird\\na\u{1F980}me\ttab");
    let mut v = PolyPasswordHasher::new(2, None, None).unwrap();
    v.create_account(tricky.clone(), String::from("correct horse"), 1)
        .unwrap();
    v.create_account(String::from("root"), String::from("battery staple"), 1)
        .unwrap();
    let bytes = v.commit().unwrap();
    // The escapes stay valid JSON and decode back to the same username.
    let parsed: serde_json::Value = serde_json::from_slice(&bytes).unwrap();
    assert_eq!(
        parsed["accounts"]["1"]["username"].as_str().unwrap(),
        tricky.as_str()
    );
    let mut reopened = PolyPasswordHasher::new(2, Some(bytes), None).unwrap();
    assert_eq!(
        reopened
            .is_valid_login(tricky.clone(), String::from("correct horse"))
            .unwrap(),
        true
    );
    reopened
        .unlock_database(vec![
            (tricky.clone(), String::from("correct horse")),
            (String::from("root"), String::from("battery staple")),
        ])
        .unwrap();
    assert_eq!(
        reopened
            .is_valid_login(tricky, String::from("correct horse"))
            .unwrap(),
        true
    );
}

#[test]
fn test_empty_accounts_object_loads() {
    let bytes = b"{\"accounts\":{}}".to_vec();
    let v = PolyPasswordHasher::new(2, Some(bytes), None).unwrap();
    // Locked and empty: no login can be checked against it.
    let e = v
        .is_valid_login(String::from("admin"), String::from("pw"))
        .unwrap_err();
    assert!(matches!(e.kind, PPHErrorKind::AuthError));
}

#[test]
fn test_malformed_file_rejected() {
    let e = PolyPasswordHasher::new(2, Some(b"not json at all".to_vec()), None).unwrap_err();
    assert!(matches!(e.kind, PPHErrorKind::SerError));
    let e = PolyPasswordHasher::new(2, Some(b"{\"accounts\":".to_vec()), None).unwrap_err();
    assert!(matches!(e.kind, PPHErrorKind::SerError));
    // Well-formed JSON that is not in the canonical shape is refused too.
    let e = PolyPasswordHasher::new(2, Some(b"{\"accounts\":{},\"x\":1}".to_vec()), None)
        .unwrap_err();
    assert!(matches!(e.kind, PPHErrorKind::SerError));
}

#[test]
fn test_tombstone_share_is_skipped() {
    // Coordinate 0 is reserved as a tombstone: such an entry loads, but it
    // contributes no candidate share, so it can never help unlock.
    let salt_b64 = "A".repeat(22) + "==";
    let passhash_b64 = "A".repeat(44);
    let file = format!(
        "{{\"accounts\":{{\"1\":{{\"id\":1,\"username\":\"ghost\",\"salt\":\"{}\",\
         \"sharenumber\":0,\"passhash\":\"{}\"}}}}}}",
        salt_b64, passhash_b64
    );
    let mut v = PolyPasswordHasher::new(2, Some(file.into_bytes()), None).unwrap();
    let e = v
        .unlock_database(vec![(String::from("ghost"), String::from("anything"))])
        .unwrap_err();
    assert!(matches!(e.kind, PPHErrorKind::ShardError));
}

#[test]
fn test_reopened_vault_keeps_share_counter() {
    let mut v = PolyPasswordHasher::new(2, None, None).unwrap();
    v.create_account(String::from("admin"), String::from("correct horse"), 3)
        .unwrap();
    v.create_account(String::from("root"), String::from("battery staple"), 2)
        .unwrap();
    let bytes = v.commit().unwrap();
    let mut reopened = PolyPasswordHasher::new(2, Some(bytes), None).unwrap();
    reopened
        .unlock_database(vec![
            (String::from("admin"), String::from("correct horse")),
            (String::from("root"), String::from("battery staple")),
        ])
        .unwrap();
    // Five shares were issued before the commit, so the next account
    // continues at coordinate 6; committing again keeps all three users.
    reopened
        .create_account(String::from("bob"), String::from("builder"), 1)
        .unwrap();
    let bytes2 = reopened.commit().unwrap();
    let parsed: serde_json::Value = serde_json::from_slice(&bytes2).unwrap();
    assert_eq!(parsed["accounts"].as_object().unwrap().len(), 6);
    assert_eq!(parsed["accounts"]["6"]["sharenumber"].as_u64().unwrap(), 6);
    assert_eq!(parsed["accounts"]["6"]["username"].as_str().unwrap(), "bob");
}
