use rvault::order::SortMode;
use rvault::store::{is_valid_identifier, StoreError, Table, VaultEntry};

fn row(platform: &str, user: &str, pinned: bool, created: u64, updated: u64) -> VaultEntry {
    VaultEntry {
        id: 0,
        platform: platform.to_string(),
        user_id: user.to_string(),
        ciphertext: String::new(),
        nonce: String::new(),
        salt: String::new(),
        pinned,
        created_at: created,
        updated_at: updated,
    }
}

fn keys(v: &[VaultEntry]) -> Vec<(String, String)> {
    v.iter().map(|e| (e.platform.clone(), e.user_id.clone())).collect()
}

#[test]
fn identifier_validation() {
    for ok in ["main", "a", "Vault_2", "_", "ABC123"] {
        assert!(is_valid_identifier(ok), "{ok}");
    }
    for bad in ["", "bad-name", "x y", "t;DROP TABLE main", "caf\u{e9}", "a.b", "\u{661}"] {
        assert!(!is_valid_identifier(bad), "{bad}");
    }
}

#[test]
fn table_names_are_checked_before_use() {
    assert_eq!(Table::new(None).unwrap().name(), "main");
    assert_eq!(Table::new(Some("work_2".to_string())).unwrap().name(), "work_2");
    assert!(matches!(Table::new(Some("x); DROP TABLE y; --".to_string())), Err(StoreError::InvalidIdentifier)));
    assert!(matches!(Table::new(Some(String::new())), Err(StoreError::InvalidIdentifier)));
}

#[test]
fn add_then_retrieve_with_same_key() {
    let mek = vec![11u8; 32];
    let mut t = Table::new(None).unwrap();
    t.add_or_replace(&mek, "github".to_string(), "alice".to_string(), "s3cr\u{e9}t", 100).unwrap();
    assert_eq!(t.get_password_with_key(&mek, "github", "alice").unwrap(), "s3cr\u{e9}t");
    let e = &t.entries()[0];
    assert!(!e.ciphertext.contains("s3cr"));
    assert_eq!(e.created_at, 100);
    assert_eq!(e.updated_at, 100);
    assert!(!e.pinned);
}

#[test]
fn id_and_password_pair_splits_at_first_colon() {
    let mek = vec![12u8; 32];
    let mut t = Table::new(None).unwrap();
    t.add_entry_with_key(&mek, "github".to_string(), "alice:p@ss:1", 7).unwrap();
    assert_eq!(t.entries()[0].user_id, "alice");
    assert_eq!(t.get_password_with_key(&mek, "github", "alice").unwrap(), "p@ss:1");
    t.add_entry_with_key(&mek, "github".to_string(), "bob:", 8).unwrap();
    assert_eq!(t.get_password_with_key(&mek, "github", "bob").unwrap(), "");
}

#[test]
fn create_statement_uses_the_checked_name() {
    let t = Table::new(Some("work".to_string())).unwrap();
    let sql = t.create_statement();
    assert!(sql.starts_with("CREATE TABLE IF NOT EXISTS work ("));
    assert!(sql.contains("UNIQUE(platform, user_id)"));
}

#[test]
fn retrieve_with_other_key_fails_to_decrypt() {
    let mut t = Table::new(None).unwrap();
    t.add_or_replace(&[1u8; 32], "site".to_string(), "bob".to_string(), "pw", 1).unwrap();
    assert_eq!(t.get_password_with_key(&[2u8; 32], "site", "bob"), Err(StoreError::DecryptionFailed));
}

#[test]
fn retrieve_missing_is_not_found() {
    let t = Table::new(None).unwrap();
    assert_eq!(t.get_password_with_key(&[1u8; 32], "site", "nobody"), Err(StoreError::NotFound));
}

#[test]
fn tampered_entry_fails_to_decrypt() {
    let mek = [3u8; 32];
    let mut t = Table::new(None).unwrap();
    t.add_or_replace(&mek, "p".to_string(), "u".to_string(), "secret", 1).unwrap();
    let mut e = t.entries()[0].duplicate();
    let mut other = Table::new(None).unwrap();
    e.nonce = "AAAAAAAAAAAAAAAA".to_string();
    other.insert_row(e).unwrap();
    assert_eq!(other.get_password_with_key(&mek, "p", "u"), Err(StoreError::DecryptionFailed));
}

#[test]
fn replacing_keeps_creation_time_and_pin() {
    let mek = [4u8; 32];
    let mut t = Table::new(None).unwrap();
    t.add_or_replace(&mek, "p".to_string(), "u".to_string(), "one", 10).unwrap();
    t.toggle_pin("p", "u").unwrap();
    let salt_before = t.entries()[0].salt.clone();
    t.add_or_replace(&mek, "p".to_string(), "u".to_string(), "two", 20).unwrap();
    assert_eq!(t.entries().len(), 1);
    let e = &t.entries()[0];
    assert_eq!(e.created_at, 10);
    assert_eq!(e.updated_at, 20);
    assert!(e.pinned);
    assert_ne!(e.salt, salt_before);
    assert_eq!(t.get_password_with_key(&mek, "p", "u").unwrap(), "two");
}

#[test]
fn pin_cap_of_ten() {
    let mut t = Table::new(None).unwrap();
    for i in 0..10 {
        t.insert_row(row("site", &format!("user{i}"), true, 1, 1)).unwrap();
    }
    t.insert_row(row("site", "eleventh", false, 1, 1)).unwrap();
    assert_eq!(t.pinned_total(), 10);
    assert_eq!(t.toggle_pin("site", "eleventh"), Err(StoreError::PinLimitExceeded));
    let idx = t.find("site", "eleventh").unwrap();
    assert!(!t.entries()[idx].pinned);
    assert_eq!(t.toggle_pin("site", "user3"), Ok(false));
    assert_eq!(t.toggle_pin("site", "eleventh"), Ok(true));
    assert!(t.entries()[idx].pinned);
    assert_eq!(t.pinned_total(), 10);
}

#[test]
fn toggle_missing_row_is_not_found() {
    let mut t = Table::new(None).unwrap();
    assert_eq!(t.toggle_pin("a", "b"), Err(StoreError::NotFound));
}

#[test]
fn inserting_rows_keeps_keys_unique_and_cap() {
    let mut t = Table::new(None).unwrap();
    t.insert_row(row("a", "b", false, 0, 0)).unwrap();
    assert_eq!(t.insert_row(row("a", "b", false, 0, 0)), Err(StoreError::Conflict));
    for i in 0..10 {
        t.insert_row(row("p", &i.to_string(), true, 0, 0)).unwrap();
    }
    assert_eq!(t.insert_row(row("p", "x", true, 0, 0)), Err(StoreError::PinLimitExceeded));
    assert_eq!(t.entries().len(), 11);
}

#[test]
fn rename_onto_existing_user_conflicts() {
    let mek = [5u8; 32];
    let mut t = Table::new(None).unwrap();
    t.insert_row(row("A", "u1", false, 1, 2)).unwrap();
    t.insert_row(row("A", "u2", false, 3, 4)).unwrap();
    assert_eq!(t.update(&mek, "A", "u1", "u2".to_string(), "new", 9), Err(StoreError::Conflict));
    let e = &t.entries()[0];
    assert_eq!((e.user_id.as_str(), e.created_at, e.updated_at), ("u1", 1, 2));
    assert_eq!(t.entries().len(), 2);
}

#[test]
fn update_renames_and_reencrypts() {
    let mek = [6u8; 32];
    let mut t = Table::new(None).unwrap();
    t.add_or_replace(&mek, "A".to_string(), "u1".to_string(), "old", 1).unwrap();
    t.update(&mek, "A", "u1", "u3".to_string(), "new", 5).unwrap();
    assert_eq!(t.get_password_with_key(&mek, "A", "u3").unwrap(), "new");
    assert_eq!(t.get_password_with_key(&mek, "A", "u1"), Err(StoreError::NotFound));
    assert_eq!(t.entries()[0].created_at, 1);
    assert_eq!(t.entries()[0].updated_at, 5);
    t.update(&mek, "A", "u3", "u3".to_string(), "newer", 6).unwrap();
    assert_eq!(t.get_password_with_key(&mek, "A", "u3").unwrap(), "newer");
}

#[test]
fn update_of_missing_row_is_not_found() {
    let mut t = Table::new(None).unwrap();
    assert_eq!(t.update(&[1u8; 32], "A", "u1", "u2".to_string(), "x", 1), Err(StoreError::NotFound));
}

#[test]
fn remove_present_and_absent() {
    let mut t = Table::new(None).unwrap();
    t.insert_row(row("a", "1", false, 0, 0)).unwrap();
    t.insert_row(row("a", "2", false, 0, 0)).unwrap();
    t.remove_entry("a", "1");
    assert_eq!(keys(t.entries()), vec![("a".to_string(), "2".to_string())]);
    t.remove_entry("a", "1");
    assert_eq!(t.entries().len(), 1);
}

#[test]
fn listing_puts_pins_first_then_sorts() {
    let mut t = Table::new(None).unwrap();
    t.insert_row(row("gamma", "z", false, 5, 0)).unwrap();
    t.insert_row(row("Beta", "y", true, 1, 0)).unwrap();
    t.insert_row(row("alpha", "x", false, 2, 9)).unwrap();
    t.insert_row(row("delta", "w", true, 3, 0)).unwrap();
    t.insert_row(row("Epsilon", "v", false, 0, 0)).unwrap();
    let by_platform = keys(&t.list(SortMode::PlatformAsc));
    let names: Vec<&str> = by_platform.iter().map(|k| k.0.as_str()).collect();
    assert_eq!(names, vec!["Beta", "delta", "alpha", "Epsilon", "gamma"]);
    let desc: Vec<String> = t.list(SortMode::PlatformDesc).into_iter().map(|e| e.platform).collect();
    assert_eq!(desc, vec!["Beta", "delta", "gamma", "Epsilon", "alpha"]);
    let users: Vec<String> = t.list(SortMode::UserIdAsc).into_iter().map(|e| e.user_id).collect();
    assert_eq!(users, vec!["y", "w", "v", "x", "z"]);
    let newest: Vec<String> = t.list(SortMode::TimeDesc).into_iter().map(|e| e.platform).collect();
    assert_eq!(newest, vec!["Beta", "delta", "alpha", "gamma", "Epsilon"]);
    let oldest: Vec<String> = t.list(SortMode::TimeAsc).into_iter().map(|e| e.platform).collect();
    assert_eq!(oldest, vec!["Beta", "delta", "Epsilon", "gamma", "alpha"]);
}

#[test]
fn sort_modes_cycle_and_labels() {
    let all = SortMode::all();
    assert_eq!(all.len(), 6);
    assert_eq!(all[0], SortMode::TimeDesc);
    assert_eq!(all[5], SortMode::UserIdDesc);
    assert_eq!(SortMode::TimeAsc.name(), "Time (Oldest First)");
    assert_eq!(SortMode::PlatformDesc.name(), "Platform (Z-A)");
    assert_eq!(SortMode::UserIdAsc.name(), "User ID (A-Z)");
}

#[test]
fn equal_keys_keep_their_order() {
    let mut t = Table::new(None).unwrap();
    t.insert_row(row("Site", "u2", false, 4, 0)).unwrap();
    t.insert_row(row("b", "u9", false, 4, 0)).unwrap();
    t.insert_row(row("site", "u1", false, 4, 0)).unwrap();
    t.insert_row(row("SITE", "u3", false, 4, 0)).unwrap();
    let users: Vec<String> = t.list(SortMode::PlatformAsc).into_iter().map(|e| e.user_id).collect();
    assert_eq!(users, vec!["u9", "u2", "u1", "u3"]);
    let users: Vec<String> = t.list(SortMode::PlatformDesc).into_iter().map(|e| e.user_id).collect();
    assert_eq!(users, vec!["u2", "u1", "u3", "u9"]);
    let users: Vec<String> = t.list(SortMode::TimeDesc).into_iter().map(|e| e.user_id).collect();
    assert_eq!(users, vec!["u2", "u9", "u1", "u3"]);
}
