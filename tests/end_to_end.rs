use rvault::codec::KdfParams;
use rvault::config::Config;
use rvault::session::SessionDir;
use rvault::store::Table;
use rvault::vault::{Vault, VaultError};

#[test]
fn setup_unlock_add_get() {
    let mut config = Config::default();
    let kdf = Some(KdfParams { t: 1, m: 256, p: 1 });
    let ks = Vault::setup("correct-horse", &mut config, "", kdf, false).unwrap();
    assert!(config.master_password_hash.is_some());
    assert!(!ks.file.is_empty());

    let mut sessions = SessionDir::empty();
    let now = 1_700_000_000u64;
    let token = Vault::unlock("correct-horse", &config, &ks.file, &mut sessions, now).unwrap();
    assert_eq!(sessions.current.as_deref(), Some(token.as_str()));

    let mek = sessions.get_key_from_session(now + 5, config.timeout_minutes()).unwrap();
    assert_eq!(mek, ks.mek);
    let mut table = Table::new(Some("main".to_string())).unwrap();
    table.add_or_replace(&mek, "github".to_string(), "alice".to_string(), "p@ss1", now + 5).unwrap();
    let mek_again = sessions.get_key_from_session(now + 10, config.timeout_minutes()).unwrap();
    assert_eq!(table.get_password_with_key(&mek_again, "github", "alice").unwrap(), "p@ss1");

    let mut fresh = SessionDir::empty();
    assert_eq!(
        Vault::unlock("wrong-password", &config, &ks.file, &mut fresh, now),
        Err(VaultError::InvalidPassword)
    );
    assert!(fresh.current.is_none() && fresh.file.is_none());
}

#[test]
fn setup_is_refused_twice() {
    let mut config = Config::default();
    let kdf = Some(KdfParams { t: 1, m: 64, p: 1 });
    Vault::setup("pw", &mut config, "", kdf, false).unwrap();
    let before = config.master_password_hash.clone();
    assert!(matches!(Vault::setup("pw2", &mut config, "", kdf, false), Err(VaultError::AlreadySetUp)));
    assert_eq!(config.master_password_hash, before);
}

#[test]
fn unlock_before_setup_is_refused() {
    let config = Config::default();
    let mut s = SessionDir::empty();
    assert_eq!(Vault::unlock("pw", &config, b"", &mut s, 0), Err(VaultError::NotSetUp));
}

#[test]
fn encryption_key_needs_matching_hash_and_keystore() {
    let mut config = Config::default();
    let kdf = Some(KdfParams { t: 1, m: 64, p: 1 });
    let ks = Vault::setup("pw", &mut config, "", kdf, false).unwrap();
    let hash = config.master_password_hash.clone().unwrap();
    assert_eq!(Vault::get_encryption_key("pw", &hash, &ks.file).unwrap(), ks.mek);
    assert!(matches!(Vault::get_encryption_key("pw", &hash, b"garbage"), Err(VaultError::Keystore(_))));
    assert_eq!(Vault::get_encryption_key("nope", &hash, &ks.file), Err(VaultError::InvalidPassword));
}

#[test]
fn setup_over_an_existing_keystore_is_refused() {
    let mut config = Config::default();
    let kdf = Some(KdfParams { t: 1, m: 64, p: 1 });
    let r = Vault::setup("pw", &mut config, "", kdf, true);
    assert!(matches!(r, Err(VaultError::Keystore(rvault::codec::KeystoreError::AlreadyExists))));
    assert!(config.master_password_hash.is_none());
}
