use rvault::config::Config;
use rvault::session::{SessionDir, SessionError, SessionFile};

#[test]
fn session_lives_until_its_timeout() {
    let mut d = SessionDir::empty();
    let key = vec![5u8; 32];
    let token = d.start_session(key.clone(), 1_000);
    assert_eq!(token.len(), 48);
    assert!(token.chars().all(|c| c.is_ascii_alphanumeric()));
    assert_eq!(d.get_key_from_session(1_000, 15).unwrap(), key);
    assert_eq!(d.get_key_from_session(1_000 + 15 * 60 - 1, 15).unwrap(), key);
    assert_eq!(d.get_key_from_session(1_000 + 15 * 60, 15), Err(SessionError::SessionExpired));
    assert!(d.file.is_none());
    assert_eq!(d.current.as_deref(), Some(token.as_str()));
    assert_eq!(d.get_key_from_session(1_000 + 15 * 60 + 1, 15), Err(SessionError::NoActiveSession));
}

#[test]
fn expiry_uses_the_timeout_given_at_each_call() {
    let mut d = SessionDir::empty();
    d.start_session(vec![1, 2, 3], 0);
    assert!(d.get_key_from_session(300, 10).is_ok());
    assert_eq!(d.get_key_from_session(300, 5), Err(SessionError::SessionExpired));
}

#[test]
fn starting_replaces_the_previous_session() {
    let mut d = SessionDir::empty();
    let t1 = d.start_session(vec![1u8; 32], 10);
    let t2 = d.start_session(vec![2u8; 32], 20);
    assert_ne!(t1, t2);
    assert_eq!(d.current.as_deref(), Some(t2.as_str()));
    let f = d.file.as_ref().unwrap();
    assert_eq!(f.token, t2);
    assert_eq!(f.key, vec![2u8; 32]);
    assert_eq!(f.written_at, 20);
}

#[test]
fn ending_removes_the_session() {
    let mut d = SessionDir::empty();
    d.start_session(vec![1u8; 32], 10);
    d.end_session();
    assert!(d.current.is_none() && d.file.is_none());
    assert_eq!(d.get_key_from_session(11, 60), Err(SessionError::NoActiveSession));
    d.end_session();
    assert!(d.current.is_none());
}

#[test]
fn pointer_without_file_is_no_session() {
    let mut d = SessionDir { current: Some("abc".to_string()), file: None };
    assert_eq!(d.get_key_from_session(5, 60), Err(SessionError::NoActiveSession));
}

#[test]
fn clock_running_backwards_is_an_error() {
    let mut d = SessionDir {
        current: Some("t".to_string()),
        file: Some(SessionFile { token: "t".to_string(), key: vec![1], written_at: 100 }),
    };
    assert_eq!(d.get_key_from_session(99, 60), Err(SessionError::ClockError));
    assert!(d.file.is_some());
}

#[test]
fn huge_timeout_never_expires() {
    let mut d = SessionDir::empty();
    d.start_session(vec![9], 0);
    assert!(d.get_key_from_session(u64::MAX, u64::MAX).is_ok());
}

#[test]
fn config_defaults() {
    let c = Config::default();
    assert_eq!(c.version, "0.0.2");
    assert!(c.master_password_hash.is_none());
    assert_eq!(c.last_used_vault, "main");
    assert_eq!(c.last_used_database, "default.sqlite");
    assert_eq!(c.session_timeout, "60");
    assert_eq!(c.timeout_minutes(), 60);
}

#[test]
fn timeout_text_parsing() {
    let mut c = Config::default();
    for (text, minutes) in [
        ("5", 5u64),
        ("+7", 7),
        ("0", 0),
        ("18446744073709551615", u64::MAX),
        ("18446744073709551616", 15),
        ("abc", 15),
        ("", 15),
        ("+", 15),
        ("-3", 15),
        ("1 0", 15),
    ] {
        c.session_timeout = text.to_string();
        assert_eq!(c.timeout_minutes(), minutes, "{text:?}");
    }
}
