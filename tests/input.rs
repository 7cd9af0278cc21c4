use rvault::input::InputState;
use rvault::ui_state::{Toast, TOAST_MILLIS};

#[test]
fn typing_and_editing() {
    let mut s = InputState::new();
    assert_eq!(s.value, "");
    s.insert_char('a');
    s.insert_char('c');
    s.move_cursor_left();
    s.insert_char('b');
    assert_eq!(s.value, "abc");
    assert_eq!(s.cursor_position, 2);
    s.move_cursor_right();
    s.move_cursor_right();
    assert_eq!(s.cursor_position, 3);
    s.delete_char();
    assert_eq!(s.value, "ab");
    assert_eq!(s.cursor_position, 2);
    s.move_cursor_left();
    s.move_cursor_left();
    s.move_cursor_left();
    assert_eq!(s.cursor_position, 0);
    s.delete_char();
    assert_eq!(s.value, "ab");
    s.clear();
    assert_eq!(s.value, "");
    assert_eq!(s.cursor_position, 0);
}

#[test]
fn multibyte_characters_move_as_one() {
    let mut s = InputState::with_value("h\u{e9}\u{1F600}".to_string());
    assert_eq!(s.cursor_position, 7);
    s.move_cursor_left();
    assert_eq!(s.cursor_position, 3);
    s.insert_char('\u{df}');
    assert_eq!(s.value, "h\u{e9}\u{df}\u{1F600}");
    assert_eq!(s.cursor_position, 5);
    s.delete_char();
    assert_eq!(s.cursor_position, 3);
    s.delete_char();
    assert_eq!(s.value, "h\u{1F600}");
    assert_eq!(s.cursor_position, 1);
    s.move_cursor_right();
    assert_eq!(s.cursor_position, 5);
    s.move_cursor_right();
    assert_eq!(s.cursor_position, 5);
}

#[test]
fn cursor_counts_bytes() {
    assert_eq!(InputState::with_value("h\u{e9}llo".to_string()).cursor_position, 6);
    let mut s = InputState::with_value("\u{e9}".to_string());
    assert_eq!(s.cursor_position, 2);
    s.move_cursor_left();
    assert_eq!(s.cursor_position, 0);
    s.move_cursor_right();
    assert_eq!(s.cursor_position, 2);
    let mut t = InputState::with_value("\u{e9}a".to_string());
    t.move_cursor_left();
    assert_eq!(t.cursor_position, 2);
    t.delete_char();
    assert_eq!(t.value, "a");
    assert_eq!(t.cursor_position, 0);
    let mut u = InputState::with_value("ab".to_string());
    u.move_cursor_left();
    u.insert_char('\u{20AC}');
    assert_eq!(u.value, "a\u{20AC}b");
    assert_eq!(u.cursor_position, 4);
    u.delete_char();
    assert_eq!(u.value, "ab");
    assert_eq!(u.cursor_position, 1);
}

#[test]
fn cursor_is_clamped_after_outside_changes() {
    let mut s = InputState::with_value("hello".to_string());
    s.value = "h\u{e9}".to_string();
    s.clamp_cursor();
    assert_eq!(s.cursor_position, 3);
    s.clamp_cursor();
    assert_eq!(s.cursor_position, 3);
}

#[test]
fn toast_expiry() {
    let t = Toast::new("copied".to_string(), 1_000);
    assert_eq!(t.message, "copied");
    assert_eq!(t.expires_at, 1_000 + TOAST_MILLIS);
    assert!(!t.is_expired(3_999));
    assert!(t.is_expired(4_000));
    assert_eq!(Toast::new(String::new(), u64::MAX - 1).expires_at, u64::MAX);
}
