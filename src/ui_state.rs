//! The states a front end moves through: setup, authentication, the entry
//! table and its dialogs, plus transient notifications.

use vstd::prelude::*;
use crate::input::InputState;

verus! {

/// How long a notification stays up, in milliseconds.
pub const TOAST_MILLIS: u64 = 3000;

#[derive(Clone, Copy, Debug, PartialEq, Eq, Structural)]
pub enum SetupStage {
    EnterPassword,
    ConfirmPassword,
}

#[derive(Clone, Copy, Debug, PartialEq, Eq, Structural)]
pub enum AddEntryStage {
    Platform,
    UserId,
    Password,
}

#[derive(Clone, Copy, Debug, PartialEq, Eq, Structural)]
pub enum EditEntryStage {
    UserId,
    Password,
}

/// A transient message and the time, in milliseconds, at which it goes.
pub struct Toast {
    pub message: String,
    pub expires_at: u64,
}

impl Toast {
    /// A message shown at `now` for the standard duration.
    pub fn new(message: String, now: u64) -> (r: Toast)
        ensures
            r.message@ == message@,
            r.expires_at == if now <= u64::MAX - TOAST_MILLIS { (now + TOAST_MILLIS) as u64 } else { u64::MAX },
    {
        let expires_at = if now <= u64::MAX - TOAST_MILLIS { now + TOAST_MILLIS } else { u64::MAX };
        Toast { message, expires_at }
    }

    /// Whether the message is gone at `now`.
    pub fn is_expired(&self, now: u64) -> (r: bool)
        ensures
            r == (now >= self.expires_at),
    {
        now >= self.expires_at
    }
}

#[allow(inconsistent_fields)]
pub enum AppState {
    Authentication(String),
    MainTable,
    Generator,
    Setup {
        password: String,
        confirm: String,
        stage: SetupStage,
        error: Option<String>,
    },
    RemoveConfirmation {
        platform: String,
        user_id: String,
    },
    EditEntry {
        platform: String,
        original_user_id: String,
        user_id: InputState,
        password: InputState,
        stage: EditEntryStage,
    },
    AddEntry {
        platform: InputState,
        user_id: InputState,
        password: InputState,
        stage: AddEntryStage,
    },
    ThemeSelection,
    SortSelection,
}

} // verus!
