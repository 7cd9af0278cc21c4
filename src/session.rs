//! Session caching of the MEK between commands. The session directory holds
//! a `current` pointer naming the active token and one file per session,
//! named by its token, holding the raw MEK. This module decides; reading and
//! writing the directory is left to the caller.

use vstd::prelude::*;
use crate::primitives::{random_alphanumeric, is_alnum_ascii};

verus! {

/// Length of a session token.
pub const TOKEN_LEN: usize = 48;

/// Seconds in a minute, the unit of the configured timeout.
pub const SECS_PER_MINUTE: u64 = 60;

#[derive(Clone, Copy, Debug, PartialEq, Eq, Structural)]
pub enum SessionError {
    NoActiveSession,
    SessionExpired,
    ClockError,
}

/// The session file named by the current token: its key and when it was
/// last written, in seconds.
#[derive(Debug)]
pub struct SessionFile {
    pub token: String,
    pub key: Vec<u8>,
    pub written_at: u64,
}

/// The part of the session directory that matters: the `current` pointer
/// and, if it exists, the file it names.
#[derive(Debug)]
pub struct SessionDir {
    pub current: Option<String>,
    pub file: Option<SessionFile>,
}

pub struct SessionFileView {
    pub token: Seq<char>,
    pub key: Seq<u8>,
    pub written_at: u64,
}

pub struct SessionDirView {
    pub current: Option<Seq<char>>,
    pub file: Option<SessionFileView>,
}

impl View for SessionFile {
    type V = SessionFileView;

    open spec fn view(&self) -> SessionFileView {
        SessionFileView { token: self.token@, key: self.key@, written_at: self.written_at }
    }
}

impl View for SessionDir {
    type V = SessionDirView;

    open spec fn view(&self) -> SessionDirView {
        SessionDirView {
            current: match self.current {
                Some(t) => Some(t@),
                None => None,
            },
            file: match self.file {
                Some(f) => Some(f@),
                None => None,
            },
        }
    }
}

impl SessionDirView {
    /// A session file is only ever the one named by the pointer.
    pub open spec fn wf(self) -> bool {
        self.file matches Some(f) ==> self.current == Some(f.token)
    }
}

/// A session written at `written_at` has expired at `now` once a full
/// timeout has elapsed.
pub open spec fn expired(written_at: u64, now: u64, timeout_minutes: u64) -> bool {
    now - written_at >= timeout_minutes * SECS_PER_MINUTE
}

/// The directory after a session with `key` starts at `now` under `token`.
pub open spec fn started(token: Seq<char>, key: Seq<u8>, now: u64) -> SessionDirView {
    SessionDirView { current: Some(token), file: Some(SessionFileView { token, key, written_at: now }) }
}

/// What asking for the active key at `now` gives, and the directory after.
pub open spec fn active_outcome(d: SessionDirView, now: u64, timeout_minutes: u64) -> (Result<Seq<u8>, SessionError>, SessionDirView) {
    match (d.current, d.file) {
        (Some(_), Some(f)) => if now < f.written_at {
            (Err(SessionError::ClockError), d)
        } else if expired(f.written_at, now, timeout_minutes) {
            (Err(SessionError::SessionExpired), SessionDirView { file: None, ..d })
        } else {
            (Ok(f.key), d)
        },
        _ => (Err(SessionError::NoActiveSession), d),
    }
}

pub open spec fn key_result(r: Result<Vec<u8>, SessionError>) -> Result<Seq<u8>, SessionError> {
    match r {
        Ok(k) => Ok(k@),
        Err(e) => Err(e),
    }
}

/// A fresh, unpredictable session token of letters and digits.
pub fn new_token() -> (r: String)
    ensures
        r@.len() == TOKEN_LEN,
        forall|i: int| 0 <= i < r@.len() ==> is_alnum_ascii(#[trigger] r@[i]),
{
    random_alphanumeric(TOKEN_LEN)
}

/// Copies a byte vector.
pub fn copy_bytes(v: &Vec<u8>) -> (r: Vec<u8>)
    ensures
        r@ == v@,
{
    let mut r: Vec<u8> = Vec::new();
    let mut i: usize = 0;
    while i < v.len()
        invariant
            i <= v@.len(),
            r@ == v@.subrange(0, i as int),
        decreases v@.len() - i,
    {
        r.push(v[i]);
        i = i + 1;
        assert(r@ =~= v@.subrange(0, i as int));
    }
    assert(v@.subrange(0, v@.len() as int) =~= v@);
    r
}

impl SessionDir {
    /// A directory with no session.
    pub fn empty() -> (r: SessionDir)
        ensures
            r@.current is None && r@.file is None,
    {
        SessionDir { current: None, file: None }
    }

    /// Ends any previous session, then starts one caching `key` at `now`
    /// under a fresh token, which it returns.
    pub fn start_session(&mut self, key: Vec<u8>, now: u64) -> (r: String)
        ensures
            final(self)@ == started(r@, key@, now),
            final(self)@.wf(),
            r@.len() == TOKEN_LEN,
            forall|i: int| 0 <= i < r@.len() ==> is_alnum_ascii(#[trigger] r@[i]),
    {
        self.end_session();
        let token = new_token();
        self.current = Some(token.clone());
        self.file = Some(SessionFile { token: token.clone(), key, written_at: now });
        token
    }

    /// The cached MEK, if a session is active and has not expired at `now`
    /// under a timeout of `timeout_minutes`. An expired session's file is
    /// removed.
    pub fn get_key_from_session(&mut self, now: u64, timeout_minutes: u64) -> (r: Result<Vec<u8>, SessionError>)
        ensures
            (key_result(r), final(self)@) == active_outcome(old(self)@, now, timeout_minutes),
    {
        if self.current.is_none() {
            return Err(SessionError::NoActiveSession);
        }
        let (written_at, key) = match &self.file {
            None => {
                return Err(SessionError::NoActiveSession);
            },
            Some(f) => (f.written_at, copy_bytes(&f.key)),
        };
        if now < written_at {
            return Err(SessionError::ClockError);
        }
        let elapsed = now - written_at;
        let is_expired = if timeout_minutes > u64::MAX / SECS_PER_MINUTE {
            false
        } else {
            elapsed >= timeout_minutes * SECS_PER_MINUTE
        };
        if is_expired {
            self.file = None;
            return Err(SessionError::SessionExpired);
        }
        Ok(key)
    }

    /// Ends the session: the session file and the pointer are removed.
    /// Ending when no session is active does nothing.
    pub fn end_session(&mut self)
        ensures
            final(self)@.current is None && final(self)@.file is None,
    {
        self.current = None;
        self.file = None;
    }
}

/// Session lifetime: started at `t0` with a timeout of `minutes`, the key is
/// returned at any time before `t0` plus the timeout, and from then on the
/// session is expired, its file removed, and later asks find no session.
pub proof fn lemma_session_ttl(token: Seq<char>, key: Seq<u8>, t0: u64, minutes: u64, t: u64, later: u64)
    requires
        t0 <= t,
    ensures
        t < t0 + minutes * SECS_PER_MINUTE ==> active_outcome(started(token, key, t0), t, minutes)
            == (Ok::<Seq<u8>, SessionError>(key), started(token, key, t0)),
        t >= t0 + minutes * SECS_PER_MINUTE ==> {
            let after = active_outcome(started(token, key, t0), t, minutes).1;
            &&& active_outcome(started(token, key, t0), t, minutes).0 == Err::<Seq<u8>, SessionError>(SessionError::SessionExpired)
            &&& after.file is None
            &&& active_outcome(after, later, minutes).0 == Err::<Seq<u8>, SessionError>(SessionError::NoActiveSession)
        },
{
}

} // verus!
