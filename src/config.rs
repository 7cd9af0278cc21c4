//! The installation's configuration: non-secret settings and the master
//! password hash. Reading and writing the file is left to the caller.

use vstd::prelude::*;
use vstd::string::StrSliceExecFns;
use crate::store::push_char;

verus! {

/// Timeout, in minutes, used when the configured value is not a number.
pub const FALLBACK_TIMEOUT_MINUTES: u64 = 15;

pub struct Config {
    pub version: String,
    pub master_password_hash: Option<String>,
    pub last_used_vault: String,
    pub last_used_database: String,
    pub session_timeout: String,
    pub theme: String,
}

fn string_of(chars: &Vec<char>) -> (r: String)
    ensures
        r@ == chars@,
{
    let mut out = String::new();
    let mut i: usize = 0;
    while i < chars.len()
        invariant
            i <= chars@.len(),
            out@ == chars@.subrange(0, i as int),
        decreases chars@.len() - i,
    {
        push_char(&mut out, chars[i]);
        i = i + 1;
        assert(out@ =~= chars@.subrange(0, i as int));
    }
    assert(out@ =~= chars@);
    out
}

impl Default for Config {
    /// A first-run configuration: no master password, vault `main`, a
    /// 60-minute session timeout.
    fn default() -> (r: Config)
        ensures
            r.master_password_hash is None,
            r.version@ == seq!['0', '.', '0', '.', '2'],
            r.last_used_vault@ == seq!['m', 'a', 'i', 'n'],
            r.session_timeout@ == seq!['6', '0'],
    {
        Config {
            version: string_of(&vec!['0', '.', '0', '.', '2']),
            master_password_hash: None,
            last_used_vault: string_of(&vec!['m', 'a', 'i', 'n']),
            last_used_database: string_of(&vec!['d', 'e', 'f', 'a', 'u', 'l', 't', '.', 's', 'q', 'l', 'i', 't', 'e']),
            session_timeout: string_of(&vec!['6', '0']),
            theme: string_of(&vec!['C', 'a', 't', 'p', 'p', 'u', 'c', 'c', 'i', 'n']),
        }
    }
}

pub open spec fn is_digit_char(c: char) -> bool {
    '0' <= c && c <= '9'
}

/// The number a string of decimal digits denotes.
pub open spec fn digits_value(s: Seq<char>) -> int
    decreases s.len(),
{
    if s.len() == 0 {
        0
    } else {
        digits_value(s.drop_last()) * 10 + (s.last() as u32 - '0' as u32)
    }
}

/// The text after an optional leading `+`.
pub open spec fn unsigned_part(s: Seq<char>) -> Seq<char> {
    if s.len() > 0 && s[0] == '+' { s.drop_first() } else { s }
}

pub open spec fn all_digits(d: Seq<char>) -> bool {
    forall|i: int| 0 <= i < d.len() ==> is_digit_char(#[trigger] d[i])
}

/// Decimal text as `u64`, with an optional leading `+`, as std's
/// `u64::from_str` reads it; `None` for anything else or an overflow.
pub open spec fn parse_u64_spec(s: Seq<char>) -> Option<u64> {
    let d = unsigned_part(s);
    if d.len() > 0 && all_digits(d) && digits_value(d) <= u64::MAX {
        Some(digits_value(d) as u64)
    } else {
        None
    }
}

proof fn lemma_digits_grow(s: Seq<char>, k: int)
    requires
        0 <= k <= s.len(),
        forall|i: int| 0 <= i < s.len() ==> is_digit_char(#[trigger] s[i]),
    ensures
        digits_value(s.subrange(0, k)) <= digits_value(s),
        digits_value(s) >= 0,
    decreases s.len(),
{
    if s.len() > 0 {
        if k == s.len() {
            assert(s.subrange(0, k) =~= s);
        } else {
            assert(s.drop_last().subrange(0, k) =~= s.subrange(0, k));
        }
        if k < s.len() {
            lemma_digits_grow(s.drop_last(), k);
        } else {
            lemma_digits_grow(s.drop_last(), 0);
        }
    }
}

/// Parses decimal text as `u64`.
pub fn parse_u64(s: &str) -> (r: Option<u64>)
    ensures
        r == parse_u64_spec(s@),
{
    let n = s.unicode_len();
    let mut i: usize = 0;
    if n > 0 && s.get_char(0) == '+' {
        i = 1;
    }
    let ghost d = unsigned_part(s@);
    let start = i;
    assert(d =~= s@.subrange(start as int, n as int));
    if i == n {
        return None;
    }
    let mut v: u64 = 0;
    while i < n
        invariant
            n == s@.len(),
            start <= i <= n,
            d == s@.subrange(start as int, n as int),
            d == unsigned_part(s@),
            forall|j: int| 0 <= j < i - start ==> is_digit_char(#[trigger] d[j]),
            v == digits_value(d.subrange(0, i - start)),
        decreases n - i,
    {
        let c = s.get_char(i);
        assert(d[i - start] == c);
        if !('0' <= c && c <= '9') {
            assert(!is_digit_char(d[i - start]));
            assert(!all_digits(d));
            return None;
        }
        let digit = (c as u32 - '0' as u32) as u64;
        assert(d.subrange(0, i + 1 - start).drop_last() =~= d.subrange(0, i - start));
        if v > (u64::MAX - digit) / 10 {
            proof {
                assert(v * 10 + digit > u64::MAX) by (nonlinear_arith)
                    requires v > (u64::MAX - digit) / 10, digit <= 9;
                let k = i + 1 - start;
                assert(d.subrange(0, k).last() == c);
                assert(digits_value(d.subrange(0, k)) == v * 10 + digit);
                if all_digits(d) {
                    lemma_digits_grow(d, k);
                }
            }
            return None;
        }
        assert(v * 10 + digit <= u64::MAX) by (nonlinear_arith)
            requires v <= (u64::MAX - digit) / 10, digit <= 9;
        v = v * 10 + digit;
        i = i + 1;
    }
    assert(d.subrange(0, n - start) =~= d);
    Some(v)
}

impl Config {
    /// The session timeout in minutes, read from its text; text that is not
    /// a number gives 15.
    pub fn timeout_minutes(&self) -> (r: u64)
        ensures
            r == match parse_u64_spec(self.session_timeout@) {
                Some(v) => v,
                None => FALLBACK_TIMEOUT_MINUTES,
            },
    {
        match parse_u64(self.session_timeout.as_str()) {
            Some(v) => v,
            None => FALLBACK_TIMEOUT_MINUTES,
        }
    }
}

} // verus!
