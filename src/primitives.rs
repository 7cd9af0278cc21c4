//! Thin, trusted bindings to the cryptographic and byte-level crates the
//! vault is built on. Each binding states what the library relies on.

use vstd::prelude::*;
use base64::Engine as _;
use chacha20poly1305::aead::{Aead as _, KeyInit as _};
use rand::Rng as _;
use rand::RngCore as _;
use rand::seq::SliceRandom as _;
use argon2::PasswordHasher as _;
use argon2::PasswordVerifier as _;

verus! {

/// The 32-byte key that Argon2id (version 0x13) derives from a password and a
/// salt under the given time, memory and lane costs; `None` where argon2
/// refuses the inputs.
pub uninterp spec fn argon2id_output(password: Seq<u8>, salt: Seq<u8>, t: u32, m: u32, p: u32) -> Option<Seq<u8>>;

/// ChaCha20-Poly1305 ciphertext (with its tag) of `msg` under `key`, `nonce`
/// and associated data `aad`.
pub uninterp spec fn chacha_seal(key: Seq<u8>, nonce: Seq<u8>, aad: Seq<u8>, msg: Seq<u8>) -> Seq<u8>;

/// ChaCha20-Poly1305 authenticated decryption; `None` when the tag does not verify.
pub uninterp spec fn chacha_open(key: Seq<u8>, nonce: Seq<u8>, aad: Seq<u8>, ct: Seq<u8>) -> Option<Seq<u8>>;

/// Standard (padded) base64 text of a byte string.
pub uninterp spec fn b64_encode(bytes: Seq<u8>) -> Seq<char>;

/// Standard base64 decoding; `None` on malformed text.
pub uninterp spec fn b64_decode(text: Seq<char>) -> Option<Seq<u8>>;

/// CRC-32 (IEEE) checksum of a byte string.
pub uninterp spec fn crc32_of(bytes: Seq<u8>) -> u32;

/// Whether `password` matches a PHC-format Argon2 hash string.
pub uninterp spec fn phc_verifies(password: Seq<u8>, stored: Seq<char>) -> bool;

/// The lowercase form of a string, as std's `str::to_lowercase` gives it.
pub uninterp spec fn lower_of(s: Seq<char>) -> Seq<char>;

/// Largest lane count argon2 accepts.
pub const MAX_LANES: u32 = 0xFF_FFFF;

pub open spec fn is_decimal_digit(c: char) -> bool {
    '0' <= c && c <= '9'
}

/// The digits of `s` from `i` on, read onto `acc`, never exceed `MAX_LANES`.
pub open spec fn digits_within(s: Seq<char>, i: int, acc: int) -> bool
    decreases s.len() - i,
{
    if acc > MAX_LANES {
        false
    } else if i < 0 || i >= s.len() || !is_decimal_digit(s[i]) {
        true
    } else {
        digits_within(s, i + 1, acc * 10 + (s[i] as u32 - '0' as u32))
    }
}

/// Every `p=` in a PHC string is followed by a lane count within range.
pub open spec fn phc_lanes_bounded(s: Seq<char>) -> bool {
    forall|i: int| 0 <= i && i + 1 < s.len() && #[trigger] s[i] == 'p' && s[i + 1] == '='
        ==> digits_within(s, i + 2, 0)
}

/// `needle` occurs in `hay` at position `i`.
pub open spec fn occurs_at(hay: Seq<u8>, needle: Seq<u8>, i: int) -> bool {
    0 <= i && i + needle.len() <= hay.len() && hay.subrange(i, i + needle.len()) == needle
}

/// An ASCII letter or digit.
pub open spec fn is_alnum_ascii(c: char) -> bool {
    ('a' <= c && c <= 'z') || ('A' <= c && c <= 'Z') || ('0' <= c && c <= '9')
}

/// Relies on rand's thread-local CSPRNG (`RngCore::fill_bytes`): `n` bytes of
/// unpredictable data.
#[verifier::external_body]
pub(crate) fn random_bytes(n: usize) -> (r: Vec<u8>)
    ensures
        r@.len() == n,
{
    let mut buf = vec![0u8; n];
    rand::rng().fill_bytes(&mut buf);
    buf
}

/// Relies on rand's `Rng::random_range` over `0..n`, which panics only on an
/// empty range.
#[verifier::external_body]
pub(crate) fn random_below(n: usize) -> (r: usize)
    requires
        n > 0,
    ensures
        r < n,
{
    rand::rng().random_range(0..n)
}

/// Relies on rand's `SliceRandom::shuffle`: the elements are permuted.
#[verifier::external_body]
pub(crate) fn shuffle_chars(v: &mut Vec<char>)
    ensures
        final(v)@.to_multiset() == old(v)@.to_multiset(),
        final(v)@.len() == old(v)@.len(),
{
    v.shuffle(&mut rand::rng());
}

/// Relies on rand's `Alphanumeric` distribution: `n` characters drawn from
/// `a-z`, `A-Z` and `0-9`.
#[verifier::external_body]
pub(crate) fn random_alphanumeric(n: usize) -> (r: String)
    ensures
        r@.len() == n,
        forall|i: int| 0 <= i < r@.len() ==> is_alnum_ascii(#[trigger] r@[i]),
{
    rand::rng().sample_iter(&rand::distr::Alphanumeric).take(n).map(char::from).collect()
}

/// Largest Argon2 memory cost, in KiB, this library asks for (4 GiB):
/// argon2 allocates the whole working memory up front.
pub const MAX_KDF_MEMORY_KIB: u32 = 4_194_304;

/// Relies on argon2's `Params::new` and `Argon2::hash_password_into` with
/// Argon2id, version 0x13 and a 32-byte output. argon2 refuses too small a
/// memory cost, a zero time or lane cost, a salt shorter than 8 bytes and
/// password or salt longer than `u32::MAX` bytes, and nothing else.
#[verifier::external_body]
pub(crate) fn argon2id_key(password: &[u8], salt: &[u8], t: u32, m: u32, p: u32) -> (r: Option<Vec<u8>>)
    requires
        p <= 0xFF_FFFF,
        m <= MAX_KDF_MEMORY_KIB,
    ensures
        match r {
            Some(k) => argon2id_output(password@, salt@, t, m, p) == Some(k@) && k@.len() == 32,
            None => argon2id_output(password@, salt@, t, m, p) is None,
        },
        (t == 0 || p == 0 || m < 8 * p || m < 8 || salt@.len() < 8) ==> r is None,
        (t >= 1 && p >= 1 && m >= 8 && m >= 8 * p && 8 <= salt@.len() <= u32::MAX
            && password@.len() <= u32::MAX) ==> r is Some,
{
    let params = argon2::Params::new(m, t, p, Some(32)).ok()?;
    let a2 = argon2::Argon2::new(argon2::Algorithm::Argon2id, argon2::Version::V0x13, params);
    let mut out = vec![0u8; 32];
    a2.hash_password_into(password, salt, &mut out).ok()?;
    Some(out)
}

/// Relies on zeroize's `Zeroize` for `Vec<u8>`: the bytes are overwritten
/// with zeros and the vector is left empty.
#[verifier::external_body]
pub(crate) fn wipe(v: &mut Vec<u8>)
    ensures
        final(v)@.len() == 0,
{
    zeroize::Zeroize::zeroize(v);
}

/// Relies on chacha20poly1305's `Aead::encrypt`: the ciphertext is the
/// message length plus a 16-byte tag, and `decrypt` under the same key,
/// nonce and associated data returns the message; it fails only beyond
/// 2^32 blocks.
#[verifier::external_body]
pub(crate) fn chacha_encrypt(key: &[u8], nonce: &[u8], aad: &[u8], msg: &[u8]) -> (r: Vec<u8>)
    requires
        key@.len() == 32,
        nonce@.len() == 12,
        msg@.len() <= 0xFFFF_FFFF,
    ensures
        r@ == chacha_seal(key@, nonce@, aad@, msg@),
        r@.len() == msg@.len() + 16,
        chacha_open(key@, nonce@, aad@, r@) == Some(msg@),
{
    let cipher = chacha20poly1305::ChaCha20Poly1305::new(chacha20poly1305::Key::from_slice(key));
    let payload = chacha20poly1305::aead::Payload { msg, aad };
    cipher.encrypt(chacha20poly1305::Nonce::from_slice(nonce), payload).unwrap()
}

/// Relies on chacha20poly1305's `Aead::decrypt`, which fails when the tag
/// does not verify.
#[verifier::external_body]
pub(crate) fn chacha_decrypt(key: &[u8], nonce: &[u8], aad: &[u8], ct: &[u8]) -> (r: Option<Vec<u8>>)
    requires
        key@.len() == 32,
        nonce@.len() == 12,
    ensures
        match r {
            Some(m) => chacha_open(key@, nonce@, aad@, ct@) == Some(m@),
            None => chacha_open(key@, nonce@, aad@, ct@) is None,
        },
{
    let cipher = chacha20poly1305::ChaCha20Poly1305::new(chacha20poly1305::Key::from_slice(key));
    let payload = chacha20poly1305::aead::Payload { msg: ct, aad };
    cipher.decrypt(chacha20poly1305::Nonce::from_slice(nonce), payload).ok()
}

/// Relies on base64's `STANDARD` engine `encode`, whose output the same
/// engine's `decode` (canonical padding) maps back to the input.
#[verifier::external_body]
pub(crate) fn base64_encode(bytes: &[u8]) -> (r: String)
    ensures
        r@ == b64_encode(bytes@),
        b64_decode(r@) == Some(bytes@),
{
    base64::engine::general_purpose::STANDARD.encode(bytes)
}

/// Relies on base64's `STANDARD` engine `decode`.
#[verifier::external_body]
pub(crate) fn base64_decode(text: &str) -> (r: Option<Vec<u8>>)
    ensures
        match r {
            Some(b) => b64_decode(text@) == Some(b@),
            None => b64_decode(text@) is None,
        },
{
    base64::engine::general_purpose::STANDARD.decode(text).ok()
}

/// Relies on crc32fast's `hash`.
#[verifier::external_body]
pub(crate) fn crc32(bytes: &[u8]) -> (r: u32)
    ensures
        r == crc32_of(bytes@),
{
    crc32fast::hash(bytes)
}

/// Relies on memchr's `memmem::find`: the index of the first occurrence of
/// `needle` in `hay`, or `None` when it does not occur.
#[verifier::external_body]
pub(crate) fn find_first(hay: &[u8], needle: &[u8]) -> (r: Option<usize>)
    ensures
        match r {
            Some(i) => occurs_at(hay@, needle@, i as int)
                && forall|j: int| 0 <= j < i ==> !occurs_at(hay@, needle@, j),
            None => forall|j: int| !occurs_at(hay@, needle@, j),
        },
{
    memchr::memmem::find(hay, needle)
}

/// Relies on std's `str::to_lowercase`, whose result depends on the
/// characters alone.
#[verifier::external_body]
pub(crate) fn lowercase(s: &str) -> (r: String)
    ensures
        r@ == lower_of(s@),
{
    s.to_lowercase()
}

/// Relies on argon2's `PasswordHasher::hash_password` with default Argon2id
/// parameters (`m=19456,t=2,p=1`) and a fresh random salt: a self-describing
/// PHC string. It fails only on a password longer than `u32::MAX` bytes, and
/// `PasswordVerifier::verify_password` recomputes the hash from the string's
/// own salt and parameters, so the password verifies against it.
#[verifier::external_body]
pub(crate) fn phc_hash(password: &[u8]) -> (r: Option<String>)
    ensures
        password@.len() <= u32::MAX ==> r is Some,
        r matches Some(h) ==> phc_verifies(password@, h@) && phc_lanes_bounded(h@),
{
    let salt = argon2::password_hash::SaltString::generate(&mut argon2::password_hash::rand_core::OsRng);
    argon2::Argon2::default().hash_password(password, &salt).ok().map(|h| h.to_string())
}

/// Relies on argon2's `PasswordHash::new` and `PasswordVerifier::verify_password`,
/// which compares in constant time. A string that is empty or does not
/// start with `$` does not parse, and does not verify. argon2 multiplies a
/// `p=` value by 8 in `u32` before checking its range, so lane counts above
/// `0xFF_FFFF` are kept out.
#[verifier::external_body]
pub(crate) fn phc_verify(password: &[u8], stored: &str) -> (r: bool)
    requires
        phc_lanes_bounded(stored@),
    ensures
        r == phc_verifies(password@, stored@),
        (stored@.len() == 0 || stored@[0] != '$') ==> !r,
{
    match argon2::PasswordHash::new(stored) {
        Ok(parsed) => argon2::Argon2::default().verify_password(password, &parsed).is_ok(),
        Err(_) => false,
    }
}

} // verus!
