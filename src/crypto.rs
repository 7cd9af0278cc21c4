//! Password hashing, key generation and authenticated encryption helpers.

use vstd::prelude::*;
use vstd::utf8::{valid_utf8, decode_utf8};
use crate::primitives::{
    argon2id_key, argon2id_output, chacha_encrypt, chacha_decrypt, chacha_seal, chacha_open,
    random_bytes, random_below, shuffle_chars, base64_encode, base64_decode, b64_encode, b64_decode,
    phc_hash, phc_verify, phc_verifies, phc_lanes_bounded, digits_within, MAX_LANES,
};
use vstd::string::StrSliceExecFns;
use crate::store::{push_char, utf8_to_string, ENTRY_T_COST, ENTRY_M_COST, ENTRY_P_COST};

verus! {

broadcast use vstd::seq_lib::group_to_multiset_ensures;

/// Encryption schemes; one is implemented.
#[derive(Clone, Copy, Debug, PartialEq, Eq, Structural)]
pub enum Encryption {
    Raw,
}

/// Hashing schemes; one is implemented.
#[derive(Clone, Copy, Debug, PartialEq, Eq, Structural)]
pub enum Hash {
    Raw,
}

#[derive(Clone, Copy, Debug, PartialEq, Eq, Structural)]
pub enum CryptoError {
    Hashing,
    KeyDerivation,
    InvalidKey,
    InvalidNonce,
    Encoding,
    Decryption,
    TooLarge,
}

/// A self-describing password hash (PHC string).
pub struct HashedData {
    pub hash: String,
}

/// A message encrypted under a fresh random key, all as base64.
pub struct EncryptedData {
    pub key: String,
    pub nonce: String,
    pub ciphertext: String,
}

/// Hashes a password with Argon2id and a fresh random salt; the result
/// embeds its parameters and salt.
pub fn hash_data(data: &[u8]) -> (r: Result<HashedData, CryptoError>)
    ensures
        data@.len() <= u32::MAX ==> r is Ok,
        match r {
            Ok(h) => phc_verifies(data@, h.hash@) && phc_lanes_bounded(h.hash@),
            Err(e) => e == CryptoError::Hashing,
        },
{
    match phc_hash(data) {
        Some(hash) => Ok(HashedData { hash }),
        None => Err(CryptoError::Hashing),
    }
}

/// Whether the digits of `s` from `start` on stay within `MAX_LANES`.
fn digits_bounded(s: &str, start: usize) -> (r: bool)
    requires
        start <= s@.len(),
    ensures
        r == digits_within(s@, start as int, 0),
{
    let n = s.unicode_len();
    let mut j: usize = start;
    let mut acc: u64 = 0;
    while j < n
        invariant
            n == s@.len(),
            start <= j <= n,
            acc <= MAX_LANES,
            digits_within(s@, start as int, 0) == digits_within(s@, j as int, acc as int),
        decreases n - j,
    {
        let c = s.get_char(j);
        if !('0' <= c && c <= '9') {
            return true;
        }
        acc = acc * 10 + (c as u32 - '0' as u32) as u64;
        if acc > MAX_LANES as u64 {
            assert(!digits_within(s@, j + 1, acc as int));
            return false;
        }
        j = j + 1;
    }
    true
}

/// Whether every `p=` of a PHC string carries a lane count argon2 can
/// take without overflowing.
pub fn lanes_bounded(s: &str) -> (r: bool)
    ensures
        r == phc_lanes_bounded(s@),
{
    let n = s.unicode_len();
    let mut i: usize = 0;
    while i < n && n - i > 1
        invariant
            n == s@.len(),
            i <= n,
            forall|k: int| 0 <= k < i && k + 1 < n && #[trigger] s@[k] == 'p' && s@[k + 1] == '='
                ==> digits_within(s@, k + 2, 0),
        decreases n - i,
    {
        if s.get_char(i) == 'p' && s.get_char(i + 1) == '=' {
            if !digits_bounded(s, i + 2) {
                assert(s@[i as int] == 'p');
                return false;
            }
        }
        i = i + 1;
    }
    true
}

/// Checks a password against a stored hash. A hash that does not parse, or
/// whose lane count is out of range, never verifies.
pub fn verify_password(password: &[u8], stored_hash: &str) -> (r: bool)
    ensures
        r == (phc_lanes_bounded(stored_hash@) && phc_verifies(password@, stored_hash@)),
        (stored_hash@.len() == 0 || stored_hash@[0] != '$') ==> !r,
{
    if !lanes_bounded(stored_hash) {
        return false;
    }
    phc_verify(password, stored_hash)
}

/// A fresh random 32-byte key.
pub fn generate_raw_key() -> (r: Vec<u8>)
    ensures
        r@.len() == 32,
{
    random_bytes(32)
}

/// A fresh random 32-byte key as base64.
pub fn generate_key() -> (r: String)
    ensures
        exists|k: Seq<u8>| k.len() == 32 && r@ == b64_encode(k) && b64_decode(r@) == Some(k),
{
    let k = generate_raw_key();
    base64_encode(k.as_slice())
}

/// Derives a 32-byte key from a password and salt with argon2's default
/// Argon2id costs.
pub fn derive_key(password: &[u8], salt: &[u8]) -> (r: Result<Vec<u8>, CryptoError>)
    ensures
        match r {
            Ok(k) => argon2id_output(password@, salt@, ENTRY_T_COST, ENTRY_M_COST, ENTRY_P_COST) == Some(k@) && k@.len() == 32,
            Err(e) => e == CryptoError::KeyDerivation
                && argon2id_output(password@, salt@, ENTRY_T_COST, ENTRY_M_COST, ENTRY_P_COST) is None,
        },
{
    match argon2id_key(password, salt, ENTRY_T_COST, ENTRY_M_COST, ENTRY_P_COST) {
        Some(k) => Ok(k),
        None => Err(CryptoError::KeyDerivation),
    }
}

/// What decrypting base64 ciphertext and nonce under `key` gives.
pub open spec fn decrypt_spec(key: Seq<u8>, ciphertext: Seq<char>, nonce: Seq<char>) -> Result<Seq<char>, CryptoError> {
    match (b64_decode(ciphertext), b64_decode(nonce)) {
        (Some(c), Some(n)) => if n.len() != 12 {
            Err(CryptoError::InvalidNonce)
        } else if key.len() != 32 {
            Err(CryptoError::InvalidKey)
        } else {
            match chacha_open(key, n, Seq::empty(), c) {
                None => Err(CryptoError::Decryption),
                Some(p) => if valid_utf8(p) {
                    Ok(decode_utf8(p))
                } else {
                    Err(CryptoError::Encoding)
                },
            }
        },
        _ => Err(CryptoError::Encoding),
    }
}

pub open spec fn text_result(r: Result<String, CryptoError>) -> Result<Seq<char>, CryptoError> {
    match r {
        Ok(s) => Ok(s@),
        Err(e) => Err(e),
    }
}

/// Encrypts `data` under `key` with a fresh nonce; returns base64
/// ciphertext and nonce.
pub fn encrypt_with_key(key: &[u8], data: &[u8]) -> (r: Result<(String, String), CryptoError>)
    ensures
        key@.len() != 32 ==> r == Err::<(String, String), CryptoError>(CryptoError::InvalidKey),
        key@.len() == 32 && data@.len() <= u32::MAX ==> r is Ok,
        match r {
            Ok((c, n)) => exists|nb: Seq<u8>| nb.len() == 12 && n@ == b64_encode(nb)
                && c@ == b64_encode(chacha_seal(key@, nb, Seq::empty(), data@))
                && b64_decode(n@) == Some(nb)
                && b64_decode(c@) == Some(chacha_seal(key@, nb, Seq::empty(), data@))
                && chacha_open(key@, nb, Seq::empty(), chacha_seal(key@, nb, Seq::empty(), data@)) == Some(data@),
            Err(e) => e == CryptoError::InvalidKey || e == CryptoError::TooLarge,
        },
{
    if key.len() != 32 {
        return Err(CryptoError::InvalidKey);
    }
    if data.len() > 0xFFFF_FFFF {
        return Err(CryptoError::TooLarge);
    }
    let nonce = random_bytes(12);
    let ad: Vec<u8> = Vec::new();
    assert(ad@ =~= Seq::<u8>::empty());
    let ct = chacha_encrypt(key, nonce.as_slice(), ad.as_slice(), data);
    Ok((base64_encode(ct.as_slice()), base64_encode(nonce.as_slice())))
}

/// Decrypts base64 ciphertext and nonce under `key` to text.
pub fn decrypt_with_key(key: &[u8], ciphertext_b64: &str, nonce_b64: &str) -> (r: Result<String, CryptoError>)
    ensures
        text_result(r) == decrypt_spec(key@, ciphertext_b64@, nonce_b64@),
{
    let c = base64_decode(ciphertext_b64);
    let n = base64_decode(nonce_b64);
    let (c, n) = match (c, n) {
        (Some(c), Some(n)) => (c, n),
        _ => {
            return Err(CryptoError::Encoding);
        },
    };
    if n.len() != 12 {
        return Err(CryptoError::InvalidNonce);
    }
    if key.len() != 32 {
        return Err(CryptoError::InvalidKey);
    }
    let ad: Vec<u8> = Vec::new();
    assert(ad@ =~= Seq::<u8>::empty());
    match chacha_decrypt(key, n.as_slice(), ad.as_slice(), c.as_slice()) {
        None => Err(CryptoError::Decryption),
        Some(p) => match utf8_to_string(p) {
            Some(s) => Ok(s),
            None => Err(CryptoError::Encoding),
        },
    }
}

/// Encrypts `data` under a fresh random key and nonce, all returned as base64.
pub fn encrypt_data(data: &[u8]) -> (r: Result<EncryptedData, CryptoError>)
    ensures
        data@.len() <= u32::MAX ==> r is Ok,
        match r {
            Ok(d) => exists|k: Seq<u8>, nb: Seq<u8>| k.len() == 32 && nb.len() == 12
                && d.key@ == b64_encode(k) && d.nonce@ == b64_encode(nb)
                && d.ciphertext@ == b64_encode(chacha_seal(k, nb, Seq::empty(), data@)),
            Err(e) => e == CryptoError::TooLarge,
        },
{
    if data.len() > 0xFFFF_FFFF {
        return Err(CryptoError::TooLarge);
    }
    let key = random_bytes(32);
    let nonce = random_bytes(12);
    let ad: Vec<u8> = Vec::new();
    assert(ad@ =~= Seq::<u8>::empty());
    let ct = chacha_encrypt(key.as_slice(), nonce.as_slice(), ad.as_slice(), data);
    Ok(EncryptedData {
        key: base64_encode(key.as_slice()),
        nonce: base64_encode(nonce.as_slice()),
        ciphertext: base64_encode(ct.as_slice()),
    })
}

pub open spec fn is_lower(c: char) -> bool {
    'a' <= c && c <= 'z'
}

pub open spec fn is_upper(c: char) -> bool {
    'A' <= c && c <= 'Z'
}

pub open spec fn is_digit(c: char) -> bool {
    '0' <= c && c <= '9'
}

/// The punctuation a generated password may hold.
pub open spec fn symbol_chars() -> Seq<char> {
    "!@#$%^&*()_+-=[]{}|;:'\",.<>/?"@
}

pub open spec fn is_symbol(c: char) -> bool {
    symbol_chars().contains(c)
}

/// A character a generated password may hold.
pub open spec fn allowed_char(c: char, special_characters: bool) -> bool {
    is_lower(c) || is_upper(c) || is_digit(c) || (special_characters && is_symbol(c))
}

/// The characters of `lo..=hi`.
fn char_range(lo: u8, hi: u8) -> (r: Vec<char>)
    requires
        lo <= hi < 128,
    ensures
        r@.len() == hi - lo + 1,
        forall|i: int| 0 <= i < r@.len() ==> lo as char <= #[trigger] r@[i] && r@[i] <= hi as char,
{
    let mut r: Vec<char> = Vec::new();
    let mut b: u8 = lo;
    while b <= hi
        invariant
            lo <= b <= hi + 1,
            hi < 128,
            r@.len() == b - lo,
            forall|i: int| 0 <= i < r@.len() ==> lo as char <= #[trigger] r@[i] && r@[i] <= hi as char,
        decreases hi + 1 - b,
    {
        r.push(b as char);
        b = b + 1;
    }
    r
}

/// A uniformly chosen element of `pool`.
fn pick(pool: &Vec<char>) -> (r: char)
    requires
        pool@.len() > 0,
    ensures
        pool@.contains(r),
{
    let i = random_below(pool.len());
    assert(pool@[i as int] == pool[i as int]);
    pool[i]
}

/// Generates a random password of `length` characters with at least one
/// lowercase letter, one uppercase letter and one digit, and at least one
/// symbol when `special_characters` is set; the rest come from the union of
/// those classes, and the order is shuffled.
pub fn generate_password(length: u8, special_characters: bool) -> (r: String)
    requires
        length >= if special_characters { 4u8 } else { 3u8 },
    ensures
        r@.len() == length,
        forall|i: int| 0 <= i < r@.len() ==> allowed_char(#[trigger] r@[i], special_characters),
        exists|i: int| 0 <= i < r@.len() && is_lower(#[trigger] r@[i]),
        exists|i: int| 0 <= i < r@.len() && is_upper(#[trigger] r@[i]),
        exists|i: int| 0 <= i < r@.len() && is_digit(#[trigger] r@[i]),
        special_characters ==> exists|i: int| 0 <= i < r@.len() && is_symbol(#[trigger] r@[i]),
{
    let lowercase = char_range(0x61, 0x7a);
    let uppercase = char_range(0x41, 0x5a);
    let numbers = char_range(0x30, 0x39);
    let symbols = vec!['!', '@', '#', '$', '%', '^', '&', '*', '(', ')', '_', '+', '-', '=', '[', ']',
        '{', '}', '|', ';', ':', '\'', '"', ',', '.', '<', '>', '/', '?'];
    proof {
        reveal_strlit("!@#$%^&*()_+-=[]{}|;:'\",.<>/?");
        assert(symbols@ =~= symbol_chars());
    }
    let mut chars: Vec<char> = Vec::new();
    let a = pick(&lowercase);
    chars.push(a);
    let b = pick(&uppercase);
    chars.push(b);
    let c = pick(&numbers);
    chars.push(c);
    let ghost d: char = c;
    if special_characters {
        let s = pick(&symbols);
        chars.push(s);
        proof { d = s; }
    }
    let mut pool: Vec<char> = Vec::new();
    pool.append(&mut lowercase.clone());
    let mut up = uppercase.clone();
    pool.append(&mut up);
    let mut num = numbers.clone();
    pool.append(&mut num);
    if special_characters {
        let mut sym = symbols.clone();
        pool.append(&mut sym);
    }
    assert forall|x: int| 0 <= x < pool@.len() implies allowed_char(#[trigger] pool@[x], special_characters) by {
        if x >= 62 {
            assert(symbols@[x - 62] == pool@[x]);
        }
    }
    let ghost head = chars@;
    assert(is_lower(head[0]) && is_upper(head[1]) && is_digit(head[2]));
    assert(special_characters ==> is_symbol(head[3]));
    let needed: usize = chars.len();
    let total: usize = length as usize;
    while chars.len() < total
        invariant
            needed <= chars@.len() <= total,
            pool@.len() > 0,
            chars@.subrange(0, needed as int) == head,
            forall|x: int| 0 <= x < pool@.len() ==> allowed_char(#[trigger] pool@[x], special_characters),
            forall|x: int| 0 <= x < chars@.len() ==> allowed_char(#[trigger] chars@[x], special_characters),
        decreases total - chars@.len(),
    {
        let x = pick(&pool);
        chars.push(x);
        assert(chars@.subrange(0, needed as int) =~= head);
    }
    let ghost before = chars@;
    shuffle_chars(&mut chars);
    proof {
        assert(before[0] == head[0] && before[1] == head[1] && before[2] == head[2]);
        assert(before.to_multiset().count(before[0]) > 0);
        assert(before.to_multiset().count(before[1]) > 0);
        assert(before.to_multiset().count(before[2]) > 0);
        assert(chars@.contains(before[0]));
        assert(chars@.contains(before[1]));
        assert(chars@.contains(before[2]));
        if special_characters {
            assert(before[3] == head[3]);
            assert(before.to_multiset().count(before[3]) > 0);
            assert(chars@.contains(before[3]));
        }
        assert forall|x: int| 0 <= x < chars@.len() implies allowed_char(#[trigger] chars@[x], special_characters) by {
            assert(chars@.to_multiset().count(chars@[x]) > 0);
            assert(before.contains(chars@[x]));
        }
    }
    let mut out = String::new();
    let mut i: usize = 0;
    while i < chars.len()
        invariant
            i <= chars@.len(),
            out@ == chars@.subrange(0, i as int),
        decreases chars@.len() - i,
    {
        push_char(&mut out, chars[i]);
        i = i + 1;
        assert(out@ =~= chars@.subrange(0, i as int));
    }
    assert(out@ =~= chars@);
    out
}

} // verus!
