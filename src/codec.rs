//! The binary keystore record: magic tag, format version, reserved flags,
//! KDF costs, salt, nonce, length-prefixed wrapped key and a trailing CRC-32
//! over everything before it. Integers are little-endian `u32`.

use vstd::prelude::*;
use vstd::bytes::{spec_u32_to_le_bytes, spec_u32_from_le_bytes, lemma_auto_spec_u32_to_from_le_bytes, u32_to_le_bytes, u32_from_le_bytes};
use vstd::slice::slice_subrange;
use crate::primitives::{crc32, crc32_of};

verus! {

/// The only record format version this library writes and reads.
pub const FORMAT_VERSION: u32 = 1;

/// Length of the KDF salt stored in a record.
pub const SALT_LEN: usize = 16;

/// Length of the AEAD nonce stored in a record.
pub const NONCE_LEN: usize = 12;

/// Offset of the wrapped key within a payload (after the fixed header).
pub const HEADER_LEN: usize = 60;

/// The eight-byte tag that opens every payload: `RVAULT`, a zero byte, then 1.
pub open spec fn magic_bytes() -> Seq<u8> {
    seq![0x52u8, 0x56u8, 0x41u8, 0x55u8, 0x4cu8, 0x54u8, 0x00u8, 0x01u8]
}

pub open spec fn le(v: u32) -> Seq<u8> {
    spec_u32_to_le_bytes(v)
}

/// Argon2id costs: iterations, memory in KiB, lanes.
#[derive(Clone, Copy, Debug, PartialEq, Eq, Structural)]
pub struct KdfParams {
    pub t: u32,
    pub m: u32,
    pub p: u32,
}

/// A decoded keystore record.
#[derive(Debug)]
pub struct KeystoreRecord {
    pub kdf: KdfParams,
    pub salt: Vec<u8>,
    pub nonce: Vec<u8>,
    pub ciphertext: Vec<u8>,
}

pub struct RecordView {
    pub kdf: KdfParams,
    pub salt: Seq<u8>,
    pub nonce: Seq<u8>,
    pub ciphertext: Seq<u8>,
}

impl View for KeystoreRecord {
    type V = RecordView;

    open spec fn view(&self) -> RecordView {
        RecordView { kdf: self.kdf, salt: self.salt@, nonce: self.nonce@, ciphertext: self.ciphertext@ }
    }
}

impl RecordView {
    pub open spec fn wf(self) -> bool {
        self.salt.len() == SALT_LEN && self.nonce.len() == NONCE_LEN && self.ciphertext.len() <= u32::MAX
    }

    pub open spec fn payload_len(self) -> int {
        HEADER_LEN + self.ciphertext.len() + 4
    }
}

/// Failures of keystore handling. `Corrupt` and `Authentication` are never
/// conflated: the first is a malformed record, the second a wrong password.
#[derive(Clone, Copy, Debug, PartialEq, Eq, Structural)]
pub enum KeystoreError {
    AlreadyExists,
    Corrupt,
    UnsupportedVersion,
    InvalidKdfParams,
    InvalidBanner,
    Authentication,
}

/// The four bytes of `s` starting at `at` read as a little-endian `u32`.
pub open spec fn u32_at(s: Seq<u8>, at: int) -> u32 {
    spec_u32_from_le_bytes(s.subrange(at, at + 4))
}

/// `data` begins with a well-formed payload encoding `v` with reserved
/// field `flags`; what follows the payload is ignored.
pub open spec fn is_payload(data: Seq<u8>, flags: u32, v: RecordView) -> bool {
    let n = v.ciphertext.len() as int;
    &&& v.wf()
    &&& data.len() >= v.payload_len()
    &&& data.subrange(0, 8) == magic_bytes()
    &&& data.subrange(8, 12) == le(FORMAT_VERSION)
    &&& data.subrange(12, 16) == le(flags)
    &&& data.subrange(16, 20) == le(v.kdf.t)
    &&& data.subrange(20, 24) == le(v.kdf.m)
    &&& data.subrange(24, 28) == le(v.kdf.p)
    &&& data.subrange(28, 44) == v.salt
    &&& data.subrange(44, 56) == v.nonce
    &&& data.subrange(56, 60) == le(n as u32)
    &&& data.subrange(60, 60 + n) == v.ciphertext
    &&& data.subrange(60 + n, 64 + n) == le(crc32_of(data.subrange(0, 60 + n)))
}

/// A payload that begins with the tag but names a version other than ours.
pub open spec fn is_foreign_version(data: Seq<u8>) -> bool {
    data.len() >= 12 && data.subrange(0, 8) == magic_bytes() && u32_at(data, 8) != FORMAT_VERSION
}

pub fn magic() -> (r: Vec<u8>)
    ensures
        r@ == magic_bytes(),
{
    let r = vec![0x52u8, 0x56u8, 0x41u8, 0x55u8, 0x4cu8, 0x54u8, 0x00u8, 0x01u8];
    assert(r@ =~= magic_bytes());
    r
}

/// Appends `v` to `buf` as four little-endian bytes.
pub fn write_u32_le(v: u32, buf: &mut Vec<u8>)
    ensures
        final(buf)@ == old(buf)@ + le(v),
{
    let bytes = u32_to_le_bytes(v);
    append_bytes(buf, bytes.as_slice());
}

/// Reads a little-endian `u32` at `*cur` and advances the cursor past it.
pub fn read_u32_le(src: &[u8], cur: &mut usize) -> (r: Result<u32, KeystoreError>)
    ensures
        old(cur) + 4 <= src@.len() ==> r == Ok::<u32, KeystoreError>(u32_at(src@, *old(cur) as int)) && *final(cur) == *old(cur) + 4,
        old(cur) + 4 > src@.len() ==> r == Err::<u32, KeystoreError>(KeystoreError::Corrupt) && *final(cur) == *old(cur),
{
    if *cur > src.len() || src.len() - *cur < 4 {
        return Err(KeystoreError::Corrupt);
    }
    let bytes = copy_range(src, *cur, 4);
    let v = u32_from_le_bytes(bytes.as_slice());
    *cur = *cur + 4;
    Ok(v)
}

/// Appends all of `src` to `buf`.
pub fn append_bytes(buf: &mut Vec<u8>, src: &[u8])
    ensures
        final(buf)@ == old(buf)@ + src@,
{
    let ghost start = buf@;
    let mut i: usize = 0;
    while i < src.len()
        invariant
            i <= src@.len(),
            buf@ == start + src@.subrange(0, i as int),
        decreases src@.len() - i,
    {
        buf.push(src[i]);
        i = i + 1;
        assert(buf@ =~= start + src@.subrange(0, i as int));
    }
    assert(src@.subrange(0, src@.len() as int) =~= src@);
}

/// A copy of `len` bytes of `src` starting at `start`.
pub fn copy_range(src: &[u8], start: usize, len: usize) -> (r: Vec<u8>)
    requires
        start + len <= src@.len(),
    ensures
        r@ == src@.subrange(start as int, start + len),
{
    let total = src.len();
    let mut r: Vec<u8> = Vec::new();
    let mut i: usize = 0;
    while i < len
        invariant
            total == src@.len(),
            start + len <= src@.len(),
            i <= len,
            r@ == src@.subrange(start as int, start + i),
        decreases len - i,
    {
        r.push(src[start + i]);
        i = i + 1;
        assert(r@ =~= src@.subrange(start as int, start + i));
    }
    r
}

/// Serialises a record as a payload with reserved flags zero.
pub fn encode_payload(rec: &KeystoreRecord) -> (r: Vec<u8>)
    requires
        rec@.wf(),
    ensures
        is_payload(r@, 0, rec@),
        r@.len() == rec@.payload_len(),
{
    let n = rec.ciphertext.len();
    let mut buf: Vec<u8> = Vec::new();
    let m = magic();
    append_bytes(&mut buf, m.as_slice());
    write_u32_le(FORMAT_VERSION, &mut buf);
    write_u32_le(0, &mut buf);
    write_u32_le(rec.kdf.t, &mut buf);
    write_u32_le(rec.kdf.m, &mut buf);
    write_u32_le(rec.kdf.p, &mut buf);
    append_bytes(&mut buf, rec.salt.as_slice());
    append_bytes(&mut buf, rec.nonce.as_slice());
    write_u32_le(n as u32, &mut buf);
    append_bytes(&mut buf, rec.ciphertext.as_slice());
    let ghost body = buf@;
    let sum = crc32(buf.as_slice());
    write_u32_le(sum, &mut buf);
    proof {
        lemma_auto_spec_u32_to_from_le_bytes();
        let d = buf@;
        assert(body.len() == 60 + n);
        assert(d.subrange(0, 60 + n) =~= body);
        assert(d.subrange(0, 8) =~= magic_bytes());
        assert(d.subrange(8, 12) =~= le(FORMAT_VERSION));
        assert(d.subrange(12, 16) =~= le(0));
        assert(d.subrange(16, 20) =~= le(rec.kdf.t));
        assert(d.subrange(20, 24) =~= le(rec.kdf.m));
        assert(d.subrange(24, 28) =~= le(rec.kdf.p));
        assert(d.subrange(28, 44) =~= rec.salt@);
        assert(d.subrange(44, 56) =~= rec.nonce@);
        assert(d.subrange(56, 60) =~= le(n as u32));
        assert(d.subrange(60, 60 + n) =~= rec.ciphertext@);
        assert(d.subrange(60 + n, 64 + n) =~= le(sum));
    }
    buf
}

/// Whether `data` begins with `prefix`.
pub fn starts_with(data: &[u8], prefix: &[u8]) -> (r: bool)
    ensures
        r == (data@.len() >= prefix@.len() && data@.subrange(0, prefix@.len() as int) == prefix@),
{
    if data.len() < prefix.len() {
        return false;
    }
    let mut i: usize = 0;
    while i < prefix.len()
        invariant
            data@.len() >= prefix@.len(),
            i <= prefix@.len(),
            forall|j: int| 0 <= j < i ==> data@[j] == prefix@[j],
        decreases prefix@.len() - i,
    {
        if data[i] != prefix[i] {
            assert(data@.subrange(0, prefix@.len() as int)[i as int] != prefix@[i as int]);
            return false;
        }
        i = i + 1;
    }
    assert(data@.subrange(0, prefix@.len() as int) =~= prefix@);
    true
}

/// What a well-formed payload fixes about the integer fields of `data`.
pub proof fn lemma_payload_fields(data: Seq<u8>, flags: u32, v: RecordView)
    requires
        is_payload(data, flags, v),
    ensures
        u32_at(data, 8) == FORMAT_VERSION,
        u32_at(data, 12) == flags,
        u32_at(data, 16) == v.kdf.t,
        u32_at(data, 20) == v.kdf.m,
        u32_at(data, 24) == v.kdf.p,
        u32_at(data, 56) == v.ciphertext.len(),
        u32_at(data, 60 + v.ciphertext.len() as int) == crc32_of(data.subrange(0, 60 + v.ciphertext.len() as int)),
{
    lemma_auto_spec_u32_to_from_le_bytes();
    let n = v.ciphertext.len() as int;
    assert(le(FORMAT_VERSION).len() == 4);
    assert(le(flags).len() == 4);
    assert(le(v.kdf.t).len() == 4);
    assert(le(v.kdf.m).len() == 4);
    assert(le(v.kdf.p).len() == 4);
    assert(le(n as u32).len() == 4);
    assert(le(crc32_of(data.subrange(0, 60 + n))).len() == 4);
    assert(data.subrange(8, 12) == le(FORMAT_VERSION));
    assert(data.subrange(12, 16) == le(flags));
    assert(u32_at(data, 8) == spec_u32_from_le_bytes(le(FORMAT_VERSION)));
    assert(u32_at(data, 12) == spec_u32_from_le_bytes(le(flags)));
    assert(u32_at(data, 16) == spec_u32_from_le_bytes(le(v.kdf.t)));
    assert(u32_at(data, 20) == spec_u32_from_le_bytes(le(v.kdf.m)));
    assert(u32_at(data, 24) == spec_u32_from_le_bytes(le(v.kdf.p)));
    assert(u32_at(data, 56) == spec_u32_from_le_bytes(le(n as u32)));
    assert(u32_at(data, 60 + n) == spec_u32_from_le_bytes(le(crc32_of(data.subrange(0, 60 + n)))));
}

/// The facts of `lemma_payload_fields`, for every reading of `data` at once.
pub proof fn lemma_all_payload_fields(data: Seq<u8>)
    ensures
        forall|f: u32, v: RecordView| #[trigger] is_payload(data, f, v) ==> {
            &&& u32_at(data, 8) == FORMAT_VERSION
            &&& u32_at(data, 12) == f
            &&& u32_at(data, 16) == v.kdf.t
            &&& u32_at(data, 20) == v.kdf.m
            &&& u32_at(data, 24) == v.kdf.p
            &&& u32_at(data, 56) == v.ciphertext.len()
            &&& u32_at(data, 60 + v.ciphertext.len() as int) == crc32_of(data.subrange(0, 60 + v.ciphertext.len() as int))
        },
{
    assert forall|f: u32, v: RecordView| #[trigger] is_payload(data, f, v) implies {
        &&& u32_at(data, 8) == FORMAT_VERSION
        &&& u32_at(data, 12) == f
        &&& u32_at(data, 16) == v.kdf.t
        &&& u32_at(data, 20) == v.kdf.m
        &&& u32_at(data, 24) == v.kdf.p
        &&& u32_at(data, 56) == v.ciphertext.len()
        &&& u32_at(data, 60 + v.ciphertext.len() as int) == crc32_of(data.subrange(0, 60 + v.ciphertext.len() as int))
    } by {
        lemma_payload_fields(data, f, v);
    }
}

/// Parses the payload at the start of `data`. It succeeds exactly when
/// `data` begins with a well-formed payload, and then returns the record
/// that payload encodes.
pub fn decode_payload(data: &[u8]) -> (r: Result<KeystoreRecord, KeystoreError>)
    ensures
        match r {
            Ok(rec) => is_payload(data@, u32_at(data@, 12), rec@),
            Err(e) => if is_foreign_version(data@) {
                e == KeystoreError::UnsupportedVersion
            } else {
                e == KeystoreError::Corrupt && forall|f: u32, v: RecordView| !is_payload(data@, f, v)
            },
        },
        forall|f: u32, v: RecordView| #[trigger] is_payload(data@, f, v) ==> r is Ok && r->Ok_0@ == v,
{
    proof {
        lemma_auto_spec_u32_to_from_le_bytes();
    }
    let total = data.len();
    let tag = magic();
    if !starts_with(data, tag.as_slice()) {
        return Err(KeystoreError::Corrupt);
    }
    let mut cur: usize = 8;
    let version = match read_u32_le(data, &mut cur) {
        Ok(x) => x,
        Err(e) => {
            return Err(e);
        },
    };
    if version != FORMAT_VERSION {
        proof { lemma_all_payload_fields(data@); }
        return Err(KeystoreError::UnsupportedVersion);
    }
    let flags = match read_u32_le(data, &mut cur) {
        Ok(x) => x,
        Err(e) => {
            proof { lemma_all_payload_fields(data@); }
            return Err(e);
        },
    };
    let t = match read_u32_le(data, &mut cur) {
        Ok(x) => x,
        Err(e) => {
            proof { lemma_all_payload_fields(data@); }
            return Err(e);
        },
    };
    let m = match read_u32_le(data, &mut cur) {
        Ok(x) => x,
        Err(e) => {
            proof { lemma_all_payload_fields(data@); }
            return Err(e);
        },
    };
    let p = match read_u32_le(data, &mut cur) {
        Ok(x) => x,
        Err(e) => {
            proof { lemma_all_payload_fields(data@); }
            return Err(e);
        },
    };
    if total < HEADER_LEN {
        proof { lemma_all_payload_fields(data@); }
        return Err(KeystoreError::Corrupt);
    }
    let salt = copy_range(data, 28, SALT_LEN);
    let nonce = copy_range(data, 44, NONCE_LEN);
    cur = 56;
    let ct_len = match read_u32_le(data, &mut cur) {
        Ok(x) => x,
        Err(e) => {
            return Err(e);
        },
    };
    if total - HEADER_LEN < ct_len as usize || total - HEADER_LEN - (ct_len as usize) < 4 {
        proof { lemma_all_payload_fields(data@); }
        return Err(KeystoreError::Corrupt);
    }
    let n = ct_len as usize;
    let ciphertext = copy_range(data, HEADER_LEN, n);
    let body_end = HEADER_LEN + n;
    let mut crc_cur = body_end;
    let saved = match read_u32_le(data, &mut crc_cur) {
        Ok(x) => x,
        Err(e) => {
            return Err(e);
        },
    };
    let now = crc32(slice_subrange(data, 0, body_end));
    if saved != now {
        proof { lemma_all_payload_fields(data@); }
        return Err(KeystoreError::Corrupt);
    }
    let rec = KeystoreRecord { kdf: KdfParams { t, m, p }, salt, nonce, ciphertext };
    proof {
        let d = data@;
        assert(d.subrange(0, 8) =~= magic_bytes());
        assert(d.subrange(56, 60) == le(n as u32));
        assert forall|f: u32, v: RecordView| #[trigger] is_payload(data@, f, v) implies rec@ == v by {
            lemma_payload_fields(data@, f, v);
            assert(v.kdf == rec.kdf);
        }
    }
    Ok(rec)
}

} // verus!
