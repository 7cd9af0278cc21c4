//! Envelope encryption of the master encryption key (MEK): a key-encryption
//! key (KEK) is derived from the master password with Argon2id, and the MEK
//! is sealed under it with ChaCha20-Poly1305 into a keystore record.

use vstd::prelude::*;
use crate::codec::{
    KdfParams, KeystoreError, KeystoreRecord, RecordView, SALT_LEN, NONCE_LEN, is_payload,
    is_foreign_version, magic, magic_bytes, decode_payload, encode_payload, append_bytes,
    lemma_payload_fields,
};
use crate::primitives::{
    argon2id_key, argon2id_output, chacha_encrypt, chacha_decrypt, chacha_seal, chacha_open,
    random_bytes, find_first, occurs_at, wipe, MAX_KDF_MEMORY_KIB,
};
use vstd::slice::slice_subrange;
use vstd::string::StringSliceAdditionalSpecFns;
use vstd::string::StrSliceExecFns;

verus! {

/// Length of the master encryption key.
pub const MEK_LEN: usize = 32;

/// Length of the random filler written between the banner and the payload.
pub const NOISE_LEN: usize = 8;

/// Associated data binding a sealed key to this keystore format:
/// `rvault-keystore-v1`.
pub open spec fn keystore_aad() -> Seq<u8> {
    seq![0x72u8, 0x76u8, 0x61u8, 0x75u8, 0x6cu8, 0x74u8, 0x2du8, 0x6bu8, 0x65u8,
        0x79u8, 0x73u8, 0x74u8, 0x6fu8, 0x72u8, 0x65u8, 0x2du8, 0x76u8, 0x31u8]
}

pub fn aad() -> (r: Vec<u8>)
    ensures
        r@ == keystore_aad(),
{
    let r = vec![0x72u8, 0x76u8, 0x61u8, 0x75u8, 0x6cu8, 0x74u8, 0x2du8, 0x6bu8, 0x65u8,
        0x79u8, 0x73u8, 0x74u8, 0x6fu8, 0x72u8, 0x65u8, 0x2du8, 0x76u8, 0x31u8];
    assert(r@ =~= keystore_aad());
    r
}

/// The costs used when the caller names none: 3 passes over about 205 MiB, one lane.
pub open spec fn default_kdf() -> KdfParams {
    KdfParams { t: 3, m: 209_715, p: 1 }
}

pub fn default_kdf_params() -> (r: KdfParams)
    ensures
        r == default_kdf(),
{
    KdfParams { t: 3, m: 209_715, p: 1 }
}

/// The KEK for a password, salt and costs, if the costs are acceptable.
pub open spec fn kek_spec(password: Seq<u8>, salt: Seq<u8>, kdf: KdfParams) -> Option<Seq<u8>> {
    if kdf.p <= 0xFF_FFFF && kdf.m <= MAX_KDF_MEMORY_KIB {
        argon2id_output(password, salt, kdf.t, kdf.m, kdf.p)
    } else {
        None
    }
}

/// Costs that argon2 refuses outright (or that this library refuses
/// before asking it).
pub open spec fn kdf_refused(kdf: KdfParams) -> bool {
    kdf.t == 0 || kdf.p == 0 || kdf.p > 0xFF_FFFF || kdf.m < 8 || kdf.m < 8 * kdf.p || kdf.m > MAX_KDF_MEMORY_KIB
}

/// `v` holds `mek` sealed under the KEK that `password` derives with `v`'s
/// own salt and costs.
pub open spec fn seals(password: Seq<u8>, v: RecordView, mek: Seq<u8>) -> bool {
    &&& v.wf()
    &&& v.ciphertext.len() == MEK_LEN + 16
    &&& match kek_spec(password, v.salt, v.kdf) {
        Some(k) => v.ciphertext == chacha_seal(k, v.nonce, keystore_aad(), mek)
            && chacha_open(k, v.nonce, keystore_aad(), v.ciphertext) == Some(mek),
        None => false,
    }
}

/// What opening a record with a password gives: the MEK, `Authentication`
/// when the AEAD tag does not verify (wrong password or tampering),
/// `Corrupt` when the opened key has the wrong length.
pub open spec fn unwrap_spec(password: Seq<u8>, v: RecordView) -> Result<Seq<u8>, KeystoreError> {
    match kek_spec(password, v.salt, v.kdf) {
        None => Err(KeystoreError::InvalidKdfParams),
        Some(k) => match chacha_open(k, v.nonce, keystore_aad(), v.ciphertext) {
            None => Err(KeystoreError::Authentication),
            Some(m) => if m.len() == MEK_LEN {
                Ok(m)
            } else {
                Err(KeystoreError::Corrupt)
            },
        },
    }
}

pub open spec fn bytes_result(r: Result<Vec<u8>, KeystoreError>) -> Result<Seq<u8>, KeystoreError> {
    match r {
        Ok(v) => Ok(v@),
        Err(e) => Err(e),
    }
}

/// `i` is where the magic tag first occurs in `file`.
pub open spec fn is_first_magic(file: Seq<u8>, i: int) -> bool {
    occurs_at(file, magic_bytes(), i) && forall|j: int| 0 <= j < i ==> !occurs_at(file, magic_bytes(), j)
}

/// What loading a keystore file with a password gives: the payload is read
/// from the first magic tag on, anything before it is ignored.
pub open spec fn load_spec(password: Seq<u8>, file: Seq<u8>) -> Result<Seq<u8>, KeystoreError> {
    if exists|i: int| is_first_magic(file, i) {
        let i = choose|i: int| is_first_magic(file, i);
        let d = file.subrange(i, file.len() as int);
        if exists|f: u32, v: RecordView| is_payload(d, f, v) {
            let (f, v) = choose|f: u32, v: RecordView| is_payload(d, f, v);
            unwrap_spec(password, v)
        } else if is_foreign_version(d) {
            Err(KeystoreError::UnsupportedVersion)
        } else {
            Err(KeystoreError::Corrupt)
        }
    } else {
        Err(KeystoreError::Corrupt)
    }
}

/// Derives the key-encryption key from the master password and a salt.
pub fn derive_kek(master_password: &[u8], salt: &[u8], kdf: KdfParams) -> (r: Result<Vec<u8>, KeystoreError>)
    ensures
        match r {
            Ok(k) => kek_spec(master_password@, salt@, kdf) == Some(k@) && k@.len() == 32,
            Err(e) => e == KeystoreError::InvalidKdfParams && kek_spec(master_password@, salt@, kdf) is None,
        },
        kdf_refused(kdf) || salt@.len() < 8 ==> r is Err,
        !kdf_refused(kdf) && 8 <= salt@.len() <= u32::MAX && master_password@.len() <= u32::MAX ==> r is Ok,
{
    if kdf.p > 0xFF_FFFF || kdf.m > MAX_KDF_MEMORY_KIB {
        return Err(KeystoreError::InvalidKdfParams);
    }
    match argon2id_key(master_password, salt, kdf.t, kdf.m, kdf.p) {
        Some(k) => Ok(k),
        None => Err(KeystoreError::InvalidKdfParams),
    }
}

/// Seals `mek` under the KEK derived from `master_password`, `salt` and `kdf`.
pub fn wrap_key(master_password: &[u8], mek: &[u8], salt: Vec<u8>, nonce: Vec<u8>, kdf: KdfParams) -> (r: Result<KeystoreRecord, KeystoreError>)
    requires
        mek@.len() == MEK_LEN,
        salt@.len() == SALT_LEN,
        nonce@.len() == NONCE_LEN,
    ensures
        match r {
            Ok(rec) => rec@.kdf == kdf && rec@.salt == salt@ && rec@.nonce == nonce@
                && seals(master_password@, rec@, mek@),
            Err(e) => e == KeystoreError::InvalidKdfParams && kek_spec(master_password@, salt@, kdf) is None,
        },
        kdf_refused(kdf) ==> r is Err,
        !kdf_refused(kdf) && master_password@.len() <= u32::MAX ==> r is Ok,
{
    let mut kek = match derive_kek(master_password, salt.as_slice(), kdf) {
        Ok(k) => k,
        Err(e) => {
            return Err(e);
        },
    };
    let ad = aad();
    let ciphertext = chacha_encrypt(kek.as_slice(), nonce.as_slice(), ad.as_slice(), mek);
    wipe(&mut kek);
    Ok(KeystoreRecord { kdf, salt, nonce, ciphertext })
}

/// Opens a record with the master password.
pub fn unwrap_key(master_password: &[u8], rec: &KeystoreRecord) -> (r: Result<Vec<u8>, KeystoreError>)
    requires
        rec@.wf(),
    ensures
        bytes_result(r) == unwrap_spec(master_password@, rec@),
{
    let mut kek = derive_kek(master_password, rec.salt.as_slice(), rec.kdf)?;
    let ad = aad();
    let opened = chacha_decrypt(kek.as_slice(), rec.nonce.as_slice(), ad.as_slice(), rec.ciphertext.as_slice());
    wipe(&mut kek);
    match opened {
        None => Err(KeystoreError::Authentication),
        Some(mut m) => {
            if m.len() == MEK_LEN {
                Ok(m)
            } else {
                wipe(&mut m);
                Err(KeystoreError::Corrupt)
            }
        },
    }
}

/// Two payload readings of the same bytes name the same record.
pub proof fn lemma_payload_unique(d: Seq<u8>, f1: u32, v1: RecordView, f2: u32, v2: RecordView)
    requires
        is_payload(d, f1, v1),
        is_payload(d, f2, v2),
    ensures
        v1 == v2,
{
    lemma_payload_fields(d, f1, v1);
    lemma_payload_fields(d, f2, v2);
    assert(v1.kdf == v2.kdf);
    assert(v1.ciphertext.len() == v2.ciphertext.len());
}

/// Loads the MEK from the bytes of a keystore file.
pub fn load(master_password: &str, file: &[u8]) -> (r: Result<Vec<u8>, KeystoreError>)
    ensures
        bytes_result(r) == load_spec(master_password.spec_bytes(), file@),
{
    let pw = master_password.as_bytes();
    let tag = magic();
    let start = match find_first(file, tag.as_slice()) {
        Some(i) => i,
        None => {
            proof {
                assert(!exists|i: int| is_first_magic(file@, i));
            }
            return Err(KeystoreError::Corrupt);
        },
    };
    let data = slice_subrange(file, start, file.len());
    proof {
        let i = choose|i: int| is_first_magic(file@, i);
        assert(is_first_magic(file@, start as int));
        assert(i == start as int) by {
            if i < start as int {
                assert(!occurs_at(file@, magic_bytes(), i));
            } else if i > start as int {
                assert(!occurs_at(file@, magic_bytes(), start as int));
            }
        }
    }
    let rec = match decode_payload(data) {
        Ok(rec) => rec,
        Err(e) => {
            return Err(e);
        },
    };
    proof {
        let d = data@;
        let f0 = crate::codec::u32_at(d, 12);
        assert(is_payload(d, f0, rec@));
        let (f, v) = choose|f: u32, v: RecordView| is_payload(d, f, v);
        lemma_payload_unique(d, f, v, f0, rec@);
    }
    unwrap_key(pw, &rec)
}

/// A freshly created keystore: the file's bytes and the MEK they protect.
pub struct CreatedKeystore {
    pub file: Vec<u8>,
    pub mek: Vec<u8>,
}

/// The bytes written before the payload for a banner: the banner itself,
/// ended by a newline, or nothing for an empty banner.
pub open spec fn banner_prefix(banner: &str) -> Seq<u8> {
    let b = banner.spec_bytes();
    if b.len() == 0 {
        Seq::empty()
    } else if b.last() == 0x0au8 {
        b
    } else {
        b.push(0x0au8)
    }
}

/// The magic tag occurs somewhere in `s`.
pub open spec fn holds_magic(s: Seq<u8>) -> bool {
    exists|j: int| occurs_at(s, magic_bytes(), j)
}

/// `file` is a keystore made for `password` with costs `kdf`: `prefix`,
/// random filler, then a payload with a fresh salt and nonce that seals `mek`;
/// the magic tag first occurs where the payload begins.
pub open spec fn created(password: Seq<u8>, prefix: Seq<u8>, kdf: KdfParams, file: Seq<u8>, mek: Seq<u8>) -> bool {
    &&& mek.len() == MEK_LEN
    &&& forall|j: int| 0 <= j < prefix.len() + NOISE_LEN ==> !occurs_at(file, magic_bytes(), j)
    &&& exists|noise: Seq<u8>, payload: Seq<u8>, v: RecordView|
        noise.len() == NOISE_LEN && file == prefix + noise + payload && payload.len() == v.payload_len()
            && is_payload(payload, 0, v) && v.kdf == kdf && seals(password, v, mek)
}

/// Random filler with every `R` (the tag's first byte) replaced, so that the
/// tag can never start inside it.
pub fn scrub_filler(v: Vec<u8>) -> (r: Vec<u8>)
    ensures
        r@.len() == v@.len(),
        forall|i: int| 0 <= i < r@.len() ==> #[trigger] r@[i] != 0x52u8,
{
    let mut r: Vec<u8> = Vec::new();
    let mut i: usize = 0;
    while i < v.len()
        invariant
            i <= v@.len(),
            r@.len() == i,
            forall|k: int| 0 <= k < r@.len() ==> #[trigger] r@[k] != 0x52u8,
        decreases v@.len() - i,
    {
        let b = v[i];
        r.push(if b == 0x52u8 { 0x53u8 } else { b });
        i = i + 1;
    }
    r
}

/// Nothing in front of a payload can hold the tag: the banner part is
/// tag-free and ends in a newline, and the filler holds no `R`.
proof fn lemma_no_early_magic(b: Seq<u8>, prefix: Seq<u8>, noise: Seq<u8>, payload: Seq<u8>)
    requires
        !holds_magic(b),
        prefix == (if b.len() == 0 { Seq::<u8>::empty() } else if b.last() == 0x0au8 { b } else { b.push(0x0au8) }),
        noise.len() == NOISE_LEN,
        forall|i: int| 0 <= i < noise.len() ==> #[trigger] noise[i] != 0x52u8,
    ensures
        forall|j: int| 0 <= j < prefix.len() + NOISE_LEN ==> !occurs_at(prefix + noise + payload, magic_bytes(), j),
{
    let file = prefix + noise + payload;
    let m = magic_bytes();
    assert forall|j: int| 0 <= j < prefix.len() + NOISE_LEN implies !occurs_at(file, m, j) by {
        if occurs_at(file, m, j) {
            let w = file.subrange(j, j + 8);
            if j >= prefix.len() {
                assert(w[0] == noise[j - prefix.len()]);
                assert(m[0] == 0x52u8);
            } else if j + 8 >= prefix.len() {
                let k = prefix.len() - 1 - j;
                assert(prefix[prefix.len() - 1] == 0x0au8);
                assert(w[k] == file[prefix.len() - 1]);
                assert(m[k] != 0x0au8);
            } else {
                assert(b.subrange(j, j + 8) =~= w);
                assert(occurs_at(b, m, j));
            }
        }
    }
}

/// Makes a new keystore for `master_password`: a random MEK sealed under a
/// KEK with a random salt and nonce. It refuses when a keystore already
/// exists, since overwriting one loses every secret encrypted under it.
pub fn create(master_password: &str, banner: &str, kdf: Option<KdfParams>, already_exists: bool) -> (r: Result<CreatedKeystore, KeystoreError>)
    ensures
        already_exists ==> r == Err::<CreatedKeystore, KeystoreError>(KeystoreError::AlreadyExists),
        !already_exists ==> match r {
            Ok(c) => created(
                master_password.spec_bytes(),
                banner_prefix(banner),
                match kdf { Some(k) => k, None => default_kdf() },
                c.file@,
                c.mek@,
            ),
            Err(e) => e == KeystoreError::InvalidKdfParams
                || (e == KeystoreError::InvalidBanner && holds_magic(banner.spec_bytes())),
        },
        !already_exists && kdf_refused(match kdf { Some(k) => k, None => default_kdf() }) ==> r is Err,
        !already_exists && !kdf_refused(match kdf { Some(k) => k, None => default_kdf() })
            && master_password.spec_bytes().len() <= u32::MAX && !holds_magic(banner.spec_bytes()) ==> r is Ok,
        r matches Ok(c) ==> load_spec(master_password.spec_bytes(), c.file@) == Ok::<Seq<u8>, KeystoreError>(c.mek@),
{
    if already_exists {
        return Err(KeystoreError::AlreadyExists);
    }
    let kdf = match kdf {
        Some(k) => k,
        None => default_kdf_params(),
    };
    let pw = master_password.as_bytes();
    let b = banner.as_bytes();
    let tag = magic();
    if find_first(b, tag.as_slice()).is_some() {
        return Err(KeystoreError::InvalidBanner);
    }
    let mek = random_bytes(MEK_LEN);
    let salt = random_bytes(SALT_LEN);
    let nonce = random_bytes(NONCE_LEN);
    let rec = match wrap_key(pw, mek.as_slice(), salt, nonce, kdf) {
        Ok(rec) => rec,
        Err(e) => {
            return Err(e);
        },
    };
    let payload = encode_payload(&rec);
    let mut file: Vec<u8> = Vec::new();
    let n = b.len();
    if n > 0 {
        append_bytes(&mut file, b);
        if b[n - 1] != 0x0au8 {
            file.push(0x0au8);
        }
    }
    assert(file@ =~= banner_prefix(banner));
    let noise = scrub_filler(random_bytes(NOISE_LEN));
    append_bytes(&mut file, noise.as_slice());
    append_bytes(&mut file, payload.as_slice());
    assert(file@ == banner_prefix(banner) + noise@ + payload@);
    proof {
        lemma_no_early_magic(b@, banner_prefix(banner), noise@, payload@);
        lemma_load_after_create(pw@, banner_prefix(banner), kdf, file@, mek@);
    }
    Ok(CreatedKeystore { file, mek })
}

/// A keystore file made by `create` for password `P` opens with `P` to the
/// very key `create` returned.
pub proof fn lemma_load_after_create(password: Seq<u8>, prefix: Seq<u8>, kdf: KdfParams, file: Seq<u8>, mek: Seq<u8>)
    requires
        created(password, prefix, kdf, file, mek),
    ensures
        load_spec(password, file) == Ok::<Seq<u8>, KeystoreError>(mek),
{
    let (noise, payload, v) = choose|noise: Seq<u8>, payload: Seq<u8>, v: RecordView|
        noise.len() == NOISE_LEN && file == prefix + noise + payload && payload.len() == v.payload_len()
            && is_payload(payload, 0, v) && v.kdf == kdf && seals(password, v, mek);
    let start = prefix.len() + NOISE_LEN;
    assert(file.subrange(start, file.len() as int) =~= payload);
    assert(file.subrange(start, start + 8) =~= payload.subrange(0, 8));
    assert(is_first_magic(file, start));
    let i = choose|i: int| is_first_magic(file, i);
    assert(i == start) by {
        if i < start {
            assert(!occurs_at(file, magic_bytes(), i));
        } else if i > start {
            assert(!occurs_at(file, magic_bytes(), start));
        }
    }
    let d = file.subrange(i, file.len() as int);
    assert(is_payload(d, 0, v));
    let (f, w) = choose|f: u32, w: RecordView| is_payload(d, f, w);
    lemma_payload_unique(d, f, w, 0, v);
}

} // verus!
