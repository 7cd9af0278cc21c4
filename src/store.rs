//! The secret store: one named table of encrypted credentials. Each entry
//! is sealed under its own key, derived from the MEK and a fresh salt.
//! This is the table's content; where it is kept is the caller's concern.

use vstd::prelude::*;
use vstd::string::StrSliceExecFns;
use vstd::string::StringSliceAdditionalSpecFns;
use vstd::utf8::{valid_utf8, decode_utf8, encode_utf8_valid_utf8, encode_utf8_decode_utf8};
use crate::order::{SortMode, order_entries, pin_part, sorted_by, stable_arrangement, views};
use crate::primitives::{
    argon2id_key, argon2id_output, chacha_encrypt, chacha_decrypt, chacha_open, random_bytes,
    base64_encode, base64_decode, b64_decode, wipe,
};

verus! {

/// At most this many entries of a table are pinned.
pub const MAX_PINNED: usize = 10;

/// Failures of secret-store operations.
#[derive(Clone, Copy, Debug, PartialEq, Eq, Structural)]
pub enum StoreError {
    InvalidIdentifier,
    NotFound,
    DecryptionFailed,
    Conflict,
    PinLimitExceeded,
    KeyDerivation,
    TooLarge,
}

/// One credential row. `ciphertext`, `nonce` and `salt` are base64 text and
/// are always written together.
#[derive(Debug)]
pub struct VaultEntry {
    pub id: u64,
    pub platform: String,
    pub user_id: String,
    pub ciphertext: String,
    pub nonce: String,
    pub salt: String,
    pub pinned: bool,
    pub created_at: u64,
    pub updated_at: u64,
}

pub struct EntryView {
    pub id: u64,
    pub platform: Seq<char>,
    pub user_id: Seq<char>,
    pub ciphertext: Seq<char>,
    pub nonce: Seq<char>,
    pub salt: Seq<char>,
    pub pinned: bool,
    pub created_at: u64,
    pub updated_at: u64,
}

impl View for VaultEntry {
    type V = EntryView;

    open spec fn view(&self) -> EntryView {
        EntryView {
            id: self.id,
            platform: self.platform@,
            user_id: self.user_id@,
            ciphertext: self.ciphertext@,
            nonce: self.nonce@,
            salt: self.salt@,
            pinned: self.pinned,
            created_at: self.created_at,
            updated_at: self.updated_at,
        }
    }
}

impl VaultEntry {
    /// A field-for-field copy.
    pub fn duplicate(&self) -> (r: VaultEntry)
        ensures
            r@ == self@,
    {
        VaultEntry {
            id: self.id,
            platform: self.platform.clone(),
            user_id: self.user_id.clone(),
            ciphertext: self.ciphertext.clone(),
            nonce: self.nonce.clone(),
            salt: self.salt.clone(),
            pinned: self.pinned,
            created_at: self.created_at,
            updated_at: self.updated_at,
        }
    }
}

/// A character allowed in a table identifier: `[A-Za-z0-9_]`.
pub open spec fn is_ident_char(c: char) -> bool {
    ('a' <= c && c <= 'z') || ('A' <= c && c <= 'Z') || ('0' <= c && c <= '9') || c == '_'
}

/// A non-empty identifier made only of `[A-Za-z0-9_]`.
pub open spec fn valid_identifier(name: Seq<char>) -> bool {
    name.len() > 0 && forall|i: int| 0 <= i < name.len() ==> is_ident_char(#[trigger] name[i])
}

/// Number of pinned entries in `s`.
pub open spec fn pinned_count(s: Seq<EntryView>) -> nat
    decreases s.len(),
{
    if s.len() == 0 {
        0
    } else {
        pinned_count(s.drop_last()) + if s.last().pinned { 1nat } else { 0nat }
    }
}

pub open spec fn has_key(e: EntryView, platform: Seq<char>, user_id: Seq<char>) -> bool {
    e.platform == platform && e.user_id == user_id
}

/// No two entries share a `(platform, user_id)` pair.
pub open spec fn keys_unique(s: Seq<EntryView>) -> bool {
    forall|i: int, j: int| 0 <= i < s.len() && 0 <= j < s.len() && i != j
        ==> !has_key(s[i], s[j].platform, s[j].user_id)
}

pub open spec fn contains_key(s: Seq<EntryView>, platform: Seq<char>, user_id: Seq<char>) -> bool {
    exists|i: int| 0 <= i < s.len() && has_key(#[trigger] s[i], platform, user_id)
}

pub proof fn lemma_pinned_count_push(s: Seq<EntryView>, e: EntryView)
    ensures
        pinned_count(s.push(e)) == pinned_count(s) + if e.pinned { 1nat } else { 0nat },
{
    assert(s.push(e).drop_last() =~= s);
}

pub proof fn lemma_pinned_count_update(s: Seq<EntryView>, i: int, e: EntryView)
    requires
        0 <= i < s.len(),
    ensures
        pinned_count(s.update(i, e)) + (if s[i].pinned { 1nat } else { 0nat })
            == pinned_count(s) + (if e.pinned { 1nat } else { 0nat }),
    decreases s.len(),
{
    if i == s.len() - 1 {
        assert(s.update(i, e).drop_last() =~= s.drop_last());
    } else {
        lemma_pinned_count_update(s.drop_last(), i, e);
        assert(s.update(i, e).drop_last() =~= s.drop_last().update(i, e));
    }
}

pub proof fn lemma_pinned_count_remove(s: Seq<EntryView>, i: int)
    requires
        0 <= i < s.len(),
    ensures
        pinned_count(s.remove(i)) + (if s[i].pinned { 1nat } else { 0nat }) == pinned_count(s),
    decreases s.len(),
{
    if i == s.len() - 1 {
        assert(s.remove(i) =~= s.drop_last());
    } else {
        lemma_pinned_count_remove(s.drop_last(), i);
        assert(s.remove(i).drop_last() =~= s.drop_last().remove(i));
    }
}

/// Whether `name` may be used as a table identifier. Identifiers are spliced
/// into schema statements, so only `[A-Za-z0-9_]` is let through.
pub fn is_valid_identifier(name: &str) -> (r: bool)
    ensures
        r == valid_identifier(name@),
{
    let n = name.unicode_len();
    if n == 0 {
        return false;
    }
    let mut i: usize = 0;
    while i < n
        invariant
            n == name@.len(),
            i <= n,
            forall|j: int| 0 <= j < i ==> is_ident_char(#[trigger] name@[j]),
        decreases n - i,
    {
        let c = name.get_char(i);
        if !(('a' <= c && c <= 'z') || ('A' <= c && c <= 'Z') || ('0' <= c && c <= '9') || c == '_') {
            return false;
        }
        i = i + 1;
    }
    true
}

/// Argon2id costs for entry keys (argon2's defaults): 2 passes, 19 MiB, one lane.
pub const ENTRY_T_COST: u32 = 2;
pub const ENTRY_M_COST: u32 = 19456;
pub const ENTRY_P_COST: u32 = 1;

/// Length of a fresh entry salt and of an entry nonce.
pub const ENTRY_SALT_LEN: usize = 16;
pub const ENTRY_NONCE_LEN: usize = 12;

/// The key of one entry: derived from the MEK and that entry's salt.
pub open spec fn entry_key(mek: Seq<u8>, salt: Seq<u8>) -> Option<Seq<u8>> {
    argon2id_output(mek, salt, ENTRY_T_COST, ENTRY_M_COST, ENTRY_P_COST)
}

/// What decrypting sealed fields with `mek` gives. Absence of a row is
/// reported elsewhere; every failure here is `DecryptionFailed`, except a
/// key that cannot be derived at all.
pub open spec fn open_spec(mek: Seq<u8>, ciphertext: Seq<char>, nonce: Seq<char>, salt: Seq<char>) -> Result<Seq<char>, StoreError> {
    match (b64_decode(salt), b64_decode(nonce), b64_decode(ciphertext)) {
        (Some(s), Some(n), Some(c)) => if n.len() != ENTRY_NONCE_LEN {
            Err(StoreError::DecryptionFailed)
        } else {
            match entry_key(mek, s) {
                None => Err(StoreError::KeyDerivation),
                Some(k) => match chacha_open(k, n, Seq::empty(), c) {
                    None => Err(StoreError::DecryptionFailed),
                    Some(p) => if valid_utf8(p) {
                        Ok(decode_utf8(p))
                    } else {
                        Err(StoreError::DecryptionFailed)
                    },
                },
            }
        },
        _ => Err(StoreError::DecryptionFailed),
    }
}

pub open spec fn retrieve_spec(mek: Seq<u8>, e: EntryView) -> Result<Seq<char>, StoreError> {
    open_spec(mek, e.ciphertext, e.nonce, e.salt)
}

/// Position of the first `:` in `s` (meaningful when there is one).
pub open spec fn first_colon(s: Seq<char>) -> int {
    choose|i: int| 0 <= i < s.len() && s[i] == ':' && forall|j: int| 0 <= j < i ==> s[j] != ':'
}

/// Position of a row keyed `(platform, user_id)` (meaningful when one exists).
pub open spec fn key_index(s: Seq<EntryView>, platform: Seq<char>, user_id: Seq<char>) -> int {
    choose|i: int| 0 <= i < s.len() && has_key(#[trigger] s[i], platform, user_id)
}

/// The row keyed `(platform, user_id)`, if there is one.
pub open spec fn lookup(s: Seq<EntryView>, platform: Seq<char>, user_id: Seq<char>) -> Option<EntryView> {
    if contains_key(s, platform, user_id) {
        Some(s[key_index(s, platform, user_id)])
    } else {
        None
    }
}

/// Result and rows after flipping the pin of `(platform, user_id)` in `s`.
pub open spec fn toggle_outcome(s: Seq<EntryView>, platform: Seq<char>, user_id: Seq<char>) -> (Result<bool, StoreError>, Seq<EntryView>) {
    if !contains_key(s, platform, user_id) {
        (Err(StoreError::NotFound), s)
    } else {
        let i = key_index(s, platform, user_id);
        let e = s[i];
        if !e.pinned && pinned_count(s) >= MAX_PINNED {
            (Err(StoreError::PinLimitExceeded), s)
        } else {
            (Ok(!e.pinned), s.update(i, EntryView { pinned: !e.pinned, ..e }))
        }
    }
}

pub open spec fn string_result(r: Result<String, StoreError>) -> Result<Seq<char>, StoreError> {
    match r {
        Ok(s) => Ok(s@),
        Err(e) => Err(e),
    }
}

/// `n` is `o` with freshly sealed fields that open to `text` under `mek`,
/// stamped `now`, and its key changed to `user_id`; id, platform, pin and
/// creation time are kept.
pub open spec fn resealed(o: EntryView, n: EntryView, user_id: Seq<char>, mek: Seq<u8>, text: Seq<char>, now: u64) -> bool {
    &&& n.id == o.id
    &&& n.platform == o.platform
    &&& n.user_id == user_id
    &&& n.pinned == o.pinned
    &&& n.created_at == o.created_at
    &&& n.updated_at == now
    &&& retrieve_spec(mek, n) == Ok::<Seq<char>, StoreError>(text)
}

/// `s1` is `s0` after storing `text` for `(platform, user_id)` at time `now`:
/// an existing row is resealed in place, otherwise an unpinned row is
/// appended whose creation and update times are `now`.
pub open spec fn upserted(s0: Seq<EntryView>, s1: Seq<EntryView>, platform: Seq<char>, user_id: Seq<char>, mek: Seq<u8>, text: Seq<char>, now: u64) -> bool {
    if contains_key(s0, platform, user_id) {
        exists|i: int| 0 <= i < s0.len() && has_key(#[trigger] s0[i], platform, user_id)
            && s1 == s0.update(i, s1[i]) && resealed(s0[i], s1[i], user_id, mek, text, now)
    } else {
        &&& s1.len() == s0.len() + 1
        &&& s1.drop_last() == s0
        &&& has_key(s1.last(), platform, user_id)
        &&& !s1.last().pinned
        &&& s1.last().created_at == now
        &&& s1.last().updated_at == now
        &&& retrieve_spec(mek, s1.last()) == Ok::<Seq<char>, StoreError>(text)
    }
}

/// A secret sealed under its own entry key: base64 ciphertext, nonce and salt.
pub struct DerivedEncryptedData {
    pub ciphertext: String,
    pub nonce: String,
    pub salt: String,
}

/// Encrypts `plaintext` under a key derived from `mek` and a fresh salt,
/// with a fresh nonce.
pub fn seal_with_derived_key(mek: &[u8], plaintext: &str) -> (r: Result<DerivedEncryptedData, StoreError>)
    ensures
        match r {
            Ok(d) => open_spec(mek@, d.ciphertext@, d.nonce@, d.salt@) == Ok::<Seq<char>, StoreError>(plaintext@)
                && plaintext.spec_bytes().len() <= u32::MAX,
            Err(e) => if plaintext.spec_bytes().len() > u32::MAX {
                e == StoreError::TooLarge
            } else {
                e == StoreError::KeyDerivation
            },
        },
        plaintext.spec_bytes().len() <= u32::MAX && mek@.len() <= u32::MAX ==> r is Ok,
{
    let bytes = plaintext.as_bytes();
    if bytes.len() > 0xFFFF_FFFF {
        return Err(StoreError::TooLarge);
    }
    let salt = random_bytes(ENTRY_SALT_LEN);
    let mut key = match argon2id_key(mek, salt.as_slice(), ENTRY_T_COST, ENTRY_M_COST, ENTRY_P_COST) {
        Some(k) => k,
        None => {
            return Err(StoreError::KeyDerivation);
        },
    };
    let nonce = random_bytes(ENTRY_NONCE_LEN);
    let ad: Vec<u8> = Vec::new();
    let ct = chacha_encrypt(key.as_slice(), nonce.as_slice(), ad.as_slice(), bytes);
    wipe(&mut key);
    let d = DerivedEncryptedData {
        ciphertext: base64_encode(ct.as_slice()),
        nonce: base64_encode(nonce.as_slice()),
        salt: base64_encode(salt.as_slice()),
    };
    proof {
        assert(ad@ =~= Seq::<u8>::empty());
        encode_utf8_valid_utf8(plaintext@);
        encode_utf8_decode_utf8(plaintext@);
    }
    Ok(d)
}

/// Decrypts sealed fields with `mek`.
pub fn open_with_derived_key(mek: &[u8], ciphertext: &str, nonce: &str, salt: &str) -> (r: Result<String, StoreError>)
    ensures
        string_result(r) == open_spec(mek@, ciphertext@, nonce@, salt@),
{
    let s = base64_decode(salt);
    let n = base64_decode(nonce);
    let c = base64_decode(ciphertext);
    let (s, n, c) = match (s, n, c) {
        (Some(s), Some(n), Some(c)) => (s, n, c),
        _ => {
            return Err(StoreError::DecryptionFailed);
        },
    };
    if n.len() != ENTRY_NONCE_LEN {
        return Err(StoreError::DecryptionFailed);
    }
    let mut key = match argon2id_key(mek, s.as_slice(), ENTRY_T_COST, ENTRY_M_COST, ENTRY_P_COST) {
        Some(k) => k,
        None => {
            return Err(StoreError::KeyDerivation);
        },
    };
    let ad: Vec<u8> = Vec::new();
    assert(ad@ =~= Seq::<u8>::empty());
    let opened = chacha_decrypt(key.as_slice(), n.as_slice(), ad.as_slice(), c.as_slice());
    wipe(&mut key);
    match opened {
        None => Err(StoreError::DecryptionFailed),
        Some(p) => match utf8_to_string(p) {
            Some(text) => Ok(text),
            None => Err(StoreError::DecryptionFailed),
        },
    }
}

/// Relies on std's `String::from_utf8`, which fails exactly on bytes that
/// are not UTF-8.
#[verifier::external_body]
pub(crate) fn utf8_to_string(b: Vec<u8>) -> (r: Option<String>)
    ensures
        match r {
            Some(s) => valid_utf8(b@) && s@ == decode_utf8(b@),
            None => !valid_utf8(b@),
        },
{
    String::from_utf8(b).ok()
}

/// One table: its validated name and its rows.
pub struct Table {
    table_name: String,
    entries: Vec<VaultEntry>,
    next_id: u64,
}

impl Table {
    pub closed spec fn name_view(&self) -> Seq<char> {
        self.table_name@
    }

    pub closed spec fn rows(&self) -> Seq<EntryView> {
        self.entries@.map_values(|e: VaultEntry| e@)
    }

    /// The table's invariant: a valid name, unique keys, the pin cap.
    pub open spec fn wf(&self) -> bool {
        &&& valid_identifier(self.name_view())
        &&& keys_unique(self.rows())
        &&& pinned_count(self.rows()) <= MAX_PINNED
    }

    /// An empty table named `table_name`, or `main` when none is given. A
    /// name outside `[A-Za-z0-9_]+` is refused before anything else happens.
    pub fn new(table_name: Option<String>) -> (r: Result<Table, StoreError>)
        ensures
            match table_name {
                Some(n) => match r {
                    Ok(t) => valid_identifier(n@) && t.name_view() == n@,
                    Err(e) => !valid_identifier(n@) && e == StoreError::InvalidIdentifier,
                },
                None => r is Ok && r->Ok_0.name_view() == seq!['m', 'a', 'i', 'n'],
            },
            r is Ok ==> r->Ok_0.wf() && r->Ok_0.rows().len() == 0,
    {
        let name = match table_name {
            Some(n) => {
                if !is_valid_identifier(n.as_str()) {
                    return Err(StoreError::InvalidIdentifier);
                }
                n
            },
            None => {
                let mut n = String::new();
                push_char(&mut n, 'm');
                push_char(&mut n, 'a');
                push_char(&mut n, 'i');
                push_char(&mut n, 'n');
                assert(n@ =~= seq!['m', 'a', 'i', 'n']);
                n
            },
        };
        let t = Table { table_name: name, entries: Vec::new(), next_id: 1 };
        assert(t.rows() =~= Seq::<EntryView>::empty());
        Ok(t)
    }

    /// The statement that creates this table if it is missing. Only a
    /// validated name is ever spliced into it.
    pub fn create_statement(&self) -> (r: String)
        requires
            self.wf(),
        ensures
            r@ == create_prefix() + self.name_view() + create_suffix(),
            valid_identifier(self.name_view()),
    {
        let mut out = String::new();
        append_str(&mut out, "CREATE TABLE IF NOT EXISTS ");
        append_str(&mut out, self.table_name.as_str());
        append_str(&mut out, " (id INTEGER PRIMARY KEY AUTOINCREMENT, platform TEXT NOT NULL, user_id TEXT NOT NULL, ciphertext TEXT NOT NULL, nonce TEXT NOT NULL, salt TEXT NOT NULL, pinned INTEGER NOT NULL DEFAULT 0, created_at INTEGER NOT NULL, updated_at INTEGER NOT NULL, UNIQUE(platform, user_id))");
        out
    }

    pub fn name(&self) -> (r: &str)
        ensures
            r@ == self.name_view(),
    {
        self.table_name.as_str()
    }

    /// The rows in storage order.
    pub fn entries(&self) -> (r: &Vec<VaultEntry>)
        ensures
            r@.map_values(|e: VaultEntry| e@) == self.rows(),
    {
        &self.entries
    }

    /// All rows for display: pinned rows first, in storage order, then the
    /// others sorted under `mode`. Ciphertext is returned as stored.
    pub fn list(&self, mode: SortMode) -> (r: Vec<VaultEntry>)
        ensures
            views(r@).subrange(0, pin_part(self.rows(), true).len() as int) == pin_part(self.rows(), true),
            views(r@).len() == pin_part(self.rows(), true).len() + pin_part(self.rows(), false).len(),
            views(r@).subrange(pin_part(self.rows(), true).len() as int, views(r@).len() as int).to_multiset()
                == pin_part(self.rows(), false).to_multiset(),
            sorted_by(mode, views(r@).subrange(pin_part(self.rows(), true).len() as int, views(r@).len() as int)),
            exists|idx: Seq<int>| stable_arrangement(mode, pin_part(self.rows(), false),
                views(r@).subrange(pin_part(self.rows(), true).len() as int, views(r@).len() as int), idx),
    {
        assert(views(self.entries@) =~= self.rows());
        order_entries(mode, &self.entries)
    }

    /// Index of the row keyed `(platform, user_id)`, if any.
    pub fn find(&self, platform: &str, user_id: &str) -> (r: Option<usize>)
        ensures
            match r {
                Some(i) => i < self.rows().len() && has_key(self.rows()[i as int], platform@, user_id@),
                None => !contains_key(self.rows(), platform@, user_id@),
            },
    {
        let mut i: usize = 0;
        while i < self.entries.len()
            invariant
                i <= self.entries@.len(),
                forall|j: int| 0 <= j < i ==> !has_key(#[trigger] self.rows()[j], platform@, user_id@),
            decreases self.entries@.len() - i,
        {
            let e = &self.entries[i];
            if str_eq(e.platform.as_str(), platform) && str_eq(e.user_id.as_str(), user_id) {
                return Some(i);
            }
            i = i + 1;
        }
        None
    }

    /// Number of pinned rows.
    pub fn pinned_total(&self) -> (r: usize)
        ensures
            r == pinned_count(self.rows()),
    {
        let mut count: usize = 0;
        let mut i: usize = 0;
        while i < self.entries.len()
            invariant
                i <= self.entries@.len(),
                count == pinned_count(self.rows().subrange(0, i as int)),
                count <= i,
            decreases self.entries@.len() - i,
        {
            proof {
                assert(self.rows().subrange(0, i + 1).drop_last() =~= self.rows().subrange(0, i as int));
            }
            if self.entries[i].pinned {
                count = count + 1;
            }
            i = i + 1;
        }
        assert(self.rows().subrange(0, i as int) =~= self.rows());
        count
    }

    /// Decrypts the secret of the row keyed `(platform, user_id)`. A missing
    /// row is `NotFound`; a row that does not open under `mek` (corruption or
    /// a different MEK) is `DecryptionFailed`, never `NotFound`.
    pub fn get_password_with_key(&self, mek: &[u8], platform: &str, user_id: &str) -> (r: Result<String, StoreError>)
        requires
            self.wf(),
        ensures
            match lookup(self.rows(), platform@, user_id@) {
                None => r == Err::<String, StoreError>(StoreError::NotFound),
                Some(e) => string_result(r) == retrieve_spec(mek@, e),
            },
    {
        match self.find(platform, user_id) {
            None => Err(StoreError::NotFound),
            Some(i) => {
                proof { self.lemma_lookup_at(platform@, user_id@, i as int); }
                let e = &self.entries[i];
                open_with_derived_key(mek, e.ciphertext.as_str(), e.nonce.as_str(), e.salt.as_str())
            },
        }
    }

    /// Stores `plaintext` for `(platform, user_id)`, sealed under a fresh
    /// entry key and nonce: an existing row has its sealed fields and update
    /// time replaced, a new row is created unpinned.
    pub fn add_or_replace(&mut self, mek: &[u8], platform: String, user_id: String, plaintext: &str, now: u64) -> (r: Result<(), StoreError>)
        requires
            old(self).wf(),
        ensures
            final(self).wf(),
            final(self).name_view() == old(self).name_view(),
            plaintext.spec_bytes().len() > u32::MAX ==> r == Err::<(), StoreError>(StoreError::TooLarge),
            plaintext.spec_bytes().len() <= u32::MAX && mek@.len() <= u32::MAX ==> r is Ok,
            match r {
                Ok(()) => upserted(old(self).rows(), final(self).rows(), platform@, user_id@, mek@, plaintext@, now),
                Err(e) => (e == StoreError::KeyDerivation || e == StoreError::TooLarge)
                    && final(self).rows() == old(self).rows(),
            },
    {
        let sealed = match seal_with_derived_key(mek, plaintext) {
            Ok(d) => d,
            Err(e) => {
                return Err(e);
            },
        };
        let ghost s0 = self.rows();
        match self.find(platform.as_str(), user_id.as_str()) {
            Some(i) => {
                proof { self.lemma_lookup_at(platform@, user_id@, i as int); }
                let mut e = self.entries.remove(i);
                e.ciphertext = sealed.ciphertext;
                e.nonce = sealed.nonce;
                e.salt = sealed.salt;
                e.updated_at = now;
                let ghost ne = e@;
                self.entries.insert(i, e);
                proof {
                    assert(self.rows() =~= s0.update(i as int, ne));
                    lemma_pinned_count_update(s0, i as int, ne);
                    assert(resealed(s0[i as int], self.rows()[i as int], user_id@, mek@, plaintext@, now));
                }
            },
            None => {
                let id = self.next_id;
                if self.next_id < u64::MAX {
                    self.next_id = self.next_id + 1;
                }
                let e = VaultEntry {
                    id,
                    platform,
                    user_id,
                    ciphertext: sealed.ciphertext,
                    nonce: sealed.nonce,
                    salt: sealed.salt,
                    pinned: false,
                    created_at: now,
                    updated_at: now,
                };
                let ghost ne = e@;
                self.entries.push(e);
                proof {
                    assert(self.rows() =~= s0.push(ne));
                    assert(self.rows().drop_last() =~= s0);
                    lemma_pinned_count_push(s0, ne);
                }
            },
        }
        Ok(())
    }

    /// Stores an `id:password` pair for `platform`: the text before the first
    /// `:` is the user id, the rest the password.
    pub fn add_entry_with_key(&mut self, encryption_key: &[u8], platform: String, id_and_password: &str, now: u64) -> (r: Result<(), StoreError>)
        requires
            old(self).wf(),
            id_and_password@.contains(':'),
        ensures
            final(self).wf(),
            final(self).name_view() == old(self).name_view(),
            ({
                let i = first_colon(id_and_password@);
                let user = id_and_password@.subrange(0, i);
                let password = id_and_password@.subrange(i + 1, id_and_password@.len() as int);
                &&& (vstd::utf8::encode_utf8(password).len() <= u32::MAX && encryption_key@.len() <= u32::MAX ==> r is Ok)
                &&& match r {
                    Ok(()) => upserted(old(self).rows(), final(self).rows(), platform@, user, encryption_key@, password, now),
                    Err(e) => (e == StoreError::KeyDerivation || e == StoreError::TooLarge)
                        && final(self).rows() == old(self).rows(),
                }
            }),
    {
        let n = id_and_password.unicode_len();
        let mut i: usize = 0;
        while id_and_password.get_char(i) != ':'
            invariant
                n == id_and_password@.len(),
                i < n,
                id_and_password@.contains(':'),
                forall|j: int| 0 <= j < i ==> id_and_password@[j] != ':',
            decreases n - i,
        {
            i = i + 1;
            if i == n {
                proof {
                    let k = choose|k: int| 0 <= k < id_and_password@.len() && id_and_password@[k] == ':';
                    assert(id_and_password@[k] == ':');
                }
            }
        }
        proof {
            assert(id_and_password@[i as int] == ':');
            let k = first_colon(id_and_password@);
            if k < i {
                assert(id_and_password@[k] != ':');
            } else if k > i {
                assert(id_and_password@[i as int] != ':');
            }
        }
        let user = id_and_password.substring_char(0, i).to_owned();
        let password = id_and_password.substring_char(i + 1, n);
        self.add_or_replace(encryption_key, platform, user, password, now)
    }

    /// Re-keys the row `(platform, old_user_id)` to `new_user_id` and stores
    /// `new_password` for it under a fresh entry key. Renaming onto a key that
    /// already exists is a `Conflict` and changes nothing.
    pub fn update(&mut self, mek: &[u8], platform: &str, old_user_id: &str, new_user_id: String, new_password: &str, now: u64) -> (r: Result<(), StoreError>)
        requires
            old(self).wf(),
        ensures
            final(self).wf(),
            final(self).name_view() == old(self).name_view(),
            new_user_id@ != old_user_id@ && contains_key(old(self).rows(), platform@, new_user_id@)
                ==> r == Err::<(), StoreError>(StoreError::Conflict),
            !(new_user_id@ != old_user_id@ && contains_key(old(self).rows(), platform@, new_user_id@))
                && !contains_key(old(self).rows(), platform@, old_user_id@)
                ==> r == Err::<(), StoreError>(StoreError::NotFound),
            !(new_user_id@ != old_user_id@ && contains_key(old(self).rows(), platform@, new_user_id@))
                && contains_key(old(self).rows(), platform@, old_user_id@)
                && new_password.spec_bytes().len() <= u32::MAX && mek@.len() <= u32::MAX ==> r is Ok,
            match r {
                Ok(()) => exists|i: int| 0 <= i < old(self).rows().len()
                    && has_key(#[trigger] old(self).rows()[i], platform@, old_user_id@)
                    && final(self).rows() == old(self).rows().update(i, final(self).rows()[i])
                    && resealed(old(self).rows()[i], final(self).rows()[i], new_user_id@, mek@, new_password@, now),
                Err(e) => final(self).rows() == old(self).rows() && (e == StoreError::Conflict
                    || e == StoreError::NotFound || e == StoreError::KeyDerivation || e == StoreError::TooLarge),
            },
    {
        if !str_eq(new_user_id.as_str(), old_user_id) && self.find(platform, new_user_id.as_str()).is_some() {
            return Err(StoreError::Conflict);
        }
        let i = match self.find(platform, old_user_id) {
            None => {
                return Err(StoreError::NotFound);
            },
            Some(i) => i,
        };
        let sealed = match seal_with_derived_key(mek, new_password) {
            Ok(d) => d,
            Err(e) => {
                return Err(e);
            },
        };
        let ghost s0 = self.rows();
        proof { self.lemma_lookup_at(platform@, old_user_id@, i as int); }
        let mut e = self.entries.remove(i);
        e.user_id = new_user_id;
        e.ciphertext = sealed.ciphertext;
        e.nonce = sealed.nonce;
        e.salt = sealed.salt;
        e.updated_at = now;
        let ghost ne = e@;
        self.entries.insert(i, e);
        proof {
            assert(self.rows() =~= s0.update(i as int, ne));
            lemma_pinned_count_update(s0, i as int, ne);
            assert(resealed(s0[i as int], self.rows()[i as int], new_user_id@, mek@, new_password@, now));
            let s1 = self.rows();
            assert forall|a: int, b: int| 0 <= a < s1.len() && 0 <= b < s1.len() && a != b
                implies !has_key(s1[a], s1[b].platform, s1[b].user_id) by {
                if a == i {
                    assert(!has_key(s0[b], platform@, ne.user_id));
                } else if b == i {
                    assert(!has_key(s0[a], platform@, ne.user_id));
                }
            }
        }
        Ok(())
    }

    /// With unique keys, the row found at `i` is the one `lookup` names.
    pub proof fn lemma_lookup_at(&self, platform: Seq<char>, user_id: Seq<char>, i: int)
        requires
            self.wf(),
            0 <= i < self.rows().len(),
            has_key(self.rows()[i], platform, user_id),
        ensures
            lookup(self.rows(), platform, user_id) == Some(self.rows()[i]),
            forall|j: int| 0 <= j < self.rows().len() && has_key(#[trigger] self.rows()[j], platform, user_id) ==> j == i,
    {
        let s = self.rows();
        assert forall|j: int| 0 <= j < s.len() && has_key(#[trigger] s[j], platform, user_id) implies j == i by {
            if j != i {
                assert(!has_key(s[j], s[i].platform, s[i].user_id));
            }
        }
    }

    /// Adds a row read back from storage. A second row with the same key is
    /// a `Conflict`; a pinned row beyond the cap is `PinLimitExceeded`.
    pub fn insert_row(&mut self, row: VaultEntry) -> (r: Result<(), StoreError>)
        requires
            old(self).wf(),
        ensures
            final(self).wf(),
            final(self).name_view() == old(self).name_view(),
            match r {
                Ok(()) => final(self).rows() == old(self).rows().push(row@),
                Err(e) => final(self).rows() == old(self).rows() && (
                    (e == StoreError::Conflict && contains_key(old(self).rows(), row@.platform, row@.user_id))
                    || (e == StoreError::PinLimitExceeded && !contains_key(old(self).rows(), row@.platform, row@.user_id)
                        && row.pinned && pinned_count(old(self).rows()) == MAX_PINNED)),
            },
            r is Ok <==> !contains_key(old(self).rows(), row@.platform, row@.user_id)
                && (row.pinned ==> pinned_count(old(self).rows()) < MAX_PINNED),
    {
        if self.find(row.platform.as_str(), row.user_id.as_str()).is_some() {
            return Err(StoreError::Conflict);
        }
        if row.pinned && self.pinned_total() >= MAX_PINNED {
            return Err(StoreError::PinLimitExceeded);
        }
        if row.id >= self.next_id && row.id < u64::MAX {
            self.next_id = row.id + 1;
        }
        let ghost before = self.rows();
        self.entries.push(row);
        proof {
            assert(self.rows() =~= before.push(row@));
            lemma_pinned_count_push(before, row@);
        }
        Ok(())
    }

    /// Deletes the row keyed `(platform, user_id)`; absence is not an error.
    pub fn remove_entry(&mut self, platform: &str, user_id: &str)
        requires
            old(self).wf(),
        ensures
            final(self).wf(),
            final(self).name_view() == old(self).name_view(),
            !contains_key(final(self).rows(), platform@, user_id@),
            forall|e: EntryView| !has_key(e, platform@, user_id@) ==>
                (final(self).rows().contains(e) <==> old(self).rows().contains(e)),
            final(self).rows().len() == old(self).rows().len() - if contains_key(old(self).rows(), platform@, user_id@) { 1int } else { 0int },
            final(self).rows() == if contains_key(old(self).rows(), platform@, user_id@) {
                old(self).rows().remove(key_index(old(self).rows(), platform@, user_id@))
            } else {
                old(self).rows()
            },
    {
        match self.find(platform, user_id) {
            None => {},
            Some(i) => {
                let ghost before = self.rows();
                proof {
                    lemma_key_index(before, platform@, user_id@, i as int);
                }
                self.entries.remove(i);
                proof {
                    assert(self.rows() =~= before.remove(i as int));
                    lemma_pinned_count_remove(before, i as int);
                    assert forall|j: int| 0 <= j < self.rows().len() implies !has_key(#[trigger] self.rows()[j], platform@, user_id@) by {
                        let k = if j < i { j } else { j + 1 };
                        assert(self.rows()[j] == before[k]);
                    }
                    assert forall|e: EntryView| !has_key(e, platform@, user_id@) implies
                        (self.rows().contains(e) <==> before.contains(e)) by {
                        if before.contains(e) {
                            let k = choose|k: int| 0 <= k < before.len() && before[k] == e;
                            assert(k != i);
                            let j = if k < i { k } else { k - 1 };
                            assert(self.rows()[j] == e);
                        }
                    }
                }
            },
        }
    }

    /// Flips the pin of the row keyed `(platform, user_id)` and returns its
    /// new state. Pinning when the cap is reached fails and changes nothing;
    /// unpinning always succeeds.
    pub fn toggle_pin(&mut self, platform: &str, user_id: &str) -> (r: Result<bool, StoreError>)
        requires
            old(self).wf(),
        ensures
            final(self).wf(),
            final(self).name_view() == old(self).name_view(),
            (r, final(self).rows()) == toggle_outcome(old(self).rows(), platform@, user_id@),
    {
        let i = match self.find(platform, user_id) {
            None => {
                return Err(StoreError::NotFound);
            },
            Some(i) => i,
        };
        proof {
            self.lemma_lookup_at(platform@, user_id@, i as int);
            assert(key_index(self.rows(), platform@, user_id@) == i);
        }
        let currently = self.entries[i].pinned;
        if !currently && self.pinned_total() >= MAX_PINNED {
            return Err(StoreError::PinLimitExceeded);
        }
        let ghost before = self.rows();
        let mut e = self.entries.remove(i);
        e.pinned = !currently;
        self.entries.insert(i, e);
        proof {
            assert(self.rows() =~= before.update(i as int, EntryView { pinned: !currently, ..before[i as int] }));
            lemma_pinned_count_update(before, i as int, EntryView { pinned: !currently, ..before[i as int] });
        }
        Ok(!currently)
    }
}

/// Relies on std's `String::push`: appends one character.
#[verifier::external_body]
pub(crate) fn push_char(s: &mut String, c: char)
    ensures
        final(s)@ == old(s)@.push(c),
{
    s.push(c);
}

pub open spec fn create_prefix() -> Seq<char> {
    "CREATE TABLE IF NOT EXISTS "@
}

pub open spec fn create_suffix() -> Seq<char> {
    " (id INTEGER PRIMARY KEY AUTOINCREMENT, platform TEXT NOT NULL, user_id TEXT NOT NULL, ciphertext TEXT NOT NULL, nonce TEXT NOT NULL, salt TEXT NOT NULL, pinned INTEGER NOT NULL DEFAULT 0, created_at INTEGER NOT NULL, updated_at INTEGER NOT NULL, UNIQUE(platform, user_id))"@
}

/// Appends the characters of `t` to `s`.
pub fn append_str(s: &mut String, t: &str)
    ensures
        final(s)@ == old(s)@ + t@,
{
    let ghost start = s@;
    let n = t.unicode_len();
    let mut i: usize = 0;
    while i < n
        invariant
            n == t@.len(),
            i <= n,
            s@ == start + t@.subrange(0, i as int),
        decreases n - i,
    {
        push_char(s, t.get_char(i));
        i = i + 1;
        assert(s@ =~= start + t@.subrange(0, i as int));
    }
    assert(t@.subrange(0, n as int) =~= t@);
}

/// Whether two strings hold the same characters.
pub fn str_eq(a: &str, b: &str) -> (r: bool)
    ensures
        r == (a@ == b@),
{
    let n = a.unicode_len();
    let m = b.unicode_len();
    if n != m {
        return false;
    }
    let mut i: usize = 0;
    while i < n
        invariant
            n == a@.len(),
            m == b@.len(),
            n == m,
            i <= n,
            forall|j: int| 0 <= j < i ==> a@[j] == b@[j],
        decreases n - i,
    {
        if a.get_char(i) != b.get_char(i) {
            return false;
        }
        i = i + 1;
    }
    assert(a@ =~= b@);
    true
}

/// With unique keys, `key_index` names the one matching row.
pub proof fn lemma_key_index(s: Seq<EntryView>, platform: Seq<char>, user_id: Seq<char>, i: int)
    requires
        keys_unique(s),
        0 <= i < s.len(),
        has_key(s[i], platform, user_id),
    ensures
        key_index(s, platform, user_id) == i,
        lookup(s, platform, user_id) == Some(s[i]),
{
    let k = key_index(s, platform, user_id);
    if k != i {
        assert(!has_key(s[k], s[i].platform, s[i].user_id));
    }
}

/// Flipping a pin keeps every key, so keys stay unique.
pub proof fn lemma_set_pin_keeps_keys(s: Seq<EntryView>, i: int, pinned: bool)
    requires
        keys_unique(s),
        0 <= i < s.len(),
    ensures
        keys_unique(s.update(i, EntryView { pinned, ..s[i] })),
{
    let t = s.update(i, EntryView { pinned, ..s[i] });
    assert forall|a: int, b: int| 0 <= a < t.len() && 0 <= b < t.len() && a != b
        implies !has_key(t[a], t[b].platform, t[b].user_id) by {
        assert(!has_key(s[a], s[b].platform, s[b].user_id));
    }
}

/// Storing a secret and reading it back with the same MEK gives the secret.
pub proof fn lemma_retrieve_after_add(s0: Seq<EntryView>, s1: Seq<EntryView>, platform: Seq<char>, user_id: Seq<char>, mek: Seq<u8>, text: Seq<char>, now: u64)
    requires
        keys_unique(s1),
        upserted(s0, s1, platform, user_id, mek, text, now),
    ensures
        lookup(s1, platform, user_id) is Some,
        retrieve_spec(mek, lookup(s1, platform, user_id)->Some_0) == Ok::<Seq<char>, StoreError>(text),
{
    if contains_key(s0, platform, user_id) {
        let i = choose|i: int| 0 <= i < s0.len() && has_key(#[trigger] s0[i], platform, user_id)
            && s1 == s0.update(i, s1[i]) && resealed(s0[i], s1[i], user_id, mek, text, now);
        lemma_key_index(s1, platform, user_id, i);
    } else {
        lemma_key_index(s1, platform, user_id, s1.len() - 1);
    }
}

/// The pin cap: with the cap reached, pinning another row fails and leaves
/// it unpinned; after one pinned row is unpinned, pinning it succeeds.
pub proof fn lemma_pin_cap(s0: Seq<EntryView>, pinned_platform: Seq<char>, pinned_user: Seq<char>, platform: Seq<char>, user_id: Seq<char>)
    requires
        keys_unique(s0),
        pinned_count(s0) == MAX_PINNED,
        lookup(s0, pinned_platform, pinned_user) matches Some(e) && e.pinned,
        lookup(s0, platform, user_id) matches Some(e) && !e.pinned,
    ensures
        toggle_outcome(s0, platform, user_id) == (Err::<bool, StoreError>(StoreError::PinLimitExceeded), s0),
        toggle_outcome(s0, pinned_platform, pinned_user).0 == Ok::<bool, StoreError>(false),
        ({
            let s2 = toggle_outcome(s0, pinned_platform, pinned_user).1;
            let s3 = toggle_outcome(s2, platform, user_id).1;
            &&& toggle_outcome(s2, platform, user_id).0 == Ok::<bool, StoreError>(true)
            &&& lookup(s3, platform, user_id) matches Some(e) && e.pinned
            &&& pinned_count(s3) == MAX_PINNED
        }),
{
    let a = key_index(s0, pinned_platform, pinned_user);
    let b = key_index(s0, platform, user_id);
    assert(a != b);
    let s2 = s0.update(a, EntryView { pinned: false, ..s0[a] });
    lemma_pinned_count_update(s0, a, EntryView { pinned: false, ..s0[a] });
    lemma_set_pin_keeps_keys(s0, a, false);
    assert(has_key(s2[b], platform, user_id));
    lemma_key_index(s2, platform, user_id, b);
    let s3 = s2.update(b, EntryView { pinned: true, ..s2[b] });
    lemma_pinned_count_update(s2, b, EntryView { pinned: true, ..s2[b] });
    lemma_set_pin_keeps_keys(s2, b, true);
    assert(has_key(s3[b], platform, user_id));
    lemma_key_index(s3, platform, user_id, b);
}

} // verus!
