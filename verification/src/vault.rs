//! The vault: a session over the database snapshot.
//!
//! A session holds the database and the 32-byte working key derived from the
//! master passphrase.  Entry operations encrypt and decrypt under that key;
//! the caller persists the snapshot it can read through [`Vault::database`]
//! after every mutating call.  Closing the session overwrites the key bytes.

use vstd::prelude::*;
use vstd::string::StrSliceExecFns;
use vstd::utf8::encode_utf8;
use crate::crypto;
use crate::crypto::{
    aead_open, kdf_inputs_ok, pbkdf2_key, verifies, EncryptedData, MAX_DIGEST_INPUT,
    PBKDF2_ITERATIONS,
};
use crate::error::{is_entry_already_exists, is_entry_locked, is_entry_not_found, Error};
use crate::search::{
    contains_sub, has_pair, insert_sorted, lower_of, str_contains, strictly_sorted,
    to_lowercase_str,
};
use crate::storage::{
    clone_bytes, distinct_keys, entries_view, lemma_entries_view_index, Database, Entry, EntryView,
};
use crate::text::{bytes_to_string, str_to_bytes};
use vstd::utf8::valid_utf8;
use vstd::utf8::decode_utf8;

verus! {

/// A character with the Unicode `White_Space` property, the set `str::trim`
/// strips.
pub open spec fn is_space_char(c: char) -> bool {
    let u = c as u32;
    ||| u == 0x09
    ||| u == 0x0A
    ||| u == 0x0B
    ||| u == 0x0C
    ||| u == 0x0D
    ||| u == 0x20
    ||| u == 0x85
    ||| u == 0xA0
    ||| u == 0x1680
    ||| (0x2000 <= u && u <= 0x200A)
    ||| u == 0x2028
    ||| u == 0x2029
    ||| u == 0x202F
    ||| u == 0x205F
    ||| u == 0x3000
}

/// Every character is whitespace; true of the empty string.
pub open spec fn is_blank(s: Seq<char>) -> bool {
    forall|i: int| 0 <= i < s.len() ==> is_space_char(#[trigger] s[i])
}

fn is_space(c: char) -> (r: bool)
    ensures
        r == is_space_char(c),
{
    let u = c as u32;
    u == 0x09 || u == 0x0A || u == 0x0B || u == 0x0C || u == 0x0D || u == 0x20 || u == 0x85
        || u == 0xA0 || u == 0x1680 || (0x2000 <= u && u <= 0x200A) || u == 0x2028 || u == 0x2029
        || u == 0x202F || u == 0x205F || u == 0x3000
}

fn str_is_blank(s: &str) -> (r: bool)
    ensures
        r == is_blank(s@),
{
    let n = s.unicode_len();
    let mut i: usize = 0;
    while i < n
        invariant
            n == s@.len(),
            i <= n,
            forall|j: int| 0 <= j < i ==> is_space_char(#[trigger] s@[j]),
        decreases n - i,
    {
        if !is_space(s.get_char(i)) {
            return false;
        }
        i = i + 1;
    }
    true
}

/// The spec view of an optional search term.
pub open spec fn view_opt(search: Option<&str>) -> Option<Seq<char>> {
    match search {
        Some(s) => Some(s@),
        None => None,
    }
}

/// A listed entry passes the filters: its lowercased name contains the
/// lowercased search term, and its lock state equals the requested one.
pub open spec fn entry_matches(
    name: Seq<char>,
    locked: bool,
    search: Option<Seq<char>>,
    filt: Option<bool>,
) -> bool {
    &&& match search {
        Some(t) => contains_sub(lower_of(name), lower_of(t)),
        None => true,
    }
    &&& match filt {
        Some(f) => locked == f,
        None => true,
    }
}

/// An open vault session: the database and the working key.
pub struct Vault {
    db: Database,
    master_key: Vec<u8>,
}

impl Vault {
    #[verifier::type_invariant]
    spec fn wf(&self) -> bool {
        self.master_key@.len() == 32
    }

    /// The session key held for this vault.
    pub closed spec fn session_key(&self) -> Seq<u8> {
        self.master_key@
    }

    /// The salt of the stored credential record.
    pub closed spec fn salt(&self) -> Seq<u8> {
        self.db.master_salt@
    }

    /// The stored verifier of the credential record.
    pub closed spec fn stored_verifier(&self) -> Seq<u8> {
        self.db.master_hash@
    }

    /// The stored iteration count.
    pub closed spec fn iterations(&self) -> u32 {
        self.db.iterations
    }

    /// The entries as a map from name to entry.
    pub closed spec fn entries(&self) -> Map<Seq<char>, EntryView> {
        self.db.entries@
    }

    /// The entries in insertion order.
    pub closed spec fn entry_pairs(&self) -> Seq<(Seq<char>, EntryView)> {
        self.db.entries.pairs()
    }

    /// The database snapshot, for the persistence collaborator.
    pub fn database(&self) -> (r: &Database)
        ensures
            r.master_salt@ == self.salt(),
            r.master_hash@ == self.stored_verifier(),
            r.iterations == self.iterations(),
            r.entries@ == self.entries(),
            r.entries.pairs() == self.entry_pairs(),
    {
        &self.db
    }

    /// Initialise a new vault.  `database_exists` is the persistence
    /// collaborator's answer; a credential record that already exists is
    /// never overwritten.  A fresh salt is drawn, the session key and the
    /// stored verifier are derived from the passphrase — identically, so the
    /// persisted verifier is the key itself, a known defect this engine keeps
    /// — and the database starts empty.
    pub fn init(master_password: &str, database_exists: bool) -> (r: Result<Vault, Error>)
        ensures
            database_exists ==> r == Err::<Vault, Error>(Error::CredentialAlreadyExists),
            !database_exists && is_blank(master_password@)
                ==> r == Err::<Vault, Error>(Error::EmptyPassword),
            !database_exists && !is_blank(master_password@)
                && encode_utf8(master_password@).len() > MAX_DIGEST_INPUT
                ==> (r matches Err(e)
                    && (e == Error::InvalidParameters || e == Error::RandomnessFailure)),
            !database_exists && !is_blank(master_password@)
                && encode_utf8(master_password@).len() <= MAX_DIGEST_INPUT
                ==> (r matches Ok(_) || r == Err::<Vault, Error>(Error::RandomnessFailure)),
            r matches Ok(v) ==> {
                &&& !database_exists
                &&& !is_blank(master_password@)
                &&& v.iterations() == PBKDF2_ITERATIONS
                &&& v.salt().len() == 32
                &&& v.session_key() == pbkdf2_key(
                    encode_utf8(master_password@),
                    v.salt(),
                    PBKDF2_ITERATIONS,
                )
                &&& v.stored_verifier() == v.session_key()
                &&& v.entries() == Map::<Seq<char>, EntryView>::empty()
                &&& v.entry_pairs().len() == 0
            },
    {
        if database_exists {
            return Err(Error::CredentialAlreadyExists);
        }
        if str_is_blank(master_password) {
            return Err(Error::EmptyPassword);
        }
        assert(master_password@.len() != 0);
        let salt = match crypto::generate_salt() {
            Ok(s) => s,
            Err(e) => return Err(e),
        };
        let iterations = crypto::default_iterations();
        let master_key = match crypto::derive_key(master_password, salt.as_slice(), iterations) {
            Ok(k) => k,
            Err(e) => return Err(e),
        };
        let master_hash = match crypto::hash_password(master_password, salt.as_slice(), iterations) {
            Ok(h) => h,
            Err(e) => return Err(e),
        };
        let db = Database::new(salt, master_hash, iterations);
        Ok(Vault { db, master_key })
    }

    /// Unlock an existing vault: check the passphrase against the stored
    /// verifier, and hold the derived key for the session.  The caller loads
    /// the database; a missing one is its `DatabaseNotFound`.
    pub fn unlock(master_password: &str, db: Database) -> (r: Result<Vault, Error>)
        ensures
            db.iterations == 0 ==> r == Err::<Vault, Error>(Error::InvalidParameters),
            db.iterations != 0 && !kdf_inputs_ok(master_password@, db.master_salt@)
                ==> r == Err::<Vault, Error>(Error::InvalidParameters),
            db.iterations != 0 && kdf_inputs_ok(master_password@, db.master_salt@)
                && !verifies(master_password@, db.master_salt@, db.iterations, db.master_hash@)
                ==> r == Err::<Vault, Error>(Error::InvalidMasterPassword),
            db.iterations != 0 && kdf_inputs_ok(master_password@, db.master_salt@)
                && verifies(master_password@, db.master_salt@, db.iterations, db.master_hash@)
                && master_password@.len() == 0
                ==> r == Err::<Vault, Error>(Error::EmptyPassword),
            db.iterations != 0 && kdf_inputs_ok(master_password@, db.master_salt@)
                && verifies(master_password@, db.master_salt@, db.iterations, db.master_hash@)
                && master_password@.len() != 0
                ==> (r matches Ok(v) && {
                    &&& v.session_key() == pbkdf2_key(
                        encode_utf8(master_password@),
                        db.master_salt@,
                        db.iterations,
                    )
                    &&& v.salt() == db.master_salt@
                    &&& v.stored_verifier() == db.master_hash@
                    &&& v.iterations() == db.iterations
                    &&& v.entries() == db.entries@
                    &&& v.entry_pairs() == db.entries.pairs()
                }),
    {
        let is_valid = match crypto::verify_password(
            master_password,
            db.master_salt.as_slice(),
            db.master_hash.as_slice(),
            db.iterations,
        ) {
            Ok(b) => b,
            Err(e) => return Err(e),
        };
        if !is_valid {
            return Err(Error::InvalidMasterPassword);
        }
        let master_key = match crypto::derive_key(
            master_password,
            db.master_salt.as_slice(),
            db.iterations,
        ) {
            Ok(k) => k,
            Err(e) => return Err(e),
        };
        Ok(Vault { db, master_key })
    }

    /// Check a master password against a database's credential record
    /// without opening a session.
    pub fn verify_master_password(master_password: &str, db: &Database) -> (r: Result<bool, Error>)
        ensures
            db.iterations == 0 ==> r == Err::<bool, Error>(Error::InvalidParameters),
            db.iterations != 0 && !kdf_inputs_ok(master_password@, db.master_salt@)
                ==> r == Err::<bool, Error>(Error::InvalidParameters),
            db.iterations != 0 && kdf_inputs_ok(master_password@, db.master_salt@)
                ==> (r matches Ok(b)
                    && b == verifies(master_password@, db.master_salt@, db.iterations, db.master_hash@)),
    {
        crypto::verify_password(
            master_password,
            db.master_salt.as_slice(),
            db.master_hash.as_slice(),
            db.iterations,
        )
    }

    /// Create a new entry: encrypt the value under the session key with a
    /// fresh nonce and store it unlocked.
    pub fn create_entry(&mut self, key: String, value: String) -> (r: Result<(), Error>)
        ensures
            old(self).entries().contains_key(key@)
                ==> (r matches Err(e) && is_entry_already_exists(e, key@)
                    && *final(self) == *old(self)),
            !old(self).entries().contains_key(key@)
                ==> (r matches Err(e)
                    ==> ((e == Error::RandomnessFailure || e == Error::CryptoFailure)
                        && *final(self) == *old(self))),
            r matches Ok(_) ==> {
                &&& !old(self).entries().contains_key(key@)
                &&& final(self).entries().contains_key(key@)
                &&& final(self).entries() == old(self).entries().insert(
                    key@,
                    final(self).entries()[key@],
                )
                &&& final(self).entries()[key@].locked == false
                &&& final(self).entries()[key@].nonce.len() == 12
                &&& aead_open(
                    old(self).session_key(),
                    final(self).entries()[key@].nonce,
                    final(self).entries()[key@].ciphertext,
                ) == Some(encode_utf8(value@))
                &&& final(self).entry_pairs() == old(self).entry_pairs().push(
                    (key@, final(self).entries()[key@]),
                )
                &&& final(self).session_key() == old(self).session_key()
                &&& final(self).salt() == old(self).salt()
                &&& final(self).stored_verifier() == old(self).stored_verifier()
                &&& final(self).iterations() == old(self).iterations()
            },
    {
        proof {
            use_type_invariant(&*self);
        }
        if self.db.entries.contains_key(&key) {
            return Err(Error::EntryAlreadyExists(key));
        }
        let value_bytes = str_to_bytes(&value);
        let ed = match crypto::encrypt(value_bytes.as_slice(), self.master_key.as_slice()) {
            Ok(ed) => ed,
            Err(e) => return Err(e),
        };
        let entry = Entry::new(ed.ciphertext, ed.nonce, false);
        let mut entries = crate::storage::EntryMap::new();
        core::mem::swap(&mut entries, &mut self.db.entries);
        entries.insert(key, entry);
        self.db.entries = entries;
        Ok(())
    }

    /// Read an entry's value: it must exist and be unlocked, and its
    /// ciphertext must authenticate under the session key and decode as
    /// UTF-8.
    pub fn get_entry(&self, key: &str) -> (r: Result<String, Error>)
        ensures
            !self.entries().contains_key(key@)
                ==> (r matches Err(e) && is_entry_not_found(e, key@)),
            self.entries().contains_key(key@) && self.entries()[key@].locked
                ==> (r matches Err(e) && is_entry_locked(e, key@)),
            self.entries().contains_key(key@) && !self.entries()[key@].locked ==> {
                let ev = self.entries()[key@];
                &&& ev.nonce.len() != 12 ==> r == Err::<String, Error>(Error::InvalidKeyMaterial)
                &&& ev.nonce.len() == 12 ==> {
                    &&& aead_open(self.session_key(), ev.nonce, ev.ciphertext) is None
                        ==> r == Err::<String, Error>(Error::AuthenticationFailure)
                    &&& (aead_open(self.session_key(), ev.nonce, ev.ciphertext) matches Some(b)
                        ==> (if valid_utf8(b) {
                            r matches Ok(v) && v@ == decode_utf8(b)
                        } else {
                            r == Err::<String, Error>(Error::InvalidUtf8)
                        }))
                }
            },
    {
        proof {
            use_type_invariant(&*self);
        }
        let entry = match self.db.entries.get(key) {
            Some(e) => e,
            None => return Err(Error::EntryNotFound(key.to_owned())),
        };
        if entry.is_locked {
            return Err(Error::EntryLocked(key.to_owned()));
        }
        let ciphertext = match entry.get_encrypted_value() {
            Ok(v) => v,
            Err(e) => return Err(e),
        };
        let nonce = match entry.get_nonce() {
            Ok(v) => v,
            Err(e) => return Err(e),
        };
        let encrypted = EncryptedData { ciphertext, nonce };
        let plaintext = match crypto::decrypt(&encrypted, self.master_key.as_slice()) {
            Ok(p) => p,
            Err(e) => return Err(e),
        };
        bytes_to_string(plaintext)
    }

    /// Re-encrypt an existing, unlocked entry with a new value and a fresh
    /// nonce; the entry stays unlocked.
    pub fn update_entry(&mut self, key: String, new_value: String) -> (r: Result<(), Error>)
        ensures
            !old(self).entries().contains_key(key@)
                ==> (r matches Err(e) && is_entry_not_found(e, key@) && *final(self) == *old(self)),
            old(self).entries().contains_key(key@) && old(self).entries()[key@].locked
                ==> (r matches Err(e) && is_entry_locked(e, key@) && *final(self) == *old(self)),
            old(self).entries().contains_key(key@) && !old(self).entries()[key@].locked
                ==> (r matches Err(e)
                    ==> ((e == Error::RandomnessFailure || e == Error::CryptoFailure)
                        && *final(self) == *old(self))),
            r matches Ok(_) ==> {
                &&& old(self).entries().contains_key(key@)
                &&& !old(self).entries()[key@].locked
                &&& final(self).entries().contains_key(key@)
                &&& final(self).entries() == old(self).entries().insert(
                    key@,
                    final(self).entries()[key@],
                )
                &&& final(self).entries()[key@].locked == false
                &&& final(self).entries()[key@].nonce.len() == 12
                &&& aead_open(
                    old(self).session_key(),
                    final(self).entries()[key@].nonce,
                    final(self).entries()[key@].ciphertext,
                ) == Some(encode_utf8(new_value@))
                &&& final(self).entry_pairs().len() == old(self).entry_pairs().len()
                &&& (forall|j: int| 0 <= j < old(self).entry_pairs().len()
                    && (#[trigger] old(self).entry_pairs()[j]).0 != key@
                    ==> final(self).entry_pairs()[j] == old(self).entry_pairs()[j])
                &&& (forall|j: int| 0 <= j < old(self).entry_pairs().len()
                    && (#[trigger] old(self).entry_pairs()[j]).0 == key@
                    ==> final(self).entry_pairs()[j] == (key@, final(self).entries()[key@]))
                &&& final(self).session_key() == old(self).session_key()
                &&& final(self).salt() == old(self).salt()
                &&& final(self).stored_verifier() == old(self).stored_verifier()
                &&& final(self).iterations() == old(self).iterations()
            },
    {
        proof {
            use_type_invariant(&*self);
        }
        let locked = match self.db.entries.get(&key) {
            Some(e) => e.is_locked,
            None => return Err(Error::EntryNotFound(key)),
        };
        if locked {
            return Err(Error::EntryLocked(key));
        }
        let value_bytes = str_to_bytes(&new_value);
        let ed = match crypto::encrypt(value_bytes.as_slice(), self.master_key.as_slice()) {
            Ok(ed) => ed,
            Err(e) => return Err(e),
        };
        let entry = Entry::new(ed.ciphertext, ed.nonce, false);
        let mut entries = crate::storage::EntryMap::new();
        core::mem::swap(&mut entries, &mut self.db.entries);
        entries.insert(key, entry);
        self.db.entries = entries;
        Ok(())
    }

    /// Delete an existing, unlocked entry.
    pub fn delete_entry(&mut self, key: &str) -> (r: Result<(), Error>)
        ensures
            !old(self).entries().contains_key(key@)
                ==> (r matches Err(e) && is_entry_not_found(e, key@) && *final(self) == *old(self)),
            old(self).entries().contains_key(key@) && old(self).entries()[key@].locked
                ==> (r matches Err(e) && is_entry_locked(e, key@) && *final(self) == *old(self)),
            old(self).entries().contains_key(key@) && !old(self).entries()[key@].locked
                ==> (r matches Ok(_) && {
                    &&& final(self).entries() == old(self).entries().remove(key@)
                    &&& exists|i: int| 0 <= i < old(self).entry_pairs().len()
                        && (#[trigger] old(self).entry_pairs()[i]).0 == key@
                        && final(self).entry_pairs() == old(self).entry_pairs().remove(i)
                    &&& final(self).session_key() == old(self).session_key()
                    &&& final(self).salt() == old(self).salt()
                    &&& final(self).stored_verifier() == old(self).stored_verifier()
                    &&& final(self).iterations() == old(self).iterations()
                }),
    {
        proof {
            use_type_invariant(&*self);
        }
        let locked = match self.db.entries.get(key) {
            Some(e) => e.is_locked,
            None => return Err(Error::EntryNotFound(key.to_owned())),
        };
        if locked {
            return Err(Error::EntryLocked(key.to_owned()));
        }
        let mut entries = crate::storage::EntryMap::new();
        core::mem::swap(&mut entries, &mut self.db.entries);
        let removed = entries.remove(key);
        self.db.entries = entries;
        proof {
            let op = old(self).entry_pairs();
            if let Some(i) = removed {
                assert(exists|m: int| 0 <= m < op.len() && (#[trigger] op[m]).0 == key@
                    && final(self).entry_pairs() == op.remove(m)) by {
                    assert(0 <= i < op.len() && op[i as int].0 == key@
                        && final(self).entry_pairs() == op.remove(i as int));
                }
            }
        }
        Ok(())
    }

    /// Flip an entry's lock flag and report the new state.  The lock flag
    /// itself never blocks toggling.
    pub fn toggle_lock(&mut self, key: &str) -> (r: Result<bool, Error>)
        ensures
            !old(self).entries().contains_key(key@)
                ==> (r matches Err(e) && is_entry_not_found(e, key@) && *final(self) == *old(self)),
            old(self).entries().contains_key(key@) ==> (r matches Ok(b) && {
                &&& b == !old(self).entries()[key@].locked
                &&& final(self).entries() == old(self).entries().insert(
                    key@,
                    EntryView { locked: b, ..old(self).entries()[key@] },
                )
                &&& final(self).entry_pairs().len() == old(self).entry_pairs().len()
                &&& (forall|j: int| 0 <= j < old(self).entry_pairs().len()
                    && (#[trigger] old(self).entry_pairs()[j]).0 != key@
                    ==> final(self).entry_pairs()[j] == old(self).entry_pairs()[j])
                &&& (forall|j: int| 0 <= j < old(self).entry_pairs().len()
                    && (#[trigger] old(self).entry_pairs()[j]).0 == key@
                    ==> final(self).entry_pairs()[j]
                        == (key@, EntryView { locked: b, ..old(self).entries()[key@] }))
                &&& final(self).session_key() == old(self).session_key()
                &&& final(self).salt() == old(self).salt()
                &&& final(self).stored_verifier() == old(self).stored_verifier()
                &&& final(self).iterations() == old(self).iterations()
            }),
    {
        proof {
            use_type_invariant(&*self);
        }
        let (ciphertext, nonce, new_state) = match self.db.entries.get(key) {
            Some(e) => (
                clone_bytes(&e.encrypted_value),
                clone_bytes(&e.nonce),
                !e.is_locked,
            ),
            None => return Err(Error::EntryNotFound(key.to_owned())),
        };
        let entry = Entry::new(ciphertext, nonce, new_state);
        let mut entries = crate::storage::EntryMap::new();
        core::mem::swap(&mut entries, &mut self.db.entries);
        entries.insert(key.to_owned(), entry);
        self.db.entries = entries;
        Ok(new_state)
    }

    /// List the entries that pass the filters as (name, locked) pairs,
    /// sorted by name: the search term matches case-insensitively anywhere
    /// in the name (an empty term matches all), and the lock filter matches
    /// exactly.
    pub fn list_entries(&self, search: Option<&str>, lock_filter: Option<bool>) -> (r: Result<
        Vec<(String, bool)>,
        Error,
    >)
        ensures
            r matches Ok(v) && {
                &&& strictly_sorted(v@)
                &&& forall|p: int| 0 <= p < v@.len() ==> {
                    &&& self.entries().contains_key((#[trigger] v@[p]).0@)
                    &&& self.entries()[v@[p].0@].locked == v@[p].1
                    &&& entry_matches(v@[p].0@, v@[p].1, view_opt(search), lock_filter)
                }
                &&& forall|k: Seq<char>|
                    self.entries().contains_key(k) && entry_matches(
                        k,
                        (#[trigger] self.entries()[k]).locked,
                        view_opt(search),
                        lock_filter,
                    ) ==> has_pair(v@, k, self.entries()[k].locked)
            },
    {
        proof {
            use_type_invariant(&self.db.entries);
        }
        let ghost pairs = self.entry_pairs();
        let lowered_search: Option<String> = match search {
            Some(t) => Some(to_lowercase_str(t)),
            None => None,
        };
        let n = self.db.entries.len();
        let mut out: Vec<(String, bool)> = Vec::new();
        let mut i: usize = 0;
        while i < n
            invariant
                n == pairs.len(),
                i <= n,
                pairs == self.entry_pairs(),
                self.entries() == entries_view(pairs),
                distinct_keys(pairs),
                match (search, &lowered_search) {
                    (Some(s0), Some(t)) => t@ == lower_of(s0@),
                    (None, None) => true,
                    _ => false,
                },
                strictly_sorted(out@),
                forall|k: Seq<char>, l: bool| #[trigger] has_pair(out@, k, l) ==> {
                    &&& exists|j: int| 0 <= j < i && (#[trigger] pairs[j]).0 == k
                        && pairs[j].1.locked == l
                    &&& entry_matches(k, l, view_opt(search), lock_filter)
                },
                forall|j: int| 0 <= j < i && entry_matches(
                    (#[trigger] pairs[j]).0,
                    pairs[j].1.locked,
                    view_opt(search),
                    lock_filter,
                ) ==> has_pair(out@, pairs[j].0, pairs[j].1.locked),
            decreases n - i,
        {
            let (name, entry) = self.db.entries.pair_at(i);
            let locked = entry.is_locked;
            let search_match = match &lowered_search {
                Some(t) => {
                    let lowered_name = to_lowercase_str(name);
                    str_contains(&lowered_name, t)
                },
                None => true,
            };
            let lock_match = match lock_filter {
                Some(f) => locked == f,
                None => true,
            };
            if search_match && lock_match {
                assert(entry_matches(pairs[i as int].0, locked, view_opt(search), lock_filter));
                proof {
                    assert forall|p: int| 0 <= p < out@.len() implies
                        (#[trigger] out@[p]).0@ != name@ by {
                        if out@[p].0@ == name@ {
                            assert(has_pair(out@, name@, out@[p].1)) by {
                                assert(0 <= p < out@.len() && out@[p].0@ == name@);
                            }
                            let j = choose|j: int|
                                0 <= j < i && (#[trigger] pairs[j]).0 == name@
                                    && pairs[j].1.locked == out@[p].1;
                            assert(pairs[j].0 == pairs[i as int].0);
                        }
                    }
                }
                let owned_name = name.clone();
                insert_sorted(&mut out, owned_name, locked);
                proof {
                    assert forall|k: Seq<char>, l: bool| #[trigger] has_pair(out@, k, l) implies {
                        &&& exists|j: int| 0 <= j < i + 1 && (#[trigger] pairs[j]).0 == k
                            && pairs[j].1.locked == l
                        &&& entry_matches(k, l, view_opt(search), lock_filter)
                    } by {
                        if k == name@ && l == locked {
                            assert(exists|j: int| 0 <= j < i + 1 && (#[trigger] pairs[j]).0 == k
                                && pairs[j].1.locked == l) by {
                                assert(0 <= i < i + 1 && pairs[i as int].0 == k
                                    && pairs[i as int].1.locked == l);
                            }
                        }
                    }
                    assert forall|j: int| 0 <= j < i + 1 && entry_matches(
                        (#[trigger] pairs[j]).0,
                        pairs[j].1.locked,
                        view_opt(search),
                        lock_filter,
                    ) implies has_pair(out@, pairs[j].0, pairs[j].1.locked) by {
                        if j == i {
                            assert(has_pair(out@, pairs[j].0, pairs[j].1.locked));
                        }
                    }
                }
            } else {
                proof {
                    assert forall|j: int| 0 <= j < i + 1 && entry_matches(
                        (#[trigger] pairs[j]).0,
                        pairs[j].1.locked,
                        view_opt(search),
                        lock_filter,
                    ) implies has_pair(out@, pairs[j].0, pairs[j].1.locked) by {
                        if j == i {
                            assert(!entry_matches(
                                pairs[j].0,
                                pairs[j].1.locked,
                                view_opt(search),
                                lock_filter,
                            ));
                        }
                    }
                }
            }
            i = i + 1;
        }
        proof {
            assert forall|p: int| 0 <= p < out@.len() implies {
                &&& self.entries().contains_key((#[trigger] out@[p]).0@)
                &&& self.entries()[out@[p].0@].locked == out@[p].1
                &&& entry_matches(out@[p].0@, out@[p].1, view_opt(search), lock_filter)
            } by {
                assert(has_pair(out@, out@[p].0@, out@[p].1)) by {
                    assert(0 <= p < out@.len() && out@[p].0@ == out@[p].0@);
                }
                let j = choose|j: int|
                    0 <= j < i && (#[trigger] pairs[j]).0 == out@[p].0@
                        && pairs[j].1.locked == out@[p].1;
                lemma_entries_view_index(pairs, j);
            }
            assert forall|k: Seq<char>|
                self.entries().contains_key(k) && entry_matches(
                    k,
                    (#[trigger] self.entries()[k]).locked,
                    view_opt(search),
                    lock_filter,
                ) implies has_pair(out@, k, self.entries()[k].locked) by {
                let j = choose|j: int| 0 <= j < pairs.len() && (#[trigger] pairs[j]).0 == k;
                lemma_entries_view_index(pairs, j);
            }
        }
        Ok(out)
    }

    /// A snapshot value of the database, for bundle contracts.
    pub closed spec fn db_snapshot(&self) -> Database {
        self.db
    }

    /// The snapshot carries exactly the state the other spec views expose.
    pub proof fn lemma_db_snapshot(&self)
        ensures
            self.db_snapshot().entries@ == self.entries(),
            self.db_snapshot().entries.pairs() == self.entry_pairs(),
            self.db_snapshot().master_salt@ == self.salt(),
            self.db_snapshot().master_hash@ == self.stored_verifier(),
            self.db_snapshot().iterations == self.iterations(),
    {
    }

    /// Build an encrypted bundle of every entry under a fresh export
    /// credential.
    pub fn export_bundle(&self, export_password: &str) -> (r: Result<
        crate::export::ExportFile,
        Error,
    >)
        ensures
            crate::export::decrypt_pairs(self.entry_pairs(), self.session_key()) is None
                ==> (r matches Err(e) && (e == Error::AuthenticationFailure
                    || e == Error::InvalidKeyMaterial || e == Error::InvalidUtf8)),
            crate::export::decrypt_pairs(self.entry_pairs(), self.session_key()) is Some
                && export_password@.len() == 0
                ==> r == Err::<crate::export::ExportFile, Error>(Error::EmptyPassword),
            r matches Ok(ef) ==> (crate::export::decrypt_pairs(
                self.entry_pairs(),
                self.session_key(),
            ) matches Some(es) && {
                &&& ef.format_version@ == crate::export::EXPORT_FORMAT_VERSION@
                &&& ef.entry_count == es.len()
                &&& ef.entry_count == self.entry_pairs().len()
                &&& ef.encryption.algorithm@ == "AES-256-GCM"@
                &&& ef.encryption.iterations == PBKDF2_ITERATIONS
                &&& export_password@.len() != 0
                &&& crate::export::bundle_seals(ef, export_password@, es)
            }),
    {
        crate::export::export_vault(&self.db, self.master_key.as_slice(), export_password)
    }

    /// Import a bundle into this vault under a reconciliation strategy.
    pub fn import_bundle(
        &mut self,
        bundle: &crate::export::ExportFile,
        import_password: &str,
        strategy: crate::import::ImportStrategy,
    ) -> (r: Result<crate::import::ImportResult, Error>)
        ensures
            bundle.format_version@ != crate::export::EXPORT_FORMAT_VERSION@
                ==> (r matches Err(e) && crate::error::is_unsupported_version(
                    e,
                    bundle.format_version@,
                )),
            r matches Err(_) ==> *final(self) == *old(self),
            strategy == crate::import::ImportStrategy::Diff ==> *final(self) == *old(self),
            crate::import::well_formed_import(*bundle, import_password@)
                && strategy == crate::import::ImportStrategy::Diff ==> r is Ok,
            final(self).session_key() == old(self).session_key(),
            r matches Ok(res) ==> exists|salt: Seq<u8>, nonce: Seq<u8>, ct: Seq<u8>|
                #![trigger crate::text::b64_of(salt), crate::text::b64_of(nonce), crate::text::b64_of(ct)]
                {
                    &&& bundle.encryption.salt@ == crate::text::b64_of(salt)
                    &&& bundle.encryption.nonce@ == crate::text::b64_of(nonce)
                    &&& bundle.encrypted_data@ == crate::text::b64_of(ct)
                    &&& exists|es: Seq<(Seq<char>, Seq<char>, bool)>|
                        #![trigger crate::payload::payload_of(es)]
                        {
                            &&& aead_open(
                                pbkdf2_key(
                                    encode_utf8(import_password@),
                                    salt,
                                    bundle.encryption.iterations,
                                ),
                                nonce,
                                ct,
                            ) == Some(crate::payload::payload_of(es))
                            &&& crate::import::imported(
                                res,
                                old(self).db_snapshot(),
                                final(self).db_snapshot(),
                                es,
                                old(self).session_key(),
                                strategy,
                            )
                        }
                },
    {
        proof {
            use_type_invariant(&*self);
        }
        let mut db = Database::new(Vec::new(), Vec::new(), 0);
        core::mem::swap(&mut db, &mut self.db);
        let r = crate::import::import_vault(
            bundle,
            import_password,
            &mut db,
            self.master_key.as_slice(),
            strategy,
        );
        self.db = db;
        r
    }

    /// End the session.  Dropping the vault — here or anywhere else, on any
    /// exit path — overwrites the key bytes with zeros.
    pub fn close(self) {
    }
}

impl Drop for Vault {
    /// Relies on zeroize::Zeroize for `Vec<u8>`: every key byte, spare
    /// capacity included, is overwritten with zero before the buffer is
    /// released.
    #[verifier::external_body]
    fn drop(&mut self)
        opens_invariants none
        no_unwind
    {
        zeroize::Zeroize::zeroize(&mut self.master_key);
    }
}

} // verus!
