//! The database snapshot: the master credential record and the named,
//! encrypted entries.
//!
//! Entries live in an association list keyed by name, abstracted as a
//! `Map<Seq<char>, EntryView>`; names are unique and insertion order is kept,
//! which fixes the order in which a bundle is exported.  Persistence of the
//! snapshot is a collaborator outside this crate: everything here is plain
//! in-memory data.

use vstd::prelude::*;
use crate::error::Error;

verus! {

/// What an entry is, mathematically: ciphertext bytes, nonce bytes and the
/// lock flag.
pub ghost struct EntryView {
    pub ciphertext: Seq<u8>,
    pub nonce: Seq<u8>,
    pub locked: bool,
}

/// An encrypted entry as stored in the database.
#[derive(Debug, Clone)]
pub struct Entry {
    pub encrypted_value: Vec<u8>,
    pub nonce: Vec<u8>,
    pub is_locked: bool,
}

impl View for Entry {
    type V = EntryView;

    open spec fn view(&self) -> EntryView {
        EntryView {
            ciphertext: self.encrypted_value@,
            nonce: self.nonce@,
            locked: self.is_locked,
        }
    }
}

impl Entry {
    /// Create a new entry from encrypted data.
    pub fn new(encrypted_value: Vec<u8>, nonce: Vec<u8>, is_locked: bool) -> (r: Entry)
        ensures
            r@.ciphertext == encrypted_value@,
            r@.nonce == nonce@,
            r@.locked == is_locked,
    {
        Entry { encrypted_value, nonce, is_locked }
    }

    /// The entry's ciphertext.
    pub fn get_encrypted_value(&self) -> (r: Result<Vec<u8>, Error>)
        ensures
            r matches Ok(v) && v@ == self@.ciphertext,
    {
        Ok(clone_bytes(&self.encrypted_value))
    }

    /// The entry's nonce.
    pub fn get_nonce(&self) -> (r: Result<Vec<u8>, Error>)
        ensures
            r matches Ok(v) && v@ == self@.nonce,
    {
        Ok(clone_bytes(&self.nonce))
    }
}

/// Copy a byte vector.
pub fn clone_bytes(v: &Vec<u8>) -> (r: Vec<u8>)
    ensures
        r@ == v@,
{
    let r = v.clone();
    proof {
        assert(r@ =~= v@);
    }
    r
}

/// No two positions of the list carry the same name.
pub open spec fn distinct_keys(s: Seq<(Seq<char>, EntryView)>) -> bool {
    forall|i: int, j: int| 0 <= i < j < s.len() ==> (#[trigger] s[i]).0 != (#[trigger] s[j]).0
}

/// The map an association list denotes.
pub open spec fn entries_view(s: Seq<(Seq<char>, EntryView)>) -> Map<Seq<char>, EntryView> {
    Map::new(
        |k: Seq<char>| exists|i: int| 0 <= i < s.len() && (#[trigger] s[i]).0 == k,
        |k: Seq<char>| s[choose|i: int| 0 <= i < s.len() && (#[trigger] s[i]).0 == k].1,
    )
}

/// Each position of a duplicate-free association list is what the denoted
/// map holds for its name.
pub proof fn lemma_entries_view_index(s: Seq<(Seq<char>, EntryView)>, i: int)
    requires
        distinct_keys(s),
        0 <= i < s.len(),
    ensures
        entries_view(s).contains_key(s[i].0),
        entries_view(s)[s[i].0] == s[i].1,
{
    assert(exists|j: int| 0 <= j < s.len() && (#[trigger] s[j]).0 == s[i].0) by {
        assert(0 <= i < s.len() && s[i].0 == s[i].0);
    }
    let j = choose|j: int| 0 <= j < s.len() && (#[trigger] s[j]).0 == s[i].0;
    if j < i {
        assert(s[j].0 != s[i].0);
    } else if i < j {
        assert(s[i].0 != s[j].0);
    }
}

/// A name at no position of the list is not in the denoted map.
pub proof fn lemma_entries_view_absent(s: Seq<(Seq<char>, EntryView)>, k: Seq<char>)
    requires
        forall|i: int| 0 <= i < s.len() ==> (#[trigger] s[i]).0 != k,
    ensures
        !entries_view(s).contains_key(k),
{
}

/// The named entries, unique by name, in insertion order.
#[derive(Debug)]
pub struct EntryMap {
    items: Vec<(String, Entry)>,
}

impl View for EntryMap {
    type V = Map<Seq<char>, EntryView>;

    open spec fn view(&self) -> Map<Seq<char>, EntryView> {
        entries_view(self.pairs())
    }
}

impl EntryMap {
    /// The entries as a sequence of (name, entry) pairs, in insertion order.
    pub closed spec fn pairs(&self) -> Seq<(Seq<char>, EntryView)> {
        self.items@.map(|i: int, p: (String, Entry)| (p.0@, p.1@))
    }

    /// The invariant of the list: names are pairwise distinct.  Holds of
    /// every value of the type; callers obtain it with `use_type_invariant`.
    #[verifier::type_invariant]
    pub open spec fn wf(&self) -> bool {
        distinct_keys(self.pairs())
    }

    /// An empty map.
    pub fn new() -> (r: EntryMap)
        ensures
            r.pairs().len() == 0,
            r@ == Map::<Seq<char>, EntryView>::empty(),
    {
        let r = EntryMap { items: Vec::new() };
        proof {
            assert(r.pairs() =~= Seq::empty());
            assert(r@ =~= Map::<Seq<char>, EntryView>::empty());
        }
        r
    }

    /// Where the name sits in the list, if anywhere.
    fn position(&self, key: &str) -> (r: Option<usize>)
        ensures
            match r {
                Some(i) => i < self.pairs().len() && self.pairs()[i as int].0 == key@,
                None => forall|i: int| 0 <= i < self.pairs().len() ==> (#[trigger] self.pairs()[i]).0 != key@,
            },
    {
        let k: String = key.to_owned();
        let n = self.items.len();
        let mut i: usize = 0;
        while i < n
            invariant
                n == self.items@.len(),
                i <= n,
                k@ == key@,
                forall|j: int| 0 <= j < i ==> (#[trigger] self.pairs()[j]).0 != key@,
            decreases n - i,
        {
            if self.items[i].0 == k {
                assert(self.pairs()[i as int].0 == key@);
                return Some(i);
            }
            proof {
                assert(self.pairs()[i as int].0 == self.items@[i as int].0@);
            }
            i = i + 1;
        }
        None
    }

    /// How many entries there are.
    pub fn len(&self) -> (r: usize)
        ensures
            r == self.pairs().len(),
    {
        self.items.len()
    }

    /// Whether no entry exists.
    pub fn is_empty(&self) -> (r: bool)
        ensures
            r == (self.pairs().len() == 0),
    {
        self.items.is_empty()
    }

    /// Whether an entry of this name exists.
    pub fn contains_key(&self, key: &str) -> (r: bool)
        ensures
            r == self@.contains_key(key@),
    {
        match self.position(key) {
            Some(i) => {
                proof {
                    assert(exists|j: int|
                        0 <= j < self.pairs().len() && (#[trigger] self.pairs()[j]).0 == key@) by {
                        assert(0 <= i < self.pairs().len() && self.pairs()[i as int].0 == key@);
                    }
                }
                true
            },
            None => {
                proof {
                    lemma_entries_view_absent(self.pairs(), key@);
                }
                false
            },
        }
    }

    /// The entry of this name, if any.
    pub fn get(&self, key: &str) -> (r: Option<&Entry>)
        ensures
            match r {
                Some(e) => self@.contains_key(key@) && e@ == self@[key@],
                None => !self@.contains_key(key@),
            },
    {
        proof {
            use_type_invariant(&*self);
        }
        match self.position(key) {
            Some(i) => {
                proof {
                    lemma_entries_view_index(self.pairs(), i as int);
                }
                Some(&self.items[i].1)
            },
            None => {
                proof {
                    lemma_entries_view_absent(self.pairs(), key@);
                }
                None
            },
        }
    }

    /// The pair at a position, for iteration in insertion order.
    pub fn pair_at(&self, i: usize) -> (r: (&String, &Entry))
        requires
            i < self.pairs().len(),
        ensures
            r.0@ == self.pairs()[i as int].0,
            r.1@ == self.pairs()[i as int].1,
    {
        let p = &self.items[i];
        (&p.0, &p.1)
    }

    /// Insert or replace the entry of this name; a new name is appended,
    /// a known one keeps its position.
    pub fn insert(&mut self, key: String, entry: Entry)
        ensures
            final(self)@ == old(self)@.insert(key@, entry@),
            old(self)@.contains_key(key@) ==> {
                &&& final(self).pairs().len() == old(self).pairs().len()
                &&& forall|j: int| 0 <= j < old(self).pairs().len()
                    && (#[trigger] old(self).pairs()[j]).0 != key@
                    ==> final(self).pairs()[j] == old(self).pairs()[j]
                &&& forall|j: int| 0 <= j < old(self).pairs().len()
                    && (#[trigger] old(self).pairs()[j]).0 == key@
                    ==> final(self).pairs()[j] == (key@, entry@)
            },
            !old(self)@.contains_key(key@)
                ==> final(self).pairs() == old(self).pairs().push((key@, entry@)),
    {
        proof {
            use_type_invariant(&*self);
        }
        let ghost old_pairs = self.pairs();
        let pos = self.position(&key);
        let mut items: Vec<(String, Entry)> = Vec::new();
        core::mem::swap(&mut items, &mut self.items);
        match pos {
            Some(i) => {
                let prev = items.remove(i);
                items.insert(i, (prev.0, entry));
                proof {
                    let new_pairs = items@.map(|n: int, p: (String, Entry)| (p.0@, p.1@));
                    assert forall|j: int| 0 <= j < old_pairs.len() implies
                        #[trigger] new_pairs[j] == (if old_pairs[j].0 == key@ { (key@, entry@) } else { old_pairs[j] }) by {
                        if j < i {
                        } else if j == i {
                        } else {
                        }
                    }
                    assert(distinct_keys(new_pairs));
                    assert(exists|j: int|
                        0 <= j < old_pairs.len() && (#[trigger] old_pairs[j]).0 == key@) by {
                        assert(0 <= i < old_pairs.len() && old_pairs[i as int].0 == key@);
                    }
                }
                self.items = items;
                proof {
                    assert(final(self)@ =~= old(self)@.insert(key@, entry@)) by {
                        lemma_insert_replace_view(old_pairs, final(self).pairs(), key@, entry@, i as int);
                    }
                }
            },
            None => {
                items.push((key, entry));
                proof {
                    let new_pairs = items@.map(|n: int, p: (String, Entry)| (p.0@, p.1@));
                    assert(new_pairs =~= old_pairs.push((key@, entry@)));
                    assert(distinct_keys(new_pairs));
                }
                self.items = items;
                proof {
                    lemma_entries_view_absent(old_pairs, key@);
                    assert(final(self)@ =~= old(self)@.insert(key@, entry@)) by {
                        lemma_insert_append_view(old_pairs, key@, entry@);
                    }
                }
            },
        }
    }

    /// Remove the entry of this name, if present; reports the position it
    /// held.
    pub fn remove(&mut self, key: &str) -> (r: Option<usize>)
        ensures
            final(self)@ == old(self)@.remove(key@),
            match r {
                Some(i) => {
                    &&& old(self)@.contains_key(key@)
                    &&& i < old(self).pairs().len()
                    &&& old(self).pairs()[i as int].0 == key@
                    &&& final(self).pairs() == old(self).pairs().remove(i as int)
                },
                None => {
                    &&& !old(self)@.contains_key(key@)
                    &&& final(self).pairs() == old(self).pairs()
                },
            },
    {
        proof {
            use_type_invariant(&*self);
        }
        let ghost old_pairs = self.pairs();
        let pos = self.position(key);
        match pos {
            Some(i) => {
                let mut items: Vec<(String, Entry)> = Vec::new();
                core::mem::swap(&mut items, &mut self.items);
                items.remove(i);
                proof {
                    let new_pairs = items@.map(|n: int, p: (String, Entry)| (p.0@, p.1@));
                    assert(new_pairs =~= old_pairs.remove(i as int));
                    assert(distinct_keys(new_pairs));
                }
                self.items = items;
                proof {
                    assert(exists|j: int|
                        0 <= j < old_pairs.len() && (#[trigger] old_pairs[j]).0 == key@) by {
                        assert(0 <= i < old_pairs.len() && old_pairs[i as int].0 == key@);
                    }
                    assert(final(self)@ =~= old(self)@.remove(key@)) by {
                        lemma_remove_view(old_pairs, key@, i as int);
                    }
                }
                Some(i)
            },
            None => {
                proof {
                    lemma_entries_view_absent(old_pairs, key@);
                    assert(final(self)@ =~= old(self)@.remove(key@));
                }
                None
            },
        }
    }
}

/// Replacing the value at the one position that carries a name denotes
/// `insert` on the map.
proof fn lemma_insert_replace_view(
    s: Seq<(Seq<char>, EntryView)>,
    t: Seq<(Seq<char>, EntryView)>,
    key: Seq<char>,
    v: EntryView,
    i: int,
)
    requires
        distinct_keys(s),
        distinct_keys(t),
        0 <= i < s.len(),
        s[i].0 == key,
        t.len() == s.len(),
        forall|j: int| 0 <= j < s.len() && (#[trigger] s[j]).0 != key ==> t[j] == s[j],
        forall|j: int| 0 <= j < s.len() && (#[trigger] s[j]).0 == key ==> t[j] == (key, v),
    ensures
        entries_view(t) =~= entries_view(s).insert(key, v),
{
    assert forall|k: Seq<char>| entries_view(t).contains_key(k)
        == entries_view(s).insert(key, v).contains_key(k) by {
        if k == key {
            assert(exists|j: int| 0 <= j < t.len() && (#[trigger] t[j]).0 == k) by {
                assert(0 <= i < t.len() && t[i].0 == k);
            }
        } else {
            if entries_view(s).contains_key(k) {
                let j = choose|j: int| 0 <= j < s.len() && (#[trigger] s[j]).0 == k;
                assert(exists|m: int| 0 <= m < t.len() && (#[trigger] t[m]).0 == k) by {
                    assert(0 <= j < t.len() && t[j].0 == k);
                }
            }
            if entries_view(t).contains_key(k) {
                let j = choose|j: int| 0 <= j < t.len() && (#[trigger] t[j]).0 == k;
                assert(exists|m: int| 0 <= m < s.len() && (#[trigger] s[m]).0 == k) by {
                    assert(0 <= j < s.len() && s[j].0 == k);
                }
            }
        }
    }
    assert forall|k: Seq<char>| #[trigger] entries_view(t).contains_key(k)
        implies entries_view(t)[k] == entries_view(s).insert(key, v)[k] by {
        let j = choose|j: int| 0 <= j < t.len() && (#[trigger] t[j]).0 == k;
        lemma_entries_view_index(t, j);
        if k == key {
            assert(t[j] == (key, v));
        } else {
            assert(s[j].0 == k);
            lemma_entries_view_index(s, j);
        }
    }
}

/// Appending a pair whose name is fresh denotes `insert` on the map.
proof fn lemma_insert_append_view(s: Seq<(Seq<char>, EntryView)>, key: Seq<char>, v: EntryView)
    requires
        distinct_keys(s),
        forall|i: int| 0 <= i < s.len() ==> (#[trigger] s[i]).0 != key,
    ensures
        entries_view(s.push((key, v))) =~= entries_view(s).insert(key, v),
{
    let t = s.push((key, v));
    assert(t[s.len() as int] == (key, v));
    assert forall|k: Seq<char>| entries_view(t).contains_key(k)
        == entries_view(s).insert(key, v).contains_key(k) by {
        if k == key {
            assert(exists|j: int| 0 <= j < t.len() && (#[trigger] t[j]).0 == k) by {
                assert(t[s.len() as int].0 == k);
            }
        } else {
            if entries_view(s).contains_key(k) {
                let j = choose|j: int| 0 <= j < s.len() && (#[trigger] s[j]).0 == k;
                assert(exists|m: int| 0 <= m < t.len() && (#[trigger] t[m]).0 == k) by {
                    assert(0 <= j < t.len() && t[j].0 == k);
                }
            }
            if entries_view(t).contains_key(k) {
                let j = choose|j: int| 0 <= j < t.len() && (#[trigger] t[j]).0 == k;
                assert(j < s.len());
                assert(exists|m: int| 0 <= m < s.len() && (#[trigger] s[m]).0 == k) by {
                    assert(0 <= j < s.len() && s[j].0 == k);
                }
            }
        }
    }
    assert(distinct_keys(t));
    assert forall|k: Seq<char>| #[trigger] entries_view(t).contains_key(k)
        implies entries_view(t)[k] == entries_view(s).insert(key, v)[k] by {
        let j = choose|j: int| 0 <= j < t.len() && (#[trigger] t[j]).0 == k;
        lemma_entries_view_index(t, j);
        if k == key {
            if j < s.len() {
                assert(s[j].0 == k);
            }
            assert(t[j] == (key, v));
        } else {
            assert(j < s.len());
            assert(s[j].0 == k);
            lemma_entries_view_index(s, j);
        }
    }
}

/// Dropping the one position that carries a name denotes `remove` on the map.
proof fn lemma_remove_view(s: Seq<(Seq<char>, EntryView)>, key: Seq<char>, i: int)
    requires
        distinct_keys(s),
        0 <= i < s.len(),
        s[i].0 == key,
    ensures
        entries_view(s.remove(i)) =~= entries_view(s).remove(key),
{
    let t = s.remove(i);
    assert(distinct_keys(t)) by {
        assert forall|a: int, b: int| 0 <= a < b < t.len() implies
            (#[trigger] t[a]).0 != (#[trigger] t[b]).0 by {
            let a0 = if a < i { a } else { a + 1 };
            let b0 = if b < i { b } else { b + 1 };
            assert(t[a] == s[a0]);
            assert(t[b] == s[b0]);
        }
    }
    assert forall|k: Seq<char>| entries_view(t).contains_key(k)
        == entries_view(s).remove(key).contains_key(k) by {
        if entries_view(t).contains_key(k) {
            let j = choose|j: int| 0 <= j < t.len() && (#[trigger] t[j]).0 == k;
            let j0 = if j < i { j } else { j + 1 };
            assert(t[j] == s[j0]);
            if k == key {
                if j0 < i {
                    assert(s[j0].0 != s[i].0);
                } else {
                    assert(s[i].0 != s[j0].0);
                }
            }
            assert(exists|m: int| 0 <= m < s.len() && (#[trigger] s[m]).0 == k) by {
                assert(0 <= j0 < s.len() && s[j0].0 == k);
            }
        }
        if k != key && entries_view(s).contains_key(k) {
            let j = choose|j: int| 0 <= j < s.len() && (#[trigger] s[j]).0 == k;
            let j1 = if j < i { j } else { j - 1 };
            assert(j != i);
            assert(t[j1] == s[j]);
            assert(exists|m: int| 0 <= m < t.len() && (#[trigger] t[m]).0 == k) by {
                assert(0 <= j1 < t.len() && t[j1].0 == k);
            }
        }
    }
    assert forall|k: Seq<char>| #[trigger] entries_view(t).contains_key(k)
        implies entries_view(t)[k] == entries_view(s).remove(key)[k] by {
        let j = choose|j: int| 0 <= j < t.len() && (#[trigger] t[j]).0 == k;
        lemma_entries_view_index(t, j);
        let j0 = if j < i { j } else { j + 1 };
        assert(t[j] == s[j0]);
        lemma_entries_view_index(s, j0);
    }
}

/// The persisted snapshot: the master credential record and the entries.
#[derive(Debug)]
pub struct Database {
    pub master_salt: Vec<u8>,
    pub master_hash: Vec<u8>,
    pub iterations: u32,
    pub entries: EntryMap,
}

impl Database {
    /// Create a new database with master credential material and no entries.
    pub fn new(salt: Vec<u8>, hash: Vec<u8>, iterations: u32) -> (r: Database)
        ensures
            r.master_salt@ == salt@,
            r.master_hash@ == hash@,
            r.iterations == iterations,
            r.entries.pairs().len() == 0,
            r.entries@ == Map::<Seq<char>, EntryView>::empty(),
    {
        Database { master_salt: salt, master_hash: hash, iterations, entries: EntryMap::new() }
    }

    /// The salt of the master credential record.
    pub fn get_salt(&self) -> (r: Result<Vec<u8>, Error>)
        ensures
            r matches Ok(v) && v@ == self.master_salt@,
    {
        Ok(clone_bytes(&self.master_salt))
    }

    /// The stored verifier of the master credential record.
    pub fn get_hash(&self) -> (r: Result<Vec<u8>, Error>)
        ensures
            r matches Ok(v) && v@ == self.master_hash@,
    {
        Ok(clone_bytes(&self.master_hash))
    }
}

} // verus!
