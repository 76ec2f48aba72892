//! Importing an encrypted bundle into a live vault.
//!
//! The bundle's key is re-derived from the import password and the salt and
//! iteration count the bundle carries; the payload is decrypted, parsed, and
//! reconciled entry by entry against the destination under a strategy:
//! merge keeps what exists, replace overwrites it, diff only classifies.
//! Mutations are buffered and applied only after every entry has been
//! processed, so a failed import leaves the destination untouched.

use vstd::prelude::*;
use vstd::utf8::encode_utf8;
use crate::crypto;
use crate::crypto::{aead_open, pbkdf2_key, MAX_DIGEST_INPUT};
use crate::error::{is_unsupported_version, Error};
use crate::export::{ExportEntry, ExportFile, EXPORT_FORMAT_VERSION};
use crate::payload::{entries_seq_view, parse_entries, payload_of};
use crate::storage::{Database, Entry, EntryView};
use crate::text::b64_of;

verus! {

/// How an imported entry that clashes with an existing one is handled.
#[derive(Debug, Clone, Copy, PartialEq, Eq, Structural)]
pub enum ImportStrategy {
    /// Keep the existing entry; record the clash as skipped.
    Merge,
    /// Overwrite the existing entry with the imported one.
    Replace,
    /// Only classify; change nothing.
    Diff,
}

/// What an import did: the names added, updated and skipped, in bundle
/// order, and how many entries the bundle held.
#[derive(Debug)]
pub struct ImportResult {
    pub added: Vec<String>,
    pub updated: Vec<String>,
    pub skipped: Vec<String>,
    pub total_in_export: usize,
}

impl ImportResult {
    /// An empty outcome for a bundle of the given size.
    pub fn new(total_in_export: usize) -> (r: ImportResult)
        ensures
            r.added@.len() == 0,
            r.updated@.len() == 0,
            r.skipped@.len() == 0,
            r.total_in_export == total_in_export,
    {
        ImportResult { added: Vec::new(), updated: Vec::new(), skipped: Vec::new(), total_in_export }
    }
}

/// The names a list of strings denotes.
pub open spec fn names_view(v: Seq<String>) -> Seq<Seq<char>> {
    v.map(|i: int, s: String| s@)
}

/// The reconciliation state after some prefix of the bundle: the three
/// classification lists, the values the import will have written, and the
/// names the destination is considered to hold.
pub ghost struct ImportPlan {
    pub added: Seq<Seq<char>>,
    pub updated: Seq<Seq<char>>,
    pub skipped: Seq<Seq<char>>,
    pub written: Map<Seq<char>, (Seq<char>, bool)>,
    pub dom: Set<Seq<char>>,
}

/// The state before any entry is processed.
pub open spec fn plan_init(dom0: Set<Seq<char>>) -> ImportPlan {
    ImportPlan {
        added: Seq::empty(),
        updated: Seq::empty(),
        skipped: Seq::empty(),
        written: Map::empty(),
        dom: dom0,
    }
}

/// One entry of the bundle, reconciled.  A clash is skipped under merge and
/// updated under replace and diff; a fresh name is added.  Only merge and
/// replace write, and only they extend the destination's names.
pub open spec fn plan_step(
    st: ImportPlan,
    e: (Seq<char>, Seq<char>, bool),
    strategy: ImportStrategy,
) -> ImportPlan {
    let name = e.0;
    if st.dom.contains(name) {
        match strategy {
            ImportStrategy::Merge => ImportPlan { skipped: st.skipped.push(name), ..st },
            ImportStrategy::Replace => ImportPlan {
                updated: st.updated.push(name),
                written: st.written.insert(name, (e.1, e.2)),
                ..st
            },
            ImportStrategy::Diff => ImportPlan { updated: st.updated.push(name), ..st },
        }
    } else {
        match strategy {
            ImportStrategy::Diff => ImportPlan { added: st.added.push(name), ..st },
            _ => ImportPlan {
                added: st.added.push(name),
                written: st.written.insert(name, (e.1, e.2)),
                dom: st.dom.insert(name),
                ..st
            },
        }
    }
}

/// The state after a whole list of entries.
pub open spec fn plan_from(
    st: ImportPlan,
    es: Seq<(Seq<char>, Seq<char>, bool)>,
    strategy: ImportStrategy,
) -> ImportPlan
    decreases es.len(),
{
    if es.len() == 0 {
        st
    } else {
        plan_from(plan_step(st, es[0], strategy), es.drop_first(), strategy)
    }
}

/// The reconciliation of a bundle against a destination holding `dom0`.
pub open spec fn import_plan(
    es: Seq<(Seq<char>, Seq<char>, bool)>,
    dom0: Set<Seq<char>>,
    strategy: ImportStrategy,
) -> ImportPlan {
    plan_from(plan_init(dom0), es, strategy)
}

/// The plan of one more entry is one more step.
pub proof fn lemma_plan_snoc(
    st: ImportPlan,
    es: Seq<(Seq<char>, Seq<char>, bool)>,
    e: (Seq<char>, Seq<char>, bool),
    strategy: ImportStrategy,
)
    ensures
        plan_from(st, es.push(e), strategy) == plan_step(plan_from(st, es, strategy), e, strategy),
    decreases es.len(),
{
    reveal_with_fuel(plan_from, 3);
    if es.len() == 0 {
        assert(es.push(e)[0] == e);
        assert(es.push(e).drop_first() =~= Seq::<(Seq<char>, Seq<char>, bool)>::empty());
    } else {
        assert(es.push(e)[0] == es[0]);
        assert(es.push(e).drop_first() =~= es.drop_first().push(e));
        lemma_plan_snoc(plan_step(st, es[0], strategy), es.drop_first(), e, strategy);
    }
}

/// The name-to-(value, locked) map a buffered write list denotes; a later
/// write of the same name wins.
pub open spec fn write_map(s: Seq<(Seq<char>, Seq<char>, bool)>) -> Map<Seq<char>, (Seq<char>, bool)>
    decreases s.len(),
{
    if s.len() == 0 {
        Map::empty()
    } else {
        write_map(s.drop_last()).insert(s.last().0, (s.last().1, s.last().2))
    }
}

/// A stored entry realises a buffered write under a key: same lock state,
/// a 12-byte nonce, and a ciphertext that opens to the written value.
pub open spec fn realises(ev: EntryView, w: (Seq<char>, bool), key: Seq<u8>) -> bool {
    &&& ev.locked == w.1
    &&& ev.nonce.len() == 12
    &&& aead_open(key, ev.nonce, ev.ciphertext) == Some(encode_utf8(w.0))
}

/// Whether some buffered pending write carries this name.
fn pending_contains(pending: &Vec<(String, Entry)>, name: &str) -> (r: bool)
    ensures
        r == exists|j: int| 0 <= j < pending@.len() && (#[trigger] pending@[j]).0@ == name@,
{
    let owned: String = name.to_owned();
    let n = pending.len();
    let mut i: usize = 0;
    while i < n
        invariant
            n == pending@.len(),
            i <= n,
            owned@ == name@,
            forall|j: int| 0 <= j < i ==> (#[trigger] pending@[j]).0@ != name@,
        decreases n - i,
    {
        if pending[i].0 == owned {
            proof {
                assert(exists|j: int|
                    0 <= j < pending@.len() && (#[trigger] pending@[j]).0@ == name@) by {
                    assert(0 <= i < pending@.len() && pending@[i as int].0@ == name@);
                }
            }
            return true;
        }
        i = i + 1;
    }
    false
}

/// Reconcile a decrypted entry list into the destination database.  All
/// encryption happens before any mutation: on an error, and always under
/// `Diff`, the database is exactly as it was.
pub fn apply_import(
    current_db: &mut Database,
    master_key: &[u8],
    entries: &Vec<ExportEntry>,
    strategy: ImportStrategy,
) -> (r: Result<ImportResult, Error>)
    ensures
        r matches Err(e) ==> *final(current_db) == *old(current_db)
            && (e == Error::InvalidKeyMaterial || e == Error::RandomnessFailure
                || e == Error::CryptoFailure),
        strategy == ImportStrategy::Diff ==> *final(current_db) == *old(current_db),
        strategy == ImportStrategy::Diff ==> r is Ok,
        r matches Ok(res) ==> ({
            let plan = import_plan(
                entries_seq_view(entries@),
                old(current_db).entries@.dom(),
                strategy,
            );
            &&& names_view(res.added@) == plan.added
            &&& names_view(res.updated@) == plan.updated
            &&& names_view(res.skipped@) == plan.skipped
            &&& res.total_in_export == entries@.len()
            &&& final(current_db).master_salt@ == old(current_db).master_salt@
            &&& final(current_db).master_hash@ == old(current_db).master_hash@
            &&& final(current_db).iterations == old(current_db).iterations
            &&& forall|k: Seq<char>| #[trigger] plan.written.contains_key(k) ==> {
                &&& final(current_db).entries@.contains_key(k)
                &&& realises(final(current_db).entries@[k], plan.written[k], master_key@)
            }
            &&& forall|k: Seq<char>| !(#[trigger] plan.written.contains_key(k)) ==> {
                &&& final(current_db).entries@.contains_key(k)
                    == old(current_db).entries@.contains_key(k)
                &&& old(current_db).entries@.contains_key(k)
                    ==> final(current_db).entries@[k] == old(current_db).entries@[k]
            }
        }),
{
    let ghost es = entries_seq_view(entries@);
    let ghost dom0 = old(current_db).entries@.dom();
    let mut added: Vec<String> = Vec::new();
    let mut updated: Vec<String> = Vec::new();
    let mut skipped: Vec<String> = Vec::new();
    let mut pending: Vec<(String, Entry)> = Vec::new();
    let ghost mut pitems: Seq<(Seq<char>, Seq<char>, bool)> = Seq::empty();
    let n = entries.len();
    let mut i: usize = 0;
    proof {
        assert(es.take(0) =~= Seq::<(Seq<char>, Seq<char>, bool)>::empty());
        assert(names_view(added@) =~= Seq::<Seq<char>>::empty());
        assert(names_view(updated@) =~= Seq::<Seq<char>>::empty());
        assert(names_view(skipped@) =~= Seq::<Seq<char>>::empty());
        assert(import_plan(es.take(0), dom0, strategy).dom =~= dom0);
    }
    while i < n
        invariant
            n == entries@.len(),
            n == es.len(),
            es == entries_seq_view(entries@),
            i <= n,
            *current_db == *old(current_db),
            dom0 == old(current_db).entries@.dom(),
            ({
                let plan = import_plan(es.take(i as int), dom0, strategy);
                &&& names_view(added@) == plan.added
                &&& names_view(updated@) == plan.updated
                &&& names_view(skipped@) == plan.skipped
                &&& plan.written == write_map(pitems)
                &&& forall|k: Seq<char>| #[trigger] plan.dom.contains(k)
                    == (dom0.contains(k) || exists|j: int|
                        0 <= j < pitems.len() && (#[trigger] pitems[j]).0 == k)
            }),
            pending@.len() == pitems.len(),
            forall|j: int| 0 <= j < pitems.len() ==> {
                &&& (#[trigger] pending@[j]).0@ == pitems[j].0
                &&& realises(pending@[j].1@, (pitems[j].1, pitems[j].2), master_key@)
            },
            strategy == ImportStrategy::Diff ==> pitems.len() == 0,
        decreases n - i,
    {
        let ghost plan_before = import_plan(es.take(i as int), dom0, strategy);
        let ghost pitems_before = pitems;
        let ghost added_before = added@;
        let ghost updated_before = updated@;
        let ghost skipped_before = skipped@;
        let e = &entries[i];
        let ghost triple = es[i as int];
        proof {
            assert(triple == (e.key@, e.value@, e.locked));
            lemma_plan_snoc(plan_init(dom0), es.take(i as int), triple, strategy);
            assert(es.take(i + 1) =~= es.take(i as int).push(triple));
        }
        let in_db = current_db.entries.contains_key(&e.key);
        let in_pending = pending_contains(&pending, &e.key);
        let key_exists = in_db || in_pending;
        proof {
            if in_pending {
                let j = choose|j: int|
                    0 <= j < pending@.len() && (#[trigger] pending@[j]).0@ == e.key@;
                assert(exists|j2: int|
                    0 <= j2 < pitems.len() && (#[trigger] pitems[j2]).0 == e.key@) by {
                    assert(0 <= j < pitems.len() && pitems[j].0 == e.key@);
                }
            }
            if exists|j: int| 0 <= j < pitems.len() && (#[trigger] pitems[j]).0 == e.key@ {
                let j = choose|j: int|
                    0 <= j < pitems.len() && (#[trigger] pitems[j]).0 == e.key@;
                assert(exists|j2: int|
                    0 <= j2 < pending@.len() && (#[trigger] pending@[j2]).0@ == e.key@) by {
                    assert(0 <= j < pending@.len() && pending@[j].0@ == e.key@);
                }
            }
            assert(key_exists == plan_before.dom.contains(triple.0));
        }
        let mut write_needed = false;
        if key_exists {
            match strategy {
                ImportStrategy::Merge => {
                    skipped.push(e.key.clone());
                    proof {
                        assert(names_view(skipped@)
                            =~= names_view(skipped_before).push(triple.0));
                    }
                },
                ImportStrategy::Replace => {
                    updated.push(e.key.clone());
                    write_needed = true;
                    proof {
                        assert(names_view(updated@)
                            =~= names_view(updated_before).push(triple.0));
                    }
                },
                ImportStrategy::Diff => {
                    updated.push(e.key.clone());
                    proof {
                        assert(names_view(updated@)
                            =~= names_view(updated_before).push(triple.0));
                    }
                },
            }
        } else {
            added.push(e.key.clone());
            proof {
                assert(names_view(added@) =~= names_view(added_before).push(triple.0));
            }
            match strategy {
                ImportStrategy::Diff => {},
                _ => {
                    write_needed = true;
                },
            }
        }
        if write_needed {
            let value_bytes = crate::text::str_to_bytes(&e.value);
            let sealed = match crypto::encrypt(value_bytes.as_slice(), master_key) {
                Ok(ed) => ed,
                Err(err) => return Err(err),
            };
            let entry = Entry::new(sealed.ciphertext, sealed.nonce, e.locked);
            pending.push((e.key.clone(), entry));
            proof {
                pitems = pitems_before.push(triple);
                assert(pitems.drop_last() =~= pitems_before);
                assert(write_map(pitems)
                    == write_map(pitems_before).insert(triple.0, (triple.1, triple.2)));
                assert forall|k: Seq<char>|
                    #[trigger] import_plan(es.take(i + 1), dom0, strategy).dom.contains(k)
                        == (dom0.contains(k) || exists|j: int|
                            0 <= j < pitems.len() && (#[trigger] pitems[j]).0 == k) by {
                    if k == triple.0 {
                        assert(pitems[pitems.len() - 1].0 == k);
                    } else {
                        if exists|j: int| 0 <= j < pitems.len() && (#[trigger] pitems[j]).0 == k {
                            let j = choose|j: int|
                                0 <= j < pitems.len() && (#[trigger] pitems[j]).0 == k;
                            assert(j < pitems_before.len());
                            assert(pitems_before[j].0 == k);
                        }
                        if exists|j: int|
                            0 <= j < pitems_before.len() && (#[trigger] pitems_before[j]).0 == k {
                            let j = choose|j: int|
                                0 <= j < pitems_before.len() && (#[trigger] pitems_before[j]).0 == k;
                            assert(pitems[j].0 == k);
                        }
                    }
                }
            }
        } else {
            proof {
                assert forall|k: Seq<char>|
                    #[trigger] import_plan(es.take(i + 1), dom0, strategy).dom.contains(k)
                        == (dom0.contains(k) || exists|j: int|
                            0 <= j < pitems.len() && (#[trigger] pitems[j]).0 == k) by {}
            }
        }
        i = i + 1;
    }
    proof {
        assert(es.take(n as int) =~= es);
    }
    let total = entries.len();
    let ghost plan = import_plan(es, dom0, strategy);
    let ghost old_map = old(current_db).entries@;
    let m = pending.len();
    let mut j: usize = 0;
    while j < m
        invariant
            m == pending@.len(),
            m == pitems.len(),
            j <= m,
            current_db.master_salt@ == old(current_db).master_salt@,
            current_db.master_hash@ == old(current_db).master_hash@,
            current_db.iterations == old(current_db).iterations,
            old_map == old(current_db).entries@,
            forall|p: int| 0 <= p < pitems.len() ==> {
                &&& (#[trigger] pending@[p]).0@ == pitems[p].0
                &&& realises(pending@[p].1@, (pitems[p].1, pitems[p].2), master_key@)
            },
            forall|k: Seq<char>| #[trigger] write_map(pitems.take(j as int)).contains_key(k) ==> {
                &&& current_db.entries@.contains_key(k)
                &&& realises(
                    current_db.entries@[k],
                    write_map(pitems.take(j as int))[k],
                    master_key@,
                )
            },
            forall|k: Seq<char>| !(#[trigger] write_map(pitems.take(j as int)).contains_key(k)) ==> {
                &&& current_db.entries@.contains_key(k) == old_map.contains_key(k)
                &&& old_map.contains_key(k) ==> current_db.entries@[k] == old_map[k]
            },
            strategy == ImportStrategy::Diff ==> pitems.len() == 0,
            strategy == ImportStrategy::Diff ==> *current_db == *old(current_db),
        decreases m - j,
    {
        let ghost wm_before = write_map(pitems.take(j as int));
        let name = pending[j].0.clone();
        let entry = Entry::new(
            crate::storage::clone_bytes(&pending[j].1.encrypted_value),
            crate::storage::clone_bytes(&pending[j].1.nonce),
            pending[j].1.is_locked,
        );
        let ghost db_before_map = current_db.entries@;
        proof {
            assert(entry@ == pending@[j as int].1@);
        }
        current_db.entries.insert(name, entry);
        proof {
            let jj = j as int;
            assert(pitems.take(jj + 1) =~= pitems.take(jj).push(pitems[jj]));
            assert(pitems.take(jj + 1).drop_last() =~= pitems.take(jj));
            let wm_after = write_map(pitems.take(jj + 1));
            assert(wm_after == wm_before.insert(pitems[jj].0, (pitems[jj].1, pitems[jj].2)));
            assert forall|k: Seq<char>| #[trigger] wm_after.contains_key(k) implies {
                &&& current_db.entries@.contains_key(k)
                &&& realises(current_db.entries@[k], wm_after[k], master_key@)
            } by {
                if k == pitems[jj].0 {
                } else {
                    assert(wm_before.contains_key(k));
                    assert(current_db.entries@[k] == db_before_map[k]);
                }
            }
            assert forall|k: Seq<char>| !(#[trigger] wm_after.contains_key(k)) implies {
                &&& current_db.entries@.contains_key(k) == old_map.contains_key(k)
                &&& old_map.contains_key(k) ==> current_db.entries@[k] == old_map[k]
            } by {
                assert(k != pitems[jj].0);
                assert(!wm_before.contains_key(k));
            }
        }
        j = j + 1;
    }
    proof {
        assert(pitems.take(m as int) =~= pitems);
    }
    Ok(ImportResult { added, updated, skipped, total_in_export: total })
}

/// The bundle's base64 fields decode to a salt, a 12-byte nonce and a
/// ciphertext that opens, under the key the password derives with the
/// bundle's own parameters, to the payload of the given entries.
pub open spec fn bundle_opens(
    bundle: ExportFile,
    password: Seq<char>,
    es: Seq<(Seq<char>, Seq<char>, bool)>,
) -> bool {
    exists|salt: Seq<u8>, nonce: Seq<u8>, ct: Seq<u8>|
        #![trigger b64_of(salt), b64_of(nonce), b64_of(ct)]
        {
            &&& bundle.encryption.salt@ == b64_of(salt)
            &&& salt.len() <= crate::crypto::MAX_DIGEST_INPUT
            &&& bundle.encryption.nonce@ == b64_of(nonce)
            &&& nonce.len() == 12
            &&& bundle.encrypted_data@ == b64_of(ct)
            &&& aead_open(
                pbkdf2_key(encode_utf8(password), salt, bundle.encryption.iterations),
                nonce,
                ct,
            ) == Some(payload_of(es))
        }
}

/// Law: a bundle sealed by export opens under the same password — the
/// export/import round trip at the bundle level.
pub proof fn lemma_sealed_bundle_opens(
    ef: ExportFile,
    password: Seq<char>,
    es: Seq<(Seq<char>, Seq<char>, bool)>,
)
    requires
        crate::export::bundle_seals(ef, password, es),
    ensures
        bundle_opens(ef, password, es),
{
    let (salt, nonce) = choose|salt: Seq<u8>, nonce: Seq<u8>|
        {
            &&& ef.encryption.salt@ == b64_of(salt)
            &&& salt.len() == 32
            &&& ef.encryption.nonce@ == b64_of(nonce)
            &&& nonce.len() == 12
            &&& #[trigger] ef.encrypted_data@ == b64_of(
                crate::crypto::aead_seal(
                    pbkdf2_key(encode_utf8(password), salt, ef.encryption.iterations),
                    nonce,
                    payload_of(es),
                ),
            )
            &&& aead_open(
                pbkdf2_key(encode_utf8(password), salt, ef.encryption.iterations),
                nonce,
                crate::crypto::aead_seal(
                    pbkdf2_key(encode_utf8(password), salt, ef.encryption.iterations),
                    nonce,
                    payload_of(es),
                ),
            ) == Some(payload_of(es))
        };
    let ct = crate::crypto::aead_seal(
        pbkdf2_key(encode_utf8(password), salt, ef.encryption.iterations),
        nonce,
        payload_of(es),
    );
    assert(bundle_opens(ef, password, es)) by {
        assert(ef.encryption.salt@ == b64_of(salt) && salt.len() <= crate::crypto::MAX_DIGEST_INPUT
            && ef.encryption.nonce@ == b64_of(nonce) && nonce.len() == 12
            && ef.encrypted_data@ == b64_of(ct)
            && aead_open(
                pbkdf2_key(encode_utf8(password), salt, ef.encryption.iterations),
                nonce,
                ct,
            ) == Some(payload_of(es)));
    }
}

/// Law: a bundle that export sealed is importable under the same password —
/// the version matches, the payload opens, and a diff import of it is owed
/// success.
pub proof fn lemma_exported_bundle_importable(
    ef: ExportFile,
    password: Seq<char>,
    es: Seq<(Seq<char>, Seq<char>, bool)>,
)
    requires
        crate::export::bundle_seals(ef, password, es),
        ef.format_version@ == EXPORT_FORMAT_VERSION@,
        ef.encryption.iterations != 0,
        password.len() != 0,
        encode_utf8(password).len() <= MAX_DIGEST_INPUT,
    ensures
        well_formed_import(ef, password),
{
    lemma_sealed_bundle_opens(ef, password, es);
    assert(exists|es0: Seq<(Seq<char>, Seq<char>, bool)>| bundle_opens(ef, password, es0)) by {
        assert(bundle_opens(ef, password, es));
    }
}

/// The bundle can be imported under this password: the version is the
/// supported one, the derivation parameters are usable, and the payload
/// decrypts to a canonical entry list.
pub open spec fn well_formed_import(bundle: ExportFile, password: Seq<char>) -> bool {
    &&& bundle.format_version@ == EXPORT_FORMAT_VERSION@
    &&& bundle.encryption.iterations != 0
    &&& password.len() != 0
    &&& encode_utf8(password).len() <= MAX_DIGEST_INPUT
    &&& exists|es: Seq<(Seq<char>, Seq<char>, bool)>| bundle_opens(bundle, password, es)
}

/// Concrete witnesses of a bundle that opens.
proof fn bundle_opens_witnesses(bundle: ExportFile, password: Seq<char>) -> (w: (
    Seq<u8>,
    Seq<u8>,
    Seq<u8>,
    Seq<(Seq<char>, Seq<char>, bool)>,
))
    requires
        exists|es: Seq<(Seq<char>, Seq<char>, bool)>| bundle_opens(bundle, password, es),
    ensures
        ({
            let (salt, nonce, ct, es) = w;
            &&& bundle.encryption.salt@ == b64_of(salt)
            &&& salt.len() <= MAX_DIGEST_INPUT
            &&& bundle.encryption.nonce@ == b64_of(nonce)
            &&& nonce.len() == 12
            &&& bundle.encrypted_data@ == b64_of(ct)
            &&& aead_open(
                pbkdf2_key(encode_utf8(password), salt, bundle.encryption.iterations),
                nonce,
                ct,
            ) == Some(payload_of(es))
        }),
{
    let es = choose|es: Seq<(Seq<char>, Seq<char>, bool)>| bundle_opens(bundle, password, es);
    let (salt, nonce, ct) = choose|salt: Seq<u8>, nonce: Seq<u8>, ct: Seq<u8>|
        #![trigger b64_of(salt), b64_of(nonce), b64_of(ct)]
        {
            &&& bundle.encryption.salt@ == b64_of(salt)
            &&& salt.len() <= MAX_DIGEST_INPUT
            &&& bundle.encryption.nonce@ == b64_of(nonce)
            &&& nonce.len() == 12
            &&& bundle.encrypted_data@ == b64_of(ct)
            &&& aead_open(
                pbkdf2_key(encode_utf8(password), salt, bundle.encryption.iterations),
                nonce,
                ct,
            ) == Some(payload_of(es))
        };
    (salt, nonce, ct, es)
}

/// Import a bundle: check its format version, re-derive its key from the
/// import password and its own salt and iteration count, decrypt and parse
/// the payload, and reconcile it into the destination.  Any failure —
/// a wrong password above all — leaves the destination exactly as it was.
pub fn import_vault(
    bundle: &ExportFile,
    import_password: &str,
    current_db: &mut Database,
    master_key: &[u8],
    strategy: ImportStrategy,
) -> (r: Result<ImportResult, Error>)
    ensures
        bundle.format_version@ != EXPORT_FORMAT_VERSION@ ==> (r matches Err(e)
            && is_unsupported_version(e, bundle.format_version@)),
        r matches Err(_) ==> *final(current_db) == *old(current_db),
        strategy == ImportStrategy::Diff ==> *final(current_db) == *old(current_db),
        well_formed_import(*bundle, import_password@) && strategy == ImportStrategy::Diff
            ==> r is Ok,
        well_formed_import(*bundle, import_password@) ==> (r matches Err(e)
            ==> (e == Error::InvalidKeyMaterial || e == Error::RandomnessFailure
                || e == Error::CryptoFailure)),
        r matches Ok(res) ==> exists|salt: Seq<u8>, nonce: Seq<u8>, ct: Seq<u8>|
            #![trigger b64_of(salt), b64_of(nonce), b64_of(ct)]
            {
                &&& bundle.encryption.salt@ == b64_of(salt)
                &&& bundle.encryption.nonce@ == b64_of(nonce)
                &&& bundle.encrypted_data@ == b64_of(ct)
                &&& exists|es: Seq<(Seq<char>, Seq<char>, bool)>| #![trigger payload_of(es)]
                    {
                        &&& aead_open(
                            pbkdf2_key(
                                encode_utf8(import_password@),
                                salt,
                                bundle.encryption.iterations,
                            ),
                            nonce,
                            ct,
                        ) == Some(payload_of(es))
                        &&& imported(res, *old(current_db), *final(current_db), es, master_key@, strategy)
                    }
            },
{
    let ghost owed = well_formed_import(*bundle, import_password@);
    let expected: String = EXPORT_FORMAT_VERSION.to_owned();
    if !(bundle.format_version == expected) {
        return Err(Error::UnsupportedFormatVersion(bundle.format_version.clone()));
    }
    let salt = match crate::text::b64_decode(&bundle.encryption.salt) {
        Ok(b) => b,
        Err(e) => {
            proof {
                if owed {
                    let (sw, nw, cw, ew) = bundle_opens_witnesses(*bundle, import_password@);
                    assert(false);
                }
            }
            return Err(e);
        },
    };
    let import_key = match crypto::derive_key(
        import_password,
        salt.as_slice(),
        bundle.encryption.iterations,
    ) {
        Ok(k) => k,
        Err(e) => {
            proof {
                if owed {
                    let (sw, nw, cw, ew) = bundle_opens_witnesses(*bundle, import_password@);
                    assert(salt@ == sw);
                    assert(crate::crypto::kdf_inputs_ok(import_password@, salt@));
                    assert(false);
                }
            }
            return Err(e);
        },
    };
    let nonce = match crate::text::b64_decode(&bundle.encryption.nonce) {
        Ok(b) => b,
        Err(e) => {
            proof {
                if owed {
                    let (sw, nw, cw, ew) = bundle_opens_witnesses(*bundle, import_password@);
                    assert(false);
                }
            }
            return Err(e);
        },
    };
    let ciphertext = match crate::text::b64_decode(&bundle.encrypted_data) {
        Ok(b) => b,
        Err(e) => {
            proof {
                if owed {
                    let (sw, nw, cw, ew) = bundle_opens_witnesses(*bundle, import_password@);
                    assert(false);
                }
            }
            return Err(e);
        },
    };
    let ghost salt_g = salt@;
    let ghost nonce_g = nonce@;
    let ghost ct_g = ciphertext@;
    let encrypted = crypto::EncryptedData { ciphertext, nonce };
    let decrypted = match crypto::decrypt(&encrypted, import_key.as_slice()) {
        Ok(p) => p,
        Err(e) => {
            proof {
                if owed {
                    let (sw, nw, cw, ew) = bundle_opens_witnesses(*bundle, import_password@);
                    assert(salt_g == sw && nonce_g == nw && ct_g == cw);
                    assert(false);
                }
            }
            return Err(e);
        },
    };
    let entries = match parse_entries(&decrypted) {
        Some(es) => es,
        None => {
            proof {
                if owed {
                    let (sw, nw, cw, ew) = bundle_opens_witnesses(*bundle, import_password@);
                    assert(salt_g == sw && nonce_g == nw && ct_g == cw);
                    assert(decrypted@ == payload_of(ew));
                    assert(exists|es0: Seq<(Seq<char>, Seq<char>, bool)>|
                        decrypted@ == payload_of(es0)) by {
                        assert(decrypted@ == payload_of(ew));
                    }
                    assert(false);
                }
            }
            return Err(Error::MalformedBundle);
        },
    };
    let ghost es_g = entries_seq_view(entries@);
    match apply_import(current_db, master_key, &entries, strategy) {
        Ok(res) => {
            proof {
                let k = pbkdf2_key(encode_utf8(import_password@), salt_g, bundle.encryption.iterations);
                assert(aead_open(k, nonce_g, ct_g) == Some(payload_of(es_g)));
                assert(exists|salt: Seq<u8>, nonce: Seq<u8>, ct: Seq<u8>|
                    #![trigger b64_of(salt), b64_of(nonce), b64_of(ct)]
                    {
                        &&& bundle.encryption.salt@ == b64_of(salt)
                        &&& bundle.encryption.nonce@ == b64_of(nonce)
                        &&& bundle.encrypted_data@ == b64_of(ct)
                        &&& exists|es: Seq<(Seq<char>, Seq<char>, bool)>| #![trigger payload_of(es)]
                            {
                                &&& aead_open(
                                    pbkdf2_key(
                                        encode_utf8(import_password@),
                                        salt,
                                        bundle.encryption.iterations,
                                    ),
                                    nonce,
                                    ct,
                                ) == Some(payload_of(es))
                                &&& imported(res, *old(current_db), *final(current_db), es, master_key@, strategy)
                            }
                    }) by {
                    assert(exists|es: Seq<(Seq<char>, Seq<char>, bool)>| #![trigger payload_of(es)]
                        {
                            &&& aead_open(k, nonce_g, ct_g) == Some(payload_of(es))
                            &&& imported(res, *old(current_db), *final(current_db), es, master_key@, strategy)
                        }) by {
                        assert(aead_open(k, nonce_g, ct_g) == Some(payload_of(es_g))
                            && imported(res, *old(current_db), *final(current_db), es_g, master_key@, strategy));
                    }
                }
            }
            Ok(res)
        },
        Err(e) => Err(e),
    }
}

/// The outcome and the destination's new state follow the reconciliation
/// plan of the decrypted entries.
pub open spec fn imported(
    res: ImportResult,
    db_before: Database,
    db_after: Database,
    es: Seq<(Seq<char>, Seq<char>, bool)>,
    master_key: Seq<u8>,
    strategy: ImportStrategy,
) -> bool {
    let plan = import_plan(es, db_before.entries@.dom(), strategy);
    &&& names_view(res.added@) == plan.added
    &&& names_view(res.updated@) == plan.updated
    &&& names_view(res.skipped@) == plan.skipped
    &&& res.total_in_export == es.len()
    &&& db_after.master_salt@ == db_before.master_salt@
    &&& db_after.master_hash@ == db_before.master_hash@
    &&& db_after.iterations == db_before.iterations
    &&& forall|k: Seq<char>| #[trigger] plan.written.contains_key(k) ==> {
        &&& db_after.entries@.contains_key(k)
        &&& realises(db_after.entries@[k], plan.written[k], master_key)
    }
    &&& forall|k: Seq<char>| !(#[trigger] plan.written.contains_key(k)) ==> {
        &&& db_after.entries@.contains_key(k) == db_before.entries@.contains_key(k)
        &&& db_before.entries@.contains_key(k) ==> db_after.entries@[k] == db_before.entries@[k]
    }
}

} // verus!
