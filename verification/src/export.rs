//! Exporting a vault into a self-contained encrypted bundle.
//!
//! Every entry is decrypted under the session key, the plaintext list is
//! serialized to the payload format, and the payload is encrypted under a
//! fresh, independent credential derived from the export password with a
//! newly drawn salt and nonce, so repeated exports are not linkable and a
//! bundle neither reveals nor depends on the vault's master password.

use vstd::prelude::*;
use vstd::utf8::{decode_utf8, encode_utf8, valid_utf8};
use crate::crypto;
use crate::crypto::{aead_open, aead_seal, pbkdf2_key, PBKDF2_ITERATIONS};
use crate::error::Error;
use crate::payload::{entries_seq_view, payload_of, serialize_entries};
use crate::storage::{Database, EntryView};
use crate::text::{b64_encode, b64_of, bytes_to_string};

pub use crate::payload::ExportEntry;

verus! {

/// The one bundle format version this engine reads and writes.
pub const EXPORT_FORMAT_VERSION: &'static str = "1.0.0";

/// Encryption metadata of a bundle: how its payload key is derived and the
/// nonce it was sealed with.  Binary fields are base64 strings.
#[derive(Debug, Clone)]
pub struct ExportEncryption {
    pub algorithm: String,
    pub salt: String,
    pub nonce: String,
    pub iterations: u32,
}

/// Free-form facts about a bundle's origin.
#[derive(Debug, Clone)]
pub struct ExportMetadata {
    pub exported_from: String,
    pub vault_name: Option<String>,
    pub tags: Option<Vec<String>>,
}

/// A complete export bundle.  The payload is base64 over the encrypted
/// serialized entry list.
#[derive(Debug, Clone)]
pub struct ExportFile {
    pub format_version: String,
    pub exported_at: String,
    pub entry_count: usize,
    pub encryption: ExportEncryption,
    pub encrypted_data: String,
    pub metadata: ExportMetadata,
}

/// What decrypting one stored entry yields: its plaintext triple, or
/// nothing if the key is unusable, the tag fails, or the bytes are not text.
pub open spec fn decrypt_one(p: (Seq<char>, EntryView), key: Seq<u8>) -> Option<
    (Seq<char>, Seq<char>, bool),
> {
    if key.len() != 32 {
        None
    } else if p.1.nonce.len() != 12 {
        None
    } else {
        match aead_open(key, p.1.nonce, p.1.ciphertext) {
            Option::None => None,
            Option::Some(b) => if valid_utf8(b) {
                Some((p.0, decode_utf8(b), p.1.locked))
            } else {
                None
            },
        }
    }
}

/// What decrypting the whole entry list yields, in order; nothing as soon
/// as one entry fails.
pub open spec fn decrypt_pairs(pairs: Seq<(Seq<char>, EntryView)>, key: Seq<u8>) -> Option<
    Seq<(Seq<char>, Seq<char>, bool)>,
>
    decreases pairs.len(),
{
    if pairs.len() == 0 {
        Some(Seq::empty())
    } else {
        match decrypt_one(pairs[0], key) {
            Option::None => None,
            Option::Some(t) => match decrypt_pairs(pairs.drop_first(), key) {
                Option::None => None,
                Option::Some(rest) => Some(seq![t] + rest),
            },
        }
    }
}

/// Decryption of a list extends elementwise.
pub proof fn lemma_decrypt_pairs_snoc(
    pairs: Seq<(Seq<char>, EntryView)>,
    p: (Seq<char>, EntryView),
    key: Seq<u8>,
)
    ensures
        decrypt_pairs(pairs.push(p), key) == (match decrypt_pairs(pairs, key) {
            Option::None => None::<Seq<(Seq<char>, Seq<char>, bool)>>,
            Option::Some(es) => match decrypt_one(p, key) {
                Option::None => None::<Seq<(Seq<char>, Seq<char>, bool)>>,
                Option::Some(t) => Some(es.push(t)),
            },
        }),
    decreases pairs.len(),
{
    if pairs.len() == 0 {
        assert(pairs.push(p)[0] == p);
        assert(pairs.push(p).drop_first() =~= Seq::<(Seq<char>, EntryView)>::empty());
        match decrypt_one(p, key) {
            Option::Some(t) => {
                assert(seq![t] + Seq::<(Seq<char>, Seq<char>, bool)>::empty()
                    =~= Seq::empty().push(t));
            },
            Option::None => {},
        }
    } else {
        assert(pairs.push(p).drop_first() =~= pairs.drop_first().push(p));
        lemma_decrypt_pairs_snoc(pairs.drop_first(), p, key);
        match decrypt_one(pairs[0], key) {
            Option::Some(h) => {
                match decrypt_pairs(pairs.drop_first(), key) {
                    Option::Some(rest) => {
                        match decrypt_one(p, key) {
                            Option::Some(t) => {
                                assert(seq![h] + rest.push(t) =~= (seq![h] + rest).push(t));
                            },
                            Option::None => {},
                        }
                    },
                    Option::None => {},
                }
            },
            Option::None => {},
        }
    }
}

/// A failing entry makes the whole list fail, whatever follows it.
proof fn lemma_decrypt_pairs_fails(pairs: Seq<(Seq<char>, EntryView)>, key: Seq<u8>, i: int)
    requires
        0 <= i < pairs.len(),
        decrypt_one(pairs[i], key) is None,
    ensures
        decrypt_pairs(pairs, key) is None,
    decreases pairs.len(),
{
    if i == 0 {
    } else {
        assert(pairs.drop_first()[i - 1] == pairs[i]);
        lemma_decrypt_pairs_fails(pairs.drop_first(), key, i - 1);
    }
}

/// Decrypt every entry of the database under the session key, in stored
/// order.
fn collect_plain_entries(db: &Database, master_key: &[u8]) -> (r: Result<Vec<ExportEntry>, Error>)
    ensures
        r matches Ok(es) ==> decrypt_pairs(db.entries.pairs(), master_key@)
            == Some(entries_seq_view(es@)) && es@.len() == db.entries.pairs().len(),
        r matches Err(e) ==> decrypt_pairs(db.entries.pairs(), master_key@) is None
            && (e == Error::AuthenticationFailure || e == Error::InvalidKeyMaterial
                || e == Error::InvalidUtf8),
{
    let ghost pairs = db.entries.pairs();
    let n = db.entries.len();
    let mut out: Vec<ExportEntry> = Vec::new();
    let mut i: usize = 0;
    proof {
        assert(pairs.take(0) =~= Seq::<(Seq<char>, EntryView)>::empty());
        assert(entries_seq_view(out@) =~= Seq::<(Seq<char>, Seq<char>, bool)>::empty());
    }
    while i < n
        invariant
            n == pairs.len(),
            i <= n,
            pairs == db.entries.pairs(),
            decrypt_pairs(pairs.take(i as int), master_key@) == Some(entries_seq_view(out@)),
            out@.len() == i,
        decreases n - i,
    {
        let ghost prefix = pairs.take(i as int);
        let ghost acc = entries_seq_view(out@);
        let (name, entry) = db.entries.pair_at(i);
        let ciphertext = match entry.get_encrypted_value() {
            Ok(v) => v,
            Err(e) => return Err(e),
        };
        let nonce = match entry.get_nonce() {
            Ok(v) => v,
            Err(e) => return Err(e),
        };
        let locked = entry.is_locked;
        let encrypted = crypto::EncryptedData { ciphertext, nonce };
        let plaintext = match crypto::decrypt(&encrypted, master_key) {
            Ok(p) => p,
            Err(e) => {
                proof {
                    assert(decrypt_one(pairs[i as int], master_key@) is None);
                    lemma_decrypt_pairs_fails(pairs, master_key@, i as int);
                }
                return Err(e);
            },
        };
        let value = match bytes_to_string(plaintext) {
            Ok(s) => s,
            Err(e) => {
                proof {
                    assert(decrypt_one(pairs[i as int], master_key@) is None);
                    lemma_decrypt_pairs_fails(pairs, master_key@, i as int);
                }
                return Err(e);
            },
        };
        let owned_name = name.clone();
        out.push(ExportEntry { key: owned_name, value, locked });
        proof {
            lemma_decrypt_pairs_snoc(prefix, pairs[i as int], master_key@);
            assert(pairs.take(i + 1) =~= prefix.push(pairs[i as int]));
            let e = out@[i as int];
            assert(decrypt_one(pairs[i as int], master_key@)
                == Some((e.key@, e.value@, e.locked)));
            assert(entries_seq_view(out@) =~= acc.push((e.key@, e.value@, e.locked)));
        }
        i = i + 1;
    }
    proof {
        assert(pairs.take(n as int) =~= pairs);
    }
    Ok(out)
}

/// Relies on chrono::Utc::now and its RFC 3339 formatting; the timestamp
/// depends on the clock, so nothing is stated of it.
#[verifier::external_body]
fn now_rfc3339() -> String {
    chrono::Utc::now().to_rfc3339()
}

/// The sealed part of a bundle is consistent with its metadata: the base64
/// fields decode to a salt, a nonce, and a ciphertext sealed under the key
/// the export password derives with them, and the ciphertext opens back to
/// the payload of the given entries.
pub open spec fn bundle_seals(
    ef: ExportFile,
    export_password: Seq<char>,
    es: Seq<(Seq<char>, Seq<char>, bool)>,
) -> bool {
    exists|salt: Seq<u8>, nonce: Seq<u8>|
        {
            &&& ef.encryption.salt@ == b64_of(salt)
            &&& salt.len() == 32
            &&& ef.encryption.nonce@ == b64_of(nonce)
            &&& nonce.len() == 12
            &&& #[trigger] ef.encrypted_data@ == b64_of(
                aead_seal(
                    pbkdf2_key(encode_utf8(export_password), salt, ef.encryption.iterations),
                    nonce,
                    payload_of(es),
                ),
            )
            &&& aead_open(
                pbkdf2_key(encode_utf8(export_password), salt, ef.encryption.iterations),
                nonce,
                aead_seal(
                    pbkdf2_key(encode_utf8(export_password), salt, ef.encryption.iterations),
                    nonce,
                    payload_of(es),
                ),
            ) == Some(payload_of(es))
        }
}

/// Build an encrypted bundle from the database.  All entries are exported,
/// locked ones included; their plaintext is recovered under the session key
/// and resealed under the export credential.
pub fn export_vault(db: &Database, master_key: &[u8], export_password: &str) -> (r: Result<
    ExportFile,
    Error,
>)
    ensures
        decrypt_pairs(db.entries.pairs(), master_key@) is None ==> (r matches Err(e)
            && (e == Error::AuthenticationFailure || e == Error::InvalidKeyMaterial
                || e == Error::InvalidUtf8)),
        decrypt_pairs(db.entries.pairs(), master_key@) is Some && export_password@.len() == 0
            ==> r == Err::<ExportFile, Error>(Error::EmptyPassword),
        r matches Ok(ef) ==> (decrypt_pairs(db.entries.pairs(), master_key@) matches Some(es) && {
            &&& ef.format_version@ == EXPORT_FORMAT_VERSION@
            &&& ef.entry_count == es.len()
            &&& ef.entry_count == db.entries.pairs().len()
            &&& ef.encryption.algorithm@ == "AES-256-GCM"@
            &&& ef.encryption.iterations == PBKDF2_ITERATIONS
            &&& export_password@.len() != 0
            &&& bundle_seals(ef, export_password@, es)
        }),
{
    let entries = match collect_plain_entries(db, master_key) {
        Ok(es) => es,
        Err(e) => return Err(e),
    };
    if export_password.is_empty() {
        return Err(Error::EmptyPassword);
    }
    let payload = serialize_entries(&entries);
    let salt = match crypto::generate_salt() {
        Ok(s) => s,
        Err(e) => return Err(e),
    };
    let iterations = crypto::default_iterations();
    let export_key = match crypto::derive_key(export_password, salt.as_slice(), iterations) {
        Ok(k) => k,
        Err(e) => return Err(e),
    };
    let sealed = match crypto::encrypt(payload.as_slice(), export_key.as_slice()) {
        Ok(ed) => ed,
        Err(e) => return Err(e),
    };
    if sealed.ciphertext.len() > usize::MAX / 4 {
        return Err(Error::CryptoFailure);
    }
    let entry_count = entries.len();
    let encryption = ExportEncryption {
        algorithm: "AES-256-GCM".to_owned(),
        salt: b64_encode(&salt),
        nonce: b64_encode(&sealed.nonce),
        iterations,
    };
    let ef = ExportFile {
        format_version: EXPORT_FORMAT_VERSION.to_owned(),
        exported_at: now_rfc3339(),
        entry_count,
        encryption,
        encrypted_data: b64_encode(&sealed.ciphertext),
        metadata: ExportMetadata {
            exported_from: "ironkey".to_owned(),
            vault_name: None,
            tags: None,
        },
    };
    proof {
        assert(bundle_seals(ef, export_password@, entries_seq_view(entries@))) by {
            assert(ef.encryption.salt@ == b64_of(salt@) && salt@.len() == 32
                && ef.encryption.nonce@ == b64_of(sealed.nonce@) && sealed.nonce@.len() == 12
                && ef.encrypted_data@ == b64_of(
                    aead_seal(
                        pbkdf2_key(encode_utf8(export_password@), salt@, ef.encryption.iterations),
                        sealed.nonce@,
                        payload_of(entries_seq_view(entries@)),
                    ),
                ));
        }
    }
    Ok(ef)
}

} // verus!
