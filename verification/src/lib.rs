//! IronKey vault engine: a local secret vault.
//!
//! Named secret values are encrypted under a key derived from a master
//! passphrase and kept in a single database snapshot.  The engine covers
//! master-credential derivation and verification, authenticated encryption of
//! entry values, the entry lifecycle (create / read / update / delete / lock),
//! and an encrypted export/import bundle format with merge, replace and diff
//! reconciliation.  Persistence, prompting and other I/O live outside this
//! crate; every function here is verified against its contract.
//!
//! The trust boundary is small and explicit: `ring` (PBKDF2 and AES-256-GCM),
//! `base64`, `zeroize`, `chrono` and a handful of `str`/`String` conversions
//! are reached only through `external_body` wrappers whose contracts name
//! what the call computes; everything above those wrappers — the entry map,
//! the vault session rules, searching and ordering, the payload format and
//! the import reconciliation — is proved by Verus.

pub mod crypto;
pub mod error;
pub mod export;
pub mod import;
pub mod password_generator;
pub mod payload;
pub mod search;
pub mod storage;
pub mod text;
pub mod vault;
