//! The closed error taxonomy of the vault engine.

use vstd::prelude::*;

verus! {

/// Every failure the engine can report.  Call sites match exhaustively on the
/// kind; no error is carried as free-form text alone.
#[derive(Debug, Clone, PartialEq, Eq)]
pub enum Error {
    /// No entry of the given name exists.
    EntryNotFound(String),
    /// An entry of the given name already exists.
    EntryAlreadyExists(String),
    /// The entry is locked; reading, updating and deleting are blocked.
    EntryLocked(String),
    /// The candidate master password does not match the stored verifier.
    InvalidMasterPassword,
    /// A credential record already exists, so the vault cannot be initialised anew.
    CredentialAlreadyExists,
    /// The password handed to key derivation is empty (or all whitespace, for init).
    EmptyPassword,
    /// A derivation parameter is out of range (an iteration count of zero).
    InvalidParameters,
    /// Key or nonce material has the wrong length for the cipher.
    InvalidKeyMaterial,
    /// Authenticated decryption failed: wrong key or tampered ciphertext.
    /// The cause is deliberately not distinguished.
    AuthenticationFailure,
    /// The system's random generator failed to produce bytes.
    RandomnessFailure,
    /// The cipher itself refused the operation (an over-long payload).
    CryptoFailure,
    /// Decrypted bytes are not valid UTF-8 where text was expected.
    InvalidUtf8,
    /// No database snapshot exists to unlock.
    DatabaseNotFound,
    /// A bundle carries a format version this engine does not support;
    /// the offending version string is kept.
    UnsupportedFormatVersion(String),
    /// A bundle field or payload does not parse.
    MalformedBundle,
    /// The export target already exists and overwriting was not permitted.
    DestinationExists,
    /// The persistence collaborator failed; the message is its own.
    StorageFailed(String),
    /// A caller-supplied parameter is unusable (password generation).
    InvalidInput(String),
}

/// The error names an entry, and that name is `name`.
pub open spec fn is_entry_not_found(e: Error, name: Seq<char>) -> bool {
    e matches Error::EntryNotFound(k) && k@ == name
}

/// The error reports a duplicate entry of name `name`.
pub open spec fn is_entry_already_exists(e: Error, name: Seq<char>) -> bool {
    e matches Error::EntryAlreadyExists(k) && k@ == name
}

/// The error reports a locked entry of name `name`.
pub open spec fn is_entry_locked(e: Error, name: Seq<char>) -> bool {
    e matches Error::EntryLocked(k) && k@ == name
}

/// The error reports an unsupported bundle format version `v`.
pub open spec fn is_unsupported_version(e: Error, v: Seq<char>) -> bool {
    e matches Error::UnsupportedFormatVersion(s) && s@ == v
}

} // verus!
