//! Key derivation and authenticated encryption.
//!
//! PBKDF2-HMAC-SHA256 turns a password, a salt and an iteration count into
//! 32 bytes of key material; AES-256-GCM encrypts entry values under such a
//! key with a fresh 96-bit random nonce and a 128-bit tag appended to the
//! ciphertext.  What the ciphers compute is named by uninterpreted spec
//! functions; the trusted wrappers around `ring` relate each call to those
//! names, and everything above them is verified.

use vstd::prelude::*;
use vstd::utf8::encode_utf8;
use crate::error::Error;
use crate::text::str_to_bytes;

verus! {

/// Length in bytes of an AES-256 key.
pub const KEY_LENGTH: usize = 32;

/// Length in bytes of an AES-GCM nonce.
pub const NONCE_LENGTH: usize = 12;

/// Length in bytes of the GCM authentication tag.
pub const TAG_LENGTH: usize = 16;

/// Length in bytes of a freshly generated salt.
pub const SALT_LENGTH: usize = 32;

/// Default PBKDF2 iteration count.
pub const PBKDF2_ITERATIONS: u32 = 100_000;

/// Inputs longer than this are refused before they reach the digest;
/// SHA-256 itself gives out at 2^61 bytes.
pub const MAX_DIGEST_INPUT: u64 = 0x1000_0000_0000_0000;

/// The 32 bytes that PBKDF2-HMAC-SHA256 derives from a password, a salt and
/// an iteration count.  The function is deterministic: the name alone carries
/// that two equal inputs give equal keys.
pub uninterp spec fn pbkdf2_key(password: Seq<u8>, salt: Seq<u8>, iterations: u32) -> Seq<u8>;

/// The ciphertext (tag included) that AES-256-GCM produces from a key, a
/// nonce and a plaintext.
pub uninterp spec fn aead_seal(key: Seq<u8>, nonce: Seq<u8>, plaintext: Seq<u8>) -> Seq<u8>;

/// What authenticated decryption returns for a key, a nonce and a ciphertext:
/// the plaintext when the tag verifies, nothing otherwise.
pub uninterp spec fn aead_open(key: Seq<u8>, nonce: Seq<u8>, ciphertext: Seq<u8>) -> Option<Seq<u8>>;

/// Encrypted bytes together with the nonce they were sealed under.
#[derive(Debug, Clone)]
pub struct EncryptedData {
    pub ciphertext: Vec<u8>,
    pub nonce: Vec<u8>,
}

/// The password and salt are small enough for the digest.
pub open spec fn kdf_inputs_ok(password: Seq<char>, salt: Seq<u8>) -> bool {
    encode_utf8(password).len() <= MAX_DIGEST_INPUT && salt.len() <= MAX_DIGEST_INPUT
}

/// The stored verifier `expected` matches the password: it is exactly the
/// 32-byte key PBKDF2 derives from the password's UTF-8 bytes.
pub open spec fn verifies(password: Seq<char>, salt: Seq<u8>, iterations: u32, expected: Seq<u8>) -> bool {
    expected.len() == 32 && expected == pbkdf2_key(encode_utf8(password), salt, iterations)
}

/// Relies on ring::rand::SystemRandom::fill: on success the buffer holds
/// `len` bytes from the system CSPRNG.  Nothing is stated of their values.
#[verifier::external_body]
pub(crate) fn fill_random(len: usize) -> (r: Result<Vec<u8>, Error>)
    ensures
        r matches Ok(b) ==> b@.len() == len,
        r matches Err(e) ==> e == Error::RandomnessFailure,
{
    let rng = ring::rand::SystemRandom::new();
    let mut buf = vec![0u8; len];
    match ring::rand::SecureRandom::fill(&rng, &mut buf) {
        Ok(()) => Ok(buf),
        Err(_) => Err(Error::RandomnessFailure),
    }
}

/// Relies on ring::pbkdf2::derive with PBKDF2_HMAC_SHA256: it fills the
/// 32-byte output deterministically from password, salt and iteration count.
#[verifier::external_body]
fn pbkdf2_derive_raw(password: &[u8], salt: &[u8], iterations: u32) -> (r: Vec<u8>)
    requires
        1 <= iterations,
        password@.len() <= MAX_DIGEST_INPUT,
        salt@.len() <= MAX_DIGEST_INPUT,
    ensures
        r@ == pbkdf2_key(password@, salt@, iterations),
        r@.len() == 32,
{
    let mut key = vec![0u8; 32];
    let iters = core::num::NonZeroU32::new(iterations).unwrap();
    ring::pbkdf2::derive(ring::pbkdf2::PBKDF2_HMAC_SHA256, iters, salt, password, &mut key);
    key
}

/// Relies on ring::pbkdf2::verify with PBKDF2_HMAC_SHA256: it accepts exactly
/// when the expected bytes equal the derivation of the same length, using
/// ring's timing-hardened comparison.  `expected` is held to 32 bytes so that
/// the comparison is against the same derivation `pbkdf2_key` names.
#[verifier::external_body]
fn pbkdf2_verify_raw(password: &[u8], salt: &[u8], expected: &[u8], iterations: u32) -> (r: bool)
    requires
        1 <= iterations,
        password@.len() <= MAX_DIGEST_INPUT,
        salt@.len() <= MAX_DIGEST_INPUT,
        expected@.len() == 32,
    ensures
        r == (expected@ == pbkdf2_key(password@, salt@, iterations)),
{
    let iters = core::num::NonZeroU32::new(iterations).unwrap();
    ring::pbkdf2::verify(ring::pbkdf2::PBKDF2_HMAC_SHA256, iters, salt, password, expected).is_ok()
}

/// Relies on ring::aead::LessSafeKey::seal_in_place_append_tag with
/// AES_256_GCM: the ciphertext is a function of key, nonce and plaintext
/// alone, is 16 bytes longer than the plaintext, and opening it under the
/// same key and nonce returns the plaintext.
#[verifier::external_body]
fn aead_seal_raw(plaintext: &[u8], key: &[u8], nonce: &[u8]) -> (r: Result<Vec<u8>, Error>)
    requires
        key@.len() == 32,
        nonce@.len() == 12,
    ensures
        r matches Ok(ct) ==> {
            &&& ct@ == aead_seal(key@, nonce@, plaintext@)
            &&& ct@.len() == plaintext@.len() + 16
            &&& aead_open(key@, nonce@, ct@) == Some(plaintext@)
        },
        r matches Err(e) ==> e == Error::CryptoFailure,
{
    let unbound = match ring::aead::UnboundKey::new(&ring::aead::AES_256_GCM, key) {
        Ok(k) => k,
        Err(_) => return Err(Error::CryptoFailure),
    };
    let sealing = ring::aead::LessSafeKey::new(unbound);
    let n = match ring::aead::Nonce::try_assume_unique_for_key(nonce) {
        Ok(n) => n,
        Err(_) => return Err(Error::CryptoFailure),
    };
    let mut data = plaintext.to_vec();
    match sealing.seal_in_place_append_tag(n, ring::aead::Aad::empty(), &mut data) {
        Ok(()) => Ok(data),
        Err(_) => Err(Error::CryptoFailure),
    }
}

/// Relies on ring::aead::LessSafeKey::open_in_place with AES_256_GCM: it
/// returns the plaintext exactly when the tag verifies, and fails otherwise
/// without distinguishing the cause.
#[verifier::external_body]
fn aead_open_raw(ciphertext: &[u8], key: &[u8], nonce: &[u8]) -> (r: Result<Vec<u8>, Error>)
    requires
        key@.len() == 32,
        nonce@.len() == 12,
    ensures
        r matches Ok(p) ==> aead_open(key@, nonce@, ciphertext@) == Some(p@),
        r matches Err(e) ==> e == Error::AuthenticationFailure
            && aead_open(key@, nonce@, ciphertext@) is None,
{
    let unbound = match ring::aead::UnboundKey::new(&ring::aead::AES_256_GCM, key) {
        Ok(k) => k,
        Err(_) => return Err(Error::AuthenticationFailure),
    };
    let opening = ring::aead::LessSafeKey::new(unbound);
    let n = match ring::aead::Nonce::try_assume_unique_for_key(nonce) {
        Ok(n) => n,
        Err(_) => return Err(Error::AuthenticationFailure),
    };
    let mut data = ciphertext.to_vec();
    match opening.open_in_place(n, ring::aead::Aad::empty(), &mut data) {
        Ok(p) => Ok(p.to_vec()),
        Err(_) => Err(Error::AuthenticationFailure),
    }
}

/// Generate a random salt for key derivation.
pub fn generate_salt() -> (r: Result<Vec<u8>, Error>)
    ensures
        r matches Ok(s) ==> s@.len() == SALT_LENGTH,
        r matches Err(e) ==> e == Error::RandomnessFailure,
{
    fill_random(SALT_LENGTH)
}

/// The default number of PBKDF2 iterations.
pub fn default_iterations() -> (r: u32)
    ensures
        r == PBKDF2_ITERATIONS,
{
    PBKDF2_ITERATIONS
}

/// Derive 32 bytes of key material from a password.  Deterministic: the
/// result is pinned to `pbkdf2_key` of the inputs, so equal inputs always
/// yield equal keys.
pub fn derive_key(password: &str, salt: &[u8], iterations: u32) -> (r: Result<Vec<u8>, Error>)
    ensures
        password@.len() == 0 ==> r == Err::<Vec<u8>, Error>(Error::EmptyPassword),
        password@.len() != 0 && iterations == 0 ==> r == Err::<Vec<u8>, Error>(Error::InvalidParameters),
        password@.len() != 0 && iterations != 0 && !kdf_inputs_ok(password@, salt@)
            ==> r == Err::<Vec<u8>, Error>(Error::InvalidParameters),
        password@.len() != 0 && iterations != 0 && kdf_inputs_ok(password@, salt@)
            ==> (r matches Ok(k)
                && k@ == pbkdf2_key(encode_utf8(password@), salt@, iterations)
                && k@.len() == 32),
{
    if password.is_empty() {
        return Err(Error::EmptyPassword);
    }
    if iterations == 0 {
        return Err(Error::InvalidParameters);
    }
    let password_bytes = str_to_bytes(password);
    if password_bytes.len() as u64 > MAX_DIGEST_INPUT || salt.len() as u64 > MAX_DIGEST_INPUT {
        return Err(Error::InvalidParameters);
    }
    Ok(pbkdf2_derive_raw(password_bytes.as_slice(), salt, iterations))
}

/// Hash a password for verification.  This design derives the stored
/// verifier exactly as it derives the session key, so the persisted verifier
/// is the key material itself — a known defect, kept deliberately: separate,
/// domain-separated derivations would invalidate every stored credential.
pub fn hash_password(password: &str, salt: &[u8], iterations: u32) -> (r: Result<Vec<u8>, Error>)
    ensures
        password@.len() == 0 ==> r == Err::<Vec<u8>, Error>(Error::EmptyPassword),
        password@.len() != 0 && iterations == 0 ==> r == Err::<Vec<u8>, Error>(Error::InvalidParameters),
        password@.len() != 0 && iterations != 0 && !kdf_inputs_ok(password@, salt@)
            ==> r == Err::<Vec<u8>, Error>(Error::InvalidParameters),
        password@.len() != 0 && iterations != 0 && kdf_inputs_ok(password@, salt@)
            ==> (r matches Ok(k)
                && k@ == pbkdf2_key(encode_utf8(password@), salt@, iterations)
                && k@.len() == 32),
{
    derive_key(password, salt, iterations)
}

/// Check a password against a stored verifier; the comparison is ring's
/// timing-hardened one, so the check does not leak how much of it matched.
pub fn verify_password(password: &str, salt: &[u8], hash: &[u8], iterations: u32) -> (r: Result<bool, Error>)
    ensures
        iterations == 0 ==> r == Err::<bool, Error>(Error::InvalidParameters),
        iterations != 0 && !kdf_inputs_ok(password@, salt@)
            ==> r == Err::<bool, Error>(Error::InvalidParameters),
        iterations != 0 && kdf_inputs_ok(password@, salt@)
            ==> (r matches Ok(b) && b == verifies(password@, salt@, iterations, hash@)),
{
    if iterations == 0 {
        return Err(Error::InvalidParameters);
    }
    let password_bytes = str_to_bytes(password);
    if password_bytes.len() as u64 > MAX_DIGEST_INPUT || salt.len() as u64 > MAX_DIGEST_INPUT {
        return Err(Error::InvalidParameters);
    }
    if hash.len() != 32 {
        return Ok(false);
    }
    Ok(pbkdf2_verify_raw(password_bytes.as_slice(), salt, hash, iterations))
}

/// Law: the verifier derived from a password matches that same password,
/// salt and iteration count.
pub proof fn lemma_derived_key_verifies(password: Seq<char>, salt: Seq<u8>, iterations: u32)
    requires
        pbkdf2_key(encode_utf8(password), salt, iterations).len() == 32,
    ensures
        verifies(password, salt, iterations, pbkdf2_key(encode_utf8(password), salt, iterations)),
{
}

/// Law: a password whose derivation differs from the stored one never
/// matches that stored verifier.  Passwords whose PBKDF2 outputs collide are
/// left out by the premise: the model cannot exclude such a pair.
pub proof fn lemma_other_password_fails(
    stored_password: Seq<char>,
    candidate: Seq<char>,
    salt: Seq<u8>,
    iterations: u32,
)
    requires
        pbkdf2_key(encode_utf8(candidate), salt, iterations)
            != pbkdf2_key(encode_utf8(stored_password), salt, iterations),
    ensures
        !verifies(candidate, salt, iterations, pbkdf2_key(encode_utf8(stored_password), salt, iterations)),
{
}

/// Encrypt a payload under a 32-byte key with a fresh random nonce.  On
/// success the result decrypts, under the same key and nonce, to exactly the
/// plaintext that was sealed.
pub fn encrypt(plaintext: &[u8], key: &[u8]) -> (r: Result<EncryptedData, Error>)
    ensures
        key@.len() != 32 ==> r == Err::<EncryptedData, Error>(Error::InvalidKeyMaterial),
        r matches Ok(ed) ==> {
            &&& key@.len() == 32
            &&& ed.nonce@.len() == 12
            &&& ed.ciphertext@ == aead_seal(key@, ed.nonce@, plaintext@)
            &&& ed.ciphertext@.len() == plaintext@.len() + 16
            &&& aead_open(key@, ed.nonce@, ed.ciphertext@) == Some(plaintext@)
        },
        key@.len() == 32 ==> (r matches Err(e) ==> e == Error::RandomnessFailure
            || e == Error::CryptoFailure),
{
    if key.len() != KEY_LENGTH {
        return Err(Error::InvalidKeyMaterial);
    }
    let nonce = match fill_random(NONCE_LENGTH) {
        Ok(n) => n,
        Err(e) => return Err(e),
    };
    let ciphertext = match aead_seal_raw(plaintext, key, nonce.as_slice()) {
        Ok(ct) => ct,
        Err(e) => return Err(e),
    };
    Ok(EncryptedData { ciphertext, nonce })
}

/// Decrypt a payload.  Succeeds exactly when the tag verifies; every
/// authentication failure — wrong key or tampered ciphertext alike — is the
/// one undistinguished `AuthenticationFailure`, so a wrong plaintext is never
/// returned silently.
pub fn decrypt(encrypted: &EncryptedData, key: &[u8]) -> (r: Result<Vec<u8>, Error>)
    ensures
        key@.len() != 32 ==> r == Err::<Vec<u8>, Error>(Error::InvalidKeyMaterial),
        key@.len() == 32 && encrypted.nonce@.len() != 12
            ==> r == Err::<Vec<u8>, Error>(Error::InvalidKeyMaterial),
        key@.len() == 32 && encrypted.nonce@.len() == 12 ==> match r {
            Ok(p) => aead_open(key@, encrypted.nonce@, encrypted.ciphertext@) == Some(p@),
            Err(e) => e == Error::AuthenticationFailure
                && aead_open(key@, encrypted.nonce@, encrypted.ciphertext@) is None,
        },
{
    if key.len() != KEY_LENGTH {
        return Err(Error::InvalidKeyMaterial);
    }
    if encrypted.nonce.len() != NONCE_LENGTH {
        return Err(Error::InvalidKeyMaterial);
    }
    aead_open_raw(encrypted.ciphertext.as_slice(), key, encrypted.nonce.as_slice())
}

} // verus!
