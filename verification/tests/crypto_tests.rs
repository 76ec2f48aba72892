// Crypto module tests

use ironkey::crypto::{
    decrypt, derive_key, encrypt, generate_salt, hash_password, verify_password, EncryptedData,
};
use ironkey::error::Error;

const TEST_ITERATIONS: u32 = 100_000;

#[test]
fn crypto_tests_test_encrypt_decrypt_roundtrip() {
    let password = "test_password";
    let salt = generate_salt().unwrap();
    let key = derive_key(password, &salt, TEST_ITERATIONS).unwrap();

    let plaintext = b"Hello, IronKey!";
    let encrypted = encrypt(plaintext, &key).unwrap();
    let decrypted = decrypt(&encrypted, &key).unwrap();

    assert_eq!(plaintext, decrypted.as_slice());
}

#[test]
fn crypto_tests_test_password_verification() {
    let password = "my_secure_password";
    let salt = generate_salt().unwrap();
    let hash = hash_password(password, &salt, TEST_ITERATIONS).unwrap();

    assert!(verify_password(password, &salt, &hash, TEST_ITERATIONS).unwrap());
    assert!(!verify_password("wrong_password", &salt, &hash, TEST_ITERATIONS).unwrap());
}

#[test]
fn crypto_tests_test_different_nonces() {
    let key = vec![0u8; 32];
    let plaintext = b"test";

    let encrypted1 = encrypt(plaintext, &key).unwrap();
    let encrypted2 = encrypt(plaintext, &key).unwrap();

    // Same plaintext should produce different ciphertexts (different nonces)
    assert_ne!(encrypted1.nonce, encrypted2.nonce);
    assert_ne!(encrypted1.ciphertext, encrypted2.ciphertext);
}

#[test]
fn crypto_test_encrypt_decrypt_roundtrip() {
    let password = "test_password";
    let salt = generate_salt().unwrap();
    let key = derive_key(password, &salt, ironkey::crypto::default_iterations()).unwrap();

    let plaintext = b"Hello, IronKey!";
    let encrypted = encrypt(plaintext, &key).unwrap();
    let decrypted = decrypt(&encrypted, &key).unwrap();

    assert_eq!(plaintext, decrypted.as_slice());
}

#[test]
fn crypto_test_password_verification() {
    let password = "my_secure_password";
    let salt = generate_salt().unwrap();
    let hash = hash_password(password, &salt, ironkey::crypto::default_iterations()).unwrap();

    assert!(verify_password(password, &salt, &hash, ironkey::crypto::default_iterations()).unwrap());
    assert!(
        !verify_password(
            "wrong_password",
            &salt,
            &hash,
            ironkey::crypto::default_iterations()
        )
        .unwrap()
    );
}

#[test]
fn crypto_test_different_nonces() {
    let key = vec![0u8; 32];
    let plaintext = b"test";

    let encrypted1 = encrypt(plaintext, &key).unwrap();
    let encrypted2 = encrypt(plaintext, &key).unwrap();

    assert_ne!(encrypted1.nonce, encrypted2.nonce);
    assert_ne!(encrypted1.ciphertext, encrypted2.ciphertext);
}

fn hex_to_bytes(hex: &str) -> Vec<u8> {
    let chars: Vec<u8> = hex.bytes().collect();
    let mut out = Vec::new();
    let mut i = 0;
    while i + 1 < chars.len() {
        let hi = (chars[i] as char).to_digit(16).unwrap() as u8;
        let lo = (chars[i + 1] as char).to_digit(16).unwrap() as u8;
        out.push(hi * 16 + lo);
        i += 2;
    }
    out
}

// PBKDF2-HMAC-SHA256 known answer: password "password", salt "salt",
// one iteration, 32-byte output.
#[test]
fn test_derive_key_known_answer() {
    let key = derive_key("password", b"salt", 1).unwrap();
    let expected = hex_to_bytes("120fb6cffcf8b32c43e7225256c4f837a86548c92ccc35480805987cb70be17b");
    assert_eq!(key, expected);
}

// Deriving twice with the same inputs gives identical keys.
#[test]
fn test_derive_key_deterministic() {
    let salt = generate_salt().unwrap();
    let k1 = derive_key("pw", &salt, 2_000).unwrap();
    let k2 = derive_key("pw", &salt, 2_000).unwrap();
    assert_eq!(k1, k2);
    assert_eq!(k1.len(), 32);
}

// AES-256-GCM known answer: zero key, zero nonce, empty plaintext; the
// ciphertext is the tag alone.
#[test]
fn test_decrypt_known_answer() {
    let key = vec![0u8; 32];
    let encrypted = EncryptedData {
        ciphertext: hex_to_bytes("530f8afbc74536b9a963b4f1c4cb738b"),
        nonce: vec![0u8; 12],
    };
    let decrypted = decrypt(&encrypted, &key).unwrap();
    assert_eq!(decrypted, Vec::<u8>::new());
}

// A tampered ciphertext and a wrong key both fail with the one
// undistinguished authentication error.
#[test]
fn test_decrypt_tampered_and_wrong_key() {
    let key = vec![7u8; 32];
    let other_key = vec![8u8; 32];
    let encrypted = encrypt(b"secret", &key).unwrap();

    let mut tampered = encrypted.ciphertext.clone();
    tampered[0] ^= 0x01;
    let bad = EncryptedData {
        ciphertext: tampered,
        nonce: encrypted.nonce.clone(),
    };
    assert!(matches!(decrypt(&bad, &key), Err(Error::AuthenticationFailure)));
    assert!(matches!(
        decrypt(&encrypted, &other_key),
        Err(Error::AuthenticationFailure)
    ));
    // The untouched ciphertext still decrypts.
    assert_eq!(decrypt(&encrypted, &key).unwrap(), b"secret".to_vec());
}

#[test]
fn test_key_and_nonce_length_checks() {
    assert!(matches!(
        encrypt(b"x", &vec![0u8; 16]),
        Err(Error::InvalidKeyMaterial)
    ));
    let encrypted = EncryptedData {
        ciphertext: vec![1, 2, 3],
        nonce: vec![0u8; 4],
    };
    assert!(matches!(
        decrypt(&encrypted, &vec![0u8; 32]),
        Err(Error::InvalidKeyMaterial)
    ));
}

#[test]
fn test_derive_key_parameter_errors() {
    assert!(matches!(
        derive_key("", b"salt", 1000),
        Err(Error::EmptyPassword)
    ));
    assert!(matches!(
        derive_key("pw", b"salt", 0),
        Err(Error::InvalidParameters)
    ));
    assert!(matches!(
        verify_password("pw", b"salt", &[0u8; 32], 0),
        Err(Error::InvalidParameters)
    ));
}
