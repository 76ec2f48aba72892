//! End-to-end vault session scenarios.

use ironkey::crypto::{derive_key, encrypt, generate_salt};
use ironkey::error::Error;
use ironkey::storage::{Database, Entry};
use ironkey::vault::Vault;

#[test]
fn test_init_create_get() {
    let mut vault = Vault::init("pw1", false).unwrap();
    vault
        .create_entry("github".to_string(), "tok123".to_string())
        .unwrap();
    assert_eq!(vault.get_entry("github").unwrap(), "tok123");
}

#[test]
fn test_lock_blocks_read_until_toggled_back() {
    let mut vault = Vault::init("pw1", false).unwrap();
    vault
        .create_entry("github".to_string(), "tok123".to_string())
        .unwrap();

    assert_eq!(vault.toggle_lock("github").unwrap(), true);
    assert!(matches!(
        vault.get_entry("github"),
        Err(Error::EntryLocked(k)) if k == "github"
    ));

    assert_eq!(vault.toggle_lock("github").unwrap(), false);
    assert_eq!(vault.get_entry("github").unwrap(), "tok123");
}

#[test]
fn test_duplicate_create_fails() {
    let mut vault = Vault::init("pw", false).unwrap();
    vault.create_entry("a".to_string(), "1".to_string()).unwrap();
    assert!(matches!(
        vault.create_entry("a".to_string(), "2".to_string()),
        Err(Error::EntryAlreadyExists(k)) if k == "a"
    ));
    assert_eq!(vault.get_entry("a").unwrap(), "1");
}

#[test]
fn test_init_rejects_existing_credential() {
    assert!(matches!(
        Vault::init("pw", true),
        Err(Error::CredentialAlreadyExists)
    ));
}

#[test]
fn test_init_rejects_blank_password() {
    assert!(matches!(Vault::init("", false), Err(Error::EmptyPassword)));
    assert!(matches!(
        Vault::init("   \t ", false),
        Err(Error::EmptyPassword)
    ));
}

fn sample_database(password: &str) -> (Database, Vec<u8>) {
    let salt = generate_salt().unwrap();
    let iterations = 10_000;
    let key = derive_key(password, &salt, iterations).unwrap();
    // This design stores the derived key itself as the verifier.
    (Database::new(salt, key.clone(), iterations), key)
}

#[test]
fn test_unlock_and_read_back() {
    let (mut db, key) = sample_database("master_pw");
    let sealed = encrypt(b"hidden value", &key).unwrap();
    db.entries.insert(
        "item".to_string(),
        Entry::new(sealed.ciphertext, sealed.nonce, false),
    );

    let vault = Vault::unlock("master_pw", db).unwrap();
    assert_eq!(vault.get_entry("item").unwrap(), "hidden value");
    vault.close();
}

#[test]
fn test_unlock_wrong_password() {
    let (db, _key) = sample_database("master_pw");
    assert!(matches!(
        Vault::unlock("not_it", db),
        Err(Error::InvalidMasterPassword)
    ));
}

#[test]
fn test_verify_master_password() {
    let (db, _key) = sample_database("master_pw");
    assert!(Vault::verify_master_password("master_pw", &db).unwrap());
    assert!(!Vault::verify_master_password("other", &db).unwrap());
}

#[test]
fn test_unlock_zero_iterations_rejected() {
    let db = Database::new(vec![1; 32], vec![2; 32], 0);
    assert!(matches!(
        Vault::unlock("pw", db),
        Err(Error::InvalidParameters)
    ));
}

// A stored value that does not decode as UTF-8 is surfaced as such, not
// returned silently.
#[test]
fn test_get_entry_invalid_utf8() {
    let (mut db, key) = sample_database("master_pw");
    let sealed = encrypt(&[0xFF, 0xFE, 0x00, 0x80], &key).unwrap();
    db.entries.insert(
        "binary".to_string(),
        Entry::new(sealed.ciphertext, sealed.nonce, false),
    );

    let vault = Vault::unlock("master_pw", db).unwrap();
    assert!(matches!(
        vault.get_entry("binary"),
        Err(Error::InvalidUtf8)
    ));
}

#[test]
fn test_get_entry_not_found() {
    let vault = Vault::init("pw", false).unwrap();
    assert!(matches!(
        vault.get_entry("missing"),
        Err(Error::EntryNotFound(k)) if k == "missing"
    ));
}

#[test]
fn test_update_entry() {
    let mut vault = Vault::init("pw", false).unwrap();
    vault.create_entry("k".to_string(), "old".to_string()).unwrap();
    vault.update_entry("k".to_string(), "new".to_string()).unwrap();
    assert_eq!(vault.get_entry("k").unwrap(), "new");

    assert!(matches!(
        vault.update_entry("missing".to_string(), "x".to_string()),
        Err(Error::EntryNotFound(_))
    ));

    vault.toggle_lock("k").unwrap();
    assert!(matches!(
        vault.update_entry("k".to_string(), "z".to_string()),
        Err(Error::EntryLocked(_))
    ));
}

#[test]
fn test_delete_entry() {
    let mut vault = Vault::init("pw", false).unwrap();
    vault.create_entry("k".to_string(), "v".to_string()).unwrap();

    vault.toggle_lock("k").unwrap();
    assert!(matches!(
        vault.delete_entry("k"),
        Err(Error::EntryLocked(_))
    ));
    vault.toggle_lock("k").unwrap();

    vault.delete_entry("k").unwrap();
    assert!(matches!(
        vault.get_entry("k"),
        Err(Error::EntryNotFound(_))
    ));
    assert!(matches!(
        vault.delete_entry("k"),
        Err(Error::EntryNotFound(_))
    ));
}

#[test]
fn test_toggle_lock_missing_entry() {
    let mut vault = Vault::init("pw", false).unwrap();
    assert!(matches!(
        vault.toggle_lock("nope"),
        Err(Error::EntryNotFound(_))
    ));
}

// Unicode round trip through a full session.
#[test]
fn test_unicode_entry_roundtrip() {
    let mut vault = Vault::init("pw", false).unwrap();
    vault
        .create_entry("emoji".to_string(), "héllo 世界 🔐".to_string())
        .unwrap();
    assert_eq!(vault.get_entry("emoji").unwrap(), "héllo 世界 🔐");
}
