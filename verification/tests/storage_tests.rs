// Storage module tests

use ironkey::storage::{Database, Entry};

#[test]
fn test_database_creation() {
    let salt = vec![1, 2, 3, 4];
    let hash = vec![5, 6, 7, 8];
    let iterations = 100_000;

    let db = Database::new(salt.clone(), hash.clone(), iterations);

    assert_eq!(db.get_salt().unwrap(), salt);
    assert_eq!(db.get_hash().unwrap(), hash);
    assert_eq!(db.iterations, iterations);
    assert!(db.entries.is_empty());
}

#[test]
fn test_entry_creation() {
    let nonce = vec![1, 2, 3];
    let encrypted_value = vec![4, 5, 6];
    let is_locked = false;

    let entry = Entry::new(encrypted_value.clone(), nonce.clone(), is_locked);

    assert_eq!(entry.is_locked, is_locked);
    assert_eq!(entry.get_nonce().unwrap(), nonce);
    assert_eq!(entry.get_encrypted_value().unwrap(), encrypted_value);
}

#[test]
fn test_database_add_entry() {
    let mut db = Database::new(vec![1, 2, 3], vec![4, 5, 6], 100_000);
    let entry = Entry::new(vec![10, 11, 12], vec![7, 8, 9], false);

    db.entries.insert("test_key".to_string(), entry.clone());

    assert_eq!(db.entries.len(), 1);
    assert!(db.entries.contains_key("test_key"));
    assert!(!db.entries.get("test_key").unwrap().is_locked);
}

#[test]
fn test_entry_locked_flag() {
    let entry_unlocked = Entry::new(vec![2], vec![1], false);
    let entry_locked = Entry::new(vec![4], vec![3], true);

    assert!(!entry_unlocked.is_locked);
    assert!(entry_locked.is_locked);
}

#[test]
fn test_database_multiple_entries() {
    let mut db = Database::new(vec![1], vec![2], 100_000);

    for i in 0..5 {
        let entry = Entry::new(vec![i + 10], vec![i], false);
        db.entries.insert(format!("key_{i}"), entry);
    }

    assert_eq!(db.entries.len(), 5);
    assert!(db.entries.contains_key("key_0"));
    assert!(db.entries.contains_key("key_4"));
}

#[test]
fn test_entry_base64_decoding() {
    let original_nonce = vec![255, 128, 64, 32, 16, 8, 4, 2, 1];
    let original_encrypted = vec![11, 22, 33, 44, 55, 66, 77, 88, 99];

    let entry = Entry::new(original_encrypted.clone(), original_nonce.clone(), true);

    let decoded_nonce = entry.get_nonce().unwrap();
    let decoded_encrypted = entry.get_encrypted_value().unwrap();

    assert_eq!(decoded_nonce, original_nonce);
    assert_eq!(decoded_encrypted, original_encrypted);
}

// Inserting an existing name replaces the entry without growing the map.
#[test]
fn test_database_insert_replaces() {
    let mut db = Database::new(vec![1], vec![2], 100_000);
    db.entries.insert("k".to_string(), Entry::new(vec![1], vec![2], false));
    db.entries.insert("k".to_string(), Entry::new(vec![9], vec![8], true));

    assert_eq!(db.entries.len(), 1);
    let e = db.entries.get("k").unwrap();
    assert_eq!(e.get_encrypted_value().unwrap(), vec![9]);
    assert!(e.is_locked);
}

// Removing an entry reports its old position and drops the name.
#[test]
fn test_database_remove() {
    let mut db = Database::new(vec![1], vec![2], 100_000);
    db.entries.insert("a".to_string(), Entry::new(vec![1], vec![2], false));
    db.entries.insert("b".to_string(), Entry::new(vec![3], vec![4], false));

    assert_eq!(db.entries.remove("a"), Some(0));
    assert_eq!(db.entries.remove("a"), None);
    assert_eq!(db.entries.len(), 1);
    assert!(!db.entries.contains_key("a"));
    assert!(db.entries.contains_key("b"));
}
