//! Import tests, on in-memory vaults and bundles.

use ironkey::error::Error;
use ironkey::export::{ExportEncryption, ExportFile, ExportMetadata};
use ironkey::import::{ImportResult, ImportStrategy};
use ironkey::vault::Vault;

fn create_test_vault_with_entries(master_password: &str, entries: Vec<(&str, &str, bool)>) -> Vault {
    let mut vault = Vault::init(master_password, false).unwrap();

    for (key, value, locked) in entries {
        vault.create_entry(key.to_string(), value.to_string()).unwrap();
        if locked {
            vault.toggle_lock(key).unwrap();
        }
    }

    vault
}

#[test]
fn test_import_full_vault_merge_mode() {
    let bundle = {
        let vault = create_test_vault_with_entries(
            "master123",
            vec![
                ("github", "ghp_token123", false),
                ("aws", "aws_secret456", true),
                ("db", "postgres_pass789", false),
            ],
        );
        vault.export_bundle("export123").unwrap()
    };

    let mut vault =
        create_test_vault_with_entries("master456", vec![("existing", "value", false)]);

    let result = vault.import_bundle(&bundle, "export123", ImportStrategy::Merge);

    assert!(result.is_ok());

    let entries = vault.list_entries(None, None).unwrap();
    assert_eq!(entries.len(), 4);

    let keys: Vec<&str> = entries.iter().map(|(k, _)| k.as_str()).collect();
    assert!(keys.contains(&"existing"));
    assert!(keys.contains(&"github"));
    assert!(keys.contains(&"aws"));
    assert!(keys.contains(&"db"));
}

#[test]
fn test_import_replace_mode_overwrites_existing() {
    let bundle = {
        let vault =
            create_test_vault_with_entries("master123", vec![("github", "new_token_999", false)]);
        vault.export_bundle("export123").unwrap()
    };

    let mut vault =
        create_test_vault_with_entries("master456", vec![("github", "old_token_123", false)]);

    let result = vault.import_bundle(&bundle, "export123", ImportStrategy::Replace);

    assert!(result.is_ok());

    let new_value = vault.get_entry("github").unwrap();
    assert_eq!(new_value, "new_token_999");
}

#[test]
fn test_import_merge_mode_skips_existing() {
    let bundle = {
        let vault =
            create_test_vault_with_entries("master123", vec![("github", "new_token_999", false)]);
        vault.export_bundle("export123").unwrap()
    };

    let mut vault =
        create_test_vault_with_entries("master456", vec![("github", "old_token_123", false)]);

    let result = vault.import_bundle(&bundle, "export123", ImportStrategy::Merge);

    assert!(result.is_ok());

    let value = vault.get_entry("github").unwrap();
    assert_eq!(value, "old_token_123");
}

#[test]
fn test_import_preserves_lock_status() {
    let bundle = {
        let vault =
            create_test_vault_with_entries("master123", vec![("locked_key", "secret", true)]);
        vault.export_bundle("export123").unwrap()
    };

    let mut vault = create_test_vault_with_entries("master456", vec![]);

    let result = vault.import_bundle(&bundle, "export123", ImportStrategy::Merge);

    assert!(result.is_ok());

    let entries = vault.list_entries(None, Some(true)).unwrap();
    assert_eq!(entries.len(), 1);
    assert_eq!(entries[0].0, "locked_key");
    assert!(entries[0].1);
}

#[test]
fn test_import_wrong_export_password() {
    let bundle = {
        let vault = create_test_vault_with_entries("master123", vec![("key", "value", false)]);
        vault.export_bundle("correct_password").unwrap()
    };

    let mut vault =
        create_test_vault_with_entries("master456", vec![("mine", "untouched", false)]);

    let result = vault.import_bundle(&bundle, "wrong_password", ImportStrategy::Merge);

    // Wrong password or corrupted data: the one undistinguished failure,
    // and the destination is unchanged.
    assert!(matches!(result, Err(Error::AuthenticationFailure)));
    let entries = vault.list_entries(None, None).unwrap();
    assert_eq!(entries.len(), 1);
    assert_eq!(vault.get_entry("mine").unwrap(), "untouched");
}

#[test]
fn test_import_diff_mode_does_not_modify() {
    let bundle = {
        let vault = create_test_vault_with_entries(
            "master123",
            vec![
                ("new_key", "new_value", false),
                ("github", "new_token", false),
            ],
        );
        vault.export_bundle("export123").unwrap()
    };

    let mut vault =
        create_test_vault_with_entries("master456", vec![("github", "old_token", false)]);

    let result = vault.import_bundle(&bundle, "export123", ImportStrategy::Diff);

    assert!(result.is_ok());

    let entries = vault.list_entries(None, None).unwrap();
    assert_eq!(entries.len(), 1);

    let value = vault.get_entry("github").unwrap();
    assert_eq!(value, "old_token");
}

// Diff classifies exactly as replace would, but changes nothing.
#[test]
fn test_import_diff_classifies_like_replace() {
    let bundle = {
        let vault = create_test_vault_with_entries(
            "master123",
            vec![("github", "new", false), ("fresh", "v", false)],
        );
        vault.export_bundle("p").unwrap()
    };

    let mut diff_vault =
        create_test_vault_with_entries("m1", vec![("github", "old", false)]);
    let diff = diff_vault
        .import_bundle(&bundle, "p", ImportStrategy::Diff)
        .unwrap();

    let mut repl_vault =
        create_test_vault_with_entries("m2", vec![("github", "old", false)]);
    let repl = repl_vault
        .import_bundle(&bundle, "p", ImportStrategy::Replace)
        .unwrap();

    assert_eq!(diff.added, repl.added);
    assert_eq!(diff.updated, repl.updated);
    assert_eq!(diff.skipped, repl.skipped);
    assert_eq!(diff_vault.get_entry("github").unwrap(), "old");
    assert_eq!(repl_vault.get_entry("github").unwrap(), "new");
}

#[test]
fn test_import_empty_export() {
    let bundle = {
        let vault = create_test_vault_with_entries("master123", vec![]);
        vault.export_bundle("export123").unwrap()
    };

    let mut vault =
        create_test_vault_with_entries("master456", vec![("existing", "value", false)]);

    let result = vault.import_bundle(&bundle, "export123", ImportStrategy::Merge);

    assert!(result.is_ok());
    assert_eq!(result.unwrap().total_in_export, 0);

    let entries = vault.list_entries(None, None).unwrap();
    assert_eq!(entries.len(), 1);
    assert_eq!(entries[0].0, "existing");
}

#[test]
fn test_import_into_empty_vault() {
    let bundle = {
        let vault = create_test_vault_with_entries(
            "master123",
            vec![("key1", "value1", false), ("key2", "value2", true)],
        );
        vault.export_bundle("export123").unwrap()
    };

    let mut vault = create_test_vault_with_entries("master456", vec![]);

    let result = vault.import_bundle(&bundle, "export123", ImportStrategy::Merge);

    assert!(result.is_ok());

    let entries = vault.list_entries(None, None).unwrap();
    assert_eq!(entries.len(), 2);

    let locked_entries = vault.list_entries(None, Some(true)).unwrap();
    assert_eq!(locked_entries.len(), 1);
    assert_eq!(locked_entries[0].0, "key2");

    let unlocked_entries = vault.list_entries(None, Some(false)).unwrap();
    assert_eq!(unlocked_entries.len(), 1);
    assert_eq!(unlocked_entries[0].0, "key1");
}

#[test]
fn test_import_validates_format_version() {
    let bundle = ExportFile {
        format_version: "99.0.0".to_string(),
        exported_at: "2024-01-01T00:00:00Z".to_string(),
        entry_count: 0,
        encryption: ExportEncryption {
            algorithm: "AES-256-GCM".to_string(),
            salt: "AAAA".to_string(),
            nonce: "BBBB".to_string(),
            iterations: 100000,
        },
        encrypted_data: "CCCC".to_string(),
        metadata: ExportMetadata {
            exported_from: "ironkey".to_string(),
            vault_name: None,
            tags: None,
        },
    };

    let mut vault = create_test_vault_with_entries("master456", vec![]);

    let result = vault.import_bundle(&bundle, "export123", ImportStrategy::Merge);

    match result {
        Err(Error::UnsupportedFormatVersion(v)) => assert_eq!(v, "99.0.0"),
        other => panic!("expected UnsupportedFormatVersion, got {other:?}"),
    }
}

// A bundle whose binary fields are not base64 is refused before anything
// changes.
#[test]
fn test_import_malformed_bundle() {
    let bundle = ExportFile {
        format_version: "1.0.0".to_string(),
        exported_at: "2024-01-01T00:00:00Z".to_string(),
        entry_count: 0,
        encryption: ExportEncryption {
            algorithm: "AES-256-GCM".to_string(),
            salt: "!!not base64!!".to_string(),
            nonce: "BBBB".to_string(),
            iterations: 100000,
        },
        encrypted_data: "CCCC".to_string(),
        metadata: ExportMetadata {
            exported_from: "ironkey".to_string(),
            vault_name: None,
            tags: None,
        },
    };

    let mut vault = create_test_vault_with_entries("master456", vec![("a", "b", false)]);
    let result = vault.import_bundle(&bundle, "pw", ImportStrategy::Merge);
    assert!(matches!(result, Err(Error::MalformedBundle)));
    assert_eq!(vault.get_entry("a").unwrap(), "b");
}

#[test]
fn test_import_result_creation() {
    let result = ImportResult::new(5);
    assert_eq!(result.total_in_export, 5);
    assert_eq!(result.added.len(), 0);
    assert_eq!(result.updated.len(), 0);
    assert_eq!(result.skipped.len(), 0);
}

#[test]
fn test_unsupported_format_version() {
    // Covered end to end by test_import_validates_format_version, which
    // feeds a bundle of a foreign version through the importer.
}
