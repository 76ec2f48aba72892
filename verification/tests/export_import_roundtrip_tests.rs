//! Round-trip export → import workflows on in-memory vaults.

use ironkey::import::ImportStrategy;
use ironkey::vault::Vault;

#[test]
fn test_export_import_roundtrip_preserves_all_data() {
    let bundle = {
        let mut vault = Vault::init("source_master", false).unwrap();

        vault
            .create_entry("github".to_string(), "ghp_token123".to_string())
            .unwrap();
        vault
            .create_entry("aws".to_string(), "aws_secret456".to_string())
            .unwrap();
        vault
            .create_entry("db".to_string(), "postgres_pass789".to_string())
            .unwrap();

        vault.toggle_lock("db").unwrap();

        vault.export_bundle("export_password").unwrap()
    };

    let mut vault = Vault::init("dest_master", false).unwrap();

    let result = vault
        .import_bundle(&bundle, "export_password", ImportStrategy::Merge)
        .unwrap();

    assert_eq!(result.added.len(), 3);
    assert_eq!(result.updated.len(), 0);
    assert_eq!(result.skipped.len(), 0);

    assert_eq!(vault.get_entry("github").unwrap(), "ghp_token123");
    assert_eq!(vault.get_entry("aws").unwrap(), "aws_secret456");

    // Entry 'db' is locked, so unlock it before reading.
    vault.toggle_lock("db").unwrap();
    assert_eq!(vault.get_entry("db").unwrap(), "postgres_pass789");
    vault.toggle_lock("db").unwrap();

    let entries = vault.list_entries(None, Some(true)).unwrap();
    assert_eq!(entries.len(), 1);
    assert_eq!(entries[0].0, "db");
}

#[test]
fn test_export_import_merge_preserves_existing() {
    let bundle = {
        let mut vault = Vault::init("source_master", false).unwrap();

        vault
            .create_entry("key1".to_string(), "value1".to_string())
            .unwrap();
        vault
            .create_entry("key2".to_string(), "value2".to_string())
            .unwrap();

        vault.export_bundle("export_password").unwrap()
    };

    let mut vault = Vault::init("dest_master", false).unwrap();

    vault
        .create_entry("key1".to_string(), "existing_value".to_string())
        .unwrap();

    let result = vault
        .import_bundle(&bundle, "export_password", ImportStrategy::Merge)
        .unwrap();

    assert_eq!(result.added.len(), 1);
    assert_eq!(result.added[0], "key2");
    assert_eq!(result.skipped.len(), 1);
    assert_eq!(result.skipped[0], "key1");

    assert_eq!(vault.get_entry("key1").unwrap(), "existing_value");
    assert_eq!(vault.get_entry("key2").unwrap(), "value2");
}

#[test]
fn test_export_import_replace_overwrites_existing() {
    let bundle = {
        let mut vault = Vault::init("source_master", false).unwrap();

        vault
            .create_entry("key1".to_string(), "new_value".to_string())
            .unwrap();
        vault
            .create_entry("key2".to_string(), "value2".to_string())
            .unwrap();

        vault.export_bundle("export_password").unwrap()
    };

    let mut vault = Vault::init("dest_master", false).unwrap();

    vault
        .create_entry("key1".to_string(), "old_value".to_string())
        .unwrap();

    let result = vault
        .import_bundle(&bundle, "export_password", ImportStrategy::Replace)
        .unwrap();

    assert_eq!(result.added.len(), 1);
    assert_eq!(result.added[0], "key2");
    assert_eq!(result.updated.len(), 1);
    assert_eq!(result.updated[0], "key1");

    assert_eq!(vault.get_entry("key1").unwrap(), "new_value");
    assert_eq!(vault.get_entry("key2").unwrap(), "value2");
}

#[test]
fn test_export_import_diff_mode_no_changes() {
    let bundle = {
        let mut vault = Vault::init("source_master", false).unwrap();

        vault
            .create_entry("key1".to_string(), "value1".to_string())
            .unwrap();
        vault
            .create_entry("key2".to_string(), "value2".to_string())
            .unwrap();

        vault.export_bundle("export_password").unwrap()
    };

    let mut vault = Vault::init("dest_master", false).unwrap();

    vault
        .create_entry("existing".to_string(), "value".to_string())
        .unwrap();

    let entries_before = vault.list_entries(None, None).unwrap();
    assert_eq!(entries_before.len(), 1);

    let _result = vault
        .import_bundle(&bundle, "export_password", ImportStrategy::Diff)
        .unwrap();

    let entries_after = vault.list_entries(None, None).unwrap();
    assert_eq!(entries_after.len(), 1);
    assert_eq!(entries_after[0].0, "existing");
}

#[test]
fn test_multiple_export_import_cycles() {
    let bundle1 = {
        let mut vault = Vault::init("master1", false).unwrap();

        vault
            .create_entry("original".to_string(), "data".to_string())
            .unwrap();

        vault.export_bundle("pass1").unwrap()
    };

    let bundle2 = {
        let mut vault = Vault::init("master2", false).unwrap();

        vault
            .import_bundle(&bundle1, "pass1", ImportStrategy::Merge)
            .unwrap();

        vault
            .create_entry("added".to_string(), "new_data".to_string())
            .unwrap();

        vault.export_bundle("pass2").unwrap()
    };

    let mut vault = Vault::init("master3", false).unwrap();

    vault
        .import_bundle(&bundle2, "pass2", ImportStrategy::Merge)
        .unwrap();

    let entries = vault.list_entries(None, None).unwrap();
    assert_eq!(entries.len(), 2);

    assert_eq!(vault.get_entry("original").unwrap(), "data");
    assert_eq!(vault.get_entry("added").unwrap(), "new_data");
}

// The bundle scenario of the specification: a vault with an unlocked and a
// locked entry, merged into an empty vault under the export password.
#[test]
fn test_merge_into_empty_vault_scenario() {
    let bundle = {
        let mut vault = Vault::init("master", false).unwrap();
        vault
            .create_entry("github".to_string(), "tok".to_string())
            .unwrap();
        vault
            .create_entry("aws".to_string(), "secret".to_string())
            .unwrap();
        vault.toggle_lock("aws").unwrap();
        vault.export_bundle("exp1").unwrap()
    };

    let mut vault = Vault::init("other", false).unwrap();
    let result = vault
        .import_bundle(&bundle, "exp1", ImportStrategy::Merge)
        .unwrap();

    let mut added = result.added.clone();
    added.sort();
    assert_eq!(added, vec!["aws".to_string(), "github".to_string()]);
    assert!(result.skipped.is_empty());
    assert!(result.updated.is_empty());

    let locked = vault.list_entries(None, Some(true)).unwrap();
    assert_eq!(locked.len(), 1);
    assert_eq!(locked[0].0, "aws");
}
