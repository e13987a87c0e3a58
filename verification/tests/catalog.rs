//! Catalog loading: sequential scan with stop-at-gap, SQL normalization,
//! and header label extraction.

use rmmm::catalog::{label_of, normalize_sql, DirEntry, MigrationState};

fn bv(s: &str) -> Vec<u8> {
    s.as_bytes().to_vec()
}

fn entry(name: &str, contents: &str) -> DirEntry {
    DirEntry { name: bv(name), contents: bv(contents) }
}

#[test]
fn test_basic_flow() {
    let uut = MigrationState::load(&vec![]);
    assert_eq!(uut.all_ids().len(), 0);
    assert_eq!(uut.highest_id(), 0);
    assert_eq!(uut.migrations_by_id().len(), 0);
}

#[test]
fn test_exists() {
    let v1 = "CREATE TABLE test(id INT PRIMARY KEY, value BLOB)";
    let v2 = "ALTER TABLE test ADD INDEX `idx_test_on_value` (`value`)";
    let entries = vec![entry("v1.sql", v1), entry("v2.sql", v2)];
    let uut = MigrationState::load(&entries);
    assert_eq!(uut.all_ids().len(), 2);
    assert_eq!(uut.highest_id(), 2);
    assert_eq!(uut.migrations_by_id().len(), 2);
}

#[test]
fn test_gap_truncates() {
    // v1 and v3 exist but v2 does not: scanning stops at the gap.
    let entries = vec![entry("v1.sql", "A"), entry("v3.sql", "C")];
    let uut = MigrationState::load(&entries);
    assert_eq!(uut.highest_id(), 1);
    assert!(uut.all_ids().contains(&1));
    assert!(!uut.all_ids().contains(&3));
}

#[test]
fn test_downgrade_companion() {
    let entries = vec![
        entry("v1.sql", "CREATE TABLE a(x INT)"),
        entry("v1_downgrade.sql", "DROP TABLE a"),
        entry("v2.sql", "CREATE TABLE b(x INT)"),
    ];
    let uut = MigrationState::load(&entries);
    assert_eq!(uut.highest_id(), 2);
    assert_eq!(uut.migrations[0].downgrade_text, Some(bv("DROP TABLE a")));
    assert_eq!(uut.migrations[1].downgrade_text, None);
}

#[test]
fn test_normalize_strips_comments() {
    let raw = bv("-- a comment\nCREATE x\n  \nfoo /* note */ bar\n");
    assert_eq!(normalize_sql(&raw), bv("\nCREATE x\n\nfoo  bar\n"));
}

#[test]
fn test_label_extraction() {
    let raw = bv("/* rmmm migration v12 - add users table */\nCREATE TABLE users(id INT)");
    assert_eq!(label_of(&raw), Some(bv("add users table")));
    assert_eq!(label_of(&bv("CREATE TABLE users(id INT)")), None);
    assert_eq!(label_of(&bv("/* rmmm migration v - missing digits */")), None);
    assert_eq!(label_of(&bv("")), None);
}

#[test]
fn test_loaded_migration_fields() {
    let entries = vec![entry(
        "v1.sql",
        "/* rmmm migration v1 - first */\nCREATE TABLE a(x INT)",
    )];
    let uut = MigrationState::load(&entries);
    assert_eq!(uut.migrations[0].id, 1);
    assert_eq!(uut.migrations[0].label, Some(bv("first")));
    assert_eq!(
        uut.migrations[0].upgrade_text,
        bv("\nCREATE TABLE a(x INT)")
    );
}
