use hagi::backup::BackupEntry;
use hagi::backup::backup_file_name;
use hagi::backup::backup_target;
use hagi::backup::fresh_backup_name;
use hagi::backup::newer_eq_test;
use hagi::backup::rotation_plan;

fn entry(name: &str, modified: u64) -> BackupEntry {
    BackupEntry { name: name.to_string(), modified }
}

fn names(v: &[BackupEntry]) -> Vec<String> {
    v.iter().map(|e| e.name.clone()).collect()
}

#[test]
fn test_backup_file_name_format() {
    let n = backup_file_name("settings.json", "20240101_120000");
    assert_eq!(n, "settings.json.backup.20240101_120000");
}

#[test]
fn test_backup_target_existing_file() {
    let r = backup_target("mcp.json", true, "20240101_120000");
    assert_eq!(r, Some("mcp.json.backup.20240101_120000".to_string()));
}

#[test]
fn test_backup_missing_file_no_op() {
    let r = backup_target("mcp.json", false, "20240101_120000");
    assert!(r.is_none());
}

#[test]
fn test_fresh_backup_name_shape() {
    let n = fresh_backup_name("settings.json");
    assert!(n.starts_with("settings.json.backup."));
    assert!(n.len() >= "settings.json.backup.".len() + 15);
}

#[test]
fn test_rotation_keeps_newest() {
    let entries = vec![
        entry("a.json.backup.20240101_000001", 100),
        entry("a.json.backup.20240103_000001", 300),
        entry("unrelated.txt", 999),
        entry("a.json.backup.20240102_000001", 200),
        entry("a.json.backup.20240104_000001", 400),
        entry("a.json.backup.20240105_000001", 500),
    ];
    let plan = rotation_plan(entries, "a.json", 3);

    assert_eq!(
        names(&plan.keep),
        vec![
            "a.json.backup.20240105_000001".to_string(),
            "a.json.backup.20240104_000001".to_string(),
            "a.json.backup.20240103_000001".to_string(),
        ]
    );
    assert_eq!(
        names(&plan.delete),
        vec![
            "a.json.backup.20240102_000001".to_string(),
            "a.json.backup.20240101_000001".to_string(),
        ]
    );
}

#[test]
fn test_rotation_under_limit_deletes_nothing() {
    let entries = vec![
        entry("a.json.backup.20240101_000001", 100),
        entry("a.json.backup.20240102_000001", 200),
    ];
    let plan = rotation_plan(entries, "a.json", 3);
    assert_eq!(plan.keep.len(), 2);
    assert!(plan.delete.is_empty());
}

#[test]
fn test_rotation_ignores_other_files() {
    let entries = vec![entry("b.json.backup.20240101_000001", 100), entry("a.json", 50)];
    let plan = rotation_plan(entries, "a.json", 3);
    assert!(plan.keep.is_empty());
    assert!(plan.delete.is_empty());
}

#[test]
fn test_rotation_tie_break_is_lexical() {
    let entries = vec![
        entry("a.json.backup.20240101_000001", 100),
        entry("a.json.backup.20240101_000002", 100),
    ];
    let plan = rotation_plan(entries, "a.json", 1);
    assert_eq!(names(&plan.keep), vec!["a.json.backup.20240101_000002".to_string()]);
    assert_eq!(names(&plan.delete), vec!["a.json.backup.20240101_000001".to_string()]);
}

#[test]
fn test_newer_eq_ordering() {
    let old = entry("x.backup.1", 100);
    let new = entry("x.backup.2", 200);
    assert!(newer_eq_test(&new, &old));
    assert!(!newer_eq_test(&old, &new));
    assert!(newer_eq_test(&old, &old));
}
