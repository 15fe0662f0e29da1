use zerogit::diff::{detect_renames, DiffDelta, DiffStats, DiffStatus, TreeDiff};
use zerogit::objects::{FileMode, Oid};

#[test]
fn test_diff_status_as_char() {
    assert_eq!(DiffStatus::Added.as_char(), 'A');
    assert_eq!(DiffStatus::Deleted.as_char(), 'D');
    assert_eq!(DiffStatus::Modified.as_char(), 'M');
    assert_eq!(DiffStatus::Renamed.as_char(), 'R');
    assert_eq!(DiffStatus::Copied.as_char(), 'C');
}

#[test]
fn test_diff_stats_total() {
    let stats = DiffStats {
        added: 2,
        deleted: 1,
        modified: 3,
        renamed: 1,
        copied: 0,
    };
    assert_eq!(stats.total(), 7);
}

#[test]
fn test_diff_stats_default() {
    let stats = DiffStats::default();
    assert_eq!(stats.added, 0);
    assert_eq!(stats.deleted, 0);
    assert_eq!(stats.modified, 0);
    assert_eq!(stats.renamed, 0);
    assert_eq!(stats.copied, 0);
    assert_eq!(stats.total(), 0);
}

#[test]
fn test_tree_diff_is_empty() {
    let diff = TreeDiff { deltas: vec![] };
    assert!(diff.is_empty());
    assert_eq!(diff.len(), 0);
}

#[test]
fn test_tree_diff_stats() {
    let oid = Oid::from_hex("da39a3ee5e6b4b0d3255bfef95601890afd80709").unwrap();
    let deltas = vec![
        DiffDelta::added("new.txt".to_string(), oid, FileMode::Regular),
        DiffDelta::deleted("old.txt".to_string(), oid, FileMode::Regular),
        DiffDelta::modified(
            "changed.txt".to_string(),
            oid,
            oid,
            FileMode::Regular,
            FileMode::Regular,
        ),
    ];
    let diff = TreeDiff { deltas };

    let stats = diff.stats();
    assert_eq!(stats.added, 1);
    assert_eq!(stats.deleted, 1);
    assert_eq!(stats.modified, 1);
    assert_eq!(stats.total(), 3);
}

#[test]
fn test_diff_delta_accessors() {
    let oid = Oid::from_hex("da39a3ee5e6b4b0d3255bfef95601890afd80709").unwrap();
    let delta = DiffDelta::added("test.txt".to_string(), oid, FileMode::Regular);

    assert_eq!(delta.status(), DiffStatus::Added);
    assert_eq!(delta.path(), "test.txt");
    assert!(delta.old_path().is_none());
    assert!(delta.old_oid().is_none());
    assert_eq!(delta.new_oid(), Some(&oid));
    assert!(delta.old_mode().is_none());
    assert_eq!(delta.new_mode(), Some(FileMode::Regular));
    assert_eq!(delta.status_char(), 'A');
}

#[test]
fn test_diff_delta_renamed() {
    let oid = Oid::from_hex("da39a3ee5e6b4b0d3255bfef95601890afd80709").unwrap();
    let delta = DiffDelta::renamed(
        "old.txt".to_string(),
        "new.txt".to_string(),
        oid,
        FileMode::Regular,
    );

    assert_eq!(delta.status(), DiffStatus::Renamed);
    assert_eq!(delta.path(), "new.txt");
    assert_eq!(delta.old_path(), Some("old.txt"));
    assert_eq!(delta.old_oid(), Some(&oid));
    assert_eq!(delta.new_oid(), Some(&oid));
    assert_eq!(delta.status_char(), 'R');
}

#[test]
fn test_detect_renames() {
    let oid = Oid::from_hex("da39a3ee5e6b4b0d3255bfef95601890afd80709").unwrap();
    let mut deltas = vec![
        DiffDelta::deleted("old.txt".to_string(), oid, FileMode::Regular),
        DiffDelta::added("new.txt".to_string(), oid, FileMode::Regular),
    ];

    detect_renames(&mut deltas);

    assert_eq!(deltas.len(), 1);
    assert_eq!(deltas[0].status(), DiffStatus::Renamed);
    assert_eq!(deltas[0].path(), "new.txt");
    assert_eq!(deltas[0].old_path(), Some("old.txt"));
}

#[test]
fn test_detect_renames_no_match() {
    let oid1 = Oid::from_hex("da39a3ee5e6b4b0d3255bfef95601890afd80709").unwrap();
    let oid2 = Oid::from_hex("0000000000000000000000000000000000000000").unwrap();
    let mut deltas = vec![
        DiffDelta::deleted("old.txt".to_string(), oid1, FileMode::Regular),
        DiffDelta::added("new.txt".to_string(), oid2, FileMode::Regular),
    ];

    detect_renames(&mut deltas);

    // No rename detected, still separate add and delete
    assert_eq!(deltas.len(), 2);
}
