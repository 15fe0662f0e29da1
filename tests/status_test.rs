use zerogit::status::{FileStatus, StatusEntry};

#[test]
fn test_file_status_methods() {
    assert!(FileStatus::Added.is_staged());
    assert!(FileStatus::StagedModified.is_staged());
    assert!(FileStatus::StagedDeleted.is_staged());
    assert!(!FileStatus::Modified.is_staged());
    assert!(!FileStatus::Deleted.is_staged());
    assert!(!FileStatus::Untracked.is_staged());

    assert!(FileStatus::Modified.is_unstaged());
    assert!(FileStatus::Deleted.is_unstaged());
    assert!(FileStatus::Untracked.is_unstaged());
    assert!(!FileStatus::Added.is_unstaged());
    assert!(!FileStatus::StagedModified.is_unstaged());
    assert!(!FileStatus::StagedDeleted.is_unstaged());
}

#[test]
fn test_status_entry() {
    let entry = StatusEntry::new("test.txt".to_string(), FileStatus::Modified);
    assert_eq!(entry.path(), "test.txt");
    assert_eq!(entry.status(), FileStatus::Modified);
}
