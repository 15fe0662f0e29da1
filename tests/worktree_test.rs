use zerogit::objects::{FileMode, Oid, TreeEntry};
use zerogit::worktree::{format_commit, build_tree_content, validate_branch_name};

#[test]
fn test_build_tree_content() {
    let oid = Oid::from_hex("da39a3ee5e6b4b0d3255bfef95601890afd80709").unwrap();
    let entries = vec![TreeEntry { mode: FileMode::Regular, name: "file.txt".to_string(), oid }];

    let content = build_tree_content(&entries);

    // Verify format: "100644 file.txt\0<20-byte-sha>"
    assert_eq!(&content[..7], b"100644 ");
    assert_eq!(&content[7..15], b"file.txt");
    assert_eq!(content[15], 0);
    assert_eq!(&content[16..], oid.as_bytes());
}

#[test]
fn test_format_commit() {
    let tree_oid = Oid::from_hex("da39a3ee5e6b4b0d3255bfef95601890afd80709").unwrap();
    let parent_oid = Oid::from_hex("0123456789abcdef0123456789abcdef01234567").unwrap();

    let content = format_commit(
        &tree_oid,
        Some(&parent_oid),
        "Test User <test@example.com> 1234567890 +0000",
        "Test User <test@example.com> 1234567890 +0000",
        "Test message",
    );

    let content_str = String::from_utf8(content).unwrap();
    assert!(content_str.contains(&format!("tree {}", tree_oid.to_hex())));
    assert!(content_str.contains(&format!("parent {}", parent_oid.to_hex())));
    assert!(content_str.contains("author Test User <test@example.com>"));
    assert!(content_str.contains("committer Test User <test@example.com>"));
    assert!(content_str.contains("\n\nTest message"));
}

#[test]
fn test_format_commit_no_parent() {
    let tree_oid = Oid::from_hex("da39a3ee5e6b4b0d3255bfef95601890afd80709").unwrap();

    let content = format_commit(
        &tree_oid,
        None,
        "Test User <test@example.com> 1234567890 +0000",
        "Test User <test@example.com> 1234567890 +0000",
        "Initial commit",
    );

    let content_str = String::from_utf8(content).unwrap();
    assert!(content_str.contains(&format!("tree {}", tree_oid.to_hex())));
    assert!(!content_str.contains("parent")); // No parent line
    assert!(content_str.contains("Initial commit"));
}

#[test]
fn test_validate_branch_name() {
    // Valid names
    assert!(validate_branch_name("main").is_ok());
    assert!(validate_branch_name("feature/foo").is_ok());
    assert!(validate_branch_name("fix-123").is_ok());
    assert!(validate_branch_name("a/b/c").is_ok());

    // Invalid names
    assert!(validate_branch_name("").is_err());
    assert!(validate_branch_name("-start").is_err());
    assert!(validate_branch_name("/slash").is_err());
    assert!(validate_branch_name("slash/").is_err());
    assert!(validate_branch_name("foo..bar").is_err());
    assert!(validate_branch_name("foo.lock").is_err());
    assert!(validate_branch_name("foo~bar").is_err());
    assert!(validate_branch_name("foo^bar").is_err());
    assert!(validate_branch_name("foo:bar").is_err());
    assert!(validate_branch_name("foo?bar").is_err());
    assert!(validate_branch_name("foo*bar").is_err());
    assert!(validate_branch_name("foo[bar").is_err());
    assert!(validate_branch_name("foo\\bar").is_err());
}
