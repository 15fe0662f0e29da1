use zerogit::error::Error;
use zerogit::objects::commit::parse_timezone;
use zerogit::objects::{Commit, ObjectType, Oid, RawObject, Signature};

fn make_commit(content: &str) -> RawObject {
    RawObject {
        object_type: ObjectType::Commit,
        content: content.as_bytes().to_vec(),
    }
}

fn make_blob() -> RawObject {
    RawObject {
        object_type: ObjectType::Blob,
        content: vec![],
    }
}

const TREE_SHA: &str = "da39a3ee5e6b4b0d3255bfef95601890afd80709";
const PARENT_SHA: &str = "0123456789abcdef0123456789abcdef01234567";
const COMMIT_SHA: &str = "abcdef0123456789abcdef0123456789abcdef01";

fn dummy_oid() -> Oid {
    Oid::from_hex(COMMIT_SHA).unwrap()
}

fn simple_commit() -> String {
    format!(
        "tree {}\n\
         author John Doe <john@example.com> 1234567890 +0900\n\
         committer Jane Doe <jane@example.com> 1234567899 -0500\n\
         \n\
         Initial commit\n\
         \n\
         This is the body.",
        TREE_SHA
    )
}

fn commit_with_parent() -> String {
    format!(
        "tree {}\n\
         parent {}\n\
         author John Doe <john@example.com> 1234567890 +0000\n\
         committer John Doe <john@example.com> 1234567890 +0000\n\
         \n\
         Second commit",
        TREE_SHA, PARENT_SHA
    )
}

// CM-001: Parse commit from RawObject
#[test]
fn test_parse_commit() {
    let raw = make_commit(&simple_commit());
    let commit = Commit::parse(dummy_oid(), raw).unwrap();
    assert_eq!(commit.tree().to_hex(), TREE_SHA);
}

// CM-OID: oid() returns the commit's OID
#[test]
fn test_oid() {
    let raw = make_commit(&simple_commit());
    let commit = Commit::parse(dummy_oid(), raw).unwrap();
    assert_eq!(commit.oid().to_hex(), COMMIT_SHA);
}

// CM-002: Parse returns TypeMismatch for non-commit
#[test]
fn commit_test_parse_type_mismatch() {
    let raw = make_blob();
    let result = Commit::parse(dummy_oid(), raw);
    assert!(matches!(
        result,
        Err(Error::TypeMismatch {
            expected: "commit",
            actual: "blob"
        })
    ));
}

// CM-003: Parse commit with parent
#[test]
fn test_parse_with_parent() {
    let raw = make_commit(&commit_with_parent());
    let commit = Commit::parse(dummy_oid(), raw).unwrap();

    assert_eq!(commit.parents().len(), 1);
    assert_eq!(commit.parent().unwrap().to_hex(), PARENT_SHA);
    assert!(!commit.is_root());
    assert!(!commit.is_merge());
}

// CM-004: Parse root commit (no parent)
#[test]
fn test_parse_root_commit() {
    let raw = make_commit(&simple_commit());
    let commit = Commit::parse(dummy_oid(), raw).unwrap();

    assert!(commit.parents().is_empty());
    assert!(commit.parent().is_none());
    assert!(commit.is_root());
}

// CM-005: Parse merge commit (multiple parents)
#[test]
fn test_parse_merge_commit() {
    let parent2 = "abcdef0123456789abcdef0123456789abcdef01";
    let content = format!(
        "tree {}\n\
         parent {}\n\
         parent {}\n\
         author John Doe <john@example.com> 1234567890 +0000\n\
         committer John Doe <john@example.com> 1234567890 +0000\n\
         \n\
         Merge branch 'feature'",
        TREE_SHA, PARENT_SHA, parent2
    );
    let raw = make_commit(&content);
    let commit = Commit::parse(dummy_oid(), raw).unwrap();

    assert_eq!(commit.parents().len(), 2);
    assert!(commit.is_merge());
}

// CM-006: Parse author and committer signatures
#[test]
fn test_parse_signatures() {
    let raw = make_commit(&simple_commit());
    let commit = Commit::parse(dummy_oid(), raw).unwrap();

    let author = commit.author();
    assert_eq!(author.name(), "John Doe");
    assert_eq!(author.email(), "john@example.com");
    assert_eq!(author.timestamp(), 1234567890);
    assert_eq!(author.tz_offset(), 540); // +0900 = 9*60 = 540

    let committer = commit.committer();
    assert_eq!(committer.name(), "Jane Doe");
    assert_eq!(committer.email(), "jane@example.com");
    assert_eq!(committer.timestamp(), 1234567899);
    assert_eq!(committer.tz_offset(), -300); // -0500 = -5*60 = -300
}

// CM-007: Parse timezone correctly
#[test]
fn test_parse_timezone() {
    assert_eq!(parse_timezone("+0000").unwrap(), 0);
    assert_eq!(parse_timezone("+0900").unwrap(), 540);
    assert_eq!(parse_timezone("-0500").unwrap(), -300);
    assert_eq!(parse_timezone("+1200").unwrap(), 720);
    assert_eq!(parse_timezone("-1100").unwrap(), -660);
    assert_eq!(parse_timezone("+0530").unwrap(), 330); // India

    assert!(parse_timezone("0000").is_err());
    assert!(parse_timezone("+000").is_err());
    assert!(parse_timezone("invalid").is_err());
}

// CM-008: message() returns full message
#[test]
fn test_message() {
    let raw = make_commit(&simple_commit());
    let commit = Commit::parse(dummy_oid(), raw).unwrap();

    let msg = commit.message();
    assert!(msg.contains("Initial commit"));
    assert!(msg.contains("This is the body."));
}

// CM-009: summary() returns first line
#[test]
fn test_summary() {
    let raw = make_commit(&simple_commit());
    let commit = Commit::parse(dummy_oid(), raw).unwrap();

    assert_eq!(commit.summary(), "Initial commit");
}

// Additional: Empty message
#[test]
fn test_empty_message() {
    let content = format!(
        "tree {}\n\
         author John Doe <john@example.com> 1234567890 +0000\n\
         committer John Doe <john@example.com> 1234567890 +0000\n\
         ",
        TREE_SHA
    );
    let raw = make_commit(&content);
    let commit = Commit::parse(dummy_oid(), raw).unwrap();

    assert_eq!(commit.message(), "");
    assert_eq!(commit.summary(), "");
}

// Additional: Single line message
#[test]
fn test_single_line_message() {
    let content = format!(
        "tree {}\n\
         author John Doe <john@example.com> 1234567890 +0000\n\
         committer John Doe <john@example.com> 1234567890 +0000\n\
         \n\
         Single line",
        TREE_SHA
    );
    let raw = make_commit(&content);
    let commit = Commit::parse(dummy_oid(), raw).unwrap();

    assert_eq!(commit.message(), "Single line");
    assert_eq!(commit.summary(), "Single line");
}

// Additional: Missing tree should error
#[test]
fn test_missing_tree() {
    let content = "author John Doe <john@example.com> 1234567890 +0000\n\
         committer John Doe <john@example.com> 1234567890 +0000\n\
         \n\
         Message";
    let raw = make_commit(content);
    let result = Commit::parse(dummy_oid(), raw);
    assert!(matches!(result, Err(Error::InvalidObject { .. })));
}

// Additional: Signature parsing
#[test]
fn test_signature_parse() {
    let sig = Signature::parse("John Doe <john@example.com> 1234567890 +0900").unwrap();
    assert_eq!(sig.name(), "John Doe");
    assert_eq!(sig.email(), "john@example.com");
    assert_eq!(sig.timestamp(), 1234567890);
    assert_eq!(sig.tz_offset(), 540);

    // Name with special characters
    let sig = Signature::parse("José García <jose@example.com> 1234567890 +0000").unwrap();
    assert_eq!(sig.name(), "José García");
}
