use zerogit::error::Error;
use zerogit::objects::{LooseObjectStore, ObjectType, Oid};

// S-001: oid_to_path generates correct path
#[test]
fn test_oid_to_path() {
    let store = LooseObjectStore::new("/repo/.git/objects");
    let oid = Oid::from_hex("da39a3ee5e6b4b0d3255bfef95601890afd80709").unwrap();
    let path = store.oid_to_path(&oid);

    assert!(path.contains("da"));
    assert!(path.contains("39a3ee5e6b4b0d3255bfef95601890afd80709"));
}

// S-009: ObjectType conversion
#[test]
fn test_object_type() {
    assert_eq!(ObjectType::Blob.as_str(), "blob");
    assert_eq!(ObjectType::Tree.as_str(), "tree");
    assert_eq!(ObjectType::Commit.as_str(), "commit");
    assert_eq!(ObjectType::Tag.as_str(), "tag");

    assert_eq!(ObjectType::parse("blob"), Some(ObjectType::Blob));
    assert_eq!(ObjectType::parse("tree"), Some(ObjectType::Tree));
    assert_eq!(ObjectType::parse("commit"), Some(ObjectType::Commit));
    assert_eq!(ObjectType::parse("tag"), Some(ObjectType::Tag));
    assert_eq!(ObjectType::parse("unknown"), None);
}

// S-010: parse_raw_object handles malformed data
#[test]
fn test_parse_malformed() {
    let oid = Oid::from_hex("da39a3ee5e6b4b0d3255bfef95601890afd80709").unwrap();

    // Missing null byte
    let result = LooseObjectStore::parse_raw_object(b"blob 5", &oid);
    assert!(matches!(result, Err(Error::InvalidObject { .. })));

    // Invalid type
    let result = LooseObjectStore::parse_raw_object(b"invalid 5\0hello", &oid);
    assert!(matches!(result, Err(Error::InvalidObject { .. })));

    // Size mismatch
    let result = LooseObjectStore::parse_raw_object(b"blob 10\0hello", &oid);
    assert!(matches!(result, Err(Error::InvalidObject { .. })));
}
