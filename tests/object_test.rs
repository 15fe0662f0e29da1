use zerogit::objects::{Blob, Commit, Object, ObjectType, Oid, RawObject, Tree};


fn make_blob_raw(content: &[u8]) -> RawObject {
    RawObject {
        object_type: ObjectType::Blob,
        content: content.to_vec(),
    }
}

fn make_tree_raw() -> RawObject {
    RawObject {
        object_type: ObjectType::Tree,
        content: vec![],
    }
}

fn make_commit_raw() -> RawObject {
    let content = "tree da39a3ee5e6b4b0d3255bfef95601890afd80709\n\
                   author John Doe <john@example.com> 1234567890 +0000\n\
                   committer John Doe <john@example.com> 1234567890 +0000\n\
                   \n\
                   Test commit";
    RawObject {
        object_type: ObjectType::Commit,
        content: content.as_bytes().to_vec(),
    }
}

// O-001: Object::Blob can be created from Blob
#[test]
fn test_object_from_blob() {
    let blob = Blob::parse(make_blob_raw(b"Hello")).unwrap();
    let obj = Object::from(blob);
    assert!(matches!(obj, Object::Blob(_)));
}

// O-002: Object::Tree can be created from Tree
#[test]
fn test_object_from_tree() {
    let tree = Tree::parse(make_tree_raw()).unwrap();
    let obj = Object::from(tree);
    assert!(matches!(obj, Object::Tree(_)));
}

// O-003: Object::Commit can be created from Commit
#[test]
fn test_object_from_commit() {
    let commit = Commit::parse(Oid::from_bytes([0u8; 20]), make_commit_raw()).unwrap();
    let obj = Object::from(commit);
    assert!(matches!(obj, Object::Commit(_)));
}

// O-004: kind() returns correct ObjectType
#[test]
fn test_kind() {
    let blob = Object::from(Blob::parse(make_blob_raw(b"test")).unwrap());
    assert_eq!(blob.kind(), ObjectType::Blob);

    let tree = Object::from(Tree::parse(make_tree_raw()).unwrap());
    assert_eq!(tree.kind(), ObjectType::Tree);

    let commit = Object::from(Commit::parse(Oid::from_bytes([0u8; 20]), make_commit_raw()).unwrap());
    assert_eq!(commit.kind(), ObjectType::Commit);
}

// O-005: as_blob() returns Some for Blob, None for others
#[test]
fn test_as_blob() {
    let blob_obj = Object::from(Blob::parse(make_blob_raw(b"test")).unwrap());
    assert!(blob_obj.as_blob().is_some());
    assert!(blob_obj.as_tree().is_none());
    assert!(blob_obj.as_commit().is_none());
}

// O-006: as_tree() returns Some for Tree, None for others
#[test]
fn test_as_tree() {
    let tree_obj = Object::from(Tree::parse(make_tree_raw()).unwrap());
    assert!(tree_obj.as_tree().is_some());
    assert!(tree_obj.as_blob().is_none());
    assert!(tree_obj.as_commit().is_none());
}

// O-007: as_commit() returns Some for Commit, None for others
#[test]
fn test_as_commit() {
    let commit_obj = Object::from(Commit::parse(Oid::from_bytes([0u8; 20]), make_commit_raw()).unwrap());
    assert!(commit_obj.as_commit().is_some());
    assert!(commit_obj.as_blob().is_none());
    assert!(commit_obj.as_tree().is_none());
}

// O-008: into_blob() returns Some for Blob, None for others
#[test]
fn test_into_blob() {
    let blob_obj = Object::from(Blob::parse(make_blob_raw(b"test")).unwrap());
    let blob = blob_obj.into_blob();
    assert!(blob.is_some());
    assert_eq!(blob.unwrap().content(), b"test");

    let tree_obj = Object::from(Tree::parse(make_tree_raw()).unwrap());
    assert!(tree_obj.into_blob().is_none());
}

// O-009: into_tree() returns Some for Tree, None for others
#[test]
fn test_into_tree() {
    let tree_obj = Object::from(Tree::parse(make_tree_raw()).unwrap());
    let tree = tree_obj.into_tree();
    assert!(tree.is_some());
    assert!(tree.unwrap().is_empty());

    let blob_obj = Object::from(Blob::parse(make_blob_raw(b"test")).unwrap());
    assert!(blob_obj.into_tree().is_none());
}

// O-010: into_commit() returns Some for Commit, None for others
#[test]
fn test_into_commit() {
    let commit_obj = Object::from(Commit::parse(Oid::from_bytes([0u8; 20]), make_commit_raw()).unwrap());
    let commit = commit_obj.into_commit();
    assert!(commit.is_some());
    assert_eq!(commit.unwrap().summary(), "Test commit");

    let blob_obj = Object::from(Blob::parse(make_blob_raw(b"test")).unwrap());
    assert!(blob_obj.into_commit().is_none());
}

// O-011: as_* methods return references to inner data
#[test]
fn test_as_methods_return_references() {
    let blob_obj = Object::from(Blob::parse(make_blob_raw(b"content")).unwrap());
    let blob_ref = blob_obj.as_blob().unwrap();
    assert_eq!(blob_ref.content(), b"content");

    // Object is still usable after as_* call
    assert_eq!(blob_obj.kind(), ObjectType::Blob);
}
