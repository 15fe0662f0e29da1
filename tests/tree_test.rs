use zerogit::error::Error;
use zerogit::objects::{FileMode, ObjectType, Oid, RawObject, Tree};

fn make_tree_content(entries: &[(&str, &str, &[u8; 20])]) -> Vec<u8> {
    let mut content = Vec::new();
    for (mode, name, sha1) in entries {
        content.extend_from_slice(mode.as_bytes());
        content.push(b' ');
        content.extend_from_slice(name.as_bytes());
        content.push(0);
        content.extend_from_slice(*sha1);
    }
    content
}

fn make_tree(entries: &[(&str, &str, &[u8; 20])]) -> RawObject {
    RawObject {
        object_type: ObjectType::Tree,
        content: make_tree_content(entries),
    }
}

fn make_blob_raw() -> RawObject {
    RawObject {
        object_type: ObjectType::Blob,
        content: vec![],
    }
}

const SHA1_A: [u8; 20] = [
    0xda, 0x39, 0xa3, 0xee, 0x5e, 0x6b, 0x4b, 0x0d, 0x32, 0x55, 0xbf, 0xef, 0x95, 0x60, 0x18,
    0x90, 0xaf, 0xd8, 0x07, 0x09,
];

const SHA1_B: [u8; 20] = [
    0x01, 0x23, 0x45, 0x67, 0x89, 0xab, 0xcd, 0xef, 0x01, 0x23, 0x45, 0x67, 0x89, 0xab, 0xcd,
    0xef, 0x01, 0x23, 0x45, 0x67,
];

// T-001: Parse tree from RawObject
#[test]
fn test_parse_tree() {
    let raw = make_tree(&[("100644", "file.txt", &SHA1_A)]);
    let tree = Tree::parse(raw).unwrap();
    assert_eq!(tree.len(), 1);
}

// T-002: Parse returns TypeMismatch for non-tree
#[test]
fn tree_test_parse_type_mismatch() {
    let raw = make_blob_raw();
    let result = Tree::parse(raw);
    assert!(matches!(
        result,
        Err(Error::TypeMismatch {
            expected: "tree",
            actual: "blob"
        })
    ));
}

// T-003: Parse multiple entries
#[test]
fn test_parse_multiple_entries() {
    let raw = make_tree(&[
        ("100644", "file1.txt", &SHA1_A),
        ("100755", "script.sh", &SHA1_B),
        ("40000", "subdir", &SHA1_A),
    ]);
    let tree = Tree::parse(raw).unwrap();

    assert_eq!(tree.len(), 3);
    assert_eq!(tree.entries()[0].name(), "file1.txt");
    assert_eq!(tree.entries()[1].name(), "script.sh");
    assert_eq!(tree.entries()[2].name(), "subdir");
}

// T-004: entries() returns all entries
#[test]
fn test_entries() {
    let raw = make_tree(&[("100644", "a.txt", &SHA1_A), ("100644", "b.txt", &SHA1_B)]);
    let tree = Tree::parse(raw).unwrap();

    let entries = tree.entries();
    assert_eq!(entries.len(), 2);
    assert_eq!(entries[0].name(), "a.txt");
    assert_eq!(entries[1].name(), "b.txt");
}

// T-005: get() finds entry by name
#[test]
fn test_get() {
    let raw = make_tree(&[
        ("100644", "file1.txt", &SHA1_A),
        ("40000", "subdir", &SHA1_B),
    ]);
    let tree = Tree::parse(raw).unwrap();

    let entry = tree.get("file1.txt").unwrap();
    assert_eq!(entry.name(), "file1.txt");
    assert_eq!(entry.mode(), FileMode::Regular);

    let entry = tree.get("subdir").unwrap();
    assert_eq!(entry.name(), "subdir");
    assert!(entry.is_directory());

    assert!(tree.get("nonexistent").is_none());
}

// T-006: iter() iterates over entries
#[test]
fn test_iter() {
    let raw = make_tree(&[("100644", "a.txt", &SHA1_A), ("100755", "b.sh", &SHA1_B)]);
    let tree = Tree::parse(raw).unwrap();

    let names: Vec<_> = tree.iter().map(|e| e.name()).collect();
    assert_eq!(names, vec!["a.txt", "b.sh"]);
}

// T-007: FileMode parsing
#[test]
fn test_file_mode() {
    assert_eq!(FileMode::from_octal("100644"), Some(FileMode::Regular));
    assert_eq!(FileMode::from_octal("644"), Some(FileMode::Regular));
    assert_eq!(FileMode::from_octal("100755"), Some(FileMode::Executable));
    assert_eq!(FileMode::from_octal("755"), Some(FileMode::Executable));
    assert_eq!(FileMode::from_octal("120000"), Some(FileMode::Symlink));
    assert_eq!(FileMode::from_octal("40000"), Some(FileMode::Directory));
    assert_eq!(FileMode::from_octal("160000"), Some(FileMode::Submodule));
    assert_eq!(FileMode::from_octal("invalid"), None);
}

// T-008: FileMode methods
#[test]
fn test_file_mode_methods() {
    assert!(FileMode::Regular.is_file());
    assert!(FileMode::Executable.is_file());
    assert!(FileMode::Symlink.is_file());
    assert!(!FileMode::Directory.is_file());
    assert!(!FileMode::Submodule.is_file());

    assert!(!FileMode::Regular.is_directory());
    assert!(FileMode::Directory.is_directory());

    assert!(!FileMode::Regular.is_executable());
    assert!(FileMode::Executable.is_executable());

    assert_eq!(FileMode::Regular.as_octal(), "100644");
    assert_eq!(FileMode::Executable.as_octal(), "100755");
    assert_eq!(FileMode::Directory.as_octal(), "40000");
}

// T-009: TreeEntry methods
#[test]
fn test_tree_entry_methods() {
    let raw = make_tree(&[("100644", "file.txt", &SHA1_A), ("40000", "dir", &SHA1_B)]);
    let tree = Tree::parse(raw).unwrap();

    let file = tree.get("file.txt").unwrap();
    assert_eq!(file.mode(), FileMode::Regular);
    assert_eq!(file.name(), "file.txt");
    assert_eq!(file.oid(), &Oid::from_bytes(SHA1_A));
    assert!(file.is_file());
    assert!(!file.is_directory());

    let dir = tree.get("dir").unwrap();
    assert!(dir.is_directory());
    assert!(!dir.is_file());
}

// Additional: Empty tree
#[test]
fn test_empty_tree() {
    let raw = RawObject {
        object_type: ObjectType::Tree,
        content: vec![],
    };
    let tree = Tree::parse(raw).unwrap();
    assert!(tree.is_empty());
    assert_eq!(tree.len(), 0);
}

// Additional: Parse errors
#[test]
fn test_parse_errors() {
    // Missing space
    let raw = RawObject {
        object_type: ObjectType::Tree,
        content: b"100644filename".to_vec(),
    };
    assert!(Tree::parse(raw).is_err());

    // Missing null byte
    let raw = RawObject {
        object_type: ObjectType::Tree,
        content: b"100644 filename".to_vec(),
    };
    assert!(Tree::parse(raw).is_err());

    // Truncated SHA-1
    let mut content = Vec::new();
    content.extend_from_slice(b"100644 file\0");
    content.extend_from_slice(&[0u8; 10]); // Only 10 bytes instead of 20
    let raw = RawObject {
        object_type: ObjectType::Tree,
        content,
    };
    assert!(Tree::parse(raw).is_err());
}
