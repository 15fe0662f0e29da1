use zerogit::index::{Index, IndexEntry};
use zerogit::objects::{FileMode, Oid};

const SHA1_A: [u8; 20] = [
    0xda, 0x39, 0xa3, 0xee, 0x5e, 0x6b, 0x4b, 0x0d, 0x32, 0x55, 0xbf, 0xef, 0x95, 0x60, 0x18,
    0x90, 0xaf, 0xd8, 0x07, 0x09,
];

fn make_entry(path: &str) -> IndexEntry {
    IndexEntry::new(
        1700000000, // ctime
        1700000001, // mtime
        100,        // dev
        12345,      // ino
        FileMode::Regular,
        1000, // uid
        1000, // gid
        42,   // size
        Oid::from_bytes(SHA1_A),
        path,
        0, // stage
    )
}

#[test]
fn test_index_basic() {
    let entries = vec![make_entry("file.txt"), make_entry("dir/file2.txt")];
    let index = Index::new(2, entries);

    assert_eq!(index.version(), 2);
    assert_eq!(index.len(), 2);
    assert!(!index.is_empty());
}

#[test]
fn test_index_empty() {
    let index = Index::new(2, vec![]);
    assert!(index.is_empty());
    assert_eq!(index.len(), 0);
}

#[test]
fn test_index_get() {
    let entries = vec![make_entry("file.txt"), make_entry("dir/file2.txt")];
    let index = Index::new(2, entries);

    let entry = index.get(("file.txt")).unwrap();
    assert_eq!(entry.path(), ("file.txt"));

    let entry = index.get(("dir/file2.txt")).unwrap();
    assert_eq!(entry.path(), ("dir/file2.txt"));

    assert!(index.get(("nonexistent")).is_none());
}

#[test]
fn test_index_iter() {
    let entries = vec![make_entry("a.txt"), make_entry("b.txt")];
    let index = Index::new(2, entries);

    let paths: Vec<_> = index.iter().map(|e| e.path().to_string()).collect();
    assert_eq!(paths, vec!["a.txt", "b.txt"]);
}

#[test]
fn test_entry_accessors() {
    let entry = IndexEntry::new(
        1700000000,
        1700000001,
        100,
        12345,
        FileMode::Executable,
        1000,
        1001,
        42,
        Oid::from_bytes(SHA1_A),
        "script.sh",
        0,
    );

    assert_eq!(entry.ctime(), 1700000000);
    assert_eq!(entry.mtime(), 1700000001);
    assert_eq!(entry.dev(), 100);
    assert_eq!(entry.ino(), 12345);
    assert_eq!(entry.mode(), FileMode::Executable);
    assert_eq!(entry.uid(), 1000);
    assert_eq!(entry.gid(), 1001);
    assert_eq!(entry.size(), 42);
    assert_eq!(entry.oid(), &Oid::from_bytes(SHA1_A));
    assert_eq!(entry.path(), ("script.sh"));
    assert_eq!(entry.stage(), 0);
    assert!(!entry.is_conflicted());
}

#[test]
fn test_entry_conflict() {
    let mut entry = make_entry("file.txt");
    assert!(!entry.is_conflicted());

    // Simulate conflict stage
    entry.stage = 1;
    assert!(entry.is_conflicted());
}
