use zerogit::index::reader::parse;
use zerogit::index::writer::{file_mode_to_u32, path_to_unix_bytes};
use zerogit::index::{Index, IndexEntry};
use zerogit::infra::hash::{sha1, SHA1_SIZE};
use zerogit::objects::{FileMode, Oid};

const SHA1_A: [u8; 20] = [
    0xda, 0x39, 0xa3, 0xee, 0x5e, 0x6b, 0x4b, 0x0d, 0x32, 0x55, 0xbf, 0xef, 0x95, 0x60, 0x18,
    0x90, 0xaf, 0xd8, 0x07, 0x09,
];

const SHA1_B: [u8; 20] = [
    0x01, 0x23, 0x45, 0x67, 0x89, 0xab, 0xcd, 0xef, 0x01, 0x23, 0x45, 0x67, 0x89, 0xab, 0xcd,
    0xef, 0x01, 0x23, 0x45, 0x67,
];

fn make_entry(path: &str) -> IndexEntry {
    IndexEntry::new(
        1700000000, // ctime
        1700000001, // mtime
        100,        // dev
        12345,      // ino
        FileMode::Regular,
        1000, // uid
        1000, // gid
        42,   // size
        Oid::from_bytes(SHA1_A),
        path,
        0, // stage
    )
}

fn make_entry_with_oid(path: &str, oid_bytes: [u8; 20]) -> IndexEntry {
    IndexEntry::new(
        1700000000, // ctime
        1700000001, // mtime
        100,        // dev
        12345,      // ino
        FileMode::Regular,
        1000, // uid
        1000, // gid
        42,   // size
        Oid::from_bytes(oid_bytes),
        path,
        0, // stage
    )
}

// IW-001: Write empty index
#[test]
fn test_write_empty_index() {
    let index = Index::new(2, vec![]);
    let data = zerogit::index::writer::write(&index);

    // Header (12 bytes) + checksum (20 bytes)
    assert_eq!(data.len(), 12 + 20);

    // Verify signature
    assert_eq!(&data[0..4], b"DIRC");

    // Verify version
    assert_eq!(u32::from_be_bytes(data[4..8].try_into().unwrap()), 2);

    // Verify entry count
    assert_eq!(u32::from_be_bytes(data[8..12].try_into().unwrap()), 0);
}

// IW-002: Write single entry index
#[test]
fn test_write_single_entry() {
    let entries = vec![make_entry("file.txt")];
    let index = Index::new(2, entries);
    let data = zerogit::index::writer::write(&index);

    // Verify entry count
    assert_eq!(u32::from_be_bytes(data[8..12].try_into().unwrap()), 1);

    // Verify we can parse it back
    let parsed = parse(&data).unwrap();
    assert_eq!(parsed.len(), 1);
    assert_eq!(parsed.entries()[0].path(), "file.txt");
}

// IW-003: Write multiple entries
#[test]
fn test_write_multiple_entries() {
    let entries = vec![
        make_entry("a.txt"),
        make_entry_with_oid("b.txt", SHA1_B),
        make_entry("dir/c.txt"),
    ];
    let index = Index::new(2, entries);
    let data = zerogit::index::writer::write(&index);

    // Verify we can parse it back
    let parsed = parse(&data).unwrap();
    assert_eq!(parsed.len(), 3);
    assert_eq!(parsed.entries()[0].path(), "a.txt");
    assert_eq!(parsed.entries()[1].path(), "b.txt");
    assert_eq!(parsed.entries()[2].path(), "dir/c.txt");
}

// IW-004: Roundtrip test - write and read back
#[test]
fn test_roundtrip() {
    let entries = vec![
        make_entry("file.txt"),
        make_entry_with_oid("nested/deep/file.rs", SHA1_B),
    ];
    let written = Index::new(2, entries);
    let data = zerogit::index::writer::write(&written);
    let parsed = parse(&data).unwrap();

    assert_eq!(written.version(), parsed.version());
    assert_eq!(written.len(), parsed.len());

    for (w, p) in written.entries().iter().zip(parsed.entries().iter()) {
        assert_eq!(w.path(), p.path());
        assert_eq!(w.oid(), p.oid());
        assert_eq!(w.mode(), p.mode());
        assert_eq!(w.size(), p.size());
        assert_eq!(w.stage(), p.stage());
    }
}

// IW-005: Checksum is correct
#[test]
fn test_checksum() {
    let index = Index::new(2, vec![make_entry("test.txt")]);
    let data = zerogit::index::writer::write(&index);

    // Extract checksum from last 20 bytes
    let stored_checksum = &data[data.len() - SHA1_SIZE..];

    // Calculate checksum of everything before it
    let calculated_checksum = sha1(&data[..data.len() - SHA1_SIZE]);

    assert_eq!(stored_checksum, &calculated_checksum);
}

// IW-006: File mode conversion
#[test]
fn test_file_mode_to_u32() {
    assert_eq!(file_mode_to_u32(FileMode::Regular), 0o100644);
    assert_eq!(file_mode_to_u32(FileMode::Executable), 0o100755);
    assert_eq!(file_mode_to_u32(FileMode::Symlink), 0o120000);
    assert_eq!(file_mode_to_u32(FileMode::Directory), 0o040000);
    assert_eq!(file_mode_to_u32(FileMode::Submodule), 0o160000);
}

// IW-007: Entry with executable mode
#[test]
fn test_write_executable_entry() {
    let entry = IndexEntry::new(
        1700000000,
        1700000001,
        100,
        12345,
        FileMode::Executable,
        1000,
        1000,
        42,
        Oid::from_bytes(SHA1_A),
        "script.sh",
        0,
    );
    let index = Index::new(2, vec![entry]);
    let data = zerogit::index::writer::write(&index);

    let parsed = parse(&data).unwrap();
    assert_eq!(parsed.entries()[0].mode(), FileMode::Executable);
}

// IW-008: Entry with stage number (merge conflict)
#[test]
fn test_write_staged_entry() {
    let entry = IndexEntry::new(
        1700000000,
        1700000001,
        100,
        12345,
        FileMode::Regular,
        1000,
        1000,
        42,
        Oid::from_bytes(SHA1_A),
        "conflict.txt",
        2, // Stage 2 = "ours" in merge conflict
    );
    let index = Index::new(2, vec![entry]);
    let data = zerogit::index::writer::write(&index);

    let parsed = parse(&data).unwrap();
    assert_eq!(parsed.entries()[0].stage(), 2);
    assert!(parsed.entries()[0].is_conflicted());
}

// IW-009: Path with Windows separators
#[test]
fn test_path_to_unix_bytes() {
    let path = "dir\\subdir\\file.txt";
    let bytes = path_to_unix_bytes(path);
    assert_eq!(bytes, b"dir/subdir/file.txt");
}

// IW-010: Version 3 index
#[test]
fn test_write_v3_index() {
    let entries = vec![make_entry("file.txt")];
    let index = Index::new(3, entries);
    let data = zerogit::index::writer::write(&index);

    // Verify version
    assert_eq!(u32::from_be_bytes(data[4..8].try_into().unwrap()), 3);

    // Verify we can parse it back
    let parsed = parse(&data).unwrap();
    assert_eq!(parsed.version(), 3);
}

// IW-011: Padding alignment
#[test]
fn test_entry_padding() {
    // Short name should have more padding
    let short_entry = make_entry("a.txt");
    let short_index = Index::new(2, vec![short_entry]);
    let short_data = zerogit::index::writer::write(&short_index);

    // Long name should have less padding
    let long_entry = make_entry("very_long_filename_that_needs_less_padding.txt");
    let long_index = Index::new(2, vec![long_entry]);
    let long_data = zerogit::index::writer::write(&long_index);

    // Both should be parseable
    assert!(parse(&short_data).is_ok());
    assert!(parse(&long_data).is_ok());
}
