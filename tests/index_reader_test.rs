use zerogit::error::Error;
use zerogit::index::reader::{parse, parse_header};
use zerogit::objects::{FileMode, Oid};

/// Creates a minimal valid index file with the given entries.
fn make_index(version: u32, entries: &[(&str, &[u8; 20])]) -> Vec<u8> {
    let mut data = Vec::new();

    // Header
    data.extend_from_slice(b"DIRC");
    data.extend_from_slice(&version.to_be_bytes());
    data.extend_from_slice(&(entries.len() as u32).to_be_bytes());

    // Entries
    for (name, sha1) in entries {
        let entry_start = data.len();

        // ctime_sec, ctime_nsec
        data.extend_from_slice(&1700000000u32.to_be_bytes());
        data.extend_from_slice(&0u32.to_be_bytes());
        // mtime_sec, mtime_nsec
        data.extend_from_slice(&1700000001u32.to_be_bytes());
        data.extend_from_slice(&0u32.to_be_bytes());
        // dev
        data.extend_from_slice(&100u32.to_be_bytes());
        // ino
        data.extend_from_slice(&12345u32.to_be_bytes());
        // mode (100644 = regular file)
        data.extend_from_slice(&0o100644u32.to_be_bytes());
        // uid
        data.extend_from_slice(&1000u32.to_be_bytes());
        // gid
        data.extend_from_slice(&1000u32.to_be_bytes());
        // size
        data.extend_from_slice(&42u32.to_be_bytes());
        // SHA-1
        data.extend_from_slice(*sha1);
        // flags (name length in lower 12 bits)
        let name_len = name.len().min(0xFFF) as u16;
        data.extend_from_slice(&name_len.to_be_bytes());
        // name
        data.extend_from_slice(name.as_bytes());

        // Padding to 8-byte boundary
        let entry_size = data.len() - entry_start;
        let padding = (8 - (entry_size % 8)) % 8;
        // At least 1 NUL byte is required
        let padding = if padding == 0 { 8 } else { padding };
        data.extend(std::iter::repeat(0u8).take(padding));
    }

    // Checksum (20 bytes) - we'll just add zeros for test purposes
    // Real Git would calculate SHA-1 of all preceding content
    data.extend_from_slice(&[0u8; 20]);

    data
}

const SHA1_A: [u8; 20] = [
    0xda, 0x39, 0xa3, 0xee, 0x5e, 0x6b, 0x4b, 0x0d, 0x32, 0x55, 0xbf, 0xef, 0x95, 0x60, 0x18,
    0x90, 0xaf, 0xd8, 0x07, 0x09,
];

const SHA1_B: [u8; 20] = [
    0x01, 0x23, 0x45, 0x67, 0x89, 0xab, 0xcd, 0xef, 0x01, 0x23, 0x45, 0x67, 0x89, 0xab, 0xcd,
    0xef, 0x01, 0x23, 0x45, 0x67,
];

// I-001: Parse v2 index
#[test]
fn test_parse_v2_index() {
    let data = make_index(2, &[("file.txt", &SHA1_A)]);
    let index = parse(&data).unwrap();

    assert_eq!(index.version(), 2);
    assert_eq!(index.len(), 1);

    let entry = &index.entries()[0];
    assert_eq!(entry.path(), "file.txt");
    assert_eq!(entry.oid(), &Oid::from_bytes(SHA1_A));
    assert_eq!(entry.mode(), FileMode::Regular);
}

// I-002: Get entry by path
#[test]
fn test_get_entry_by_path() {
    let data = make_index(2, &[("file.txt", &SHA1_A), ("dir/nested.txt", &SHA1_B)]);
    let index = parse(&data).unwrap();

    let entry = index.get(("file.txt")).unwrap();
    assert_eq!(entry.path(), "file.txt");

    let entry = index.get(("dir/nested.txt")).unwrap();
    assert_eq!(entry.path(), "dir/nested.txt");
}

// I-003: Get non-existent entry returns None
#[test]
fn test_get_nonexistent_entry() {
    let data = make_index(2, &[("file.txt", &SHA1_A)]);
    let index = parse(&data).unwrap();

    assert!(index.get(("nonexistent")).is_none());
}

// I-004: Invalid signature
#[test]
fn test_invalid_signature() {
    let mut data = make_index(2, &[]);
    data[0..4].copy_from_slice(b"XXXX");

    let result = parse(&data);
    assert!(matches!(
        result,
        Err(Error::InvalidIndex { version: 0, .. })
    ));
}

// I-005: Unsupported version
#[test]
fn test_unsupported_version() {
    // Version 5 is not supported
    let mut data = make_index(2, &[]);
    data[4..8].copy_from_slice(&5u32.to_be_bytes());

    let result = parse(&data);
    assert!(matches!(
        result,
        Err(Error::InvalidIndex { version: 5, .. })
    ));

    // Version 1 is not supported
    data[4..8].copy_from_slice(&1u32.to_be_bytes());
    let result = parse(&data);
    assert!(matches!(
        result,
        Err(Error::InvalidIndex { version: 1, .. })
    ));
}

// Test parsing header only
#[test]
fn test_parse_header() {
    let data = make_index(3, &[("test.txt", &SHA1_A)]);
    let (version, entry_count) = parse_header(data.as_slice()).unwrap();
    assert_eq!(version, 3);
    assert_eq!(entry_count, 1);
}

// Test multiple entries
#[test]
fn test_multiple_entries() {
    let data = make_index(
        2,
        &[("a.txt", &SHA1_A), ("b.txt", &SHA1_B), ("c/d.txt", &SHA1_A)],
    );
    let index = parse(&data).unwrap();

    assert_eq!(index.len(), 3);
    assert_eq!(index.entries()[0].path(), "a.txt");
    assert_eq!(index.entries()[1].path(), "b.txt");
    assert_eq!(index.entries()[2].path(), "c/d.txt");
}

// Test empty index
#[test]
fn test_empty_index() {
    let data = make_index(2, &[]);
    let index = parse(&data).unwrap();

    assert!(index.is_empty());
    assert_eq!(index.len(), 0);
}

// Test entry metadata
#[test]
fn test_entry_metadata() {
    let data = make_index(2, &[("file.txt", &SHA1_A)]);
    let index = parse(&data).unwrap();

    let entry = &index.entries()[0];
    assert_eq!(entry.ctime(), 1700000000);
    assert_eq!(entry.mtime(), 1700000001);
    assert_eq!(entry.dev(), 100);
    assert_eq!(entry.ino(), 12345);
    assert_eq!(entry.uid(), 1000);
    assert_eq!(entry.gid(), 1000);
    assert_eq!(entry.size(), 42);
    assert_eq!(entry.stage(), 0);
    assert!(!entry.is_conflicted());
}

// Test truncated data
#[test]
fn test_truncated_header() {
    // Just "DIR" without the C
    let data = b"DIR";
    let result = parse(data);
    assert!(result.is_err());
}

// Test version 3 support
#[test]
fn test_v3_index() {
    let data = make_index(3, &[("v3file.txt", &SHA1_A)]);
    let index = parse(&data).unwrap();

    assert_eq!(index.version(), 3);
    assert_eq!(index.len(), 1);
}

// Test version 4 support
#[test]
fn test_v4_index() {
    let data = make_index(4, &[("v4file.txt", &SHA1_A)]);
    let index = parse(&data).unwrap();

    assert_eq!(index.version(), 4);
    assert_eq!(index.len(), 1);
}
