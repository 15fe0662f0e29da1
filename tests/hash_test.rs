use zerogit::infra::hash::{hash_object, sha1};

/// Converts a byte slice to a hex string.
fn to_hex(bytes: &[u8]) -> String {
    bytes.iter().map(|b| format!("{:02x}", b)).collect()
}

// H-001: Empty data hash
#[test]
fn test_sha1_empty() {
    let hash = sha1(b"");
    assert_eq!(to_hex(&hash), "da39a3ee5e6b4b0d3255bfef95601890afd80709");
}

// H-002: "hello world" hash
#[test]
fn test_sha1_hello_world() {
    let hash = sha1(b"hello world");
    assert_eq!(to_hex(&hash), "2aae6c35c94fcfb415dbe95f408b9ce91ee846ed");
}

// H-003: Binary data hash
#[test]
fn test_sha1_binary() {
    let data: Vec<u8> = (0u8..=255).collect();
    let hash = sha1(&data);
    assert_eq!(to_hex(&hash), "4916d6bdb7f78e6803698cab32d1586ea457dfc8");
}

// H-004: Large data hash
#[test]
fn test_sha1_large() {
    // 1MB of 'a'
    let data = vec![b'a'; 1024 * 1024];
    let hash = sha1(&data);
    assert_eq!(to_hex(&hash), "454027d64e3b855735552d42230eea1cbd645fa0");
}

// H-005: Git object format hash (empty blob)
#[test]
fn test_hash_object_empty_blob() {
    let hash = hash_object("blob", b"");
    assert_eq!(to_hex(&hash), "e69de29bb2d1d6434b8b29ae775ad8c2e48c5391");
}

#[test]
fn test_hash_object_hello_blob() {
    // "hello\n" blob - matches `echo "hello" | git hash-object --stdin`
    let hash = hash_object("blob", b"hello\n");
    assert_eq!(to_hex(&hash), "ce013625030ba8dba906f756967f9e9ca394464a");
}

#[test]
fn test_sha1_abc() {
    // Standard test vector from RFC 3174
    let hash = sha1(b"abc");
    assert_eq!(to_hex(&hash), "a9993e364706816aba3e25717850c26c9cd0d89d");
}

#[test]
fn test_sha1_448_bits() {
    // Another standard test vector
    let hash = sha1(b"abcdbcdecdefdefgefghfghighijhijkijkljklmklmnlmnomnopnopq");
    assert_eq!(to_hex(&hash), "84983e441c3bd26ebaae4aa1f95129e5e54670f1");
}

#[test]
fn test_sha1_incremental() {
    // Test that incremental update produces same result as single call
    let data = b"hello world this is a test of incremental hashing";

    let hash1 = sha1(data);

    let mut joined = Vec::new();
    joined.extend_from_slice(b"hello ");
    joined.extend_from_slice(b"world ");
    joined.extend_from_slice(b"this is a test of incremental hashing");
    let hash2 = sha1(&joined);

    assert_eq!(hash1, hash2);
}
