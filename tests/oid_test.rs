use zerogit::error::Error;
use std::collections::HashSet;
use zerogit::objects::Oid;

type Result<T> = std::result::Result<T, Error>;

const EMPTY_SHA1: &str = "da39a3ee5e6b4b0d3255bfef95601890afd80709";

// Known SHA-1 hash of empty string


// O-001: from_hex with valid lowercase hex string
#[test]
fn test_from_hex_lowercase() {
    let oid = Oid::from_hex(EMPTY_SHA1).unwrap();
    assert_eq!(oid.to_hex(), EMPTY_SHA1);
}

// O-002: from_hex with uppercase normalizes to lowercase
#[test]
fn test_from_hex_uppercase_normalizes() {
    let upper = EMPTY_SHA1.to_uppercase();
    let oid = Oid::from_hex(&upper).unwrap();
    assert_eq!(oid.to_hex(), EMPTY_SHA1);
}

// O-003: from_hex with mixed case normalizes to lowercase
#[test]
fn test_from_hex_mixed_case() {
    let mixed = "DA39a3EE5e6b4B0d3255BFEF95601890afd80709";
    let oid = Oid::from_hex(mixed).unwrap();
    assert_eq!(oid.to_hex(), EMPTY_SHA1);
}

// O-004: from_hex with invalid length returns error
#[test]
fn test_from_hex_invalid_length() {
    // Too short
    let result = Oid::from_hex("da39a3ee5e6b4b0d3255bfef95601890afd8070");
    assert!(matches!(result, Err(Error::InvalidOid(_))));

    // Too long
    let result = Oid::from_hex("da39a3ee5e6b4b0d3255bfef95601890afd807090");
    assert!(matches!(result, Err(Error::InvalidOid(_))));

    // Empty
    let result = Oid::from_hex("");
    assert!(matches!(result, Err(Error::InvalidOid(_))));
}

// O-005: from_hex with invalid characters returns error
#[test]
fn test_from_hex_invalid_chars() {
    // Contains 'g'
    let result = Oid::from_hex("ga39a3ee5e6b4b0d3255bfef95601890afd80709");
    assert!(matches!(result, Err(Error::InvalidOid(_))));

    // Contains space
    let result = Oid::from_hex("da39a3ee5e6b4b0d3255bfef95601890afd8070 ");
    assert!(matches!(result, Err(Error::InvalidOid(_))));

    // Contains special character
    let result = Oid::from_hex("da39a3ee5e6b4b0d3255bfef95601890afd8070!");
    assert!(matches!(result, Err(Error::InvalidOid(_))));
}

// O-006: from_bytes creates Oid correctly
#[test]
fn test_from_bytes() {
    let bytes: [u8; 20] = [
        0xda, 0x39, 0xa3, 0xee, 0x5e, 0x6b, 0x4b, 0x0d, 0x32, 0x55, 0xbf, 0xef, 0x95, 0x60,
        0x18, 0x90, 0xaf, 0xd8, 0x07, 0x09,
    ];
    let oid = Oid::from_bytes(bytes);
    assert_eq!(oid.to_hex(), EMPTY_SHA1);
}

// O-007: short() returns first 7 characters
#[test]
fn test_short() {
    let oid = Oid::from_hex(EMPTY_SHA1).unwrap();
    assert_eq!(oid.short(), "da39a3e");
    assert_eq!(oid.short().len(), 7);
}

// O-008: Display trait outputs full hex
#[test]
fn oid_test_display() {
    let oid = Oid::from_hex(EMPTY_SHA1).unwrap();
    let display = oid.to_hex();
    assert_eq!(display, EMPTY_SHA1);
}

// O-009: FromStr trait works like from_hex
#[test]
fn test_from_str() {
    let oid: Oid = EMPTY_SHA1.parse().unwrap();
    assert_eq!(oid.to_hex(), EMPTY_SHA1);

    // Invalid should fail
    let result: Result<Oid> = "invalid".parse();
    assert!(result.is_err());
}


// Additional: as_bytes returns correct bytes
#[test]
fn test_as_bytes() {
    let expected: [u8; 20] = [
        0xda, 0x39, 0xa3, 0xee, 0x5e, 0x6b, 0x4b, 0x0d, 0x32, 0x55, 0xbf, 0xef, 0x95, 0x60,
        0x18, 0x90, 0xaf, 0xd8, 0x07, 0x09,
    ];
    let oid = Oid::from_hex(EMPTY_SHA1).unwrap();
    assert_eq!(oid.as_bytes(), &expected);
}

// Additional: Oid implements Eq, Hash, Ord
#[test]
fn test_traits() {
    let oid1 = Oid::from_hex(EMPTY_SHA1).unwrap();
    let oid2 = Oid::from_hex(EMPTY_SHA1).unwrap();
    let oid3 = Oid::from_hex("0000000000000000000000000000000000000000").unwrap();

    // Eq
    assert_eq!(oid1, oid2);
    assert_ne!(oid1, oid3);

    // Ord
    assert!(oid3 < oid1);

    // Hash (can be used in HashMap)
    let mut set = HashSet::new();
    set.insert(oid1);
    assert!(set.contains(&oid2));
}

// Additional: Clone and Copy
#[test]
fn test_clone_copy() {
    let oid1 = Oid::from_hex(EMPTY_SHA1).unwrap();
    let oid2 = oid1; // Copy
    let oid3 = oid1.clone(); // Clone
    assert_eq!(oid1, oid2);
    assert_eq!(oid1, oid3);
}
