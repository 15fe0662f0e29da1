use zerogit::infra::compression::is_valid_zlib_header;

// Test zlib header validation directly
#[test]
fn test_is_valid_zlib_header() {
    // Common valid headers
    assert!(is_valid_zlib_header(0x78, 0x9C)); // Default compression
    assert!(is_valid_zlib_header(0x78, 0x01)); // No compression
    assert!(is_valid_zlib_header(0x78, 0xDA)); // Best compression

    // Invalid: wrong compression method
    assert!(!is_valid_zlib_header(0x00, 0x00));
    assert!(!is_valid_zlib_header(0x79, 0x9C)); // CM = 9, not 8

    // Invalid: window size too large
    assert!(!is_valid_zlib_header(0x88, 0x00)); // CINFO = 8

    // Invalid: bad checksum
    assert!(!is_valid_zlib_header(0x78, 0x00));
}
