use zerogit::objects::Oid;
use zerogit::refs::Tag;

const TEST_OID: &str = "da39a3ee5e6b4b0d3255bfef95601890afd80709";

fn test_oid() -> Oid {
    Oid::from_hex(TEST_OID).unwrap()
}

#[test]
fn test_lightweight_tag() {
    let tag = Tag::lightweight("v1.0.0", test_oid());

    assert_eq!(tag.name(), "v1.0.0");
    assert_eq!(tag.target().to_hex(), TEST_OID);
    assert!(!tag.is_annotated());
    assert!(tag.message().is_none());
    assert!(tag.tagger().is_none());
}

#[test]
fn tag_test_reference_name() {
    let tag = Tag::lightweight("v1.0.0", test_oid());
    assert_eq!(tag.reference_name(), "refs/tags/v1.0.0");
}

#[test]
fn test_short_target() {
    let tag = Tag::lightweight("v1.0.0", test_oid());
    assert_eq!(tag.short_target().len(), 7);
    assert_eq!(tag.short_target(), "da39a3e");
}

#[test]
fn tag_test_display() {
    let tag = Tag::lightweight("v2.0.0", test_oid());
    assert_eq!(tag.name().to_string(), "v2.0.0");
}
