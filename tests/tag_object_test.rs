use zerogit::error::Error;
use zerogit::objects::{ObjectType, RawObject, TagObject};

fn make_tag(content: &str) -> RawObject {
    RawObject {
        object_type: ObjectType::Tag,
        content: content.as_bytes().to_vec(),
    }
}

fn make_blob() -> RawObject {
    RawObject {
        object_type: ObjectType::Blob,
        content: vec![],
    }
}

const OBJECT_SHA: &str = "da39a3ee5e6b4b0d3255bfef95601890afd80709";

fn simple_tag() -> String {
    format!(
        "object {}\n\
         type commit\n\
         tag v1.0.0\n\
         tagger John Doe <john@example.com> 1234567890 +0900\n\
         \n\
         Release version 1.0.0\n\
         \n\
         This is the tag body.",
        OBJECT_SHA
    )
}

#[test]
fn test_parse_tag() {
    let raw = make_tag(&simple_tag());
    let tag = TagObject::parse(raw).unwrap();

    assert_eq!(tag.object().to_hex(), OBJECT_SHA);
    assert_eq!(tag.object_type(), "commit");
    assert_eq!(tag.tag_name(), "v1.0.0");
}

#[test]
fn tag_object_test_parse_type_mismatch() {
    let raw = make_blob();
    let result = TagObject::parse(raw);
    assert!(matches!(
        result,
        Err(Error::TypeMismatch {
            expected: "tag",
            actual: "blob"
        })
    ));
}

#[test]
fn test_parse_tagger() {
    let raw = make_tag(&simple_tag());
    let tag = TagObject::parse(raw).unwrap();

    let tagger = tag.tagger();
    assert_eq!(tagger.name(), "John Doe");
    assert_eq!(tagger.email(), "john@example.com");
    assert_eq!(tagger.timestamp(), 1234567890);
    assert_eq!(tagger.tz_offset(), 540); // +0900
}

#[test]
fn test_parse_message() {
    let raw = make_tag(&simple_tag());
    let tag = TagObject::parse(raw).unwrap();

    assert!(tag.message().contains("Release version 1.0.0"));
    assert!(tag.message().contains("This is the tag body."));
    assert_eq!(tag.summary(), "Release version 1.0.0");
}

#[test]
fn test_parse_empty_message() {
    let content = format!(
        "object {}\n\
         type commit\n\
         tag v1.0.0\n\
         tagger John Doe <john@example.com> 1234567890 +0000\n\
         ",
        OBJECT_SHA
    );
    let raw = make_tag(&content);
    let tag = TagObject::parse(raw).unwrap();

    assert_eq!(tag.message(), "");
    assert_eq!(tag.summary(), "");
}

#[test]
fn test_missing_object() {
    let content = "type commit\n\
         tag v1.0.0\n\
         tagger John Doe <john@example.com> 1234567890 +0000\n\
         \n\
         Message";
    let raw = make_tag(content);
    let result = TagObject::parse(raw);
    assert!(matches!(result, Err(Error::InvalidObject { .. })));
}

#[test]
fn test_missing_tag_name() {
    let content = format!(
        "object {}\n\
         type commit\n\
         tagger John Doe <john@example.com> 1234567890 +0000\n\
         \n\
         Message",
        OBJECT_SHA
    );
    let raw = make_tag(&content);
    let result = TagObject::parse(raw);
    assert!(matches!(result, Err(Error::InvalidObject { .. })));
}
