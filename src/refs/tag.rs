//! Tags: lightweight pointers, or annotated ones with a message and tagger.

use vstd::prelude::*;

use crate::objects::commit::{sig_v, Signature};
use crate::objects::store::{ObjectType, RawObject};
use crate::objects::tag_object::{parse_tag_body, TagObject};
use crate::error::Error;
use crate::objects::oid::{hex_of, Oid};
use crate::text::{bytes_of, concat, owned};

verus! {

/// The bytes `refs/tags/`.
pub open spec fn tags_prefix() -> Seq<u8> {
    seq![114u8, 101, 102, 115, 47, 116, 97, 103, 115, 47]
}

/// A tag.
#[derive(Debug, Clone)]
pub struct Tag {
    pub name: String,
    pub target: Oid,
    pub message: Option<String>,
    pub tagger: Option<Signature>,
}

impl Tag {
    /// A tag that is only a name for a commit.
    pub fn lightweight(name: &str, target: Oid) -> (r: Tag)
        ensures
            r.name@ == name@ && r.target == target && r.message is None && r.tagger is None,
    {
        Tag { name: owned(name), target, message: None, tagger: None }
    }

    /// A tag with a message and a tagger.
    pub fn annotated(name: &str, target: Oid, message: String, tagger: Signature) -> (r: Tag)
        ensures
            r.name@ == name@ && r.target == target && r.message == Some(message) && r.tagger == Some(tagger),
    {
        Tag { name: owned(name), target, message: Some(message), tagger: Some(tagger) }
    }

    /// The tag named `name` whose reference points at `target`, given the
    /// object stored there: an annotated tag object gives an annotated tag
    /// (pointing at the tagged object), anything else a lightweight one.
    pub fn from_object(name: &str, target: Oid, raw: RawObject) -> (r: Result<Tag, Error>)
        ensures
            raw.object_type != ObjectType::Tag ==> r is Ok && r->Ok_0.name@ == name@ && r->Ok_0.target == target
                && r->Ok_0.message is None && r->Ok_0.tagger is None,
            raw.object_type == ObjectType::Tag ==> (r is Ok <==> parse_tag_body(raw.content@) is Some),
            raw.object_type == ObjectType::Tag && r is Ok ==> ({
                let v = parse_tag_body(raw.content@)->0;
                &&& r->Ok_0.name@ == name@
                &&& r->Ok_0.target@ == v.0
                &&& r->Ok_0.message is Some && bytes_of(r->Ok_0.message->Some_0@) == v.4
                &&& r->Ok_0.tagger is Some && sig_v(r->Ok_0.tagger->Some_0) == v.3
            }),
    {
        if raw.object_type != ObjectType::Tag {
            return Ok(Tag::lightweight(name, target));
        }
        let t = TagObject::parse(raw)?;
        Ok(Tag { name: owned(name), target: t.object, message: Some(t.message), tagger: Some(t.tagger) })
    }

    /// The tag's name.
    pub fn name(&self) -> (r: &str)
        ensures
            r@ == self.name@,
    {
        self.name.as_str()
    }

    /// The tagged commit.
    pub fn target(&self) -> (r: &Oid)
        ensures
            *r == self.target,
    {
        &self.target
    }

    /// The message of an annotated tag.
    pub fn message(&self) -> (r: Option<&str>)
        ensures
            r is Some <==> self.message is Some,
            r is Some ==> r->Some_0@ == self.message->Some_0@,
    {
        match &self.message {
            Some(m) => Some(m.as_str()),
            None => None,
        }
    }

    /// The tagger of an annotated tag.
    pub fn tagger(&self) -> (r: Option<&Signature>)
        ensures
            r is Some <==> self.tagger is Some,
            r is Some ==> *r->Some_0 == self.tagger->Some_0,
    {
        match &self.tagger {
            Some(t) => Some(t),
            None => None,
        }
    }

    /// Whether the tag is annotated.
    pub fn is_annotated(&self) -> (r: bool)
        ensures
            r == self.message is Some,
    {
        self.message.is_some()
    }

    /// `refs/tags/<name>`.
    pub fn reference_name(&self) -> (r: String)
        ensures
            bytes_of(r@) == tags_prefix() + bytes_of(self.name@),
    {
        let p = "refs/tags/";
        proof {
            reveal_strlit("refs/tags/");
            crate::text::lemma_ascii_chars_bytes(p@);
            assert(bytes_of(p@) =~= tags_prefix());
        }
        concat(p, self.name.as_str())
    }

    /// The first seven hex digits of the target.
    pub fn short_target(&self) -> (r: String)
        ensures
            bytes_of(r@) == hex_of(self.target@).subrange(0, 7),
    {
        self.target.short()
    }
}

} // verus!
