//! Annotated tags: a named, signed pointer to another object.

use vstd::prelude::*;
use vstd::utf8::*;

use crate::error::Error;
use crate::objects::commit::{
    add_message_line, first_line, first_line_of, hex_oid, parse_sig, sig_v, starts_with, strip_cr,
    SigV, Signature,
};
use crate::objects::oid::Oid;
use crate::objects::store::{ObjectType, RawObject};
use crate::text::{bytes_of, copy_range, lemma_ascii_chars_bytes, owned, range_eq, utf8_string};

verus! {

/// The state of reading a tag body: target, target type, tag name, tagger,
/// message so far, and whether the headers are over.
pub type TagScanV = (Option<Seq<u8>>, Option<Seq<u8>>, Option<Seq<u8>>, Option<SigV>, Seq<u8>, bool);

pub open spec fn key_object() -> Seq<u8> {
    seq![111u8, 98, 106, 101, 99, 116, 32]
}

pub open spec fn key_type() -> Seq<u8> {
    seq![116u8, 121, 112, 101, 32]
}

pub open spec fn key_tag() -> Seq<u8> {
    seq![116u8, 97, 103, 32]
}

pub open spec fn key_tagger() -> Seq<u8> {
    seq![116u8, 97, 103, 103, 101, 114, 32]
}

/// What one line of a tag body does to the reading state.
pub open spec fn tag_step(st: TagScanV, line: Seq<u8>) -> Option<TagScanV> {
    if st.5 {
        Some((st.0, st.1, st.2, st.3, add_message_line(st.4, line), true))
    } else if line.len() == 0 {
        Some((st.0, st.1, st.2, st.3, st.4, true))
    } else if starts_with(line, key_object()) {
        match hex_oid(line.subrange(7, line.len() as int)) {
            Some(o) => Some((Some(o), st.1, st.2, st.3, st.4, false)),
            None => None,
        }
    } else if starts_with(line, key_type()) {
        Some((st.0, Some(line.subrange(5, line.len() as int)), st.2, st.3, st.4, false))
    } else if starts_with(line, key_tag()) {
        Some((st.0, st.1, Some(line.subrange(4, line.len() as int)), st.3, st.4, false))
    } else if starts_with(line, key_tagger()) {
        match parse_sig(line.subrange(7, line.len() as int)) {
            Some(s) => Some((st.0, st.1, st.2, Some(s), st.4, false)),
            None => None,
        }
    } else {
        Some(st)
    }
}

/// Reads the lines of a tag body from position `i`; see `commit_scan`.
pub open spec fn tag_scan(c: Seq<u8>, i: int, st: TagScanV, cur: Seq<u8>) -> Option<TagScanV>
    decreases c.len() - i,
{
    if i >= c.len() {
        if cur.len() == 0 {
            Some(st)
        } else {
            tag_step(st, cur)
        }
    } else if c[i] == 10u8 {
        match tag_step(st, strip_cr(cur)) {
            Some(s2) => tag_scan(c, i + 1, s2, Seq::empty()),
            None => None,
        }
    } else {
        tag_scan(c, i + 1, st, cur.push(c[i]))
    }
}

/// The kind of a malformed tag header: 1 for the `object` line, 2 for the
/// `tagger` line.
pub open spec fn tag_header_kind(line: Seq<u8>) -> u8 {
    if starts_with(line, key_object()) { 1 } else { 2 }
}

/// Why reading a tag body from `i` fails: the kind of the first malformed
/// header, or 0.
pub open spec fn tag_scan_fail(c: Seq<u8>, i: int, st: TagScanV, cur: Seq<u8>) -> u8
    decreases c.len() - i,
{
    if i >= c.len() {
        if cur.len() == 0 || tag_step(st, cur) is Some { 0 } else { tag_header_kind(cur) }
    } else if c[i] == 10u8 {
        match tag_step(st, strip_cr(cur)) {
            Some(s2) => tag_scan_fail(c, i + 1, s2, Seq::empty()),
            None => tag_header_kind(strip_cr(cur)),
        }
    } else {
        tag_scan_fail(c, i + 1, st, cur.push(c[i]))
    }
}

/// A tag's fields as values: target, target type, name, tagger, message.
pub type TagV = (Seq<u8>, Seq<u8>, Seq<u8>, SigV, Seq<u8>);

/// The fields of a tag body, when it is well formed.
pub open spec fn parse_tag_body(c: Seq<u8>) -> Option<TagV> {
    if !valid_utf8(c) {
        None
    } else {
        match tag_scan(c, 0, (None, None, None, None, Seq::empty(), false), Seq::empty()) {
            Some(st) => if st.0 is Some && st.1 is Some && st.2 is Some && st.3 is Some
                && valid_utf8(st.1->0) && valid_utf8(st.2->0) && valid_utf8(st.4) {
                Some((st.0->0, st.1->0, st.2->0, st.3->0, st.4))
            } else {
                None
            },
            None => None,
        }
    }
}

/// An annotated tag object.
#[derive(Debug, Clone)]
pub struct TagObject {
    pub object: Oid,
    pub object_type: String,
    pub tag_name: String,
    pub tagger: Signature,
    pub message: String,
}

/// The fields of a tag object as values.
pub open spec fn tag_v(t: TagObject) -> TagV {
    (t.object@, bytes_of(t.object_type@), bytes_of(t.tag_name@), sig_v(t.tagger), bytes_of(t.message@))
}

struct TagScan {
    object: Option<Oid>,
    object_type: Option<Vec<u8>>,
    tag_name: Option<Vec<u8>>,
    tagger: Option<Signature>,
    message: Vec<u8>,
    in_message: bool,
}

spec fn opt_bytes_v(o: Option<Vec<u8>>) -> Option<Seq<u8>> {
    match o {
        Some(x) => Some(x@),
        None => None,
    }
}

spec fn tag_scan_v(s: TagScan) -> TagScanV {
    (
        match s.object {
            Some(x) => Some(x@),
            None => None,
        },
        opt_bytes_v(s.object_type),
        opt_bytes_v(s.tag_name),
        match s.tagger {
            Some(x) => Some(sig_v(x)),
            None => None,
        },
        s.message@,
        s.in_message,
    )
}

fn key_bytes(k: &'static str) -> (r: &'static [u8])
    ensures
        r@ == bytes_of(k@),
{
    k.as_bytes()
}

fn tag_line(st: &mut TagScan, c: &[u8], from: usize, to: usize) -> (ok: bool)
    requires
        from <= to <= c@.len(),
    ensures
        ok == (tag_step(tag_scan_v(*old(st)), c@.subrange(from as int, to as int)) is Some),
        ok ==> tag_scan_v(*final(st)) == tag_step(
            tag_scan_v(*old(st)),
            c@.subrange(from as int, to as int),
        )->0,
{
    let ghost line = c@.subrange(from as int, to as int);
    if st.in_message {
        let ghost before = st.message@;
        if st.message.len() > 0 {
            st.message.push(10u8);
        }
        crate::text::append_range(&mut st.message, c, from, to);
        proof {
            if before.len() == 0 {
                assert(st.message@ =~= line);
            }
        }
        return true;
    }
    if from == to {
        st.in_message = true;
        return true;
    }
    let ko = key_bytes("object ");
    let kty = key_bytes("type ");
    let kt = key_bytes("tag ");
    let ktg = key_bytes("tagger ");
    proof {
        reveal_strlit("object ");
        reveal_strlit("type ");
        reveal_strlit("tag ");
        reveal_strlit("tagger ");
        lemma_ascii_chars_bytes("object "@);
        lemma_ascii_chars_bytes("type "@);
        lemma_ascii_chars_bytes("tag "@);
        lemma_ascii_chars_bytes("tagger "@);
        assert(ko@ =~= key_object());
        assert(kty@ =~= key_type());
        assert(kt@ =~= key_tag());
        assert(ktg@ =~= key_tagger());
        if line.len() >= 4 {
            assert(line.subrange(0, 4) =~= c@.subrange(from as int, from + 4));
        }
        if line.len() >= 5 {
            assert(line.subrange(0, 5) =~= c@.subrange(from as int, from + 5));
        }
        if line.len() >= 7 {
            assert(line.subrange(0, 7) =~= c@.subrange(from as int, from + 7));
        }
    }
    if to - from >= 7 && range_eq(c, from, from + 7, ko) {
        assert(line.subrange(7, line.len() as int) =~= c@.subrange(from + 7, to as int));
        match Oid::from_hex_range(c, from + 7, to) {
            Some(o) => {
                st.object = Some(o);
                true
            },
            None => false,
        }
    } else if to - from >= 5 && range_eq(c, from, from + 5, kty) {
        let v = copy_range(c, from + 5, to);
        assert(v@ =~= line.subrange(5, line.len() as int));
        st.object_type = Some(v);
        true
    } else if to - from >= 4 && range_eq(c, from, from + 4, kt) {
        let v = copy_range(c, from + 4, to);
        assert(v@ =~= line.subrange(4, line.len() as int));
        st.tag_name = Some(v);
        true
    } else if to - from >= 7 && range_eq(c, from, from + 7, ktg) {
        assert(line.subrange(7, line.len() as int) =~= c@.subrange(from + 7, to as int));
        match Signature::parse_range(c, from + 7, to) {
            Ok(s) => {
                st.tagger = Some(s);
                true
            },
            Err(_) => false,
        }
    } else {
        true
    }
}

/// The error for the malformed tag header `c[from..to]`: a bad id is
/// `InvalidOid` with the line, a bad signature `InvalidUtf8`.
fn tag_header_error(c: &[u8], from: usize, to: usize) -> (r: Error)
    requires
        from <= to <= c@.len(),
    ensures
        tag_header_kind(c@.subrange(from as int, to as int)) == 1 ==> r is InvalidOid,
        tag_header_kind(c@.subrange(from as int, to as int)) == 2 ==> r is InvalidUtf8,
{
    let ghost line = c@.subrange(from as int, to as int);
    let ko = key_bytes("object ");
    proof {
        reveal_strlit("object ");
        lemma_ascii_chars_bytes("object "@);
        assert(ko@ =~= key_object());
        if line.len() >= 7 {
            assert(line.subrange(0, 7) =~= c@.subrange(from as int, from + 7));
        }
    }
    if to - from >= 7 && range_eq(c, from, from + 7, ko) {
        let text = match utf8_string(copy_range(c, from, to)) {
            Some(t) => t,
            None => String::new(),
        };
        Error::InvalidOid(text)
    } else {
        Error::InvalidUtf8
    }
}

fn invalid_tag(reason: &str) -> (r: Error)
    ensures
        r is InvalidObject,
{
    Error::InvalidObject { oid: owned(""), reason: owned(reason) }
}

fn is_utf8(c: &[u8]) -> (r: bool)
    ensures
        r == valid_utf8(c@),
{
    crate::text::str_from_utf8(c).is_some()
}

impl TagObject {
    /// Reads an annotated tag from a raw object.
    pub fn parse(raw: RawObject) -> (r: Result<TagObject, Error>)
        ensures
            r is Ok <==> (raw.object_type == ObjectType::Tag && parse_tag_body(raw.content@) is Some),
            r is Ok ==> tag_v(r->Ok_0) == parse_tag_body(raw.content@)->0,
            raw.object_type != ObjectType::Tag ==> r is Err && r->Err_0 is TypeMismatch
                && r->Err_0->TypeMismatch_expected@ == "tag"@
                && bytes_of(r->Err_0->TypeMismatch_actual@) == crate::objects::store::kind_name(raw.object_type),
            raw.object_type == ObjectType::Tag && !valid_utf8(raw.content@) ==> r is Err && r->Err_0 is InvalidUtf8,
            raw.object_type == ObjectType::Tag && valid_utf8(raw.content@) && ({
                let st = tag_scan(raw.content@, 0, (None, None, None, None, Seq::empty(), false), Seq::empty());
                st is Some && ((st->0).0 is None || (st->0).1 is None || (st->0).2 is None || (st->0).3 is None)
            }) ==> r is Err && r->Err_0 is InvalidObject,
            raw.object_type == ObjectType::Tag && valid_utf8(raw.content@)
                && tag_scan(raw.content@, 0, (None, None, None, None, Seq::empty(), false), Seq::empty()) is None
                ==> r is Err
                && (tag_scan_fail(raw.content@, 0, (None, None, None, None, Seq::empty(), false), Seq::empty()) == 1 ==> r->Err_0 is InvalidOid)
                && (tag_scan_fail(raw.content@, 0, (None, None, None, None, Seq::empty(), false), Seq::empty()) == 2 ==> r->Err_0 is InvalidUtf8),
    {
        if raw.object_type != ObjectType::Tag {
            return Err(Error::TypeMismatch { expected: "tag", actual: raw.object_type.as_str() });
        }
        let c = raw.content.as_slice();
        if !is_utf8(c) {
            return Err(Error::InvalidUtf8);
        }
        let mut st = TagScan {
            object: None,
            object_type: None,
            tag_name: None,
            tagger: None,
            message: Vec::new(),
            in_message: false,
        };
        assert(tag_scan_v(st) == (
            None::<Seq<u8>>,
            None::<Seq<u8>>,
            None::<Seq<u8>>,
            None::<SigV>,
            Seq::<u8>::empty(),
            false,
        ));
        assert(c@.subrange(0, 0) =~= Seq::<u8>::empty());
        let len = c.len();
        let mut line_start: usize = 0;
        let mut i: usize = 0;
        while i < len
            invariant
                0 <= line_start <= i <= len,
                len == c@.len(),
                c@ == raw.content@,
                raw.object_type == ObjectType::Tag,
                valid_utf8(c@),
                tag_scan(c@, 0, (None, None, None, None, Seq::empty(), false), Seq::empty())
                    == tag_scan(c@, i as int, tag_scan_v(st), c@.subrange(line_start as int, i as int)),
                tag_scan_fail(c@, 0, (None, None, None, None, Seq::empty(), false), Seq::empty())
                    == tag_scan_fail(c@, i as int, tag_scan_v(st), c@.subrange(line_start as int, i as int)),
            decreases len - i,
        {
            if c[i] == 10u8 {
                let end = if i > line_start && c[i - 1] == 13u8 {
                    i - 1
                } else {
                    i
                };
                assert(c@.subrange(line_start as int, end as int) =~= strip_cr(
                    c@.subrange(line_start as int, i as int),
                ));
                if !tag_line(&mut st, c, line_start, end) {
                    return Err(tag_header_error(c, line_start, end));
                }
                line_start = i + 1;
                assert(c@.subrange(line_start as int, i + 1) =~= Seq::<u8>::empty());
            } else {
                assert(c@.subrange(line_start as int, i + 1) =~= c@.subrange(
                    line_start as int,
                    i as int,
                ).push(c@[i as int]));
            }
            i = i + 1;
        }
        if line_start < len {
            if !tag_line(&mut st, c, line_start, len) {
                return Err(tag_header_error(c, line_start, len));
            }
        }
        let object = match st.object {
            Some(t) => t,
            None => { return Err(invalid_tag("missing object")); },
        };
        let object_type = match st.object_type {
            Some(t) => t,
            None => { return Err(invalid_tag("missing type")); },
        };
        let tag_name = match st.tag_name {
            Some(t) => t,
            None => { return Err(invalid_tag("missing tag name")); },
        };
        let tagger = match st.tagger {
            Some(t) => t,
            None => { return Err(invalid_tag("missing tagger")); },
        };
        let object_type = match utf8_string(object_type) {
            Some(m) => m,
            None => { return Err(Error::InvalidUtf8); },
        };
        let tag_name = match utf8_string(tag_name) {
            Some(m) => m,
            None => { return Err(Error::InvalidUtf8); },
        };
        let message = match utf8_string(st.message) {
            Some(m) => m,
            None => { return Err(Error::InvalidUtf8); },
        };
        Ok(TagObject { object, object_type, tag_name, tagger, message })
    }

    /// The tagged object.
    pub fn object(&self) -> (r: &Oid)
        ensures
            *r == self.object,
    {
        &self.object
    }

    /// The type name of the tagged object.
    pub fn object_type(&self) -> (r: &str)
        ensures
            r@ == self.object_type@,
    {
        self.object_type.as_str()
    }

    /// The tag's name.
    pub fn tag_name(&self) -> (r: &str)
        ensures
            r@ == self.tag_name@,
    {
        self.tag_name.as_str()
    }

    /// Who made the tag.
    pub fn tagger(&self) -> (r: &Signature)
        ensures
            *r == self.tagger,
    {
        &self.tagger
    }

    /// The message.
    pub fn message(&self) -> (r: &str)
        ensures
            r@ == self.message@,
    {
        self.message.as_str()
    }

    /// The first line of the message.
    pub fn summary(&self) -> (r: String)
        ensures
            bytes_of(r@) == first_line(bytes_of(self.message@)),
    {
        first_line_of(self.message.as_str())
    }
}

} // verus!
