//! Loose objects: the `"<type> <size>\0<body>"` framing, its zlib
//! envelope, and the layout of the objects directory.

use vstd::prelude::*;
use vstd::utf8::*;

use crate::error::Error;
use crate::infra::compression::{decompress, decompress_accepts, deflated, inflated, compress};
use crate::infra::hash::{decimal, framed_object, hash_object, object_header, object_id};
use crate::objects::oid::{hex_of, Oid};
use crate::text::{
    all_ascii, all_digits, append_all, append_range, bytes_of, copy_range, digits_value,
    find_from, lemma_ascii_chars_bytes, lemma_ascii_valid_utf8, lemma_digits_of_decimal,
    lemma_find_from, owned, range_eq, parse_digits, position_from, str_bytes, text_of,
};

verus! {

/// The four kinds of stored object.
#[derive(Debug, Clone, Copy, PartialEq, Eq, Structural)]
pub enum ObjectType {
    Blob,
    Tree,
    Commit,
    Tag,
}

/// The type name of a kind as written in a header.
pub open spec fn kind_name(k: ObjectType) -> Seq<u8> {
    match k {
        ObjectType::Blob => seq![98u8, 108, 111, 98],
        ObjectType::Tree => seq![116u8, 114, 101, 101],
        ObjectType::Commit => seq![99u8, 111, 109, 109, 105, 116],
        ObjectType::Tag => seq![116u8, 97, 103],
    }
}

/// The kind that a type name denotes.
pub open spec fn kind_of_name(s: Seq<u8>) -> Option<ObjectType> {
    if s == kind_name(ObjectType::Blob) {
        Some(ObjectType::Blob)
    } else if s == kind_name(ObjectType::Tree) {
        Some(ObjectType::Tree)
    } else if s == kind_name(ObjectType::Commit) {
        Some(ObjectType::Commit)
    } else if s == kind_name(ObjectType::Tag) {
        Some(ObjectType::Tag)
    } else {
        None
    }
}

/// Type names read back to their kind.
pub proof fn lemma_kind_name(k: ObjectType)
    ensures
        kind_of_name(kind_name(k)) == Some(k),
        all_ascii(kind_name(k)),
        find_from(kind_name(k), 32, 0) == -1,
        find_from(kind_name(k), 0, 0) == -1,
{
    lemma_find_from(kind_name(k), 32, 0);
    lemma_find_from(kind_name(k), 0, 0);
    match k {
        ObjectType::Blob => {},
        ObjectType::Tree => {
            assert(kind_name(k) != kind_name(ObjectType::Blob));
        },
        ObjectType::Commit => {
            assert(kind_name(k) != kind_name(ObjectType::Blob));
            assert(kind_name(k) != kind_name(ObjectType::Tree));
        },
        ObjectType::Tag => {
            assert(kind_name(k) != kind_name(ObjectType::Blob));
            assert(kind_name(k) != kind_name(ObjectType::Tree));
            assert(kind_name(k) != kind_name(ObjectType::Commit));
        },
    }
}

impl ObjectType {
    /// The type name as written in headers.
    pub fn as_str(&self) -> (r: &'static str)
        ensures
            bytes_of(r@) == kind_name(*self),
    {
        match self {
            ObjectType::Blob => {
                proof {
                    reveal_strlit("blob");
                    lemma_ascii_chars_bytes("blob"@);
                    assert(bytes_of("blob"@) =~= kind_name(*self));
                }
                "blob"
            },
            ObjectType::Tree => {
                proof {
                    reveal_strlit("tree");
                    lemma_ascii_chars_bytes("tree"@);
                    assert(bytes_of("tree"@) =~= kind_name(*self));
                }
                "tree"
            },
            ObjectType::Commit => {
                proof {
                    reveal_strlit("commit");
                    lemma_ascii_chars_bytes("commit"@);
                    assert(bytes_of("commit"@) =~= kind_name(*self));
                }
                "commit"
            },
            ObjectType::Tag => {
                proof {
                    reveal_strlit("tag");
                    lemma_ascii_chars_bytes("tag"@);
                    assert(bytes_of("tag"@) =~= kind_name(*self));
                }
                "tag"
            },
        }
    }

    /// The kind named by a type name, if any.
    pub fn parse(s: &str) -> (r: Option<ObjectType>)
        ensures
            r == kind_of_name(bytes_of(s@)),
    {
        let b = str_bytes(s);
        assert(b@.subrange(0, b@.len() as int) =~= b@);
        ObjectType::parse_bytes(b, 0, b.len())
    }

    /// The kind named by `s[from..to]`, if any.
    pub fn parse_bytes(s: &[u8], from: usize, to: usize) -> (r: Option<ObjectType>)
        requires
            from <= to <= s@.len(),
        ensures
            r == kind_of_name(s@.subrange(from as int, to as int)),
    {
        let ghost t = s@.subrange(from as int, to as int);
        if range_eq(s, from, to, ObjectType::Blob.as_str().as_bytes()) {
            Some(ObjectType::Blob)
        } else if range_eq(s, from, to, ObjectType::Tree.as_str().as_bytes()) {
            Some(ObjectType::Tree)
        } else if range_eq(s, from, to, ObjectType::Commit.as_str().as_bytes()) {
            Some(ObjectType::Commit)
        } else if range_eq(s, from, to, ObjectType::Tag.as_str().as_bytes()) {
            Some(ObjectType::Tag)
        } else {
            None
        }
    }
}

/// An object's kind and body as stored, before the kind-specific parse.
#[derive(Debug, Clone)]
pub struct RawObject {
    pub object_type: ObjectType,
    pub content: Vec<u8>,
}

/// What a decompressed loose object holds: the kind and the body after a
/// header `"<type> <size>\0"` whose size matches the body.
pub open spec fn parse_frame(data: Seq<u8>) -> Option<(ObjectType, Seq<u8>)> {
    let z = find_from(data, 0, 0);
    if z < 0 {
        None
    } else {
        let h = data.subrange(0, z);
        let sp = find_from(h, 32, 0);
        if sp < 0 {
            None
        } else {
            let kind = kind_of_name(h.subrange(0, sp));
            let digits = h.subrange(sp + 1, z);
            let body = data.subrange(z + 1, data.len() as int);
            if kind is None || digits.len() == 0 || !all_digits(digits) || digits_value(digits)
                != body.len() {
                None
            } else {
                Some((kind->0, body))
            }
        }
    }
}

/// The object directory: where each loose object lives.
#[derive(Debug)]
pub struct LooseObjectStore {
    pub objects_dir: String,
}

fn invalid_object(oid: &Oid, reason: &str) -> (r: Error)
    ensures
        r is InvalidObject,
        bytes_of(r->InvalidObject_oid@) == hex_of(oid@),
{
    Error::InvalidObject { oid: oid.to_hex(), reason: owned(reason) }
}

impl LooseObjectStore {
    /// A store rooted at the given objects directory.
    pub fn new(objects_dir: &str) -> (r: LooseObjectStore)
        ensures
            r.objects_dir@ == objects_dir@,
    {
        LooseObjectStore { objects_dir: owned(objects_dir) }
    }

    /// `<objects-root>/<first two hex digits>/<remaining 38>`.
    pub fn oid_to_path(&self, oid: &Oid) -> (r: String)
        ensures
            bytes_of(r@) == bytes_of(self.objects_dir@) + seq![47u8] + hex_of(oid@).subrange(0, 2)
                + seq![47u8] + hex_of(oid@).subrange(2, 40),
    {
        let hex = oid.to_hex();
        let hb = hex.as_str().as_bytes();
        let mut v: Vec<u8> = Vec::new();
        append_all(&mut v, self.objects_dir.as_str().as_bytes());
        let ghost root = v@;
        v.push(47u8);
        append_range(&mut v, hb, 0, 2);
        v.push(47u8);
        append_range(&mut v, hb, 2, 40);
        proof {
            let tail = seq![47u8] + hex_of(oid@).subrange(0, 2) + seq![47u8] + hex_of(
                oid@,
            ).subrange(2, 40);
            assert(v@ =~= root + tail);
            crate::objects::oid::lemma_hex_ascii(oid@);
            assert(all_ascii(tail));
            lemma_ascii_valid_utf8(tail);
            encode_utf8_valid_utf8(self.objects_dir@);
            valid_utf8_concat(root, tail);
        }
        text_of(v)
    }

    /// Splits a decompressed loose object into kind and body.
    pub fn parse_raw_object(data: &[u8], oid: &Oid) -> (r: Result<RawObject, Error>)
        ensures
            r is Ok <==> parse_frame(data@) is Some,
            r is Ok ==> (r->Ok_0.object_type, r->Ok_0.content@) == parse_frame(data@)->0,
            r is Err ==> r->Err_0 is InvalidObject && bytes_of(r->Err_0->InvalidObject_oid@) == hex_of(oid@),
    {
        let dlen = data.len();
        let z = match position_from(data, 0, 0) {
            Some(z) => z,
            None => { return Err(invalid_object(oid, "missing null byte in header")); },
        };
        proof {
            lemma_find_from(data@, 0, 0);
        }
        let ghost h = data@.subrange(0, z as int);
        let header = copy_range(data, 0, z);
        let sp = match position_from(header.as_slice(), 0, 32) {
            Some(sp) => sp,
            None => { return Err(invalid_object(oid, "missing object size")); },
        };
        proof {
            lemma_find_from(h, 32, 0);
        }
        let kind = match ObjectType::parse_bytes(header.as_slice(), 0, sp) {
            Some(k) => k,
            None => { return Err(invalid_object(oid, "unknown object type")); },
        };
        let size = match parse_digits(header.as_slice(), sp + 1, z) {
            Some(n) => n,
            None => {
                assert(data@.subrange(z + 1, data@.len() as int).len() <= dlen);
                return Err(invalid_object(oid, "invalid size"));
            },
        };
        if data.len() - (z + 1) != size {
            return Err(invalid_object(oid, "size mismatch"));
        }
        let content = copy_range(data, z + 1, data.len());
        Ok(RawObject { object_type: kind, content })
    }

    /// Reads a loose object from the bytes of its file: inflates, then
    /// splits the header from the body.
    pub fn decode(file: &[u8], oid: &Oid) -> (r: Result<RawObject, Error>)
        ensures
            r is Ok <==> (decompress_accepts(file@) && parse_frame(inflated(file@)->0) is Some),
            r is Ok ==> (r->Ok_0.object_type, r->Ok_0.content@) == parse_frame(
                inflated(file@)->0,
            )->0,
            r is Err ==> r->Err_0 is DecompressionFailed || r->Err_0 is InvalidObject,
    {
        let data = decompress(file)?;
        LooseObjectStore::parse_raw_object(data.as_slice(), oid)
    }

    /// Reads the object `oid` from its file's bytes (`None` when there is
    /// no such file): a missing file is `ObjectNotFound` with the hex id, and
    /// an object whose header and body do not hash to `oid` is
    /// `InvalidObject`.
    pub fn read_object(oid: &Oid, file: Option<&[u8]>) -> (r: Result<RawObject, Error>)
        ensures
            file is None ==> r is Err && r->Err_0 is ObjectNotFound && bytes_of(r->Err_0->ObjectNotFound_0@) == hex_of(oid@),
            r is Ok ==> file is Some && (r->Ok_0.object_type, r->Ok_0.content@) == parse_frame(inflated(file->Some_0@)->0)->0
                && object_id(kind_name(r->Ok_0.object_type), r->Ok_0.content@) == oid@,
            file is Some ==> (r is Ok <==> (decompress_accepts(file->Some_0@) && parse_frame(inflated(file->Some_0@)->0) is Some
                && object_id(kind_name((parse_frame(inflated(file->Some_0@)->0)->0).0), (parse_frame(inflated(file->Some_0@)->0)->0).1) == oid@)),
    {
        let data = match file {
            Some(d) => d,
            None => { return Err(Error::ObjectNotFound(oid.to_hex())); },
        };
        let raw = LooseObjectStore::decode(data, oid)?;
        let h = hash_object(raw.object_type.as_str(), raw.content.as_slice());
        if !crate::text::range_eq(h.as_slice(), 0, h.len(), oid.as_bytes().as_slice()) {
            proof {
                assert(h@.subrange(0, h@.len() as int) =~= h@);
            }
            return Err(invalid_object(oid, "object does not hash to its id"));
        }
        assert(h@.subrange(0, h@.len() as int) =~= h@);
        Ok(raw)
    }

    /// What writing an object stores: its identifier and the compressed
    /// framed bytes of its file.
    pub fn encode(object_type: ObjectType, content: &[u8]) -> (r: (Oid, Vec<u8>))
        ensures
            r.0@ == object_id(kind_name(object_type), content@),
            r.1@ == deflated(object_header(kind_name(object_type), content@.len()) + content@),
    {
        let name = object_type.as_str();
        let framed = framed_object(name.as_bytes(), content);
        let h = hash_object(name, content);
        let mut bytes = [0u8; 20];
        let mut i: usize = 0;
        while i < 20
            invariant
                0 <= i <= 20,
                h@.len() == 20,
                forall|j: int| 0 <= j < i ==> bytes@[j] == h@[j],
            decreases 20 - i,
        {
            bytes[i] = h[i];
            i = i + 1;
        }
        assert(bytes@ =~= h@);
        (Oid::from_bytes(bytes), compress(framed.as_slice()))
    }
}

/// A framed object parses back to its kind and body.
pub proof fn lemma_frame_round_trip(k: ObjectType, body: Seq<u8>)
    ensures
        parse_frame(object_header(kind_name(k), body.len()) + body) == Some((k, body)),
{
    let name = kind_name(k);
    let d = decimal(body.len());
    let data = object_header(name, body.len()) + body;
    lemma_kind_name(k);
    crate::infra::hash::lemma_decimal_ascii(body.len());
    lemma_digits_of_decimal(body.len());
    let z: int = (name.len() + 1 + d.len()) as int;
    assert(data[z] == 0u8);
    assert forall|j: int| 0 <= j < z implies data[j] != 0u8 by {
        if j < name.len() {
            lemma_find_from(name, 0, 0);
            assert(data[j] == name[j]);
        } else if j > name.len() {
            assert(data[j] == d[j - name.len() - 1]);
        }
    }
    lemma_first_at(data, 0, z);
    let h = data.subrange(0, z);
    assert(h[name.len() as int] == 32u8);
    assert forall|j: int| 0 <= j < name.len() implies h[j] != 32u8 by {
        lemma_find_from(name, 32, 0);
        assert(h[j] == name[j]);
    }
    lemma_first_at(h, 32, name.len() as int);
    assert(h.subrange(0, name.len() as int) =~= name);
    assert(h.subrange(name.len() + 1 as int, z) =~= d);
    assert(data.subrange(z + 1, data.len() as int) =~= body);
}

/// The first occurrence, once located, is what the search finds.
pub proof fn lemma_first_at(s: Seq<u8>, c: u8, at: int)
    requires
        0 <= at < s.len(),
        s[at] == c,
        forall|j: int| 0 <= j < at ==> s[j] != c,
    ensures
        find_from(s, c, 0) == at,
{
    lemma_first_at_from(s, c, 0, at);
}

pub proof fn lemma_first_at_from(s: Seq<u8>, c: u8, from: int, at: int)
    requires
        0 <= from <= at < s.len(),
        s[at] == c,
        forall|j: int| from <= j < at ==> s[j] != c,
    ensures
        find_from(s, c, from) == at,
    decreases at - from,
{
    if from < at {
        lemma_first_at_from(s, c, from + 1, at);
    }
}

} // verus!

verus! {

/// The identifier of a stored object is the SHA-1 of the bytes it is
/// stored as, header included, and those bytes read back to the object.
pub proof fn lemma_object_id_law(k: ObjectType, body: Seq<u8>)
    ensures
        object_id(kind_name(k), body) == crate::infra::hash::sha1_spec(object_header(kind_name(k), body.len()) + body),
        parse_frame(object_header(kind_name(k), body.len()) + body) == Some((k, body)),
{
    lemma_frame_round_trip(k, body);
}

} // verus!
