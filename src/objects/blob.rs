//! Blobs: file contents, opaque bytes.

use vstd::prelude::*;
use vstd::utf8::*;

use crate::error::Error;
use crate::objects::store::{ObjectType, RawObject};
use crate::text::{bytes_of, str_from_utf8};

verus! {

/// The contents of a file as stored.
#[derive(Debug, Clone)]
pub struct Blob {
    pub content: Vec<u8>,
}

/// True when a NUL byte occurs in the first 8000 bytes.
pub open spec fn looks_binary(c: Seq<u8>) -> bool {
    exists|i: int| 0 <= i < c.len() && i < 8000 && c[i] == 0
}

impl Blob {
    /// Reads a blob from a raw object; another kind is a type mismatch.
    pub fn parse(raw: RawObject) -> (r: Result<Blob, Error>)
        ensures
            r is Ok <==> raw.object_type == ObjectType::Blob,
            r is Ok ==> r->Ok_0.content@ == raw.content@,
            r is Err ==> r->Err_0 is TypeMismatch && r->Err_0->TypeMismatch_expected@ == "blob"@
                && bytes_of(r->Err_0->TypeMismatch_actual@) == crate::objects::store::kind_name(raw.object_type),
    {
        if raw.object_type != ObjectType::Blob {
            return Err(Error::TypeMismatch { expected: "blob", actual: raw.object_type.as_str() });
        }
        Ok(Blob { content: raw.content })
    }

    /// The bytes.
    pub fn content(&self) -> (r: &[u8])
        ensures
            r@ == self.content@,
    {
        self.content.as_slice()
    }

    /// The bytes as text, when they are valid UTF-8.
    pub fn content_str(&self) -> (r: Result<&str, Error>)
        ensures
            r is Ok <==> valid_utf8(self.content@),
            r is Ok ==> r->Ok_0@ == decode_utf8(self.content@),
            r is Err ==> r->Err_0 is InvalidUtf8,
    {
        match str_from_utf8(self.content.as_slice()) {
            Some(s) => Ok(s),
            None => Err(Error::InvalidUtf8),
        }
    }

    /// The number of bytes.
    pub fn size(&self) -> (r: usize)
        ensures
            r == self.content@.len(),
    {
        self.content.len()
    }

    /// Whether the blob looks binary: a NUL among its first 8000 bytes.
    pub fn is_binary(&self) -> (r: bool)
        ensures
            r == looks_binary(self.content@),
    {
        let n = if self.content.len() < 8000 { self.content.len() } else { 8000 };
        let mut i: usize = 0;
        while i < n
            invariant
                0 <= i <= n,
                n <= 8000,
                n <= self.content@.len(),
                n == self.content@.len() || n == 8000,
                forall|j: int| 0 <= j < i ==> self.content@[j] != 0,
            decreases n - i,
        {
            if self.content[i] == 0 {
                return true;
            }
            i = i + 1;
        }
        false
    }
}

} // verus!
