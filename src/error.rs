//! The closed set of failures a call of the library can report.

use vstd::prelude::*;

use crate::text::bytes_of;

verus! {

/// Every failure kind of the library. Paths and I/O causes are carried as text.
#[derive(Debug, Clone, PartialEq, Eq)]
pub enum Error {
    Io(String),
    NotARepository(String),
    ObjectNotFound(String),
    RefNotFound(String),
    PathNotFound(String),
    InvalidOid(String),
    InvalidRefName(String),
    InvalidObject { oid: String, reason: String },
    InvalidIndex { version: u32, reason: String },
    TypeMismatch { expected: &'static str, actual: &'static str },
    InvalidUtf8,
    DecompressionFailed,
    RefAlreadyExists(String),
    CannotDeleteCurrentBranch,
    EmptyCommit,
    DirtyWorkingTree,
    ConfigNotFound(String),
    AlreadyARepository(String),
}

} // verus!

verus! {

fn join(a: &'static str, b: &str) -> (r: String)
    ensures
        bytes_of(r@) == bytes_of(a@) + bytes_of(b@),
{
    crate::text::concat(a, b)
}

impl Error {
    /// A human-readable description of the failure.
    pub fn message(&self) -> (r: String)
        ensures
            self is ObjectNotFound ==> bytes_of(r@) == bytes_of("object not found: "@) + bytes_of(self->ObjectNotFound_0@),
            self is RefNotFound ==> bytes_of(r@) == bytes_of("reference not found: "@) + bytes_of(self->RefNotFound_0@),
            self is InvalidOid ==> bytes_of(r@) == bytes_of("invalid object id: "@) + bytes_of(self->InvalidOid_0@),
            self is NotARepository ==> bytes_of(r@) == bytes_of("not a git repository: "@) + bytes_of(self->NotARepository_0@),
            self is Io ==> bytes_of(r@) == bytes_of("I/O error: "@) + bytes_of(self->Io_0@),
            self is PathNotFound ==> bytes_of(r@) == bytes_of("path not found: "@) + bytes_of(self->PathNotFound_0@),
            self is InvalidRefName ==> bytes_of(r@) == bytes_of("invalid reference name: "@) + bytes_of(self->InvalidRefName_0@),
            self is RefAlreadyExists ==> bytes_of(r@) == bytes_of("reference already exists: "@) + bytes_of(self->RefAlreadyExists_0@),
            self is ConfigNotFound ==> bytes_of(r@) == bytes_of("configuration not found: "@) + bytes_of(self->ConfigNotFound_0@),
            self is AlreadyARepository ==> bytes_of(r@) == bytes_of("repository already exists: "@) + bytes_of(self->AlreadyARepository_0@),
            self is InvalidUtf8 ==> r@ == "invalid UTF-8 sequence"@,
            self is DecompressionFailed ==> r@ == "zlib decompression failed"@,
            self is CannotDeleteCurrentBranch ==> r@ == "cannot delete the current branch"@,
            self is EmptyCommit ==> r@ == "nothing to commit"@,
            self is DirtyWorkingTree ==> r@ == "working tree has uncommitted changes"@,
    {
        match self {
            Error::Io(e) => join("I/O error: ", e.as_str()),
            Error::NotARepository(p) => join("not a git repository: ", p.as_str()),
            Error::ObjectNotFound(o) => join("object not found: ", o.as_str()),
            Error::RefNotFound(n) => join("reference not found: ", n.as_str()),
            Error::PathNotFound(p) => join("path not found: ", p.as_str()),
            Error::InvalidOid(s) => join("invalid object id: ", s.as_str()),
            Error::InvalidRefName(n) => join("invalid reference name: ", n.as_str()),
            Error::InvalidObject { oid, reason } => {
                let a = join("invalid object ", oid.as_str());
                let b = crate::text::concat(a.as_str(), ": ");
                crate::text::concat(b.as_str(), reason.as_str())
            },
            Error::InvalidIndex { version, reason } => {
                let d = crate::infra::hash::decimal_u64(*version as u64);
                proof {
                    crate::infra::hash::lemma_decimal_ascii(*version as nat);
                    crate::text::lemma_ascii_valid_utf8(d@);
                }
                let v = crate::text::text_of(d);
                let a = join("invalid index (version ", v.as_str());
                let b = crate::text::concat(a.as_str(), "): ");
                crate::text::concat(b.as_str(), reason.as_str())
            },
            Error::TypeMismatch { expected, actual } => {
                let a = join("type mismatch: expected ", expected);
                let b = crate::text::concat(a.as_str(), ", got ");
                crate::text::concat(b.as_str(), actual)
            },
            Error::InvalidUtf8 => crate::text::owned("invalid UTF-8 sequence"),
            Error::DecompressionFailed => crate::text::owned("zlib decompression failed"),
            Error::RefAlreadyExists(n) => join("reference already exists: ", n.as_str()),
            Error::CannotDeleteCurrentBranch => crate::text::owned("cannot delete the current branch"),
            Error::EmptyCommit => crate::text::owned("nothing to commit"),
            Error::DirtyWorkingTree => crate::text::owned("working tree has uncommitted changes"),
            Error::ConfigNotFound(k) => join("configuration not found: ", k.as_str()),
            Error::AlreadyARepository(p) => join("repository already exists: ", p.as_str()),
        }
    }
}

} // verus!
