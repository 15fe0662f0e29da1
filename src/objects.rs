//! Git objects: identifiers and the codecs of blobs, trees, commits and tags.

pub mod blob;
pub mod commit;
pub mod oid;
pub mod store;
pub mod tag_object;
pub mod tree;

pub use blob::Blob;
pub use commit::{Commit, Signature};
pub use oid::Oid;
pub use tree::{FileMode, Tree, TreeEntry};
pub use tag_object::TagObject;
pub use store::{LooseObjectStore, ObjectType, RawObject};

use vstd::prelude::*;

verus! {

/// Any object read from the store, by kind.
#[derive(Debug, Clone)]
pub enum Object {
    Blob(Blob),
    Tree(Tree),
    Commit(Commit),
}

impl Object {
    /// The kind of the object.
    pub fn kind(&self) -> (r: ObjectType)
        ensures
            r == match self {
                Object::Blob(_) => ObjectType::Blob,
                Object::Tree(_) => ObjectType::Tree,
                Object::Commit(_) => ObjectType::Commit,
            },
    {
        match self {
            Object::Blob(_) => ObjectType::Blob,
            Object::Tree(_) => ObjectType::Tree,
            Object::Commit(_) => ObjectType::Commit,
        }
    }

    /// The blob, if this is one.
    pub fn as_blob(&self) -> (r: Option<&Blob>)
        ensures
            r is Some <==> self is Blob,
            r is Some ==> *r->Some_0 == self->Blob_0,
    {
        match self {
            Object::Blob(b) => Some(b),
            _ => None,
        }
    }

    /// The tree, if this is one.
    pub fn as_tree(&self) -> (r: Option<&Tree>)
        ensures
            r is Some <==> self is Tree,
            r is Some ==> *r->Some_0 == self->Tree_0,
    {
        match self {
            Object::Tree(t) => Some(t),
            _ => None,
        }
    }

    /// The commit, if this is one.
    pub fn as_commit(&self) -> (r: Option<&Commit>)
        ensures
            r is Some <==> self is Commit,
            r is Some ==> *r->Some_0 == self->Commit_0,
    {
        match self {
            Object::Commit(c) => Some(c),
            _ => None,
        }
    }

    /// The blob, if this is one.
    pub fn into_blob(self) -> (r: Option<Blob>)
        ensures
            r is Some <==> self is Blob,
            r is Some ==> r->Some_0 == self->Blob_0,
    {
        match self {
            Object::Blob(b) => Some(b),
            _ => None,
        }
    }

    /// The tree, if this is one.
    pub fn into_tree(self) -> (r: Option<Tree>)
        ensures
            r is Some <==> self is Tree,
            r is Some ==> r->Some_0 == self->Tree_0,
    {
        match self {
            Object::Tree(t) => Some(t),
            _ => None,
        }
    }

    /// The commit, if this is one.
    pub fn into_commit(self) -> (r: Option<Commit>)
        ensures
            r is Some <==> self is Commit,
            r is Some ==> r->Some_0 == self->Commit_0,
    {
        match self {
            Object::Commit(c) => Some(c),
            _ => None,
        }
    }
}

impl From<Blob> for Object {
    fn from(b: Blob) -> (r: Object)
        ensures
            r == Object::Blob(b),
    {
        Object::Blob(b)
    }
}

impl vstd::std_specs::convert::FromSpecImpl<Blob> for Object {
    open spec fn obeys_from_spec() -> bool {
        true
    }

    open spec fn from_spec(b: Blob) -> Object {
        Object::Blob(b)
    }
}

impl From<Tree> for Object {
    fn from(t: Tree) -> (r: Object)
        ensures
            r == Object::Tree(t),
    {
        Object::Tree(t)
    }
}

impl vstd::std_specs::convert::FromSpecImpl<Tree> for Object {
    open spec fn obeys_from_spec() -> bool {
        true
    }

    open spec fn from_spec(t: Tree) -> Object {
        Object::Tree(t)
    }
}

impl From<Commit> for Object {
    fn from(c: Commit) -> (r: Object)
        ensures
            r == Object::Commit(c),
    {
        Object::Commit(c)
    }
}

impl vstd::std_specs::convert::FromSpecImpl<Commit> for Object {
    open spec fn obeys_from_spec() -> bool {
        true
    }

    open spec fn from_spec(c: Commit) -> Object {
        Object::Commit(c)
    }
}

} // verus!
