//! HEAD: on a branch, or detached at a commit.

use vstd::prelude::*;

use crate::objects::oid::{hex_of, Oid};
use crate::text::{bytes_of, concat};

verus! {

/// The bytes `refs/heads/`.
pub open spec fn heads_prefix() -> Seq<u8> {
    seq![114u8, 101, 102, 115, 47, 104, 101, 97, 100, 115, 47]
}

/// `refs/heads/` followed by a name.
pub fn heads_ref(name: &str) -> (r: String)
    ensures
        bytes_of(r@) == heads_prefix() + bytes_of(name@),
{
    let p = "refs/heads/";
    proof {
        reveal_strlit("refs/heads/");
        crate::text::lemma_ascii_chars_bytes(p@);
        assert(bytes_of(p@) =~= heads_prefix());
    }
    concat(p, name)
}

/// Where HEAD points.
#[derive(Debug, Clone, PartialEq, Eq)]
pub enum Head {
    Branch { name: String, oid: Oid },
    Detached { oid: Oid },
}

impl Head {
    /// HEAD on a branch.
    pub fn branch(name: &str, oid: Oid) -> (r: Head)
        ensures
            r is Branch && r->Branch_name@ == name@ && r->Branch_oid == oid,
    {
        Head::Branch { name: crate::text::owned(name), oid }
    }

    /// HEAD detached at a commit.
    pub fn detached(oid: Oid) -> (r: Head)
        ensures
            r == (Head::Detached { oid }),
    {
        Head::Detached { oid }
    }

    /// The commit HEAD resolves to.
    pub fn oid(&self) -> (r: &Oid)
        ensures
            *r == match self {
                Head::Branch { oid, .. } => *oid,
                Head::Detached { oid } => *oid,
            },
    {
        match self {
            Head::Branch { oid, .. } => oid,
            Head::Detached { oid } => oid,
        }
    }

    /// The branch name, unless detached.
    pub fn branch_name(&self) -> (r: Option<&str>)
        ensures
            r is Some <==> self is Branch,
            r is Some ==> r->Some_0@ == self->Branch_name@,
    {
        match self {
            Head::Branch { name, .. } => Some(name.as_str()),
            Head::Detached { .. } => None,
        }
    }

    /// Whether HEAD is detached.
    pub fn is_detached(&self) -> (r: bool)
        ensures
            r == self is Detached,
    {
        match self {
            Head::Detached { .. } => true,
            _ => false,
        }
    }

    /// Whether HEAD is on a branch.
    pub fn is_branch(&self) -> (r: bool)
        ensures
            r == self is Branch,
    {
        match self {
            Head::Branch { .. } => true,
            _ => false,
        }
    }

    /// `refs/heads/<name>` on a branch; the commit's hex id when detached.
    pub fn reference_name(&self) -> (r: String)
        ensures
            self is Branch ==> bytes_of(r@) == heads_prefix() + bytes_of(self->Branch_name@),
            self is Detached ==> bytes_of(r@) == hex_of(self->Detached_oid@),
    {
        match self {
            Head::Branch { name, .. } => heads_ref(name.as_str()),
            Head::Detached { oid } => oid.to_hex(),
        }
    }
}

} // verus!
