//! Remote-tracking branches.

use vstd::prelude::*;

use crate::objects::oid::{hex_of, Oid};
use crate::text::{bytes_of, concat, owned};

verus! {

/// The bytes `refs/remotes/`.
pub open spec fn remotes_prefix() -> Seq<u8> {
    seq![114u8, 101, 102, 115, 47, 114, 101, 109, 111, 116, 101, 115, 47]
}

/// A branch of a remote, as last fetched.
#[derive(Debug, Clone, PartialEq, Eq)]
pub struct RemoteBranch {
    pub remote: String,
    pub name: String,
    pub oid: Oid,
}

fn slash_join(a: &str, b: &str) -> (r: String)
    ensures
        bytes_of(r@) == bytes_of(a@) + seq![47u8] + bytes_of(b@),
{
    let s = concat(a, "/");
    proof {
        reveal_strlit("/");
        crate::text::lemma_ascii_chars_bytes("/"@);
        assert(bytes_of("/"@) =~= seq![47u8]);
    }
    concat(s.as_str(), b)
}

impl RemoteBranch {
    /// A remote-tracking branch.
    pub fn new(remote: &str, name: &str, oid: Oid) -> (r: RemoteBranch)
        ensures
            r.remote@ == remote@ && r.name@ == name@ && r.oid == oid,
    {
        RemoteBranch { remote: owned(remote), name: owned(name), oid }
    }

    /// The remote's name.
    pub fn remote(&self) -> (r: &str)
        ensures
            r@ == self.remote@,
    {
        self.remote.as_str()
    }

    /// The branch name within the remote.
    pub fn name(&self) -> (r: &str)
        ensures
            r@ == self.name@,
    {
        self.name.as_str()
    }

    /// `remote/name`.
    pub fn full_name(&self) -> (r: String)
        ensures
            bytes_of(r@) == bytes_of(self.remote@) + seq![47u8] + bytes_of(self.name@),
    {
        slash_join(self.remote.as_str(), self.name.as_str())
    }

    /// The commit it points to.
    pub fn oid(&self) -> (r: &Oid)
        ensures
            *r == self.oid,
    {
        &self.oid
    }

    /// `refs/remotes/remote/name`.
    pub fn reference_name(&self) -> (r: String)
        ensures
            bytes_of(r@) == remotes_prefix() + bytes_of(self.remote@) + seq![47u8] + bytes_of(self.name@),
    {
        let p = "refs/remotes/";
        proof {
            reveal_strlit("refs/remotes/");
            crate::text::lemma_ascii_chars_bytes(p@);
            assert(bytes_of(p@) =~= remotes_prefix());
        }
        let full = self.full_name();
        let r = concat(p, full.as_str());
        assert(bytes_of(r@) =~= remotes_prefix() + bytes_of(self.remote@) + seq![47u8] + bytes_of(self.name@));
        r
    }

    /// The first seven hex digits of the commit id.
    pub fn short_oid(&self) -> (r: String)
        ensures
            bytes_of(r@) == hex_of(self.oid@).subrange(0, 7),
    {
        self.oid.short()
    }
}

} // verus!
