//! Local branches.

use vstd::prelude::*;

use crate::objects::oid::{hex_of, Oid};
use crate::refs::head::{heads_prefix, heads_ref};
use crate::text::{bytes_lt, bytes_of, lex_lt, owned, str_bytes, str_eq_bytes};

verus! {

/// A local branch and the commit it points to.
#[derive(Debug, Clone, PartialEq, Eq)]
pub struct Branch {
    pub name: String,
    pub oid: Oid,
    pub is_current: bool,
}

impl Branch {
    /// A branch that is not checked out.
    pub fn new(name: &str, oid: Oid) -> (r: Branch)
        ensures
            r.name@ == name@ && r.oid == oid && !r.is_current,
    {
        Branch { name: owned(name), oid, is_current: false }
    }

    /// The checked-out branch.
    pub fn current(name: &str, oid: Oid) -> (r: Branch)
        ensures
            r.name@ == name@ && r.oid == oid && r.is_current,
    {
        Branch { name: owned(name), oid, is_current: true }
    }

    /// The short name.
    pub fn name(&self) -> (r: &str)
        ensures
            r@ == self.name@,
    {
        self.name.as_str()
    }

    /// The commit it points to.
    pub fn oid(&self) -> (r: &Oid)
        ensures
            *r == self.oid,
    {
        &self.oid
    }

    /// Whether HEAD is on this branch.
    pub fn is_current(&self) -> (r: bool)
        ensures
            r == self.is_current,
    {
        self.is_current
    }

    /// `refs/heads/<name>`.
    pub fn reference_name(&self) -> (r: String)
        ensures
            bytes_of(r@) == heads_prefix() + bytes_of(self.name@),
    {
        heads_ref(self.name.as_str())
    }

    /// The first seven hex digits of the commit id.
    pub fn short_oid(&self) -> (r: String)
        ensures
            bytes_of(r@) == hex_of(self.oid@).subrange(0, 7),
    {
        self.oid.short()
    }

    /// Marks or unmarks the branch as checked out.
    pub fn set_current(&mut self, is_current: bool)
        ensures
            final(self).is_current == is_current,
            final(self).name == old(self).name,
            final(self).oid == old(self).oid,
    {
        self.is_current = is_current;
    }

    /// The listing line: `* name` when checked out, `  name` otherwise.
    pub fn display(&self) -> (r: String)
        ensures
            bytes_of(r@) == (if self.is_current { seq![42u8, 32] } else { seq![32u8, 32] }) + bytes_of(self.name@),
    {
        let mark = if self.is_current { "* " } else { "  " };
        proof {
            reveal_strlit("* ");
            reveal_strlit("  ");
            crate::text::lemma_ascii_chars_bytes("* "@);
            crate::text::lemma_ascii_chars_bytes("  "@);
            assert(bytes_of("* "@) =~= seq![42u8, 32]);
            assert(bytes_of("  "@) =~= seq![32u8, 32]);
        }
        crate::text::concat(mark, self.name.as_str())
    }
}

/// A list of branches.
#[derive(Debug, Clone)]
pub struct BranchList {
    pub branches: Vec<Branch>,
}

impl BranchList {
    /// An empty list.
    pub fn new() -> (r: BranchList)
        ensures
            r.branches@.len() == 0,
    {
        BranchList { branches: Vec::new() }
    }

    /// A list of the given branches, in the given order.
    pub fn from_branches(branches: Vec<Branch>) -> (r: BranchList)
        ensures
            r.branches@ == branches@,
    {
        BranchList { branches }
    }

    /// Appends a branch.
    pub fn push(&mut self, branch: Branch)
        ensures
            final(self).branches@ == old(self).branches@.push(branch),
    {
        self.branches.push(branch);
    }

    /// The number of branches.
    pub fn len(&self) -> (r: usize)
        ensures
            r == self.branches@.len(),
    {
        self.branches.len()
    }

    /// Whether the list is empty.
    pub fn is_empty(&self) -> (r: bool)
        ensures
            r == (self.branches@.len() == 0),
    {
        self.branches.len() == 0
    }

    /// The first branch marked as checked out.
    pub fn current(&self) -> (r: Option<&Branch>)
        ensures
            r is None <==> forall|i: int| 0 <= i < self.branches@.len() ==> !self.branches@[i].is_current,
            r is Some ==> exists|i: int| 0 <= i < self.branches@.len() && *r->Some_0 == self.branches@[i]
                && self.branches@[i].is_current && forall|j: int| 0 <= j < i ==> !self.branches@[j].is_current,
    {
        let mut i: usize = 0;
        while i < self.branches.len()
            invariant
                0 <= i <= self.branches@.len(),
                forall|j: int| 0 <= j < i ==> !self.branches@[j].is_current,
            decreases self.branches@.len() - i,
        {
            if self.branches[i].is_current {
                return Some(&self.branches[i]);
            }
            i = i + 1;
        }
        None
    }

    /// Iterates over the branches in order.
    pub fn iter(&self) -> (r: std::slice::Iter<'_, Branch>)
        ensures
            vstd::std_specs::iter::IteratorSpec::remaining(&r) == self.branches@.as_ref(),
    {
        self.branches.iter()
    }

    /// The branches as a slice.
    pub fn as_slice(&self) -> (r: &[Branch])
        ensures
            r@ == self.branches@,
    {
        self.branches.as_slice()
    }

    /// The first branch with the given name.
    pub fn find(&self, name: &str) -> (r: Option<&Branch>)
        ensures
            r is None <==> forall|i: int| 0 <= i < self.branches@.len() ==> self.branches@[i].name@ != name@,
            r is Some ==> exists|i: int| 0 <= i < self.branches@.len() && *r->Some_0 == self.branches@[i]
                && self.branches@[i].name@ == name@ && forall|j: int| 0 <= j < i ==> self.branches@[j].name@ != name@,
    {
        let nb = str_bytes(name);
        let mut i: usize = 0;
        while i < self.branches.len()
            invariant
                0 <= i <= self.branches@.len(),
                nb@ == bytes_of(name@),
                forall|j: int| 0 <= j < i ==> self.branches@[j].name@ != name@,
            decreases self.branches@.len() - i,
        {
            if str_eq_bytes(self.branches[i].name.as_str(), nb) {
                proof {
                    crate::text::lemma_bytes_of_injective(self.branches@[i as int].name@, name@);
                }
                return Some(&self.branches[i]);
            }
            i = i + 1;
        }
        None
    }

    /// Sorts the branches by name (stable).
    pub fn sort_by_name(&mut self)
        ensures
            final(self).branches@.to_multiset() == old(self).branches@.to_multiset(),
            forall|i: int, j: int| 0 <= i < j < final(self).branches@.len() ==> !lex_lt(
                bytes_of(final(self).branches@[j].name@),
                bytes_of(final(self).branches@[i].name@),
            ),
    {
        let mut src: Vec<Branch> = Vec::new();
        std::mem::swap(&mut src, &mut self.branches);
        let mut result: Vec<Branch> = Vec::new();
        let mut t: usize = 0;
        assert(result@ =~= src@.subrange(0, 0));
        while t < src.len()
            invariant
                0 <= t <= src@.len(),
                src@ == old(self).branches@,
                forall|a: int, b: int| 0 <= a < b < result@.len() ==> !lex_lt(bytes_of(result@[b].name@), bytes_of(result@[a].name@)),
                result@.to_multiset() == src@.subrange(0, t as int).to_multiset(),
            decreases src@.len() - t,
        {
            let x = Branch { name: src[t].name.clone(), oid: src[t].oid, is_current: src[t].is_current };
            assert(x == src@[t as int]);
            let xp = str_bytes(x.name.as_str());
            let mut q: usize = 0;
            while q < result.len() && !bytes_lt(xp, str_bytes(result[q].name.as_str()))
                invariant
                    0 <= q <= result@.len(),
                    xp@ == bytes_of(x.name@),
                    forall|a: int| 0 <= a < q ==> !lex_lt(xp@, bytes_of(#[trigger] result@[a].name@)),
                decreases result@.len() - q,
            {
                q = q + 1;
            }
            let ghost rv = result@;
            result.insert(q, x);
            proof {
                let nv = result@;
                crate::diff::lemma_ms_insert(rv, q as int, x);
                assert(src@.subrange(0, t + 1) =~= src@.subrange(0, t as int).push(src@[t as int]));
                src@.subrange(0, t as int).to_multiset_ensures();
                assert forall|a: int, b: int| 0 <= a < b < nv.len() implies !lex_lt(bytes_of(nv[b].name@), bytes_of(nv[a].name@)) by {
                    if b < q {
                    } else if a < q && b == q {
                    } else if a < q && b > q {
                        assert(nv[b] == rv[b - 1]);
                        if lex_lt(bytes_of(rv[b - 1].name@), xp@) {
                            crate::text::lemma_lex_trans(bytes_of(rv[b - 1].name@), xp@, bytes_of(rv[q as int].name@));
                        }
                        crate::text::lemma_lex_total(xp@, bytes_of(rv[a].name@));
                        if lex_lt(bytes_of(rv[b - 1].name@), bytes_of(rv[a].name@)) {
                            crate::text::lemma_lex_trans(bytes_of(rv[b - 1].name@), bytes_of(rv[a].name@), xp@);
                            crate::text::lemma_lex_trans(bytes_of(rv[b - 1].name@), xp@, bytes_of(rv[q as int].name@));
                        }
                    } else if a == q {
                        assert(nv[b] == rv[b - 1]);
                        if lex_lt(bytes_of(rv[b - 1].name@), xp@) {
                            crate::text::lemma_lex_trans(bytes_of(rv[b - 1].name@), xp@, bytes_of(rv[q as int].name@));
                            if b - 1 == q {
                                crate::text::lemma_lex_irreflexive(bytes_of(rv[q as int].name@));
                            }
                        }
                    } else {
                        assert(nv[a] == rv[a - 1]);
                        assert(nv[b] == rv[b - 1]);
                    }
                }
            }
            t = t + 1;
        }
        assert(src@.subrange(0, src@.len() as int) =~= src@);
        self.branches = result;
    }
}

} // verus!
