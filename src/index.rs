//! The staging index: an ordered list of entries between the working tree
//! and the object store, and its binary file format.

pub mod reader;
pub mod writer;
pub mod laws;

pub use reader::parse;





use vstd::prelude::*;

use crate::objects::oid::Oid;
use crate::objects::tree::FileMode;
use crate::text::{bytes_of, lex_lt, owned, str_bytes, str_eq_bytes};

verus! {

/// An index entry as values.
pub struct IndexEntryV {
    pub ctime: u64,
    pub mtime: u64,
    pub dev: u32,
    pub ino: u32,
    pub mode: FileMode,
    pub uid: u32,
    pub gid: u32,
    pub size: u32,
    pub oid: Seq<u8>,
    pub path: Seq<u8>,
    pub stage: u8,
}

/// One staged file.
#[derive(Debug, Clone, PartialEq, Eq)]
pub struct IndexEntry {
    pub ctime: u64,
    pub mtime: u64,
    pub dev: u32,
    pub ino: u32,
    pub mode: FileMode,
    pub uid: u32,
    pub gid: u32,
    pub size: u32,
    pub oid: Oid,
    pub path: String,
    pub stage: u8,
}

/// The value of an entry.
pub open spec fn entry_v(e: IndexEntry) -> IndexEntryV {
    IndexEntryV {
        ctime: e.ctime,
        mtime: e.mtime,
        dev: e.dev,
        ino: e.ino,
        mode: e.mode,
        uid: e.uid,
        gid: e.gid,
        size: e.size,
        oid: e.oid@,
        path: bytes_of(e.path@),
        stage: e.stage,
    }
}

/// The values of a list of entries.
pub open spec fn entries_v(es: Seq<IndexEntry>) -> Seq<IndexEntryV> {
    es.map_values(|e: IndexEntry| entry_v(e))
}

/// The path bytes of an entry.
pub open spec fn path_of(e: IndexEntry) -> Seq<u8> {
    bytes_of(e.path@)
}

/// Entries are in strictly ascending path order (so paths are unique).
pub open spec fn sorted_by_path(es: Seq<IndexEntry>) -> bool {
    forall|i: int, j: int| 0 <= i < j < es.len() ==> lex_lt(path_of(es[i]), path_of(es[j]))
}

/// The staging area: a format version and its entries.
#[derive(Debug, Clone)]
pub struct Index {
    pub version: u32,
    pub entries: Vec<IndexEntry>,
}

impl IndexEntry {
    /// An entry from all of its fields.
    pub fn new(
        ctime: u64,
        mtime: u64,
        dev: u32,
        ino: u32,
        mode: FileMode,
        uid: u32,
        gid: u32,
        size: u32,
        oid: Oid,
        path: &str,
        stage: u8,
    ) -> (r: IndexEntry)
        ensures
            r.ctime == ctime && r.mtime == mtime && r.dev == dev && r.ino == ino,
            r.mode == mode && r.uid == uid && r.gid == gid && r.size == size,
            r.oid == oid && r.path@ == path@ && r.stage == stage,
    {
        IndexEntry { ctime, mtime, dev, ino, mode, uid, gid, size, oid, path: owned(path), stage }
    }

    /// Status-change time, seconds.
    pub fn ctime(&self) -> (r: u64)
        ensures
            r == self.ctime,
    {
        self.ctime
    }

    /// Modification time, seconds.
    pub fn mtime(&self) -> (r: u64)
        ensures
            r == self.mtime,
    {
        self.mtime
    }

    /// Device number.
    pub fn dev(&self) -> (r: u32)
        ensures
            r == self.dev,
    {
        self.dev
    }

    /// Inode number.
    pub fn ino(&self) -> (r: u32)
        ensures
            r == self.ino,
    {
        self.ino
    }

    /// The file mode.
    pub fn mode(&self) -> (r: FileMode)
        ensures
            r == self.mode,
    {
        self.mode
    }

    /// Owner user id.
    pub fn uid(&self) -> (r: u32)
        ensures
            r == self.uid,
    {
        self.uid
    }

    /// Owner group id.
    pub fn gid(&self) -> (r: u32)
        ensures
            r == self.gid,
    {
        self.gid
    }

    /// File size, truncated to 32 bits.
    pub fn size(&self) -> (r: u32)
        ensures
            r == self.size,
    {
        self.size
    }

    /// The staged blob.
    pub fn oid(&self) -> (r: &Oid)
        ensures
            *r == self.oid,
    {
        &self.oid
    }

    /// The path relative to the work root, with forward slashes.
    pub fn path(&self) -> (r: &str)
        ensures
            r@ == self.path@,
    {
        self.path.as_str()
    }

    /// The merge stage: 0 normal, 1 base, 2 ours, 3 theirs.
    pub fn stage(&self) -> (r: u8)
        ensures
            r == self.stage,
    {
        self.stage
    }

    /// Whether the entry belongs to a merge conflict.
    pub fn is_conflicted(&self) -> (r: bool)
        ensures
            r == (self.stage != 0),
    {
        self.stage != 0
    }
}

impl Index {
    /// An index with no entries.
    pub fn empty(version: u32) -> (r: Index)
        ensures
            r.version == version,
            r.entries@.len() == 0,
    {
        Index { version, entries: Vec::new() }
    }

    /// An index with the given entries, kept as given.
    pub fn new(version: u32, entries: Vec<IndexEntry>) -> (r: Index)
        ensures
            r.version == version,
            r.entries@ == entries@,
    {
        Index { version, entries }
    }

    /// The format version.
    pub fn version(&self) -> (r: u32)
        ensures
            r == self.version,
    {
        self.version
    }

    /// The number of entries.
    pub fn len(&self) -> (r: usize)
        ensures
            r == self.entries@.len(),
    {
        self.entries.len()
    }

    /// Whether there are no entries.
    pub fn is_empty(&self) -> (r: bool)
        ensures
            r == (self.entries@.len() == 0),
    {
        self.entries.len() == 0
    }

    /// The entries in order.
    pub fn entries(&self) -> (r: &[IndexEntry])
        ensures
            r@ == self.entries@,
    {
        self.entries.as_slice()
    }

    /// The first entry at the given path.
    pub fn get(&self, path: &str) -> (r: Option<&IndexEntry>)
        ensures
            r is None <==> forall|i: int|
                0 <= i < self.entries@.len() ==> self.entries@[i].path@ != path@,
            r is Some ==> exists|i: int|
                0 <= i < self.entries@.len() && self.entries@[i] == *r->Some_0
                    && self.entries@[i].path@ == path@ && forall|j: int|
                    0 <= j < i ==> self.entries@[j].path@ != path@,
    {
        match self.position(path) {
            Some(i) => Some(&self.entries[i]),
            None => None,
        }
    }

    /// The position of the first entry at the given path.
    pub fn position(&self, path: &str) -> (r: Option<usize>)
        ensures
            r is None <==> forall|i: int|
                0 <= i < self.entries@.len() ==> self.entries@[i].path@ != path@,
            r is Some ==> r->Some_0 < self.entries@.len() && self.entries@[r->Some_0 as int].path@
                == path@ && forall|j: int| 0 <= j < r->Some_0 ==> self.entries@[j].path@ != path@,
    {
        let pb = str_bytes(path);
        let mut i: usize = 0;
        while i < self.entries.len()
            invariant
                0 <= i <= self.entries@.len(),
                pb@ == bytes_of(path@),
                forall|j: int| 0 <= j < i ==> self.entries@[j].path@ != path@,
            decreases self.entries@.len() - i,
        {
            if str_eq_bytes(self.entries[i].path.as_str(), pb) {
                proof {
                    crate::text::lemma_bytes_of_injective(self.entries@[i as int].path@, path@);
                }
                return Some(i);
            }
            i = i + 1;
        }
        None
    }

    /// Iterates over the entries in order.
    pub fn iter(&self) -> (r: std::slice::Iter<'_, IndexEntry>)
        ensures
            vstd::std_specs::iter::IteratorSpec::remaining(&r) == self.entries@.as_ref(),
    {
        self.entries.iter()
    }

    /// Inserts an entry, or replaces the one at the same path; in a sorted
    /// index the new entry goes where the path order puts it.
    pub fn add(&mut self, entry: IndexEntry)
        ensures
            final(self).version == old(self).version,
            (exists|i: int| 0 <= i < old(self).entries@.len() && old(self).entries@[i].path@ == entry.path@)
                ==> exists|i: int| 0 <= i < old(self).entries@.len() && old(self).entries@[i].path@ == entry.path@
                    && (forall|j: int| 0 <= j < i ==> old(self).entries@[j].path@ != entry.path@)
                    && final(self).entries@ == old(self).entries@.update(i, entry),
            (forall|i: int| 0 <= i < old(self).entries@.len() ==> old(self).entries@[i].path@ != entry.path@)
                ==> exists|i: int| 0 <= i <= old(self).entries@.len()
                    && final(self).entries@ == old(self).entries@.insert(i, entry),
            sorted_by_path(old(self).entries@) ==> sorted_by_path(final(self).entries@),
    {
        match self.position(entry.path.as_str()) {
            Some(i) => {
                proof {
                    if sorted_by_path(old(self).entries@) {
                        crate::text::lemma_bytes_of_injective(
                            old(self).entries@[i as int].path@,
                            entry.path@,
                        );
                    }
                }
                self.entries.set(i, entry);
                proof {
                    let es = self.entries@;
                    assert forall|a: int, b: int| 0 <= a < b < es.len() && sorted_by_path(
                        old(self).entries@,
                    ) implies lex_lt(path_of(es[a]), path_of(es[b])) by {
                        assert(path_of(es[a]) == path_of(old(self).entries@[a]));
                        assert(path_of(es[b]) == path_of(old(self).entries@[b]));
                    }
                }
            },
            None => {
                let pb = str_bytes(entry.path.as_str());
                let mut k: usize = 0;
                while k < self.entries.len() && !crate::text::bytes_lt(
                    pb,
                    str_bytes(self.entries[k].path.as_str()),
                )
                    invariant
                        0 <= k <= self.entries@.len(),
                        self.entries@ == old(self).entries@,
                        pb@ == path_of(entry),
                        forall|j: int| 0 <= j < k ==> !lex_lt(pb@, #[trigger] path_of(self.entries@[j])),
                    decreases self.entries@.len() - k,
                {
                    k = k + 1;
                }
                self.entries.insert(k, entry);
                proof {
                    let old_es = old(self).entries@;
                    let es = self.entries@;
                    assert(es =~= old_es.insert(k as int, entry));
                    if sorted_by_path(old_es) {
                        assert forall|j: int| 0 <= j < k implies lex_lt(
                            path_of(old_es[j]),
                            pb@,
                        ) by {
                            assert(old_es[j].path@ != entry.path@);
                            if path_of(old_es[j]) == pb@ {
                                crate::text::lemma_bytes_of_injective(old_es[j].path@, entry.path@);
                            }
                            crate::text::lemma_lex_total(path_of(old_es[j]), pb@);
                        }
                        assert forall|j: int| k <= j < old_es.len() implies lex_lt(
                            pb@,
                            path_of(old_es[j]),
                        ) by {
                            if j > k {
                                crate::text::lemma_lex_trans(
                                    pb@,
                                    path_of(old_es[k as int]),
                                    path_of(old_es[j]),
                                );
                            }
                        }
                        assert forall|a: int, b: int| 0 <= a < b < es.len() implies lex_lt(
                            path_of(es[a]),
                            path_of(es[b]),
                        ) by {
                            if a < k && b < k {
                            } else if a < k && b == k {
                            } else if a < k && b > k {
                                assert(es[b] == old_es[b - 1]);
                                crate::text::lemma_lex_trans(
                                    path_of(old_es[a]),
                                    pb@,
                                    path_of(old_es[b - 1]),
                                );
                            } else if a == k {
                                assert(es[b] == old_es[b - 1]);
                            } else {
                                assert(es[a] == old_es[a - 1]);
                                assert(es[b] == old_es[b - 1]);
                            }
                        }
                    }
                }
            },
        }
    }

    /// Removes the first entry at the given path; reports whether one was there.
    pub fn remove(&mut self, path: &str) -> (r: bool)
        ensures
            final(self).version == old(self).version,
            r == exists|i: int| 0 <= i < old(self).entries@.len() && old(self).entries@[i].path@ == path@,
            !r ==> final(self).entries@ == old(self).entries@,
            r ==> exists|i: int| 0 <= i < old(self).entries@.len()
                && old(self).entries@[i].path@ == path@
                && final(self).entries@ == old(self).entries@.remove(i),
            sorted_by_path(old(self).entries@) ==> sorted_by_path(final(self).entries@),
    {
        match self.position(path) {
            Some(i) => {
                self.entries.remove(i);
                proof {
                    let old_es = old(self).entries@;
                    let es = self.entries@;
                    assert forall|a: int, b: int| 0 <= a < b < es.len() && sorted_by_path(old_es)
                        implies lex_lt(path_of(es[a]), path_of(es[b])) by {
                        let oa = if a < i { a } else { a + 1 };
                        let ob = if b < i { b } else { b + 1 };
                        assert(es[a] == old_es[oa]);
                        assert(es[b] == old_es[ob]);
                    }
                }
                true
            },
            None => false,
        }
    }

    /// Removes every entry.
    pub fn clear(&mut self)
        ensures
            final(self).version == old(self).version,
            final(self).entries@.len() == 0,
    {
        self.entries.clear();
    }
}

} // verus!
