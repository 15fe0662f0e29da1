//! Working-tree status: the three-way comparison of the HEAD tree, the
//! index and the working tree, one classification per path.

use vstd::prelude::*;

use crate::diff::{flat_v, flats_v, FlatEntry, FlatV};
use crate::index::{entry_v, entries_v, IndexEntry, IndexEntryV};
use crate::objects::oid::Oid;
use crate::text::{bytes_lt, bytes_of, lex_lt, str_bytes, str_eq_bytes};

verus! {

/// How a path differs between HEAD, the index and the working tree.
#[derive(Debug, Clone, Copy, PartialEq, Eq, Structural)]
pub enum FileStatus {
    Untracked,
    Added,
    Modified,
    Deleted,
    StagedModified,
    StagedDeleted,
}

/// Staged changes: between HEAD and the index.
pub open spec fn staged(s: FileStatus) -> bool {
    s == FileStatus::Added || s == FileStatus::StagedModified || s == FileStatus::StagedDeleted
}

/// Unstaged changes: between the index and the working tree.
pub open spec fn unstaged(s: FileStatus) -> bool {
    s == FileStatus::Modified || s == FileStatus::Deleted || s == FileStatus::Untracked
}

impl FileStatus {
    /// Whether the change is staged.
    pub fn is_staged(&self) -> (r: bool)
        ensures
            r == staged(*self),
    {
        match self {
            FileStatus::Added | FileStatus::StagedModified | FileStatus::StagedDeleted => true,
            _ => false,
        }
    }

    /// Whether the change is not staged.
    pub fn is_unstaged(&self) -> (r: bool)
        ensures
            r == unstaged(*self),
    {
        match self {
            FileStatus::Modified | FileStatus::Deleted | FileStatus::Untracked => true,
            _ => false,
        }
    }
}

/// One path and its status.
#[derive(Debug, Clone, PartialEq, Eq)]
pub struct StatusEntry {
    pub path: String,
    pub status: FileStatus,
}

impl StatusEntry {
    /// A status line.
    pub fn new(path: String, status: FileStatus) -> (r: StatusEntry)
        ensures
            r.path == path,
            r.status == status,
    {
        StatusEntry { path, status }
    }

    /// The path, relative to the work root.
    pub fn path(&self) -> (r: &str)
        ensures
            r@ == self.path@,
    {
        self.path.as_str()
    }

    /// The classification.
    pub fn status(&self) -> (r: FileStatus)
        ensures
            r == self.status,
    {
        self.status
    }
}

/// The classification of a path from its blob in HEAD, in the index and in
/// the working tree (each absent or present); `None` means unchanged.
pub open spec fn classify(head: Option<Seq<u8>>, index: Option<Seq<u8>>, work: Option<Seq<u8>>) -> Option<FileStatus> {
    match (head, index, work) {
        (None, None, Some(_)) => Some(FileStatus::Untracked),
        (None, Some(_), Some(_)) => Some(FileStatus::Added),
        (None, Some(_), None) => Some(FileStatus::Deleted),
        (Some(_), Some(_), None) => Some(FileStatus::Deleted),
        (Some(_), None, None) => Some(FileStatus::StagedDeleted),
        (Some(_), None, Some(_)) => Some(FileStatus::StagedDeleted),
        (Some(h), Some(i), Some(w)) => if h == i && w == i {
            None
        } else if h == i {
            Some(FileStatus::Modified)
        } else if w == i {
            Some(FileStatus::StagedModified)
        } else {
            Some(FileStatus::Modified)
        },
        (None, None, None) => None,
    }
}

/// Classifies one path.
pub fn classify_path(head: Option<&Oid>, index: Option<&Oid>, work: Option<&Oid>) -> (r: Option<FileStatus>)
    ensures
        r == classify(
            match head { Some(o) => Some(o@), None => None },
            match index { Some(o) => Some(o@), None => None },
            match work { Some(o) => Some(o@), None => None },
        ),
{
    match (head, index, work) {
        (None, None, Some(_)) => Some(FileStatus::Untracked),
        (None, Some(_), Some(_)) => Some(FileStatus::Added),
        (None, Some(_), None) => Some(FileStatus::Deleted),
        (Some(_), Some(_), None) => Some(FileStatus::Deleted),
        (Some(_), None, None) => Some(FileStatus::StagedDeleted),
        (Some(_), None, Some(_)) => Some(FileStatus::StagedDeleted),
        (Some(h), Some(i), Some(w)) => {
            let head_modified = *h != *i;
            let work_modified = *w != *i;
            if !head_modified && !work_modified {
                None
            } else if !head_modified {
                Some(FileStatus::Modified)
            } else if !work_modified {
                Some(FileStatus::StagedModified)
            } else {
                Some(FileStatus::Modified)
            }
        },
        (None, None, None) => None,
    }
}

/// The blob of the first listed file at a path.
pub open spec fn flat_lookup(es: Seq<FlatV>, p: Seq<u8>) -> Option<Seq<u8>>
    decreases es.len(),
{
    if es.len() == 0 {
        None
    } else if es[0].0 == p {
        Some(es[0].1)
    } else {
        flat_lookup(es.drop_first(), p)
    }
}

/// The blob of the first index entry at a path.
pub open spec fn index_lookup(es: Seq<IndexEntryV>, p: Seq<u8>) -> Option<Seq<u8>>
    decreases es.len(),
{
    if es.len() == 0 {
        None
    } else if es[0].path == p {
        Some(es[0].oid)
    } else {
        index_lookup(es.drop_first(), p)
    }
}

/// The status of a path given the three listings.
pub open spec fn status_of(head: Seq<FlatV>, index: Seq<IndexEntryV>, work: Seq<FlatV>, p: Seq<u8>) -> Option<FileStatus> {
    classify(flat_lookup(head, p), index_lookup(index, p), flat_lookup(work, p))
}

/// The status lines as (path bytes, status).
pub open spec fn status_v(es: Seq<StatusEntry>) -> Seq<(Seq<u8>, FileStatus)> {
    es.map_values(|e: StatusEntry| (bytes_of(e.path@), e.status))
}

fn find_flat(es: &[FlatEntry], p: &[u8]) -> (r: Option<Oid>)
    ensures
        match r { Some(o) => Some(o@), None => None } == flat_lookup(flats_v(es@), p@),
{
    let mut i: usize = 0;
    assert(flats_v(es@).subrange(0, es@.len() as int) =~= flats_v(es@));
    while i < es.len()
        invariant
            0 <= i <= es@.len(),
            flat_lookup(flats_v(es@), p@) == flat_lookup(flats_v(es@).subrange(i as int, es@.len() as int), p@),
        decreases es@.len() - i,
    {
        let ghost rest = flats_v(es@).subrange(i as int, es@.len() as int);
        assert(rest.drop_first() =~= flats_v(es@).subrange(i + 1, es@.len() as int));
        if str_eq_bytes(es[i].path.as_str(), p) {
            return Some(es[i].oid);
        }
        i = i + 1;
    }
    None
}

fn find_index(es: &[IndexEntry], p: &[u8]) -> (r: Option<Oid>)
    ensures
        match r { Some(o) => Some(o@), None => None } == index_lookup(entries_v(es@), p@),
{
    let mut i: usize = 0;
    assert(entries_v(es@).subrange(0, es@.len() as int) =~= entries_v(es@));
    while i < es.len()
        invariant
            0 <= i <= es@.len(),
            index_lookup(entries_v(es@), p@) == index_lookup(entries_v(es@).subrange(i as int, es@.len() as int), p@),
        decreases es@.len() - i,
    {
        let ghost rest = entries_v(es@).subrange(i as int, es@.len() as int);
        assert(rest.drop_first() =~= entries_v(es@).subrange(i + 1, es@.len() as int));
        if str_eq_bytes(es[i].path.as_str(), p) {
            return Some(es[i].oid);
        }
        i = i + 1;
    }
    None
}

} // verus!

verus! {

/// A lookup finds something exactly when some listed file has the path.
pub proof fn lemma_flat_lookup(es: Seq<FlatV>, p: Seq<u8>)
    ensures
        flat_lookup(es, p) is Some <==> exists|i: int| 0 <= i < es.len() && es[i].0 == p,
    decreases es.len(),
{
    if es.len() > 0 {
        lemma_flat_lookup(es.drop_first(), p);
        if exists|i: int| 0 <= i < es.len() && es[i].0 == p {
            let i = choose|i: int| 0 <= i < es.len() && es[i].0 == p;
            if i > 0 {
                assert(es.drop_first()[i - 1].0 == p);
            }
        }
        if exists|i: int| 0 <= i < es.len() - 1 && es.drop_first()[i].0 == p {
            let i = choose|i: int| 0 <= i < es.len() - 1 && es.drop_first()[i].0 == p;
            assert(es[i + 1].0 == p);
        }
    }
}

/// A lookup finds something exactly when some entry has the path.
pub proof fn lemma_index_lookup(es: Seq<IndexEntryV>, p: Seq<u8>)
    ensures
        index_lookup(es, p) is Some <==> exists|i: int| 0 <= i < es.len() && es[i].path == p,
    decreases es.len(),
{
    if es.len() > 0 {
        lemma_index_lookup(es.drop_first(), p);
        if exists|i: int| 0 <= i < es.len() && es[i].path == p {
            let i = choose|i: int| 0 <= i < es.len() && es[i].path == p;
            if i > 0 {
                assert(es.drop_first()[i - 1].path == p);
            }
        }
        if exists|i: int| 0 <= i < es.len() - 1 && es.drop_first()[i].path == p {
            let i = choose|i: int| 0 <= i < es.len() - 1 && es.drop_first()[i].path == p;
            assert(es[i + 1].path == p);
        }
    }
}

/// The status of every changed path, in path order. `head` lists the HEAD
/// tree's files, `index` the staged entries, `work` the working-tree files
/// with the blob id of their current contents.
pub fn compute_status(head: &[FlatEntry], index: &[IndexEntry], work: &[FlatEntry]) -> (r: Vec<StatusEntry>)
    ensures
        forall|a: int, b: int| 0 <= a < b < r@.len() ==> lex_lt(status_v(r@)[a].0, status_v(r@)[b].0),
        forall|k: int| 0 <= k < r@.len() ==> status_of(flats_v(head@), entries_v(index@), flats_v(work@), #[trigger] status_v(r@)[k].0) == Some(status_v(r@)[k].1),
        forall|p: Seq<u8>| status_of(flats_v(head@), entries_v(index@), flats_v(work@), p) is Some ==> exists|k: int| 0 <= k < r@.len() && status_v(r@)[k].0 == p,
{
    let ghost hv = flats_v(head@);
    let ghost iv = entries_v(index@);
    let ghost wv = flats_v(work@);
    let mut paths: Vec<String> = Vec::new();
    let mut i: usize = 0;
    while i < head.len()
        invariant
            0 <= i <= head@.len(),
            hv == flats_v(head@),
            crate::text::strictly_sorted(paths@),
            forall|q: Seq<u8>| #[trigger] crate::text::in_paths(paths@, q) <==> exists|x: int| 0 <= x < i && hv[x].0 == q,
        decreases head@.len() - i,
    {
        crate::text::insert_sorted_unique(&mut paths, &head[i].path);
        proof {
            assert forall|q: Seq<u8>| #[trigger] crate::text::in_paths(paths@, q) <==> exists|x: int| 0 <= x < i + 1 && hv[x].0 == q by {
                if q == hv[i as int].0 {
                }
                if exists|x: int| 0 <= x < i + 1 && hv[x].0 == q {
                    let x = choose|x: int| 0 <= x < i + 1 && hv[x].0 == q;
                    if x < i {
                    }
                }
            }
        }
        i = i + 1;
    }
    let mut i: usize = 0;
    while i < index.len()
        invariant
            0 <= i <= index@.len(),
            hv == flats_v(head@),
            iv == entries_v(index@),
            crate::text::strictly_sorted(paths@),
            forall|q: Seq<u8>| #[trigger] crate::text::in_paths(paths@, q) <==> ((exists|x: int| 0 <= x < hv.len() && hv[x].0 == q) || (exists|x: int| 0 <= x < i && iv[x].path == q)),
        decreases index@.len() - i,
    {
        crate::text::insert_sorted_unique(&mut paths, &index[i].path);
        proof {
            assert forall|q: Seq<u8>| #[trigger] crate::text::in_paths(paths@, q) <==> ((exists|x: int| 0 <= x < hv.len() && hv[x].0 == q) || (exists|x: int| 0 <= x < i + 1 && iv[x].path == q)) by {
                if q == bytes_of(index@[i as int].path@) {
                    assert(iv[i as int].path == q);
                }
                if exists|x: int| 0 <= x < i + 1 && iv[x].path == q {
                    let x = choose|x: int| 0 <= x < i + 1 && iv[x].path == q;
                    if x < i {
                    }
                }
            }
        }
        i = i + 1;
    }
    let mut i: usize = 0;
    while i < work.len()
        invariant
            0 <= i <= work@.len(),
            hv == flats_v(head@),
            iv == entries_v(index@),
            wv == flats_v(work@),
            crate::text::strictly_sorted(paths@),
            forall|q: Seq<u8>| #[trigger] crate::text::in_paths(paths@, q) <==> ((exists|x: int| 0 <= x < hv.len() && hv[x].0 == q) || (exists|x: int| 0 <= x < iv.len() && iv[x].path == q) || (exists|x: int| 0 <= x < i && wv[x].0 == q)),
        decreases work@.len() - i,
    {
        crate::text::insert_sorted_unique(&mut paths, &work[i].path);
        proof {
            assert forall|q: Seq<u8>| #[trigger] crate::text::in_paths(paths@, q) <==> ((exists|x: int| 0 <= x < hv.len() && hv[x].0 == q) || (exists|x: int| 0 <= x < iv.len() && iv[x].path == q) || (exists|x: int| 0 <= x < i + 1 && wv[x].0 == q)) by {
                if q == bytes_of(work@[i as int].path@) {
                    assert(wv[i as int].0 == q);
                }
                if exists|x: int| 0 <= x < i + 1 && wv[x].0 == q {
                    let x = choose|x: int| 0 <= x < i + 1 && wv[x].0 == q;
                    if x < i {
                    }
                }
            }
        }
        i = i + 1;
    }
    let mut out: Vec<StatusEntry> = Vec::new();
    let mut k: usize = 0;
    while k < paths.len()
        invariant
            0 <= k <= paths@.len(),
            hv == flats_v(head@),
            iv == entries_v(index@),
            wv == flats_v(work@),
            crate::text::strictly_sorted(paths@),
            forall|a: int, b: int| 0 <= a < b < out@.len() ==> lex_lt(status_v(out@)[a].0, status_v(out@)[b].0),
            forall|m: int| 0 <= m < out@.len() ==> status_of(hv, iv, wv, #[trigger] status_v(out@)[m].0) == Some(status_v(out@)[m].1),
            forall|m: int| 0 <= m < out@.len() && k < paths@.len() ==> lex_lt(#[trigger] status_v(out@)[m].0, bytes_of(paths@[k as int]@)),
            forall|j: int| 0 <= j < k && status_of(hv, iv, wv, bytes_of(paths@[j]@)) is Some ==> exists|m: int| 0 <= m < out@.len() && status_v(out@)[m].0 == bytes_of(paths@[j]@),
        decreases paths@.len() - k,
    {
        let pb = str_bytes(paths[k].as_str());
        let h = find_flat(head, pb);
        let x = find_index(index, pb);
        let w = find_flat(work, pb);
        let st = classify_path(h.as_ref(), x.as_ref(), w.as_ref());
        let ghost before = out@;
        match st {
            Some(s) => {
                out.push(StatusEntry { path: paths[k].clone(), status: s });
                assert(status_v(out@) =~= status_v(before).push((bytes_of(paths@[k as int]@), s)));
            },
            None => {},
        }
        proof {
            if k + 1 < paths@.len() {
                assert forall|m: int| 0 <= m < out@.len() implies lex_lt(#[trigger] status_v(out@)[m].0, bytes_of(paths@[k + 1]@)) by {
                    if m < before.len() {
                        crate::text::lemma_lex_trans(status_v(out@)[m].0, bytes_of(paths@[k as int]@), bytes_of(paths@[k + 1]@));
                    }
                }
            }
            assert forall|j: int| 0 <= j < k + 1 && status_of(hv, iv, wv, bytes_of(paths@[j]@)) is Some implies exists|m: int| 0 <= m < out@.len() && status_v(out@)[m].0 == bytes_of(paths@[j]@) by {
                if j < k {
                    let m = choose|m: int| 0 <= m < before.len() && status_v(before)[m].0 == bytes_of(paths@[j]@);
                    assert(status_v(out@)[m] == status_v(before)[m]);
                } else {
                    assert(status_v(out@)[before.len() as int].0 == bytes_of(paths@[j]@));
                }
            }
        }
        k = k + 1;
    }
    proof {
        assert forall|p: Seq<u8>| status_of(hv, iv, wv, p) is Some implies exists|m: int| 0 <= m < out@.len() && status_v(out@)[m].0 == p by {
            lemma_flat_lookup(hv, p);
            lemma_index_lookup(iv, p);
            lemma_flat_lookup(wv, p);
            assert(crate::text::in_paths(paths@, p));
            let j = choose|j: int| 0 <= j < paths@.len() && bytes_of(paths@[j]@) == p;
        }
    }
    out
}

/// After staging a file, its status is at most a staged addition or
/// modification: the index and the working tree hold the same blob.
pub proof fn lemma_status_after_add(head: Option<Seq<u8>>, blob: Seq<u8>)
    ensures
        classify(head, Some(blob), Some(blob)) is None
            || classify(head, Some(blob), Some(blob)) == Some(FileStatus::Added)
            || classify(head, Some(blob), Some(blob)) == Some(FileStatus::StagedModified),
{
}

/// After the index is reset to HEAD (same blob at every path), no path has
/// a staged change.
pub proof fn lemma_status_after_reset(head: Seq<FlatV>, index: Seq<IndexEntryV>, work: Seq<FlatV>, p: Seq<u8>)
    requires
        forall|q: Seq<u8>| flat_lookup(head, q) == index_lookup(index, q),
    ensures
        status_of(head, index, work, p) is Some ==> !staged(status_of(head, index, work, p)->0),
{
}

/// Status lines come one per path: the output is strictly sorted, so a
/// path appears at most once.
pub proof fn lemma_status_unique(r: Seq<(Seq<u8>, FileStatus)>, a: int, b: int)
    requires
        forall|x: int, y: int| 0 <= x < y < r.len() ==> lex_lt(r[x].0, r[y].0),
        0 <= a < r.len(),
        0 <= b < r.len(),
        r[a].0 == r[b].0,
    ensures
        a == b,
{
    if a < b {
        crate::text::lemma_lex_irreflexive(r[a].0);
    } else if b < a {
        crate::text::lemma_lex_irreflexive(r[a].0);
    }
}

} // verus!
