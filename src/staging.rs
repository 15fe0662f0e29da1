//! Changes to the staging index: staging files, resetting to HEAD,
//! rebuilding from a tree.

use vstd::prelude::*;

use crate::diff::{flat_v, flats_v, FlatEntry};
use crate::index::{Index, IndexEntry};
use crate::objects::oid::Oid;
use crate::objects::tree::FileMode;
use crate::status::flat_lookup;
use crate::text::{bytes_of, owned, str_bytes, str_eq_bytes};

verus! {

/// `e` is the index entry recorded for file `f` with the given size and
/// times: no device, inode or owner, stage 0.
pub open spec fn entry_for(e: IndexEntry, f: FlatEntry, mode: FileMode, size: u32, time: u64) -> bool {
    &&& e.path@ == f.path@
    &&& e.oid == f.oid
    &&& e.mode == mode
    &&& e.size == size
    &&& e.ctime == time && e.mtime == time
    &&& e.dev == 0 && e.ino == 0 && e.uid == 0 && e.gid == 0
    &&& e.stage == 0
}

/// An index with one stage-0 entry per file, in the files' order.
pub fn index_from_files(version: u32, files: &[FlatEntry], modes: &[FileMode], sizes: &[u32], times: &[u64]) -> (r: Index)
    requires
        modes@.len() == files@.len(),
        sizes@.len() == files@.len(),
        times@.len() == files@.len(),
    ensures
        r.version == version,
        r.entries@.len() == files@.len(),
        forall|i: int| 0 <= i < files@.len() ==> entry_for(#[trigger] r.entries@[i], files@[i], modes@[i], sizes@[i], times@[i]),
{
    let mut entries: Vec<IndexEntry> = Vec::new();
    let mut i: usize = 0;
    while i < files.len()
        invariant
            0 <= i <= files@.len(),
            modes@.len() == files@.len(),
            sizes@.len() == files@.len(),
            times@.len() == files@.len(),
            entries@.len() == i,
            forall|j: int| 0 <= j < i ==> entry_for(#[trigger] entries@[j], files@[j], modes@[j], sizes@[j], times@[j]),
        decreases files@.len() - i,
    {
        let f = &files[i];
        entries.push(IndexEntry::new(times[i], times[i], 0, 0, modes[i], 0, 0, sizes[i], f.oid, f.path.as_str(), 0));
        i = i + 1;
    }
    Index::new(version, entries)
}

/// The entry an index gains after an `add` of `e`: it replaces the first
/// entry at the same path, or is inserted when there is none.
pub open spec fn added(old_es: Seq<IndexEntry>, new_es: Seq<IndexEntry>, e: IndexEntry) -> bool {
    ((exists|i: int| 0 <= i < old_es.len() && old_es[i].path@ == e.path@) ==> exists|i: int|
        0 <= i < old_es.len() && old_es[i].path@ == e.path@
            && (forall|j: int| 0 <= j < i ==> old_es[j].path@ != e.path@) && new_es == old_es.update(i, e))
    && ((forall|i: int| 0 <= i < old_es.len() ==> old_es[i].path@ != e.path@) ==> exists|i: int|
        0 <= i <= old_es.len() && new_es == old_es.insert(i, e))
}

/// Stages one file: its entry replaces the one at its path or is added.
pub fn stage_file(index: &mut Index, path: &str, oid: Oid, mode: FileMode, size: u32, mtime: u64)
    ensures
        final(index).version == old(index).version,
        exists|e: IndexEntry| added(old(index).entries@, final(index).entries@, e) && e.path@ == path@ && e.oid == oid
            && e.mode == mode && e.size == size && e.mtime == mtime && e.ctime == mtime
            && e.dev == 0 && e.ino == 0 && e.uid == 0 && e.gid == 0 && e.stage == 0,
{
    let e = IndexEntry::new(mtime, mtime, 0, 0, mode, 0, 0, size, oid, path, 0);
    index.add(e);
    assert(added(old(index).entries@, index.entries@, e));
}

/// Resets the index to HEAD: for every path when `path` is `None` (one
/// stage-0 entry per HEAD file, with its id, mode and size), else only `path`,
/// which is restored from HEAD or removed when HEAD lacks it.
pub fn reset_index(index: &mut Index, head: &[FlatEntry], sizes: &[u32], path: Option<&str>)
    requires
        sizes@.len() == head@.len(),
    ensures
        final(index).version == old(index).version,
        path is None ==> final(index).entries@.len() == head@.len() && forall|i: int| 0 <= i < head@.len()
            ==> entry_for(#[trigger] final(index).entries@[i], head@[i], head@[i].mode, sizes@[i], 0),
        path is Some && flat_lookup(flats_v(head@), bytes_of(path->Some_0@)) is Some ==> exists|i: int, e: IndexEntry|
            0 <= i < head@.len() && head@[i].path@ == path->Some_0@
                && (forall|j: int| 0 <= j < i ==> head@[j].path@ != path->Some_0@)
                && entry_for(e, head@[i], head@[i].mode, sizes@[i], 0)
                && added(old(index).entries@, final(index).entries@, e),
        path is Some && flat_lookup(flats_v(head@), bytes_of(path->Some_0@)) is None ==> (forall|i: int|
            0 <= i < final(index).entries@.len() ==> final(index).entries@[i].path@ != path->Some_0@)
            && (forall|e: IndexEntry| e.path@ != path->Some_0@ && old(index).entries@.contains(e) ==> final(index).entries@.contains(e))
            && (forall|e: IndexEntry| final(index).entries@.contains(e) ==> old(index).entries@.contains(e)),
{
    match path {
        None => {
            let mut modes: Vec<FileMode> = Vec::new();
            let mut times: Vec<u64> = Vec::new();
            let mut i: usize = 0;
            while i < head.len()
                invariant
                    0 <= i <= head@.len(),
                    *index == *old(index),
                    modes@.len() == i,
                    times@.len() == i,
                    forall|j: int| 0 <= j < i ==> modes@[j] == head@[j].mode && times@[j] == 0,
                decreases head@.len() - i,
            {
                modes.push(head[i].mode);
                times.push(0);
                i = i + 1;
            }
            *index = index_from_files(index.version, head, modes.as_slice(), sizes, times.as_slice());
        },
        Some(p) => {
            let pb = str_bytes(p);
            let mut i: usize = 0;
            assert(flats_v(head@).subrange(0, head@.len() as int) =~= flats_v(head@));
            while i < head.len()
                invariant
                    0 <= i <= head@.len(),
                    *index == *old(index),
                    path == Some(p),
                    sizes@.len() == head@.len(),
                    pb@ == bytes_of(p@),
                    flat_lookup(flats_v(head@), pb@) == flat_lookup(flats_v(head@).subrange(i as int, head@.len() as int), pb@),
                    forall|j: int| 0 <= j < i ==> head@[j].path@ != p@,
                decreases head@.len() - i,
            {
                let ghost rest = flats_v(head@).subrange(i as int, head@.len() as int);
                assert(rest.drop_first() =~= flats_v(head@).subrange(i + 1, head@.len() as int));
                if str_eq_bytes(head[i].path.as_str(), pb) {
                    proof {
                        crate::text::lemma_bytes_of_injective(head@[i as int].path@, p@);
                    }
                    let e = IndexEntry::new(0, 0, 0, 0, head[i].mode, 0, 0, sizes[i], head[i].oid, p, 0);
                    index.add(e);
                    assert(added(old(index).entries@, index.entries@, e));
                    assert(entry_for(e, head@[i as int], head@[i as int].mode, sizes@[i as int], 0));
                    return;
                }
                proof {
                    if head@[i as int].path@ == p@ {
                        assert(bytes_of(head@[i as int].path@) == pb@);
                    }
                }
                i = i + 1;
            }
            remove_all(index, p);
        },
    }
}

/// Removes every entry at a path.
pub fn remove_all(index: &mut Index, path: &str)
    ensures
        final(index).version == old(index).version,
        forall|i: int| 0 <= i < final(index).entries@.len() ==> final(index).entries@[i].path@ != path@,
        forall|e: IndexEntry| e.path@ != path@ && old(index).entries@.contains(e) ==> final(index).entries@.contains(e),
        forall|e: IndexEntry| final(index).entries@.contains(e) ==> old(index).entries@.contains(e),
        crate::index::sorted_by_path(old(index).entries@) ==> crate::index::sorted_by_path(final(index).entries@),
{
    let ghost start = index.entries@;
    loop
        invariant
            index.version == old(index).version,
            start == old(index).entries@,
            forall|e: IndexEntry| e.path@ != path@ && start.contains(e) ==> index.entries@.contains(e),
            forall|e: IndexEntry| index.entries@.contains(e) ==> start.contains(e),
            crate::index::sorted_by_path(start) ==> crate::index::sorted_by_path(index.entries@),
        decreases index.entries@.len(),
    {
        let ghost before = index.entries@;
        if !index.remove(path) {
            return;
        }
        proof {
            let k = choose|k: int| 0 <= k < before.len() && before[k].path@ == path@ && index.entries@ == before.remove(k);
            assert forall|e: IndexEntry| e.path@ != path@ && start.contains(e) implies index.entries@.contains(e) by {
                let w = choose|w: int| 0 <= w < before.len() && before[w] == e;
                assert(w != k);
                if w < k {
                    assert(index.entries@[w] == e);
                } else {
                    assert(index.entries@[w - 1] == e);
                }
            }
            assert forall|e: IndexEntry| index.entries@.contains(e) implies start.contains(e) by {
                let w = choose|w: int| 0 <= w < index.entries@.len() && index.entries@[w] == e;
                if w < k {
                    assert(before[w] == e);
                } else {
                    assert(before[w + 1] == e);
                }
                assert(before.contains(e));
            }
        }
    }
}


/// No later entry has the same path.
pub open spec fn last_for_path(es: Seq<IndexEntry>, j: int) -> bool {
    forall|l: int| j < l < es.len() ==> es[l].path@ != es[j].path@
}

proof fn lemma_added_has(before: Seq<IndexEntry>, after: Seq<IndexEntry>, e: IndexEntry)
    requires
        added(before, after, e),
    ensures
        after.contains(e),
{
    if exists|i: int| 0 <= i < before.len() && before[i].path@ == e.path@ {
        let i = choose|i: int| 0 <= i < before.len() && before[i].path@ == e.path@
            && (forall|j: int| 0 <= j < i ==> before[j].path@ != e.path@) && after == before.update(i, e);
        assert(after[i] == e);
    } else {
        let i = choose|i: int| 0 <= i <= before.len() && after == before.insert(i, e);
        assert(after[i] == e);
    }
}

proof fn lemma_added_keeps(before: Seq<IndexEntry>, after: Seq<IndexEntry>, e: IndexEntry, x: IndexEntry)
    requires
        added(before, after, e),
        before.contains(x),
        x.path@ != e.path@,
    ensures
        after.contains(x),
{
    let w = choose|w: int| 0 <= w < before.len() && before[w] == x;
    if exists|i: int| 0 <= i < before.len() && before[i].path@ == e.path@ {
        let i = choose|i: int| 0 <= i < before.len() && before[i].path@ == e.path@
            && (forall|j: int| 0 <= j < i ==> before[j].path@ != e.path@) && after == before.update(i, e);
        assert(w != i);
        assert(after[w] == x);
    } else {
        let i = choose|i: int| 0 <= i <= before.len() && after == before.insert(i, e);
        if w < i {
            assert(after[w] == x);
        } else {
            assert(after[w + 1] == x);
        }
    }
}

fn copy_entry(e: &IndexEntry) -> (r: IndexEntry)
    ensures
        r == *e,
{
    IndexEntry {
        ctime: e.ctime,
        mtime: e.mtime,
        dev: e.dev,
        ino: e.ino,
        mode: e.mode,
        uid: e.uid,
        gid: e.gid,
        size: e.size,
        oid: e.oid,
        path: e.path.clone(),
        stage: e.stage,
    }
}

/// A text among a list of texts.
pub open spec fn in_list(ws: Seq<String>, p: Seq<char>) -> bool {
    exists|w: int| 0 <= w < ws.len() && ws[w]@ == p
}

fn contains_text(ws: &[String], p: &str) -> (r: bool)
    ensures
        r == in_list(ws@, p@),
{
    let pb = str_bytes(p);
    let mut i: usize = 0;
    while i < ws.len()
        invariant
            0 <= i <= ws@.len(),
            pb@ == bytes_of(p@),
            forall|w: int| 0 <= w < i ==> ws@[w]@ != p@,
        decreases ws@.len() - i,
    {
        if str_eq_bytes(ws[i].as_str(), pb) {
            proof {
                crate::text::lemma_bytes_of_injective(ws@[i as int]@, p@);
            }
            return true;
        }
        proof {
            if ws@[i as int]@ == p@ {
                assert(bytes_of(ws@[i as int]@) == pb@);
            }
        }
        i = i + 1;
    }
    false
}

/// Stages every working-tree file: each staged entry goes in (the last one
/// for a path wins), then every HEAD path missing from the working tree
/// is removed.
pub fn stage_all(index: &mut Index, staged: Vec<IndexEntry>, head: &[FlatEntry], work: &[String])
    ensures
        final(index).version == old(index).version,
        forall|i: int, k: int| #![trigger final(index).entries@[k], head@[i]] 0 <= i < head@.len() && !in_list(work@, head@[i].path@) && 0 <= k < final(index).entries@.len()
            ==> final(index).entries@[k].path@ != head@[i].path@,
        forall|j: int| 0 <= j < staged@.len() && in_list(work@, staged@[j].path@)
            && last_for_path(staged@, j)
            ==> final(index).entries@.contains(#[trigger] staged@[j]),
        forall|e: IndexEntry| old(index).entries@.contains(e) && (forall|j: int| 0 <= j < staged@.len() ==> staged@[j].path@ != e.path@)
            && (forall|i: int| 0 <= i < head@.len() && head@[i].path@ == e.path@ ==> in_list(work@, e.path@))
            ==> final(index).entries@.contains(e),
        crate::index::sorted_by_path(old(index).entries@) ==> crate::index::sorted_by_path(final(index).entries@),
        crate::index::sorted_by_path(old(index).entries@) ==> forall|j: int, k: int|
            0 <= j < staged@.len() && in_list(work@, staged@[j].path@) && last_for_path(staged@, j)
            && 0 <= k < final(index).entries@.len() && final(index).entries@[k].path@ == staged@[j].path@
            ==> #[trigger] final(index).entries@[k] == #[trigger] staged@[j],
{
    let ghost start = index.entries@;
    let mut t: usize = 0;
    while t < staged.len()
        invariant
            0 <= t <= staged@.len(),
            index.version == old(index).version,
            start == old(index).entries@,
            forall|e: IndexEntry| start.contains(e) && (forall|j: int| 0 <= j < staged@.len() ==> staged@[j].path@ != e.path@)
                ==> index.entries@.contains(e),
            crate::index::sorted_by_path(start) ==> crate::index::sorted_by_path(index.entries@),
            forall|j: int| 0 <= j < t && last_for_path(staged@, j)
                ==> index.entries@.contains(#[trigger] staged@[j]),
        decreases staged@.len() - t,
    {
        let ghost before = index.entries@;
        let e = copy_entry(&staged[t]);
        index.add(e);
        proof {
            let after = index.entries@;
            lemma_added_has(before, after, e);
            assert forall|x: IndexEntry| start.contains(x) && (forall|j: int| 0 <= j < staged@.len() ==> staged@[j].path@ != x.path@)
                implies after.contains(x) by {
                assert(staged@[t as int].path@ != x.path@);
                lemma_added_keeps(before, after, e, x);
            }
            assert forall|j: int| 0 <= j < t + 1 && last_for_path(staged@, j)
                implies after.contains(#[trigger] staged@[j]) by {
                if j < t {
                    lemma_added_keeps(before, after, e, staged@[j]);
                }
            }
        }
        t = t + 1;
    }
    let mut h: usize = 0;
    while h < head.len()
        invariant
            0 <= h <= head@.len(),
            index.version == old(index).version,
            start == old(index).entries@,
            forall|e: IndexEntry| start.contains(e) && (forall|j: int| 0 <= j < staged@.len() ==> staged@[j].path@ != e.path@)
                && (forall|i: int| 0 <= i < head@.len() && head@[i].path@ == e.path@ ==> in_list(work@, e.path@))
                ==> index.entries@.contains(e),
            crate::index::sorted_by_path(start) ==> crate::index::sorted_by_path(index.entries@),
            forall|i: int, k: int| #![trigger index.entries@[k], head@[i]] 0 <= i < h && !in_list(work@, head@[i].path@) && 0 <= k < index.entries@.len()
                ==> index.entries@[k].path@ != head@[i].path@,
            forall|j: int| 0 <= j < staged@.len() && in_list(work@, staged@[j].path@)
                && last_for_path(staged@, j)
                ==> index.entries@.contains(#[trigger] staged@[j]),
        decreases head@.len() - h,
    {
        let ghost before = index.entries@;
        if !contains_text(work, head[h].path.as_str()) {
            remove_all(index, head[h].path.as_str());
            proof {
                assert forall|j: int| 0 <= j < staged@.len() && in_list(work@, staged@[j].path@)
                    && last_for_path(staged@, j)
                    implies index.entries@.contains(#[trigger] staged@[j]) by {
                    assert(staged@[j].path@ != head@[h as int].path@);
                }
                assert forall|x: IndexEntry| start.contains(x) && (forall|j: int| 0 <= j < staged@.len() ==> staged@[j].path@ != x.path@)
                    && (forall|i: int| 0 <= i < head@.len() && head@[i].path@ == x.path@ ==> in_list(work@, x.path@))
                    implies index.entries@.contains(x) by {
                    if x.path@ == head@[h as int].path@ {
                        assert(in_list(work@, x.path@));
                    }
                }
                assert forall|i: int, k: int| #![trigger index.entries@[k], head@[i]] 0 <= i < h + 1 && !in_list(work@, head@[i].path@) && 0 <= k < index.entries@.len()
                    implies index.entries@[k].path@ != head@[i].path@ by {
                    if i < h {
                        let x = index.entries@[k];
                        assert(index.entries@.contains(x));
                        assert(before.contains(x));
                        let w = choose|w: int| 0 <= w < before.len() && before[w] == x;
                        assert(before[w].path@ != head@[i].path@);
                    }
                }
            }
        }
        h = h + 1;
    }
    proof {
        let fin = index.entries@;
        if crate::index::sorted_by_path(start) {
            assert forall|j: int, k: int|
                0 <= j < staged@.len() && in_list(work@, staged@[j].path@) && last_for_path(staged@, j)
                && 0 <= k < fin.len() && fin[k].path@ == staged@[j].path@
                implies #[trigger] fin[k] == #[trigger] staged@[j] by {
                let w = choose|w: int| 0 <= w < fin.len() && fin[w] == staged@[j];
                if w != k {
                    let (a, b) = if w < k { (w, k) } else { (k, w) };
                    assert(crate::text::lex_lt(crate::index::path_of(fin[a]), crate::index::path_of(fin[b])));
                    crate::text::lemma_lex_irreflexive(crate::index::path_of(fin[a]));
                }
            }
        }
    }
}


proof fn lemma_lookup_match(fs: Seq<crate::diff::FlatV>, es: Seq<crate::index::IndexEntryV>, q: Seq<u8>)
    requires
        fs.len() == es.len(),
        forall|i: int| 0 <= i < fs.len() ==> (#[trigger] fs[i]).0 == es[i].path && fs[i].1 == es[i].oid,
    ensures
        crate::status::index_lookup(es, q) == flat_lookup(fs, q),
    decreases fs.len(),
{
    if fs.len() > 0 {
        assert forall|i: int| 0 <= i < fs.len() - 1 implies (#[trigger] fs.drop_first()[i]).0 == es.drop_first()[i].path
            && fs.drop_first()[i].1 == es.drop_first()[i].oid by {
            assert(fs.drop_first()[i] == fs[i + 1]);
        }
        lemma_lookup_match(fs.drop_first(), es.drop_first(), q);
    }
}

/// After the index is reset to HEAD, no path has a staged change, whatever
/// the working tree holds.
pub proof fn lemma_reset_unstages(head: Seq<FlatEntry>, entries: Seq<IndexEntry>, sizes: Seq<u32>, work: Seq<crate::diff::FlatV>, p: Seq<u8>)
    requires
        entries.len() == head.len(),
        sizes.len() == head.len(),
        forall|i: int| 0 <= i < head.len() ==> entry_for(#[trigger] entries[i], head[i], head[i].mode, sizes[i], 0),
    ensures
        crate::status::status_of(flats_v(head), crate::index::entries_v(entries), work, p) is Some
            ==> !crate::status::staged(crate::status::status_of(flats_v(head), crate::index::entries_v(entries), work, p)->0),
{
    let fs = flats_v(head);
    let es = crate::index::entries_v(entries);
    assert forall|i: int| 0 <= i < fs.len() implies (#[trigger] fs[i]).0 == es[i].path && fs[i].1 == es[i].oid by {
        assert(entry_for(entries[i], head[i], head[i].mode, sizes[i], 0));
    }
    assert forall|q: Seq<u8>| flat_lookup(fs, q) == crate::status::index_lookup(es, q) by {
        lemma_lookup_match(fs, es, q);
    }
    crate::status::lemma_status_after_reset(fs, es, work, p);
}


proof fn lemma_lookup_first(es: Seq<crate::index::IndexEntryV>, p: Seq<u8>, k: int)
    requires
        0 <= k < es.len(),
        es[k].path == p,
        forall|j: int| 0 <= j < k ==> es[j].path != p,
    ensures
        crate::status::index_lookup(es, p) == Some(es[k].oid),
    decreases k,
{
    if k > 0 {
        assert forall|j: int| 0 <= j < k - 1 implies es.drop_first()[j].path != p by {
            assert(es.drop_first()[j] == es[j + 1]);
        }
        lemma_lookup_first(es.drop_first(), p, k - 1);
    }
}

/// After a file is staged, its entry is the one the index shows at its
/// path.
pub proof fn lemma_staged_lookup(before: Seq<IndexEntry>, after: Seq<IndexEntry>, e: IndexEntry)
    requires
        added(before, after, e),
    ensures
        crate::status::index_lookup(crate::index::entries_v(after), bytes_of(e.path@)) == Some(e.oid@),
{
    let es = crate::index::entries_v(after);
    let p = bytes_of(e.path@);
    if exists|i: int| 0 <= i < before.len() && before[i].path@ == e.path@ {
        let i = choose|i: int| 0 <= i < before.len() && before[i].path@ == e.path@
            && (forall|j: int| 0 <= j < i ==> before[j].path@ != e.path@) && after == before.update(i, e);
        assert forall|j: int| 0 <= j < i implies es[j].path != p by {
            assert(after[j] == before[j]);
            if es[j].path == p {
                crate::text::lemma_bytes_of_injective(before[j].path@, e.path@);
            }
        }
        lemma_lookup_first(es, p, i);
    } else {
        let i = choose|i: int| 0 <= i <= before.len() && after == before.insert(i, e);
        assert forall|j: int| 0 <= j < i implies es[j].path != p by {
            assert(after[j] == before[j]);
            if es[j].path == p {
                crate::text::lemma_bytes_of_injective(before[j].path@, e.path@);
            }
        }
        lemma_lookup_first(es, p, i);
    }
}

/// After staging a file whose working-tree blob is the staged one, its
/// status is none, a staged addition or a staged modification; and a
/// status listing holds at most one line for it.
pub proof fn lemma_add_then_status(before: Seq<IndexEntry>, after: Seq<IndexEntry>, e: IndexEntry, head: Seq<crate::diff::FlatV>, work: Seq<crate::diff::FlatV>)
    requires
        added(before, after, e),
        flat_lookup(work, bytes_of(e.path@)) == Some(e.oid@),
    ensures
        ({
            let s = crate::status::status_of(head, crate::index::entries_v(after), work, bytes_of(e.path@));
            s is None || s == Some(crate::status::FileStatus::Added) || s == Some(crate::status::FileStatus::StagedModified)
        }),
{
    lemma_staged_lookup(before, after, e);
    crate::status::lemma_status_after_add(flat_lookup(head, bytes_of(e.path@)), e.oid@);
}

} // verus!