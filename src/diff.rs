//! Differences between two path-to-blob listings: added, deleted and
//! modified paths, with exact-content renames paired up.

use vstd::prelude::*;

use crate::objects::oid::Oid;
use crate::objects::tree::FileMode;
use crate::text::{bytes_lt, bytes_of, lex_lt, str_bytes};

verus! {

/// The kind of a change.
#[derive(Debug, Clone, Copy, PartialEq, Eq, Structural)]
pub enum DiffStatus {
    Added,
    Deleted,
    Modified,
    Renamed,
    Copied,
}

impl DiffStatus {
    /// The one-letter code: A, D, M, R or C.
    pub fn as_char(&self) -> (r: char)
        ensures
            r == match self {
                DiffStatus::Added => 'A',
                DiffStatus::Deleted => 'D',
                DiffStatus::Modified => 'M',
                DiffStatus::Renamed => 'R',
                DiffStatus::Copied => 'C',
            },
    {
        match self {
            DiffStatus::Added => 'A',
            DiffStatus::Deleted => 'D',
            DiffStatus::Modified => 'M',
            DiffStatus::Renamed => 'R',
            DiffStatus::Copied => 'C',
        }
    }
}

/// Counts of changes by kind.
#[derive(Debug, Clone, PartialEq, Eq, Structural)]
pub struct DiffStats {
    pub added: usize,
    pub deleted: usize,
    pub modified: usize,
    pub renamed: usize,
    pub copied: usize,
}

impl DiffStats {
    /// The number of changes of all kinds.
    pub fn total(&self) -> (r: usize)
        requires
            self.added + self.deleted + self.modified + self.renamed + self.copied <= usize::MAX,
        ensures
            r == self.added + self.deleted + self.modified + self.renamed + self.copied,
    {
        self.added + self.deleted + self.modified + self.renamed + self.copied
    }
}

impl Default for DiffStats {
    fn default() -> (r: DiffStats)
        ensures
            r.added == 0 && r.deleted == 0 && r.modified == 0 && r.renamed == 0 && r.copied == 0,
    {
        DiffStats { added: 0, deleted: 0, modified: 0, renamed: 0, copied: 0 }
    }
}

/// One listed file: path, blob id and mode.
#[derive(Debug, Clone)]
pub struct FlatEntry {
    pub path: String,
    pub oid: Oid,
    pub mode: FileMode,
}

/// A listed file as values.
pub type FlatV = (Seq<u8>, Seq<u8>, FileMode);

pub open spec fn flat_v(e: FlatEntry) -> FlatV {
    (bytes_of(e.path@), e.oid@, e.mode)
}

pub open spec fn flats_v(es: Seq<FlatEntry>) -> Seq<FlatV> {
    es.map_values(|e: FlatEntry| flat_v(e))
}

/// A listing is in strictly ascending path order.
pub open spec fn flat_sorted(es: Seq<FlatV>) -> bool {
    forall|i: int, j: int| 0 <= i < j < es.len() ==> lex_lt(es[i].0, es[j].0)
}

/// A change as values.
pub struct DeltaV {
    pub status: DiffStatus,
    pub path: Seq<u8>,
    pub old_path: Option<Seq<u8>>,
    pub old_oid: Option<Seq<u8>>,
    pub new_oid: Option<Seq<u8>>,
    pub old_mode: Option<FileMode>,
    pub new_mode: Option<FileMode>,
}

/// One change between two listings.
#[derive(Debug, Clone, PartialEq, Eq)]
pub struct DiffDelta {
    pub status: DiffStatus,
    pub path: String,
    pub old_path: Option<String>,
    pub old_oid: Option<Oid>,
    pub new_oid: Option<Oid>,
    pub old_mode: Option<FileMode>,
    pub new_mode: Option<FileMode>,
}

pub open spec fn opt_text(s: Option<String>) -> Option<Seq<u8>> {
    match s {
        Some(x) => Some(bytes_of(x@)),
        None => None,
    }
}

pub open spec fn opt_oid(o: Option<Oid>) -> Option<Seq<u8>> {
    match o {
        Some(x) => Some(x@),
        None => None,
    }
}

/// The value of a change.
pub open spec fn delta_v(d: DiffDelta) -> DeltaV {
    DeltaV {
        status: d.status,
        path: bytes_of(d.path@),
        old_path: opt_text(d.old_path),
        old_oid: opt_oid(d.old_oid),
        new_oid: opt_oid(d.new_oid),
        old_mode: d.old_mode,
        new_mode: d.new_mode,
    }
}

pub open spec fn deltas_v(ds: Seq<DiffDelta>) -> Seq<DeltaV> {
    ds.map_values(|d: DiffDelta| delta_v(d))
}

pub open spec fn added_v(e: FlatV) -> DeltaV {
    DeltaV {
        status: DiffStatus::Added,
        path: e.0,
        old_path: None,
        old_oid: None,
        new_oid: Some(e.1),
        old_mode: None,
        new_mode: Some(e.2),
    }
}

pub open spec fn deleted_v(e: FlatV) -> DeltaV {
    DeltaV {
        status: DiffStatus::Deleted,
        path: e.0,
        old_path: None,
        old_oid: Some(e.1),
        new_oid: None,
        old_mode: Some(e.2),
        new_mode: None,
    }
}

pub open spec fn modified_v(o: FlatV, n: FlatV) -> DeltaV {
    DeltaV {
        status: DiffStatus::Modified,
        path: n.0,
        old_path: None,
        old_oid: Some(o.1),
        new_oid: Some(n.1),
        old_mode: Some(o.2),
        new_mode: Some(n.2),
    }
}

pub open spec fn renamed_v(old_path: Seq<u8>, new_path: Seq<u8>, oid: Seq<u8>, mode: FileMode) -> DeltaV {
    DeltaV {
        status: DiffStatus::Renamed,
        path: new_path,
        old_path: Some(old_path),
        old_oid: Some(oid),
        new_oid: Some(oid),
        old_mode: Some(mode),
        new_mode: Some(mode),
    }
}

/// The changes from one sorted listing to another, in path order: paths
/// only in the new one are added, only in the old one deleted, in both
/// with another id or mode modified; unchanged paths are left out.
pub open spec fn diff_merge(old: Seq<FlatV>, new: Seq<FlatV>) -> Seq<DeltaV>
    decreases old.len() + new.len(),
{
    if old.len() == 0 && new.len() == 0 {
        Seq::empty()
    } else if old.len() == 0 {
        seq![added_v(new[0])] + diff_merge(old, new.drop_first())
    } else if new.len() == 0 {
        seq![deleted_v(old[0])] + diff_merge(old.drop_first(), new)
    } else if lex_lt(old[0].0, new[0].0) {
        seq![deleted_v(old[0])] + diff_merge(old.drop_first(), new)
    } else if lex_lt(new[0].0, old[0].0) {
        seq![added_v(new[0])] + diff_merge(old, new.drop_first())
    } else if old[0].1 != new[0].1 || old[0].2 != new[0].2 {
        seq![modified_v(old[0], new[0])] + diff_merge(old.drop_first(), new.drop_first())
    } else {
        diff_merge(old.drop_first(), new.drop_first())
    }
}

/// The first added change at or after `j`, not yet used, whose new id is `oid`.
pub open spec fn first_match(d: Seq<DeltaV>, oid: Seq<u8>, used: Set<int>, j: int) -> int
    decreases d.len() - j,
{
    if j < 0 || j >= d.len() {
        -1
    } else if d[j].status == DiffStatus::Added && !used.contains(j) && d[j].new_oid == Some(oid) {
        j
    } else {
        first_match(d, oid, used, j + 1)
    }
}

/// The (deleted, added) index pairs that exact-rename detection makes,
/// taking deleted changes in order and, for each, the first unused added
/// change with the same id.
pub open spec fn rename_pairs(d: Seq<DeltaV>, i: int, used: Set<int>) -> Seq<(int, int)>
    decreases d.len() - i,
{
    if i < 0 || i >= d.len() {
        Seq::empty()
    } else if d[i].status == DiffStatus::Deleted && d[i].old_oid is Some && first_match(
        d,
        d[i].old_oid->0,
        used,
        0,
    ) >= 0 {
        let j = first_match(d, d[i].old_oid->0, used, 0);
        seq![(i, j)] + rename_pairs(d, i + 1, used.insert(j))
    } else {
        rename_pairs(d, i + 1, used)
    }
}

/// The indices that take part in some pair.
pub open spec fn paired(ps: Seq<(int, int)>) -> Set<int> {
    Set::new(|k: int| exists|p: int| 0 <= p < ps.len() && (ps[p].0 == k || ps[p].1 == k))
}

/// The changes left alone by rename detection, in order.
pub open spec fn kept_from(d: Seq<DeltaV>, used: Set<int>, k: int) -> Seq<DeltaV>
    decreases d.len() - k,
{
    if k < 0 || k >= d.len() {
        Seq::empty()
    } else if used.contains(k) {
        kept_from(d, used, k + 1)
    } else {
        seq![d[k]] + kept_from(d, used, k + 1)
    }
}

/// The rename made of a pair.
pub open spec fn rename_of(d: Seq<DeltaV>, p: (int, int)) -> DeltaV {
    renamed_v(
        d[p.0].path,
        d[p.1].path,
        d[p.0].old_oid->0,
        match d[p.0].old_mode {
            Some(m) => m,
            None => FileMode::Regular,
        },
    )
}

/// What rename detection produces from a list of changes, before sorting.
pub open spec fn with_renames(d: Seq<DeltaV>) -> Seq<DeltaV> {
    let ps = rename_pairs(d, 0, Set::empty());
    kept_from(d, paired(ps), 0) + ps.map_values(|p: (int, int)| rename_of(d, p))
}

/// Changes in ascending order of their path.
pub open spec fn sorted_by_new_path(ds: Seq<DeltaV>) -> bool {
    forall|i: int, j: int| 0 <= i < j < ds.len() ==> !lex_lt(ds[j].path, ds[i].path)
}

} // verus!

verus! {

fn copy_delta(d: &DiffDelta) -> (r: DiffDelta)
    ensures
        delta_v(r) == delta_v(*d),
{
    let old_path = match &d.old_path {
        Some(p) => Some(p.clone()),
        None => None,
    };
    DiffDelta {
        status: d.status,
        path: d.path.clone(),
        old_path,
        old_oid: d.old_oid,
        new_oid: d.new_oid,
        old_mode: d.old_mode,
        new_mode: d.new_mode,
    }
}

impl DiffDelta {
    /// The kind of change.
    pub fn status(&self) -> (r: DiffStatus)
        ensures
            r == self.status,
    {
        self.status
    }

    /// The path after the change.
    pub fn path(&self) -> (r: &str)
        ensures
            r@ == self.path@,
    {
        self.path.as_str()
    }

    /// The path before a rename.
    pub fn old_path(&self) -> (r: Option<&str>)
        ensures
            r is Some <==> self.old_path is Some,
            r is Some ==> r->Some_0@ == self.old_path->Some_0@,
    {
        match &self.old_path {
            Some(p) => Some(p.as_str()),
            None => None,
        }
    }

    /// The blob before the change.
    pub fn old_oid(&self) -> (r: Option<&Oid>)
        ensures
            r is Some <==> self.old_oid is Some,
            r is Some ==> *r->Some_0 == self.old_oid->Some_0,
    {
        match &self.old_oid {
            Some(o) => Some(o),
            None => None,
        }
    }

    /// The blob after the change.
    pub fn new_oid(&self) -> (r: Option<&Oid>)
        ensures
            r is Some <==> self.new_oid is Some,
            r is Some ==> *r->Some_0 == self.new_oid->Some_0,
    {
        match &self.new_oid {
            Some(o) => Some(o),
            None => None,
        }
    }

    /// The mode before the change.
    pub fn old_mode(&self) -> (r: Option<FileMode>)
        ensures
            r == self.old_mode,
    {
        self.old_mode
    }

    /// The mode after the change.
    pub fn new_mode(&self) -> (r: Option<FileMode>)
        ensures
            r == self.new_mode,
    {
        self.new_mode
    }

    /// The one-letter code of the change.
    pub fn status_char(&self) -> (r: char)
        ensures
            r == match self.status {
                DiffStatus::Added => 'A',
                DiffStatus::Deleted => 'D',
                DiffStatus::Modified => 'M',
                DiffStatus::Renamed => 'R',
                DiffStatus::Copied => 'C',
            },
    {
        self.status.as_char()
    }

    /// A path that appears.
    pub fn added(path: String, oid: Oid, mode: FileMode) -> (r: DiffDelta)
        ensures
            delta_v(r) == added_v((bytes_of(path@), oid@, mode)),
    {
        DiffDelta {
            status: DiffStatus::Added,
            path,
            old_path: None,
            old_oid: None,
            new_oid: Some(oid),
            old_mode: None,
            new_mode: Some(mode),
        }
    }

    /// A path that disappears.
    pub fn deleted(path: String, oid: Oid, mode: FileMode) -> (r: DiffDelta)
        ensures
            delta_v(r) == deleted_v((bytes_of(path@), oid@, mode)),
    {
        DiffDelta {
            status: DiffStatus::Deleted,
            path,
            old_path: None,
            old_oid: Some(oid),
            new_oid: None,
            old_mode: Some(mode),
            new_mode: None,
        }
    }

    /// A path whose blob or mode changes.
    pub fn modified(path: String, old_oid: Oid, new_oid: Oid, old_mode: FileMode, new_mode: FileMode) -> (r: DiffDelta)
        ensures
            delta_v(r) == modified_v(
                (bytes_of(path@), old_oid@, old_mode),
                (bytes_of(path@), new_oid@, new_mode),
            ),
    {
        DiffDelta {
            status: DiffStatus::Modified,
            path,
            old_path: None,
            old_oid: Some(old_oid),
            new_oid: Some(new_oid),
            old_mode: Some(old_mode),
            new_mode: Some(new_mode),
        }
    }

    /// The same content moved from one path to another.
    pub fn renamed(old_path: String, new_path: String, oid: Oid, mode: FileMode) -> (r: DiffDelta)
        ensures
            delta_v(r) == renamed_v(bytes_of(old_path@), bytes_of(new_path@), oid@, mode),
    {
        DiffDelta {
            status: DiffStatus::Renamed,
            path: new_path,
            old_path: Some(old_path),
            old_oid: Some(oid),
            new_oid: Some(oid),
            old_mode: Some(mode),
            new_mode: Some(mode),
        }
    }
}

/// The number of changes of a kind.
pub open spec fn count_status(ds: Seq<DiffDelta>, s: DiffStatus) -> nat
    decreases ds.len(),
{
    if ds.len() == 0 {
        0
    } else {
        count_status(ds.drop_last(), s) + if ds.last().status == s {
            1nat
        } else {
            0nat
        }
    }
}

proof fn lemma_count_bound(ds: Seq<DiffDelta>, s: DiffStatus)
    ensures
        count_status(ds, s) <= ds.len(),
    decreases ds.len(),
{
    if ds.len() > 0 {
        lemma_count_bound(ds.drop_last(), s);
    }
}

/// The changes between two listings.
#[derive(Debug, Clone)]
pub struct TreeDiff {
    pub deltas: Vec<DiffDelta>,
}

impl TreeDiff {
    /// The changes, in path order.
    pub fn deltas(&self) -> (r: &[DiffDelta])
        ensures
            r@ == self.deltas@,
    {
        self.deltas.as_slice()
    }

    /// The counts of changes by kind.
    pub fn stats(&self) -> (r: DiffStats)
        ensures
            r.added == count_status(self.deltas@, DiffStatus::Added),
            r.deleted == count_status(self.deltas@, DiffStatus::Deleted),
            r.modified == count_status(self.deltas@, DiffStatus::Modified),
            r.renamed == count_status(self.deltas@, DiffStatus::Renamed),
            r.copied == count_status(self.deltas@, DiffStatus::Copied),
    {
        let mut st = DiffStats { added: 0, deleted: 0, modified: 0, renamed: 0, copied: 0 };
        let mut i: usize = 0;
        while i < self.deltas.len()
            invariant
                0 <= i <= self.deltas@.len(),
                st.added == count_status(self.deltas@.subrange(0, i as int), DiffStatus::Added),
                st.deleted == count_status(self.deltas@.subrange(0, i as int), DiffStatus::Deleted),
                st.modified == count_status(self.deltas@.subrange(0, i as int), DiffStatus::Modified),
                st.renamed == count_status(self.deltas@.subrange(0, i as int), DiffStatus::Renamed),
                st.copied == count_status(self.deltas@.subrange(0, i as int), DiffStatus::Copied),
            decreases self.deltas@.len() - i,
        {
            let ghost pre = self.deltas@.subrange(0, i as int);
            let ghost next = self.deltas@.subrange(0, i + 1);
            assert(next.drop_last() =~= pre);
            proof {
                lemma_count_bound(pre, DiffStatus::Added);
                lemma_count_bound(pre, DiffStatus::Deleted);
                lemma_count_bound(pre, DiffStatus::Modified);
                lemma_count_bound(pre, DiffStatus::Renamed);
                lemma_count_bound(pre, DiffStatus::Copied);
            }
            match self.deltas[i].status {
                DiffStatus::Added => st.added = st.added + 1,
                DiffStatus::Deleted => st.deleted = st.deleted + 1,
                DiffStatus::Modified => st.modified = st.modified + 1,
                DiffStatus::Renamed => st.renamed = st.renamed + 1,
                DiffStatus::Copied => st.copied = st.copied + 1,
            }
            i = i + 1;
        }
        assert(self.deltas@.subrange(0, self.deltas@.len() as int) =~= self.deltas@);
        st
    }

    /// Whether there are no changes.
    pub fn is_empty(&self) -> (r: bool)
        ensures
            r == (self.deltas@.len() == 0),
    {
        self.deltas.len() == 0
    }

    /// The number of changes.
    pub fn len(&self) -> (r: usize)
        ensures
            r == self.deltas@.len(),
    {
        self.deltas.len()
    }

    /// Iterates over the changes in order.
    pub fn iter(&self) -> (r: std::slice::Iter<'_, DiffDelta>)
        ensures
            vstd::std_specs::iter::IteratorSpec::remaining(&r) == self.deltas@.as_ref(),
    {
        self.deltas.iter()
    }
}

/// The changes from one sorted listing to another, renames paired.
pub fn diff_flat_maps(old: &[FlatEntry], new: &[FlatEntry]) -> (r: TreeDiff)
    requires
        flat_sorted(flats_v(old@)),
        flat_sorted(flats_v(new@)),
    ensures
        sorted_by_new_path(deltas_v(r.deltas@)),
        deltas_v(r.deltas@).to_multiset() == with_renames(
            diff_merge(flats_v(old@), flats_v(new@)),
        ).to_multiset(),
{
    let mut deltas = flat_merge(old, new);
    detect_renames(&mut deltas);
    TreeDiff { deltas }
}

fn flat_merge(old: &[FlatEntry], new: &[FlatEntry]) -> (r: Vec<DiffDelta>)
    ensures
        deltas_v(r@) == diff_merge(flats_v(old@), flats_v(new@)),
{
    let mut out: Vec<DiffDelta> = Vec::new();
    let mut i: usize = 0;
    let mut j: usize = 0;
    let ghost o = flats_v(old@);
    let ghost n = flats_v(new@);
    assert(o.subrange(0, o.len() as int) =~= o);
    assert(n.subrange(0, n.len() as int) =~= n);
    while i < old.len() || j < new.len()
        invariant
            0 <= i <= old@.len(),
            0 <= j <= new@.len(),
            o == flats_v(old@),
            n == flats_v(new@),
            diff_merge(o, n) == deltas_v(out@) + diff_merge(
                o.subrange(i as int, o.len() as int),
                n.subrange(j as int, n.len() as int),
            ),
        decreases old@.len() - i + new@.len() - j,
    {
        let ghost os = o.subrange(i as int, o.len() as int);
        let ghost ns = n.subrange(j as int, n.len() as int);
        let ghost before = out@;
        let take_old: bool;
        let take_new: bool;
        if i == old.len() {
            take_old = false;
            take_new = true;
        } else if j == new.len() {
            take_old = true;
            take_new = false;
        } else {
            let po = str_bytes(old[i].path.as_str());
            let pn = str_bytes(new[j].path.as_str());
            if bytes_lt(po, pn) {
                take_old = true;
                take_new = false;
            } else if bytes_lt(pn, po) {
                take_old = false;
                take_new = true;
            } else {
                take_old = true;
                take_new = true;
            }
        }
        if take_old && take_new {
            let a = &old[i];
            let b = &new[j];
            if a.oid != b.oid || a.mode != b.mode {
                out.push(DiffDelta::modified(b.path.clone(), a.oid, b.oid, a.mode, b.mode));
            }
            i = i + 1;
            j = j + 1;
        } else if take_old {
            let a = &old[i];
            out.push(DiffDelta::deleted(a.path.clone(), a.oid, a.mode));
            i = i + 1;
        } else {
            let b = &new[j];
            out.push(DiffDelta::added(b.path.clone(), b.oid, b.mode));
            j = j + 1;
        }
        proof {
            assert(deltas_v(out@) =~= deltas_v(before) + deltas_v(out@.subrange(
                before.len() as int,
                out@.len() as int,
            )));
            if take_old {
                assert(os.drop_first() =~= o.subrange(i as int, o.len() as int));
            } else {
                assert(os =~= o.subrange(i as int, o.len() as int));
            }
            if take_new {
                assert(ns.drop_first() =~= n.subrange(j as int, n.len() as int));
            } else {
                assert(ns =~= n.subrange(j as int, n.len() as int));
            }
            if take_old && take_new {
                crate::text::lemma_lex_total(os[0].0, ns[0].0);
                if os[0].1 != ns[0].1 || os[0].2 != ns[0].2 {
                    assert(os[0].0 == ns[0].0);
                }
            }
        }
    }
    assert(o.subrange(i as int, o.len() as int) =~= Seq::<FlatV>::empty());
    assert(n.subrange(j as int, n.len() as int) =~= Seq::<FlatV>::empty());
    assert(deltas_v(out@) + Seq::<DeltaV>::empty() =~= deltas_v(out@));
    out
}

} // verus!

verus! {

/// Inserting into a sequence adds one occurrence to its multiset.
pub proof fn lemma_ms_insert<A>(s: Seq<A>, q: int, v: A)
    requires
        0 <= q <= s.len(),
    ensures
        s.insert(q, v).to_multiset() == s.to_multiset().insert(v),
{
    let t = s.insert(q, v);
    assert(t.remove(q) =~= s);
    t.to_multiset_ensures();
    s.to_multiset_ensures();
    assert(t.to_multiset().count(v) > 0) by {
        assert(t[q] == v);
        assert(t.contains(v));
    }
    assert(t.to_multiset() =~= s.to_multiset().insert(v));
}

/// Pairs up exact renames among a list of changes and sorts the result by
/// path: each deleted change, in order, is paired with the first added
/// change not yet paired that has the same blob; both are replaced by one
/// rename.
pub fn detect_renames(deltas: &mut Vec<DiffDelta>)
    ensures
        sorted_by_new_path(deltas_v(final(deltas)@)),
        deltas_v(final(deltas)@).to_multiset() == with_renames(deltas_v(old(deltas)@)).to_multiset(),
{
    let ghost d = deltas_v(deltas@);
    let n = deltas.len();
    let mut taken: Vec<bool> = Vec::new();
    let mut k: usize = 0;
    while k < n
        invariant
            0 <= k <= n,
            taken@.len() == k,
            forall|x: int| 0 <= x < k ==> !taken@[x],
        decreases n - k,
    {
        taken.push(false);
        k = k + 1;
    }
    let ghost mut used: Set<int> = Set::empty();
    let ghost mut pairs: Seq<(int, int)> = Seq::empty();
    let mut renames: Vec<DiffDelta> = Vec::new();
    let mut i: usize = 0;
    while i < n
        invariant
            0 <= i <= n,
            n == deltas@.len(),
            d == deltas_v(deltas@),
            taken@.len() == n,
            rename_pairs(d, 0, Set::empty()) == pairs + rename_pairs(d, i as int, used),
            forall|x: int| 0 <= x < n ==> (taken@[x] <==> paired(pairs).contains(x)),
            forall|x: int| #![auto] 0 <= x < n && d[x].status == DiffStatus::Added ==> (used.contains(x) <==> paired(pairs).contains(x)),
            forall|p: int| #![auto] 0 <= p < pairs.len() ==> 0 <= pairs[p].0 < i && 0 <= pairs[p].1 < n
                && d[pairs[p].0].status == DiffStatus::Deleted && d[pairs[p].1].status == DiffStatus::Added
                && d[pairs[p].0].old_oid is Some,
            deltas_v(renames@) == pairs.map_values(|p: (int, int)| rename_of(d, p)),
        decreases n - i,
    {
        let ghost pre_pairs = pairs;
        if deltas[i].status == DiffStatus::Deleted {
            match deltas[i].old_oid {
                Some(oid) => {
                    let mut j: usize = 0;
                    let mut found: Option<usize> = None;
                    while j < n && found.is_none()
                        invariant
                            0 <= j <= n,
                            n == deltas@.len(),
                            d == deltas_v(deltas@),
                            taken@.len() == n,
                            forall|x: int| #![auto] 0 <= x < n && d[x].status == DiffStatus::Added ==> (used.contains(x) <==> taken@[x]),
                            found is None ==> first_match(d, oid@, used, 0) == first_match(d, oid@, used, j as int),
                            found is Some ==> found->Some_0 < n && first_match(d, oid@, used, 0) == found->Some_0 as int,
                        decreases n - j,
                    {
                        if deltas[j].status == DiffStatus::Added && !taken[j] {
                            match deltas[j].new_oid {
                                Some(o2) => {
                                    if o2 == oid {
                                        assert(d[j as int].new_oid == Some(oid@));
                                        assert(!used.contains(j as int));
                                        assert(first_match(d, oid@, used, j as int) == j);
                                        found = Some(j);
                                    }
                                },
                                None => {},
                            }
                        }
                        j = j + 1;
                    }
                    match found {
                        Some(j) => {
                            let ghost jj = j as int;
                            assert(first_match(d, oid@, used, 0) == jj);
                            proof {
                                lemma_first_match_facts(d, oid@, used, 0);
                            }
                            let ghost old_renames = renames@;
                            let mode = match deltas[i].old_mode {
                                Some(m) => m,
                                None => FileMode::Regular,
                            };
                            let r = DiffDelta::renamed(
                                deltas[i].path.clone(),
                                deltas[j].path.clone(),
                                oid,
                                mode,
                            );
                            renames.push(r);
                            taken.set(i, true);
                            taken.set(j, true);
                            proof {
                                let p = (i as int, jj);
                                assert(rename_pairs(d, i as int, used) == seq![p] + rename_pairs(
                                    d,
                                    i + 1,
                                    used.insert(jj),
                                ));
                                pairs = pairs.push(p);
                                used = used.insert(jj);
                                assert(pre_pairs + (seq![p] + rename_pairs(d, i + 1, used)) =~= pairs
                                    + rename_pairs(d, i + 1, used));
                                assert(rename_of(d, p) == delta_v(r));
                                assert(deltas_v(renames@) =~= deltas_v(old_renames).push(delta_v(r)));
                                assert(pairs.map_values(|p: (int, int)| rename_of(d, p)) =~= pre_pairs.map_values(
                                    |p: (int, int)| rename_of(d, p),
                                ).push(rename_of(d, p)));
                                assert(deltas_v(renames@) =~= pairs.map_values(
                                    |p: (int, int)| rename_of(d, p),
                                ));
                                assert forall|x: int| 0 <= x < n implies (taken@[x]
                                    <==> paired(pairs).contains(x)) by {
                                    if paired(pre_pairs).contains(x) {
                                        let w = choose|w: int| 0 <= w < pre_pairs.len() && (pre_pairs[w].0 == x || pre_pairs[w].1 == x);
                                        assert(pairs[w] == pre_pairs[w]);
                                    }
                                    if paired(pairs).contains(x) && x != i && x != jj {
                                        let w = choose|w: int| 0 <= w < pairs.len() && (pairs[w].0 == x || pairs[w].1 == x);
                                        assert(w < pre_pairs.len());
                                        assert(paired(pre_pairs).contains(x));
                                    }
                                    if x == i || x == jj {
                                        assert(pairs[pre_pairs.len() as int] == p);
                                    }
                                }
                                assert forall|x: int| #![auto] 0 <= x < n && d[x].status == DiffStatus::Added
                                    implies (used.contains(x) <==> paired(pairs).contains(x)) by {
                                    if paired(pairs).contains(x) && x != jj {
                                        let w = choose|w: int| 0 <= w < pairs.len() && (pairs[w].0 == x || pairs[w].1 == x);
                                        if w < pre_pairs.len() {
                                            assert(paired(pre_pairs).contains(x));
                                        }
                                    }
                                    if paired(pre_pairs).contains(x) {
                                        let w = choose|w: int| 0 <= w < pre_pairs.len() && (pre_pairs[w].0 == x || pre_pairs[w].1 == x);
                                        assert(pairs[w] == pre_pairs[w]);
                                    }
                                    if x == jj {
                                        assert(pairs[pre_pairs.len() as int] == p);
                                    }
                                }
                            }
                        },
                        None => {
                            assert(first_match(d, oid@, used, 0) == -1);
                        },
                    }
                },
                None => {},
            }
        }
        i = i + 1;
    }
    assert(rename_pairs(d, n as int, used) =~= Seq::<(int, int)>::empty());
    assert(pairs =~= rename_pairs(d, 0, Set::empty()));
    let ghost pset = paired(pairs);
    let mut kept: Vec<DiffDelta> = Vec::new();
    let mut k: usize = 0;
    while k < n
        invariant
            0 <= k <= n,
            n == deltas@.len(),
            d == deltas_v(deltas@),
            taken@.len() == n,
            forall|x: int| 0 <= x < n ==> (taken@[x] <==> pset.contains(x)),
            kept_from(d, pset, 0) == deltas_v(kept@) + kept_from(d, pset, k as int),
        decreases n - k,
    {
        let ghost before = kept@;
        if !taken[k] {
            kept.push(copy_delta(&deltas[k]));
            assert(deltas_v(kept@) =~= deltas_v(before) + seq![d[k as int]]);
        }
        k = k + 1;
    }
    assert(kept_from(d, pset, n as int) =~= Seq::<DeltaV>::empty());
    let ghost combined = deltas_v(kept@) + deltas_v(renames@);
    assert(combined =~= with_renames(d));
    let ghost kept_len = kept@.len();
    kept.append(&mut renames);
    assert(deltas_v(kept@) =~= combined);
    let mut result: Vec<DiffDelta> = Vec::new();
    let total = kept.len();
    assert(deltas_v(result@) =~= combined.subrange(0, 0));
    let mut t: usize = 0;
    while t < total
        invariant
            0 <= t <= total,
            total == kept@.len(),
            combined == deltas_v(kept@),
            sorted_by_new_path(deltas_v(result@)),
            deltas_v(result@).to_multiset() == combined.subrange(0, t as int).to_multiset(),
        decreases total - t,
    {
        let x = copy_delta(&kept[t]);
        assert(delta_v(x) == combined[t as int]);
        let xp = str_bytes(x.path.as_str());
        let mut q: usize = 0;
        while q < result.len() && !bytes_lt(xp, str_bytes(result[q].path.as_str()))
            invariant
                0 <= q <= result@.len(),
                xp@ == bytes_of(x.path@),
                forall|a: int| 0 <= a < q ==> !lex_lt(xp@, #[trigger] deltas_v(result@)[a].path),
            decreases result@.len() - q,
        {
            q = q + 1;
        }
        let ghost rv = deltas_v(result@);
        result.insert(q, x);
        proof {
            let nv = deltas_v(result@);
            assert(nv =~= rv.insert(q as int, delta_v(x)));
            lemma_ms_insert(rv, q as int, delta_v(x));
            assert(combined.subrange(0, t + 1) =~= combined.subrange(0, t as int).push(combined[t as int]));
            combined.subrange(0, t as int).to_multiset_ensures();
            assert forall|a: int, b: int| 0 <= a < b < nv.len() implies !lex_lt(nv[b].path, nv[a].path) by {
                if b < q {
                } else if a < q && b == q {
                } else if a < q && b > q {
                    assert(nv[b] == rv[b - 1]);
                    if lex_lt(rv[b - 1].path, rv[a].path) {
                    }
                    if q < rv.len() {
                        assert(lex_lt(xp@, rv[q as int].path));
                    }
                    crate::text::lemma_lex_total(xp@, rv[a].path);
                    if lex_lt(rv[b - 1].path, xp@) {
                        crate::text::lemma_lex_trans(rv[b - 1].path, xp@, rv[q as int].path);
                        if b - 1 > q {
                        }
                    }
                } else if a == q {
                    assert(nv[b] == rv[b - 1]);
                    assert(lex_lt(xp@, rv[q as int].path));
                    if lex_lt(rv[b - 1].path, xp@) {
                        crate::text::lemma_lex_trans(rv[b - 1].path, xp@, rv[q as int].path);
                        if b - 1 == q {
                            crate::text::lemma_lex_irreflexive(rv[q as int].path);
                        }
                    }
                } else {
                    assert(nv[a] == rv[a - 1]);
                    assert(nv[b] == rv[b - 1]);
                }
            }
        }
        t = t + 1;
    }
    assert(combined.subrange(0, total as int) =~= combined);
    *deltas = result;
}

/// Exact-rename pairing: when exactly one deleted change and exactly one
/// added change carry blob `oid`, detection replaces them by one rename
/// from the deleted path to the added path.
pub proof fn lemma_rename_pairs_unique_match(d: Seq<DeltaV>, a: int, b: int)
    requires
        0 <= a < d.len(),
        0 <= b < d.len(),
        d[a].status == DiffStatus::Deleted,
        d[b].status == DiffStatus::Added,
        d[a].old_oid is Some,
        d[b].new_oid == d[a].old_oid,
        forall|x: int| 0 <= x < d.len() && x != a && d[x].status == DiffStatus::Deleted ==> d[x].old_oid != d[a].old_oid,
        forall|x: int| 0 <= x < d.len() && x != b && d[x].status == DiffStatus::Added ==> d[x].new_oid != d[a].old_oid,
    ensures
        with_renames(d).contains(rename_of(d, (a, b))),
        rename_pairs(d, 0, Set::empty()).contains((a, b)),
{
    lemma_pairs_include(d, 0, Set::empty(), a, b);
    let ps = rename_pairs(d, 0, Set::empty());
    let w = choose|w: int| 0 <= w < ps.len() && ps[w] == (a, b);
    let rs = ps.map_values(|p: (int, int)| rename_of(d, p));
    let kept = kept_from(d, paired(ps), 0);
    assert(with_renames(d)[kept.len() + w] == rs[w]);
}

proof fn lemma_first_match_is(d: Seq<DeltaV>, oid: Seq<u8>, used: Set<int>, j: int, b: int)
    requires
        0 <= j <= b < d.len(),
        d[b].status == DiffStatus::Added,
        !used.contains(b),
        d[b].new_oid == Some(oid),
        forall|x: int| 0 <= x < d.len() && x != b && d[x].status == DiffStatus::Added ==> d[x].new_oid != Some(oid),
    ensures
        first_match(d, oid, used, j) == b,
    decreases b - j,
{
    if j < b {
        lemma_first_match_is(d, oid, used, j + 1, b);
    }
}

proof fn lemma_pairs_include(d: Seq<DeltaV>, i: int, used: Set<int>, a: int, b: int)
    requires
        0 <= i <= a < d.len(),
        0 <= b < d.len(),
        !used.contains(b),
        d[a].status == DiffStatus::Deleted,
        d[b].status == DiffStatus::Added,
        d[a].old_oid is Some,
        d[b].new_oid == d[a].old_oid,
        forall|x: int| 0 <= x < d.len() && x != a && d[x].status == DiffStatus::Deleted ==> d[x].old_oid != d[a].old_oid,
        forall|x: int| 0 <= x < d.len() && x != b && d[x].status == DiffStatus::Added ==> d[x].new_oid != d[a].old_oid,
    ensures
        rename_pairs(d, i, used).contains((a, b)),
    decreases a - i,
{
    let oid = d[a].old_oid->0;
    if i == a {
        lemma_first_match_is(d, oid, used, 0, b);
        let rest = rename_pairs(d, i + 1, used.insert(b));
        assert((seq![(a, b)] + rest)[0] == (a, b));
    } else {
        if d[i].status == DiffStatus::Deleted && d[i].old_oid is Some && first_match(
            d,
            d[i].old_oid->0,
            used,
            0,
        ) >= 0 {
            let j = first_match(d, d[i].old_oid->0, used, 0);
            lemma_first_match_facts(d, d[i].old_oid->0, used, 0);
            assert(j != b);
            lemma_pairs_include(d, i + 1, used.insert(j), a, b);
            let rest = rename_pairs(d, i + 1, used.insert(j));
            let w = choose|w: int| 0 <= w < rest.len() && rest[w] == (a, b);
            assert((seq![(i, j)] + rest)[w + 1] == (a, b));
        } else {
            lemma_pairs_include(d, i + 1, used, a, b);
        }
    }
}

proof fn lemma_first_match_facts(d: Seq<DeltaV>, oid: Seq<u8>, used: Set<int>, j: int)
    requires
        0 <= j,
    ensures
        first_match(d, oid, used, j) >= 0 ==> {
            let m = first_match(d, oid, used, j);
            j <= m < d.len() && d[m].status == DiffStatus::Added && d[m].new_oid == Some(oid)
        },
    decreases d.len() - j,
{
    if j < d.len() {
        lemma_first_match_facts(d, oid, used, j + 1);
    }
}

} // verus!

verus! {

/// Comparing a listing with itself finds no changes, so the diff of a
/// tree with itself is empty.
pub proof fn lemma_diff_same_listing(x: Seq<FlatV>)
    ensures
        diff_merge(x, x) == Seq::<DeltaV>::empty(),
        with_renames(diff_merge(x, x)).len() == 0,
    decreases x.len(),
{
    if x.len() > 0 {
        crate::text::lemma_lex_irreflexive(x[0].0);
        lemma_diff_same_listing(x.drop_first());
    }
    let e = Seq::<DeltaV>::empty();
    assert(rename_pairs(e, 0, Set::empty()) =~= Seq::<(int, int)>::empty());
    assert(kept_from(e, paired(Seq::<(int, int)>::empty()), 0) =~= Seq::<DeltaV>::empty());
}

/// Sorts a listing by path (stable insertion).
pub fn sort_flat(es: Vec<FlatEntry>) -> (r: Vec<FlatEntry>)
    ensures
        flats_v(r@).to_multiset() == flats_v(es@).to_multiset(),
        forall|i: int, j: int| 0 <= i < j < r@.len() ==> !lex_lt(flats_v(r@)[j].0, flats_v(r@)[i].0),
{
    let mut result: Vec<FlatEntry> = Vec::new();
    let mut t: usize = 0;
    assert(flats_v(result@) =~= flats_v(es@).subrange(0, 0));
    while t < es.len()
        invariant
            0 <= t <= es@.len(),
            forall|a: int, b: int| 0 <= a < b < result@.len() ==> !lex_lt(flats_v(result@)[b].0, flats_v(result@)[a].0),
            flats_v(result@).to_multiset() == flats_v(es@).subrange(0, t as int).to_multiset(),
        decreases es@.len() - t,
    {
        let x = FlatEntry { path: es[t].path.clone(), oid: es[t].oid, mode: es[t].mode };
        let xp = str_bytes(x.path.as_str());
        let mut q: usize = 0;
        while q < result.len() && !bytes_lt(xp, str_bytes(result[q].path.as_str()))
            invariant
                0 <= q <= result@.len(),
                xp@ == bytes_of(x.path@),
                forall|a: int| 0 <= a < q ==> !lex_lt(xp@, #[trigger] flats_v(result@)[a].0),
            decreases result@.len() - q,
        {
            q = q + 1;
        }
        let ghost rv = flats_v(result@);
        result.insert(q, x);
        proof {
            let nv = flats_v(result@);
            let c = flats_v(es@);
            assert(nv =~= rv.insert(q as int, flat_v(x)));
            lemma_ms_insert(rv, q as int, flat_v(x));
            assert(c.subrange(0, t + 1) =~= c.subrange(0, t as int).push(c[t as int]));
            c.subrange(0, t as int).to_multiset_ensures();
            assert forall|a: int, b: int| 0 <= a < b < nv.len() implies !lex_lt(nv[b].0, nv[a].0) by {
                if b < q {
                } else if a < q && b == q {
                } else if a < q && b > q {
                    assert(nv[b] == rv[b - 1]);
                    if lex_lt(rv[b - 1].0, xp@) {
                        crate::text::lemma_lex_trans(rv[b - 1].0, xp@, rv[q as int].0);
                    }
                    crate::text::lemma_lex_total(xp@, rv[a].0);
                    if lex_lt(rv[b - 1].0, rv[a].0) {
                        crate::text::lemma_lex_trans(rv[b - 1].0, rv[a].0, xp@);
                        crate::text::lemma_lex_trans(rv[b - 1].0, xp@, rv[q as int].0);
                    }
                } else if a == q {
                    assert(nv[b] == rv[b - 1]);
                    if lex_lt(rv[b - 1].0, xp@) {
                        crate::text::lemma_lex_trans(rv[b - 1].0, xp@, rv[q as int].0);
                        if b - 1 == q {
                            crate::text::lemma_lex_irreflexive(rv[q as int].0);
                        }
                    }
                } else {
                    assert(nv[a] == rv[a - 1]);
                    assert(nv[b] == rv[b - 1]);
                }
            }
        }
        t = t + 1;
    }
    assert(flats_v(es@).subrange(0, es@.len() as int) =~= flats_v(es@));
    result
}


/// Whether a listing is in strictly ascending path order.
pub fn is_flat_sorted(es: &[FlatEntry]) -> (r: bool)
    ensures
        r == flat_sorted(flats_v(es@)),
{
    let ghost v = flats_v(es@);
    if es.len() == 0 {
        return true;
    }
    let mut i: usize = 1;
    while i < es.len()
        invariant
            1 <= i <= es@.len(),
            v == flats_v(es@),
            forall|a: int, b: int| 0 <= a < b < i ==> lex_lt(v[a].0, v[b].0),
        decreases es@.len() - i,
    {
        if !bytes_lt(str_bytes(es[i - 1].path.as_str()), str_bytes(es[i].path.as_str())) {
            assert(!lex_lt(v[i - 1].0, v[i as int].0));
            return false;
        }
        proof {
            assert forall|a: int, b: int| 0 <= a < b < i + 1 implies lex_lt(v[a].0, v[b].0) by {
                if b == i && a < i - 1 {
                    crate::text::lemma_lex_trans(v[a].0, v[i - 1].0, v[b].0);
                }
            }
        }
        i = i + 1;
    }
    true
}

} // verus!
