//! History traversal: newest commits first by author time, each at most
//! once, with filters. The traversal is a state machine: the caller reads
//! commits from the store and feeds them in.

use vstd::prelude::*;

use crate::objects::commit::{i64_value, parse_i64, Commit};
use crate::objects::oid::Oid;
use crate::text::{bytes_of, find_from, lemma_find_from, owned, position_from, str_bytes};

verus! {

/// Options of a history walk.
#[derive(Debug, Clone)]
pub struct LogOptions {
    pub paths: Vec<String>,
    pub max_count: Option<usize>,
    pub since: Option<i64>,
    pub until: Option<i64>,
    pub first_parent: bool,
    pub author: Option<String>,
    pub from: Option<Oid>,
}

/// Days before the first of a month in a non-leap year; 0 for a bad month.
pub open spec fn month_days(m: int) -> int {
    if m == 1 { 0 } else if m == 2 { 31 } else if m == 3 { 59 } else if m == 4 { 90 } else if m == 5 { 120 } else if m == 6 { 151 } else if m == 7 { 181 } else if m == 8 { 212 } else if m == 9 { 243 } else if m == 10 { 273 } else if m == 11 { 304 } else if m == 12 { 334 } else { 0 }
}

/// Division rounding toward zero.
pub open spec fn tdiv(a: int, b: int) -> int {
    if a >= 0 { a / b } else { -((-a) / b) }
}

/// Seconds since the epoch for a calendar date at UTC midnight, with
/// every fourth year a leap year.
pub open spec fn date_seconds(y: int, m: int, d: int) -> int {
    ((y - 1970) * 365 + tdiv(y - 1969, 4) + month_days(m) + d - 1) * 86400
}

/// The timestamp a date text denotes: a decimal Unix time, or
/// `YYYY-MM-DD`; anything else (or a date out of range) is 0.
pub open spec fn date_value(s: Seq<u8>) -> i64 {
    match i64_value(s) {
        Some(t) => t,
        None => {
            let d1 = find_from(s, 45, 0);
            let d2 = find_from(s, 45, d1 + 1);
            if d1 < 0 || d2 < 0 || find_from(s, 45, d2 + 1) >= 0 {
                0
            } else {
                let y = i64_value(s.subrange(0, d1));
                let m = i64_value(s.subrange(d1 + 1, d2));
                let d = i64_value(s.subrange(d2 + 1, s.len() as int));
                if y is None || m is None || d is None {
                    0
                } else {
                    let v = date_seconds(y->0 as int, m->0 as int, d->0 as int);
                    if i64::MIN <= v <= i64::MAX { v as i64 } else { 0 }
                }
            }
        }
    }
}

fn month_offset(m: i64) -> (r: i128)
    ensures
        r == month_days(m as int),
{
    if m == 1 { 0 } else if m == 2 { 31 } else if m == 3 { 59 } else if m == 4 { 90 } else if m == 5 { 120 } else if m == 6 { 151 } else if m == 7 { 181 } else if m == 8 { 212 } else if m == 9 { 243 } else if m == 10 { 273 } else if m == 11 { 304 } else if m == 12 { 334 } else { 0 }
}

/// Reads a date: a decimal Unix time, or `YYYY-MM-DD` at UTC midnight.
pub fn parse_date(s: &str) -> (r: i64)
    ensures
        r == date_value(bytes_of(s@)),
{
    let b = str_bytes(s);
    let n = b.len();
    assert(b@.subrange(0, n as int) =~= b@);
    if let Some(t) = parse_i64(b, 0, n) {
        return t;
    }
    let d1 = match position_from(b, 0, 45) {
        Some(i) => i,
        None => { return 0; },
    };
    proof {
        lemma_find_from(b@, 45, 0);
    }
    let d2 = match position_from(b, d1 + 1, 45) {
        Some(i) => i,
        None => { return 0; },
    };
    proof {
        lemma_find_from(b@, 45, d1 + 1);
    }
    if position_from(b, d2 + 1, 45).is_some() {
        return 0;
    }
    let y = parse_i64(b, 0, d1);
    let m = parse_i64(b, d1 + 1, d2);
    let d = parse_i64(b, d2 + 1, n);
    match (y, m, d) {
        (Some(y), Some(m), Some(d)) => {
            let yy = y as i128;
            let a: i128 = yy - 1969;
            let q: i128 = if a >= 0 { a / 4 } else { -((-a) / 4) };
            assert(-0x1_0000_0000_0000_0000_0000 < (yy - 1970) * 365 < 0x1_0000_0000_0000_0000_0000) by (nonlinear_arith)
                requires
                    -0x8000_0000_0000_0000 <= yy < 0x8000_0000_0000_0000,
            ;
            assert(-0x8000_0000_0000_0000 <= q <= 0x8000_0000_0000_0000);
            let days: i128 = (yy - 1970) * 365 + q + month_offset(m) + (d as i128) - 1;
            assert(-0x100_0000_0000_0000_0000_0000_0000 < days * 86400 < 0x100_0000_0000_0000_0000_0000_0000) by (nonlinear_arith)
                requires
                    -0x10_0000_0000_0000_0000_0000 < days < 0x10_0000_0000_0000_0000_0000,
            ;
            let secs: i128 = days * 86400;
            if secs < i64::MIN as i128 || secs > i64::MAX as i128 {
                0
            } else {
                secs as i64
            }
        },
        _ => 0,
    }
}

impl LogOptions {
    /// No filters: every commit reachable from HEAD.
    pub fn new() -> (r: LogOptions)
        ensures
            r.paths@.len() == 0 && r.max_count is None && r.since is None && r.until is None
                && !r.first_parent && r.author is None && r.from is None,
    {
        LogOptions {
            paths: Vec::new(),
            max_count: None,
            since: None,
            until: None,
            first_parent: false,
            author: None,
            from: None,
        }
    }

    /// Adds a path prefix to the path filter.
    pub fn path(self, path: &str) -> (r: LogOptions)
        ensures
            r.paths@.len() == self.paths@.len() + 1,
            r.paths@.subrange(0, self.paths@.len() as int) == self.paths@,
            r.paths@.last()@ == path@,
            r.max_count == self.max_count && r.since == self.since && r.until == self.until,
            r.first_parent == self.first_parent && r.author == self.author && r.from == self.from,
    {
        let mut paths = self.paths;
        paths.push(owned(path));
        LogOptions { paths, ..self }
    }

    /// Adds several path prefixes to the path filter.
    pub fn paths(self, more: &[&str]) -> (r: LogOptions)
        ensures
            r.paths@.len() == self.paths@.len() + more@.len(),
            r.paths@.subrange(0, self.paths@.len() as int) == self.paths@,
            forall|i: int| 0 <= i < more@.len() ==> r.paths@[self.paths@.len() + i]@ == more@[i]@,
            r.max_count == self.max_count && r.since == self.since && r.until == self.until,
            r.first_parent == self.first_parent && r.author == self.author && r.from == self.from,
    {
        let mut paths = self.paths;
        let ghost start = paths@;
        let mut i: usize = 0;
        while i < more.len()
            invariant
                0 <= i <= more@.len(),
                paths@.len() == start.len() + i,
                paths@.subrange(0, start.len() as int) == start,
                forall|j: int| 0 <= j < i ==> paths@[start.len() + j]@ == more@[j]@,
            decreases more@.len() - i,
        {
            paths.push(owned(more[i]));
            assert(paths@.subrange(0, start.len() as int) =~= start);
            i = i + 1;
        }
        LogOptions { paths, ..self }
    }

    /// Stops after this many commits.
    pub fn max_count(self, n: usize) -> (r: LogOptions)
        ensures
            r.max_count == Some(n) && r.paths == self.paths && r.since == self.since && r.until == self.until
                && r.first_parent == self.first_parent && r.author == self.author && r.from == self.from,
    {
        LogOptions { max_count: Some(n), ..self }
    }

    /// Keeps commits authored at or after a date.
    pub fn since(self, date: &str) -> (r: LogOptions)
        ensures
            r.since == Some(date_value(bytes_of(date@))) && r.paths == self.paths && r.max_count == self.max_count
                && r.until == self.until && r.first_parent == self.first_parent && r.author == self.author && r.from == self.from,
    {
        LogOptions { since: Some(parse_date(date)), ..self }
    }

    /// Keeps commits authored at or before a date.
    pub fn until(self, date: &str) -> (r: LogOptions)
        ensures
            r.until == Some(date_value(bytes_of(date@))) && r.paths == self.paths && r.max_count == self.max_count
                && r.since == self.since && r.first_parent == self.first_parent && r.author == self.author && r.from == self.from,
    {
        LogOptions { until: Some(parse_date(date)), ..self }
    }

    /// Keeps commits authored at or after a Unix time.
    pub fn since_timestamp(self, timestamp: i64) -> (r: LogOptions)
        ensures
            r.since == Some(timestamp) && r.paths == self.paths && r.max_count == self.max_count
                && r.until == self.until && r.first_parent == self.first_parent && r.author == self.author && r.from == self.from,
    {
        LogOptions { since: Some(timestamp), ..self }
    }

    /// Keeps commits authored at or before a Unix time.
    pub fn until_timestamp(self, timestamp: i64) -> (r: LogOptions)
        ensures
            r.until == Some(timestamp) && r.paths == self.paths && r.max_count == self.max_count
                && r.since == self.since && r.first_parent == self.first_parent && r.author == self.author && r.from == self.from,
    {
        LogOptions { until: Some(timestamp), ..self }
    }

    /// Follows only first parents.
    pub fn first_parent(self, enabled: bool) -> (r: LogOptions)
        ensures
            r.first_parent == enabled && r.paths == self.paths && r.max_count == self.max_count
                && r.since == self.since && r.until == self.until && r.author == self.author && r.from == self.from,
    {
        LogOptions { first_parent: enabled, ..self }
    }

    /// Keeps commits whose author name contains the text.
    pub fn author(self, name: &str) -> (r: LogOptions)
        ensures
            r.author is Some && r.author->Some_0@ == name@ && r.paths == self.paths && r.max_count == self.max_count
                && r.since == self.since && r.until == self.until && r.first_parent == self.first_parent && r.from == self.from,
    {
        LogOptions { author: Some(owned(name)), ..self }
    }

    /// Starts from this commit instead of HEAD.
    pub fn from(self, oid: Oid) -> (r: LogOptions)
        ensures
            r.from == Some(oid) && r.paths == self.paths && r.max_count == self.max_count
                && r.since == self.since && r.until == self.until && r.first_parent == self.first_parent && r.author == self.author,
    {
        LogOptions { from: Some(oid), ..self }
    }

    /// Whether a path filter is set.
    pub fn has_path_filter(&self) -> (r: bool)
        ensures
            r == (self.paths@.len() > 0),
    {
        self.paths.len() > 0
    }

    /// The path filter.
    pub fn get_paths(&self) -> (r: &[String])
        ensures
            r@ == self.paths@,
    {
        self.paths.as_slice()
    }

    /// The starting commit, if set.
    pub fn get_from(&self) -> (r: Option<&Oid>)
        ensures
            r is Some <==> self.from is Some,
            r is Some ==> *r->Some_0 == self.from->Some_0,
    {
        match &self.from {
            Some(o) => Some(o),
            None => None,
        }
    }
}

} // verus!

verus! {

/// Whether `n` occurs in `h` as a contiguous run.
pub open spec fn contains_run(h: Seq<u8>, n: Seq<u8>) -> bool {
    exists|i: int| 0 <= i <= h.len() - n.len() && #[trigger] h.subrange(i, i + n.len()) == n
}

/// Whether the bytes of `n` occur in `h`.
pub fn contains_bytes(h: &[u8], n: &[u8]) -> (r: bool)
    ensures
        r == contains_run(h@, n@),
{
    if n.len() > h.len() {
        return false;
    }
    let last = h.len() - n.len();
    let hl = h.len();
    let mut i: usize = 0;
    loop
        invariant
            0 <= i <= last,
            hl == h@.len(),
            n@.len() <= h@.len(),
            last == h@.len() - n@.len(),
            forall|j: int| 0 <= j < i ==> #[trigger] h@.subrange(j, j + n@.len()) != n@,
        decreases last - i,
    {
        if crate::text::range_eq(h, i, i + n.len(), n) {
            return true;
        }
        if i == last {
            return false;
        }
        i = i + 1;
    }
}

/// `o` is a parent of `c` (the first one, when `first_only`).
pub open spec fn is_parent(c: Commit, o: Oid, first_only: bool) -> bool {
    exists|j: int| 0 <= j < c.parents@.len() && c.parents@[j] == o && (first_only ==> j == 0)
}

/// A commit that is waiting to be shown, with its author time.
pub type Pending = (i64, Oid);

/// A history walk in progress: commits waiting (newest author time first),
/// commits already taken, the options and how many were shown.
#[derive(Debug)]
pub struct LogIterator {
    pub pending: Vec<Pending>,
    pub visited: Vec<Oid>,
    pub options: LogOptions,
    pub count: usize,
    pub last: Option<i64>,
}

/// Every waiting commit is no newer than the last one taken.
pub open spec fn monotone(it: LogIterator) -> bool {
    it.last is Some ==> forall|i: int| 0 <= i < it.pending@.len() ==> it.pending@[i].0 <= it.last->Some_0
}

/// Whether an id is among the taken ones.
pub open spec fn was_visited(v: Seq<Oid>, o: Oid) -> bool {
    exists|i: int| 0 <= i < v.len() && v[i] == o
}

fn seen(v: &Vec<Oid>, o: &Oid) -> (r: bool)
    ensures
        r == was_visited(v@, *o),
{
    let mut i: usize = 0;
    while i < v.len()
        invariant
            0 <= i <= v@.len(),
            forall|j: int| 0 <= j < i ==> v@[j] != *o,
        decreases v@.len() - i,
    {
        if v[i] == *o {
            proof {
                crate::objects::oid::lemma_view_eq(v@[i as int], *o);
            }
            return true;
        }
        i = i + 1;
    }
    false
}

impl LogIterator {
    /// A walk from a start commit with the given author time.
    pub fn new(start_oid: Oid, start_time: i64) -> (r: LogIterator)
        ensures
            r.pending@ == seq![(start_time, start_oid)],
            r.visited@.len() == 0,
            r.count == 0,
            r.options.paths@.len() == 0 && r.options.max_count is None && !r.options.first_parent,
            monotone(r),
    {
        LogIterator::with_options(start_oid, start_time, LogOptions::new())
    }

    /// A walk from a start commit with the given author time and options.
    pub fn with_options(start_oid: Oid, start_time: i64, options: LogOptions) -> (r: LogIterator)
        ensures
            r.pending@ == seq![(start_time, start_oid)],
            r.visited@.len() == 0,
            r.count == 0,
            r.options == options,
            r.last is None,
            monotone(r),
    {
        let mut pending: Vec<Pending> = Vec::new();
        pending.push((start_time, start_oid));
        LogIterator { pending, visited: Vec::new(), options, count: 0, last: None }
    }

    /// Takes the next commit to show: the newest waiting one not taken
    /// before; it is then marked as taken. `None` when the count limit is
    /// reached or nothing is left.
    pub fn next_candidate(&mut self) -> (r: Option<Oid>)
        ensures
            final(self).options == old(self).options,
            final(self).count == old(self).count,
            r is Some ==> !was_visited(old(self).visited@, r->Some_0)
                && final(self).visited@ == old(self).visited@.push(r->Some_0),
            r is None ==> final(self).visited@ == old(self).visited@,
            r is Some ==> final(self).last is Some && forall|i: int| 0 <= i < final(self).pending@.len() ==> final(self).pending@[i].0 <= final(self).last->Some_0,
            r is Some && monotone(*old(self)) && old(self).last is Some ==> final(self).last->Some_0 <= old(self).last->Some_0,
            monotone(*old(self)) ==> monotone(*final(self)),
            old(self).options.max_count is Some && old(self).count >= old(self).options.max_count->Some_0 ==> r is None,
            r is None && !(old(self).options.max_count is Some && old(self).count >= old(self).options.max_count->Some_0) ==> final(self).pending@.len() == 0,
            r is None && !(old(self).options.max_count is Some && old(self).count >= old(self).options.max_count->Some_0)
                ==> forall|i: int| 0 <= i < old(self).pending@.len() ==> was_visited(old(self).visited@, #[trigger] old(self).pending@[i].1),
            r is Some ==> old(self).pending@.contains((final(self).last->Some_0, r->Some_0)),
            r is Some ==> forall|i: int| 0 <= i < old(self).pending@.len() && !was_visited(old(self).visited@, #[trigger] old(self).pending@[i].1)
                ==> old(self).pending@[i].0 <= final(self).last->Some_0,
    {
        let ghost orig = self.pending@;
        let ghost vis = self.visited@;
        if let Some(max) = self.options.max_count {
            if self.count >= max {
                return None;
            }
        }
        while self.pending.len() > 0
            invariant
                self.options == old(self).options,
                self.count == old(self).count,
                self.visited@ == old(self).visited@,
                self.last == old(self).last,
                monotone(*old(self)) ==> monotone(*self),
                !(old(self).options.max_count is Some && old(self).count >= old(self).options.max_count->Some_0),
                orig == old(self).pending@,
                vis == old(self).visited@,
                forall|x: int| 0 <= x < self.pending@.len() ==> orig.contains(#[trigger] self.pending@[x]),
                forall|i: int| 0 <= i < orig.len() ==> self.pending@.contains(#[trigger] orig[i]) || was_visited(vis, orig[i].1),
            decreases self.pending@.len(),
        {
            let mut best: usize = 0;
            let mut k: usize = 1;
            while k < self.pending.len()
                invariant
                    0 <= best < self.pending@.len(),
                    1 <= k <= self.pending@.len(),
                    forall|j: int| 0 <= j < k ==> self.pending@[j].0 <= self.pending@[best as int].0,
                decreases self.pending@.len() - k,
            {
                if self.pending[k].0 > self.pending[best].0 {
                    best = k;
                }
                k = k + 1;
            }
            let ghost before = self.pending@;
            let (ts, oid) = self.pending.remove(best);
            assert(before[best as int] == (ts, oid));
            assert(orig.contains(before[best as int]));
            let is_seen = seen(&self.visited, &oid);
            proof {
                assert forall|x: int| 0 <= x < self.pending@.len() implies orig.contains(#[trigger] self.pending@[x]) by {
                    if x < best {
                        assert(self.pending@[x] == before[x]);
                    } else {
                        assert(self.pending@[x] == before[x + 1]);
                    }
                }
                if is_seen {
                    assert forall|i: int| 0 <= i < orig.len() implies self.pending@.contains(#[trigger] orig[i]) || was_visited(vis, orig[i].1) by {
                        if !was_visited(vis, orig[i].1) {
                            assert(before.contains(orig[i]));
                            let w = choose|w: int| 0 <= w < before.len() && before[w] == orig[i];
                            assert(w != best);
                            if w < best {
                                assert(self.pending@[w] == before[w]);
                            } else {
                                assert(self.pending@[w - 1] == before[w]);
                            }
                        }
                    }
                } else {
                    assert forall|i: int| 0 <= i < orig.len() && !was_visited(vis, #[trigger] orig[i].1) implies orig[i].0 <= ts by {
                        assert(before.contains(orig[i]));
                        let w = choose|w: int| 0 <= w < before.len() && before[w] == orig[i];
                    }
                }
                assert forall|i: int| 0 <= i < self.pending@.len() implies self.pending@[i].0 <= ts by {
                    if i < best {
                        assert(self.pending@[i] == before[i]);
                    } else {
                        assert(self.pending@[i] == before[i + 1]);
                    }
                }
                if monotone(*old(self)) && self.last is Some {
                    assert(before[best as int].0 <= self.last->Some_0);
                    assert forall|i: int| 0 <= i < self.pending@.len() implies self.pending@[i].0 <= self.last->Some_0 by {
                        if i < best {
                            assert(self.pending@[i] == before[i]);
                        } else {
                            assert(self.pending@[i] == before[i + 1]);
                        }
                    }
                }
            }
            if !is_seen {
                self.visited.push(oid);
                self.last = Some(ts);
                return Some(oid);
            }
        }
        None
    }

    /// The parents that still have to be read and queued: the first one
    /// only in first-parent mode, else all; those taken already are left out.
    pub fn parents_to_read(&self, commit: &Commit) -> (r: Vec<Oid>)
        ensures
            forall|i: int| 0 <= i < r@.len() ==> !was_visited(self.visited@, r@[i]),
            forall|i: int| 0 <= i < r@.len() ==> is_parent(*commit, #[trigger] r@[i], self.options.first_parent),
            forall|j: int| #![trigger commit.parents@[j]] 0 <= j < commit.parents@.len() && (!self.options.first_parent || j == 0) && !was_visited(self.visited@, commit.parents@[j])
                ==> exists|i: int| #![trigger r@[i]] 0 <= i < r@.len() && r@[i] == commit.parents@[j],
    {
        let n = if self.options.first_parent && commit.parents.len() > 0 { 1 } else { commit.parents.len() };
        let mut out: Vec<Oid> = Vec::new();
        let mut j: usize = 0;
        while j < n
            invariant
                0 <= j <= n,
                n <= commit.parents@.len(),
                self.options.first_parent ==> n <= 1,
                forall|i: int| 0 <= i < out@.len() ==> !was_visited(self.visited@, out@[i]),
                forall|i: int| 0 <= i < out@.len() ==> is_parent(*commit, #[trigger] out@[i], self.options.first_parent),
                forall|x: int| #![trigger commit.parents@[x]] 0 <= x < j && !was_visited(self.visited@, commit.parents@[x])
                    ==> exists|i: int| #![trigger out@[i]] 0 <= i < out@.len() && out@[i] == commit.parents@[x],
            decreases n - j,
        {
            let p = commit.parents[j];
            let ghost old_out = out@;
            if !seen(&self.visited, &p) {
                out.push(p);
                proof {
                    assert(out@[out@.len() - 1] == commit.parents@[j as int]);
                }
            }
            proof {
                assert forall|i: int| 0 <= i < out@.len() implies is_parent(*commit, #[trigger] out@[i], self.options.first_parent) by {
                    if i < old_out.len() {
                        assert(out@[i] == old_out[i]);
                    } else {
                        assert(commit.parents@[j as int] == out@[i]);
                    }
                }
                assert forall|x: int| #![trigger commit.parents@[x]] 0 <= x < j + 1 && !was_visited(self.visited@, commit.parents@[x])
                    implies exists|i: int| #![trigger out@[i]] 0 <= i < out@.len() && out@[i] == commit.parents@[x] by {
                    if x < j {
                        let i = choose|i: int| #![trigger old_out[i]] 0 <= i < old_out.len() && old_out[i] == commit.parents@[x];
                        assert(out@[i] == old_out[i]);
                    } else {
                        assert(out@[out@.len() - 1] == commit.parents@[j as int]);
                    }
                }
            }
            j = j + 1;
        }
        out
    }

    /// Queues a commit with its author time.
    pub fn push(&mut self, oid: Oid, time: i64)
        ensures
            final(self).pending@ == old(self).pending@.push((time, oid)),
            final(self).visited@ == old(self).visited@,
            final(self).options == old(self).options,
            final(self).count == old(self).count,
            final(self).last == old(self).last,
            monotone(*old(self)) && (old(self).last is Some ==> time <= old(self).last->Some_0) ==> monotone(*final(self)),
    {
        self.pending.push((time, oid));
    }

    /// Whether a commit passes the time and author filters; `touches_paths`
    /// says whether it changes one of the filtered paths (ignored without a
    /// path filter).
    pub fn passes_filters(&self, commit: &Commit, touches_paths: bool) -> (r: bool)
        ensures
            r == ((self.options.since is None || commit.author.timestamp >= self.options.since->Some_0)
                && (self.options.until is None || commit.author.timestamp <= self.options.until->Some_0)
                && (self.options.author is None || contains_run(bytes_of(commit.author.name@), bytes_of(self.options.author->Some_0@)))
                && (self.options.paths@.len() == 0 || touches_paths)),
    {
        let t = commit.author.timestamp;
        if let Some(since) = self.options.since {
            if t < since {
                return false;
            }
        }
        if let Some(until) = self.options.until {
            if t > until {
                return false;
            }
        }
        if let Some(a) = &self.options.author {
            if !contains_bytes(str_bytes(commit.author.name.as_str()), str_bytes(a.as_str())) {
                return false;
            }
        }
        if self.options.paths.len() > 0 && !touches_paths {
            return false;
        }
        true
    }

    /// Counts a commit as shown.
    pub fn record_shown(&mut self)
        ensures
            final(self).count == if old(self).count < usize::MAX { old(self).count + 1 } else { old(self).count as int },
            final(self).pending == old(self).pending,
            final(self).visited == old(self).visited,
            final(self).options == old(self).options,
            final(self).last == old(self).last,
    {
        if self.count < usize::MAX {
            self.count = self.count + 1;
        }
    }
}

} // verus!

verus! {

use crate::diff::{flat_v, flats_v, FlatEntry, FlatV};
use crate::objects::tree::FileMode;

/// A path filter without its trailing slashes.
pub open spec fn strip_slashes(p: Seq<u8>) -> Seq<u8>
    decreases p.len(),
{
    if p.len() > 0 && p.last() == 47u8 {
        strip_slashes(p.drop_last())
    } else {
        p
    }
}

/// Whether `path` is `pfx` or lies below it.
pub open spec fn below(path: Seq<u8>, pfx: Seq<u8>) -> bool {
    path == pfx || (path.len() > pfx.len() && path.subrange(0, pfx.len() as int) == pfx && path[pfx.len() as int] == 47u8)
}

/// The files of a listing at or below a prefix, with their blobs and
/// modes, in order.
pub open spec fn files_below(es: Seq<FlatV>, pfx: Seq<u8>) -> Seq<FlatV>
    decreases es.len(),
{
    if es.len() == 0 {
        Seq::empty()
    } else {
        files_below(es.drop_last(), pfx) + if below(es.last().0, pfx) {
            seq![es.last()]
        } else {
            Seq::empty()
        }
    }
}

/// A commit touches a filtered path when, at or below one of the
/// prefixes, its tree's files (paths, blobs or modes) differ from its
/// first parent's.
pub open spec fn touches(cur: Seq<FlatV>, par: Seq<FlatV>, paths: Seq<Seq<u8>>) -> bool {
    exists|i: int| 0 <= i < paths.len() && files_below(cur, strip_slashes(#[trigger] paths[i])) != files_below(par, strip_slashes(paths[i]))
}

fn strip_end(p: &[u8]) -> (r: usize)
    ensures
        r <= p@.len(),
        p@.subrange(0, r as int) == strip_slashes(p@),
{
    let mut e = p.len();
    assert(p@.subrange(0, e as int) =~= p@);
    while e > 0 && p[e - 1] == 47u8
        invariant
            e <= p@.len(),
            strip_slashes(p@) == strip_slashes(p@.subrange(0, e as int)),
        decreases e,
    {
        assert(p@.subrange(0, e as int).drop_last() =~= p@.subrange(0, e - 1));
        e = e - 1;
    }
    e
}

fn is_below(path: &[u8], pfx: &[u8], n: usize) -> (r: bool)
    requires
        n <= pfx@.len(),
    ensures
        r == below(path@, pfx@.subrange(0, n as int)),
{
    let ghost q = pfx@.subrange(0, n as int);
    if path.len() < n {
        return false;
    }
    let same = prefix_eq(path, pfx, n);
    assert(pfx@.subrange(0, n as int).subrange(0, n as int) =~= q);
    if path.len() == n {
        assert(path@.subrange(0, n as int) =~= path@);
        return same;
    }
    same && path[n] == 47u8
}

fn prefix_eq(a: &[u8], b: &[u8], n: usize) -> (r: bool)
    requires
        n <= a@.len(),
        n <= b@.len(),
    ensures
        r == (a@.subrange(0, n as int) == b@.subrange(0, n as int)),
{
    let mut k: usize = 0;
    while k < n
        invariant
            0 <= k <= n,
            n <= a@.len(),
            n <= b@.len(),
            forall|j: int| 0 <= j < k ==> a@[j] == b@[j],
        decreases n - k,
    {
        if a[k] != b[k] {
            assert(a@.subrange(0, n as int)[k as int] != b@.subrange(0, n as int)[k as int]);
            return false;
        }
        k = k + 1;
    }
    assert(a@.subrange(0, n as int) =~= b@.subrange(0, n as int));
    true
}


/// Files as (path bytes, blob bytes, mode).
pub open spec fn pairs_v(v: Seq<(Vec<u8>, Oid, FileMode)>) -> Seq<FlatV> {
    v.map_values(|x: (Vec<u8>, Oid, FileMode)| (x.0@, x.1@, x.2))
}

fn collect_below(es: &[FlatEntry], pfx: &[u8], n: usize) -> (r: Vec<(Vec<u8>, Oid, FileMode)>)
    requires
        n <= pfx@.len(),
    ensures
        pairs_v(r@) == files_below(flats_v(es@), pfx@.subrange(0, n as int)),
{
    let ghost q = pfx@.subrange(0, n as int);
    let mut out: Vec<(Vec<u8>, Oid, FileMode)> = Vec::new();
    let mut i: usize = 0;
    assert(flats_v(es@).subrange(0, 0) =~= Seq::<FlatV>::empty());
    while i < es.len()
        invariant
            0 <= i <= es@.len(),
            n <= pfx@.len(),
            q == pfx@.subrange(0, n as int),
            pairs_v(out@) == files_below(flats_v(es@).subrange(0, i as int), q),
        decreases es@.len() - i,
    {
        let ghost sub = flats_v(es@).subrange(0, i + 1);
        assert(sub.drop_last() =~= flats_v(es@).subrange(0, i as int));
        let ghost before = pairs_v(out@);
        let p = str_bytes(es[i].path.as_str());
        if is_below(p, pfx, n) {
            let v = crate::text::copy_range(p, 0, p.len());
            assert(p@.subrange(0, p@.len() as int) =~= p@);
            out.push((v, es[i].oid, es[i].mode));
            assert(pairs_v(out@) =~= before + seq![sub.last()]);
        } else {
            assert(before + Seq::<FlatV>::empty() =~= before);
        }
        i = i + 1;
    }
    assert(flats_v(es@).subrange(0, es@.len() as int) =~= flats_v(es@));
    out
}

fn same_files(a: &Vec<(Vec<u8>, Oid, FileMode)>, b: &Vec<(Vec<u8>, Oid, FileMode)>) -> (r: bool)
    ensures
        r == (pairs_v(a@) == pairs_v(b@)),
{
    if a.len() != b.len() {
        assert(pairs_v(a@).len() != pairs_v(b@).len());
        return false;
    }
    let mut k: usize = 0;
    while k < a.len()
        invariant
            0 <= k <= a@.len(),
            a@.len() == b@.len(),
            forall|j: int| 0 <= j < k ==> pairs_v(a@)[j] == pairs_v(b@)[j],
        decreases a@.len() - k,
    {
        let x = &a[k];
        let y = &b[k];
        let same_path = x.0.len() == y.0.len() && crate::text::range_eq(x.0.as_slice(), 0, x.0.len(), y.0.as_slice());
        proof {
            assert(x.0@.subrange(0, x.0@.len() as int) =~= x.0@);
        }
        if !same_path || x.1 != y.1 || x.2 != y.2 {
            assert(pairs_v(a@)[k as int] != pairs_v(b@)[k as int]);
            return false;
        }
        k = k + 1;
    }
    assert(pairs_v(a@) =~= pairs_v(b@));
    true
}

/// Whether a commit changes a filtered path: its files (`current`) differ
/// from its first parent's (`parent`, empty for a root commit) at or below
/// one of the path prefixes.
pub fn touches_paths(current: &[FlatEntry], parent: &[FlatEntry], paths: &[String]) -> (r: bool)
    ensures
        r == touches(flats_v(current@), flats_v(parent@), paths@.map_values(|p: String| bytes_of(p@))),
{
    let ghost ps = paths@.map_values(|p: String| bytes_of(p@));
    let mut i: usize = 0;
    while i < paths.len()
        invariant
            0 <= i <= paths@.len(),
            ps == paths@.map_values(|p: String| bytes_of(p@)),
            forall|j: int| 0 <= j < i ==> files_below(flats_v(current@), strip_slashes(#[trigger] ps[j]))
                == files_below(flats_v(parent@), strip_slashes(ps[j])),
        decreases paths@.len() - i,
    {
        let pb = str_bytes(paths[i].as_str());
        let n = strip_end(pb);
        let a = collect_below(current, pb, n);
        let b = collect_below(parent, pb, n);
        assert(ps[i as int] == pb@);
        if !same_files(&a, &b) {
            return true;
        }
        i = i + 1;
    }
    false
}

} // verus!
