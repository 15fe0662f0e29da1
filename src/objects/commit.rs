//! Commits and the signatures they carry.

use vstd::prelude::*;
use vstd::utf8::*;

use crate::error::Error;
use crate::objects::oid::{bytes_of_hex, is_hex, Oid};
use crate::objects::store::{ObjectType, RawObject};
use crate::text::{
    all_digits, bytes_of, copy_range, digits_value, find_from, lemma_ascii_chars_bytes,
    lemma_find_from, lemma_ws_bounds, owned, parse_digits_u64, position_from, range_eq, skip_ws,
    skip_whitespace, str_bytes, token_end, token_end_at, trim_range, trimmed, utf8_string,
};

verus! {

/// A signature as values: name bytes, email bytes, Unix seconds, offset in minutes.
pub type SigV = (Seq<u8>, Seq<u8>, i64, i32);

/// The value of a `±HHMM` time-zone field, in signed minutes.
pub open spec fn tz_value(t: Seq<u8>) -> Option<i32> {
    if t.len() != 5 || !(t[0] == 43u8 || t[0] == 45u8) || !all_digits(t.subrange(1, 5)) {
        None
    } else {
        let v = digits_value(t.subrange(1, 3)) * 60 + digits_value(t.subrange(3, 5));
        Some(if t[0] == 43u8 { v as i32 } else { -v as i32 })
    }
}

/// The value of a decimal integer with an optional sign, when it fits in `i64`.
pub open spec fn i64_value(t: Seq<u8>) -> Option<i64> {
    if t.len() > 0 && t[0] == 45u8 {
        let d = t.subrange(1, t.len() as int);
        if d.len() > 0 && all_digits(d) && digits_value(d) <= 0x8000_0000_0000_0000 {
            Some((-(digits_value(d) as int)) as i64)
        } else {
            None
        }
    } else {
        let d = if t.len() > 0 && t[0] == 43u8 {
            t.subrange(1, t.len() as int)
        } else {
            t
        };
        if d.len() > 0 && all_digits(d) && digits_value(d) <= 0x7fff_ffff_ffff_ffff {
            Some(digits_value(d) as i64)
        } else {
            None
        }
    }
}

/// A signature field `Name <email> <unix-seconds> <±HHMM>`.
pub open spec fn parse_sig(s: Seq<u8>) -> Option<SigV> {
    let lt = find_from(s, 60, 0);
    let gt = find_from(s, 62, 0);
    if lt < 0 || gt < 0 || lt >= gt {
        None
    } else {
        let name = trimmed(s.subrange(0, lt));
        let email = s.subrange(lt + 1, gt);
        let rest = s.subrange(gt + 1, s.len() as int);
        let a1 = skip_ws(rest, 0);
        let e1 = token_end(rest, a1);
        let a2 = skip_ws(rest, e1);
        let e2 = token_end(rest, a2);
        if a1 >= rest.len() || a2 >= rest.len() {
            None
        } else {
            let ts = i64_value(rest.subrange(a1, e1));
            let tz = tz_value(rest.subrange(a2, e2));
            if ts is None || tz is None || !valid_utf8(name) || !valid_utf8(email) {
                None
            } else {
                Some((name, email, ts->0, tz->0))
            }
        }
    }
}

/// Who made a change, and when.
#[derive(Debug, Clone, PartialEq, Eq)]
pub struct Signature {
    pub name: String,
    pub email: String,
    pub timestamp: i64,
    pub tz_offset: i32,
}

/// The value of a signature.
pub open spec fn sig_v(s: Signature) -> SigV {
    (bytes_of(s.name@), bytes_of(s.email@), s.timestamp, s.tz_offset)
}

/// Parses the sign-and-digits integer of `s[from..to]`.
pub fn parse_i64(s: &[u8], from: usize, to: usize) -> (r: Option<i64>)
    requires
        from <= to <= s@.len(),
    ensures
        r == i64_value(s@.subrange(from as int, to as int)),
{
    let ghost t = s@.subrange(from as int, to as int);
    if to > from && s[from] == 45u8 {
        assert(t.subrange(1, t.len() as int) =~= s@.subrange(from + 1, to as int));
        match parse_digits_u64(s, from + 1, to) {
            Some(v) => {
                if v > 0x8000_0000_0000_0000u64 {
                    None
                } else if v == 0x8000_0000_0000_0000u64 {
                    Some(i64::MIN)
                } else {
                    Some(-(v as i64))
                }
            },
            None => None,
        }
    } else {
        let start = if to > from && s[from] == 43u8 {
            from + 1
        } else {
            from
        };
        assert(s@.subrange(start as int, to as int) =~= if t.len() > 0 && t[0] == 43u8 {
            t.subrange(1, t.len() as int)
        } else {
            t
        });
        match parse_digits_u64(s, start, to) {
            Some(v) => {
                if v > 0x7fff_ffff_ffff_ffffu64 {
                    None
                } else {
                    Some(v as i64)
                }
            },
            None => None,
        }
    }
}

/// Parses a `±HHMM` field of `s[from..to]` into signed minutes.
pub fn parse_tz(s: &[u8], from: usize, to: usize) -> (r: Option<i32>)
    requires
        from <= to <= s@.len(),
    ensures
        r == tz_value(s@.subrange(from as int, to as int)),
{
    let ghost t = s@.subrange(from as int, to as int);
    if to - from != 5 {
        return None;
    }
    let sign = s[from];
    if sign != 43u8 && sign != 45u8 {
        return None;
    }
    assert(t.subrange(1, 5) =~= s@.subrange(from + 1, from + 5));
    assert(t.subrange(1, 3) =~= s@.subrange(from + 1, from + 3));
    assert(t.subrange(3, 5) =~= s@.subrange(from + 3, from + 5));
    let hours = parse_digits_u64(s, from + 1, from + 3);
    let minutes = parse_digits_u64(s, from + 3, from + 5);
    proof {
        let d = s@.subrange(from + 1, from + 5);
        let hh = s@.subrange(from + 1, from + 3);
        let mm = s@.subrange(from + 3, from + 5);
        lemma_two_digits(hh);
        lemma_two_digits(mm);
        if hours is Some && minutes is Some {
            assert forall|i: int| 0 <= i < 4 implies 48 <= #[trigger] d[i] <= 57 by {
                if i < 2 {
                    assert(d[i] == hh[i]);
                } else {
                    assert(d[i] == mm[i - 2]);
                }
            }
        }
        if all_digits(d) {
            assert forall|i: int| 0 <= i < 2 implies 48 <= #[trigger] hh[i] <= 57 by {
                assert(hh[i] == d[i]);
            }
            assert forall|i: int| 0 <= i < 2 implies 48 <= #[trigger] mm[i] <= 57 by {
                assert(mm[i] == d[i + 2]);
            }
        }
    }
    match (hours, minutes) {
        (Some(h), Some(m)) => {
            let v = (h * 60 + m) as i32;
            if sign == 43u8 {
                Some(v)
            } else {
                Some(-v)
            }
        },
        _ => None,
    }
}

/// Two digits are worth at most 99.
proof fn lemma_two_digits(d: Seq<u8>)
    requires
        d.len() == 2,
    ensures
        all_digits(d) ==> digits_value(d) <= 99,
{
    if all_digits(d) {
        let d1 = d.drop_last();
        assert(d1.drop_last() =~= Seq::<u8>::empty());
        assert(48 <= d[0] <= 57 && 48 <= d[1] <= 57);
        assert(d1.last() == d[0]);
        assert(digits_value(d1) == digits_value(d1.drop_last()) * 10 + (d1.last() - 48) as nat);
        assert(digits_value(d) == digits_value(d1) * 10 + (d.last() - 48) as nat);
    }
}

impl Signature {
    /// A signature from its four parts.
    pub fn new(name: &str, email: &str, timestamp: i64, tz_offset: i32) -> (r: Signature)
        ensures
            r.name@ == name@,
            r.email@ == email@,
            r.timestamp == timestamp,
            r.tz_offset == tz_offset,
    {
        Signature { name: owned(name), email: owned(email), timestamp, tz_offset }
    }

    /// The name.
    pub fn name(&self) -> (r: &str)
        ensures
            r@ == self.name@,
    {
        self.name.as_str()
    }

    /// The email address, without the angle brackets.
    pub fn email(&self) -> (r: &str)
        ensures
            r@ == self.email@,
    {
        self.email.as_str()
    }

    /// Seconds since the Unix epoch.
    pub fn timestamp(&self) -> (r: i64)
        ensures
            r == self.timestamp,
    {
        self.timestamp
    }

    /// Offset from UTC in minutes.
    pub fn tz_offset(&self) -> (r: i32)
        ensures
            r == self.tz_offset,
    {
        self.tz_offset
    }

    /// Parses a signature field `Name <email> <unix-seconds> <±HHMM>`.
    pub fn parse(s: &str) -> (r: Result<Signature, Error>)
        ensures
            r is Ok <==> parse_sig(bytes_of(s@)) is Some,
            r is Ok ==> sig_v(r->Ok_0) == parse_sig(bytes_of(s@))->0,
            r is Err ==> r->Err_0 is InvalidUtf8,
    {
        let b = str_bytes(s);
        assert(b@.subrange(0, b@.len() as int) =~= b@);
        Signature::parse_range(b, 0, b.len())
    }

    /// Parses the signature field held in `s[from..to]`.
    pub fn parse_range(s: &[u8], from: usize, to: usize) -> (r: Result<Signature, Error>)
        requires
            from <= to <= s@.len(),
        ensures
            r is Ok <==> parse_sig(s@.subrange(from as int, to as int)) is Some,
            r is Ok ==> sig_v(r->Ok_0) == parse_sig(s@.subrange(from as int, to as int))->0,
            r is Err ==> r->Err_0 is InvalidUtf8,
    {
        let field = copy_range(s, from, to);
        let f = field.as_slice();
        let ghost fs = f@;
        let lt = match position_from(f, 0, 60) {
            Some(i) => i,
            None => { return Err(Error::InvalidUtf8); },
        };
        let gt = match position_from(f, 0, 62) {
            Some(i) => i,
            None => { return Err(Error::InvalidUtf8); },
        };
        proof {
            lemma_find_from(fs, 60, 0);
            lemma_find_from(fs, 62, 0);
        }
        if lt >= gt {
            return Err(Error::InvalidUtf8);
        }
        let (na, nb) = trim_range(f, 0, lt);
        let name_bytes = if na < nb { copy_range(f, na, nb) } else { Vec::new() };
        assert(name_bytes@ =~= trimmed(fs.subrange(0, lt as int)));
        let email_bytes = copy_range(f, lt + 1, gt);
        let rest = copy_range(f, gt + 1, f.len());
        let r = rest.as_slice();
        let a1 = skip_whitespace(r, 0);
        proof {
            lemma_ws_bounds(r@, 0);
        }
        let e1 = token_end_at(r, a1);
        proof {
            lemma_ws_bounds(r@, a1 as int);
        }
        let a2 = skip_whitespace(r, e1);
        proof {
            lemma_ws_bounds(r@, e1 as int);
        }
        let e2 = token_end_at(r, a2);
        proof {
            lemma_ws_bounds(r@, a2 as int);
        }
        if a1 >= r.len() || a2 >= r.len() {
            return Err(Error::InvalidUtf8);
        }
        let ts = parse_i64(r, a1, e1);
        let tz = parse_tz(r, a2, e2);
        match (ts, tz) {
            (Some(timestamp), Some(tz_offset)) => {
                let name = match utf8_string(name_bytes) {
                    Some(n) => n,
                    None => { return Err(Error::InvalidUtf8); },
                };
                let email = match utf8_string(email_bytes) {
                    Some(e) => e,
                    None => { return Err(Error::InvalidUtf8); },
                };
                Ok(Signature { name, email, timestamp, tz_offset })
            },
            _ => Err(Error::InvalidUtf8),
        }
    }
}

/// Parses a `±HHMM` time-zone field into signed minutes.
pub fn parse_timezone(s: &str) -> (r: Result<i32, Error>)
    ensures
        r is Ok <==> tz_value(bytes_of(s@)) is Some,
        r is Ok ==> r->Ok_0 == tz_value(bytes_of(s@))->0,
        r is Err ==> r->Err_0 is InvalidUtf8,
{
    let b = str_bytes(s);
    assert(b@.subrange(0, b@.len() as int) =~= b@);
    match parse_tz(b, 0, b.len()) {
        Some(v) => Ok(v),
        None => Err(Error::InvalidUtf8),
    }
}

} // verus!

verus! {

/// The state of reading a commit body: tree, parents, author, committer,
/// message so far, and whether the headers are over.
pub type CommitScanV = (Option<Seq<u8>>, Seq<Seq<u8>>, Option<SigV>, Option<SigV>, Seq<u8>, bool);

/// Whether `line` begins with `key`.
pub open spec fn starts_with(line: Seq<u8>, key: Seq<u8>) -> bool {
    line.len() >= key.len() && line.subrange(0, key.len() as int) == key
}

/// The header keys, as bytes.
pub open spec fn key_tree() -> Seq<u8> {
    seq![116u8, 114, 101, 101, 32]
}

pub open spec fn key_parent() -> Seq<u8> {
    seq![112u8, 97, 114, 101, 110, 116, 32]
}

pub open spec fn key_author() -> Seq<u8> {
    seq![97u8, 117, 116, 104, 111, 114, 32]
}

pub open spec fn key_committer() -> Seq<u8> {
    seq![99u8, 111, 109, 109, 105, 116, 116, 101, 114, 32]
}

/// The identifier written by a 40-digit header value.
pub open spec fn hex_oid(v: Seq<u8>) -> Option<Seq<u8>> {
    if v.len() == 40 && is_hex(v) {
        Some(bytes_of_hex(v))
    } else {
        None
    }
}

/// A message line appended to the message so far.
pub open spec fn add_message_line(msg: Seq<u8>, line: Seq<u8>) -> Seq<u8> {
    if msg.len() == 0 {
        line
    } else {
        msg + seq![10u8] + line
    }
}

/// What one line of a commit body does to the reading state; `None` when a
/// known header holds a malformed value.
pub open spec fn commit_step(st: CommitScanV, line: Seq<u8>) -> Option<CommitScanV> {
    if st.5 {
        Some((st.0, st.1, st.2, st.3, add_message_line(st.4, line), true))
    } else if line.len() == 0 {
        Some((st.0, st.1, st.2, st.3, st.4, true))
    } else if starts_with(line, key_tree()) {
        match hex_oid(line.subrange(5, line.len() as int)) {
            Some(o) => Some((Some(o), st.1, st.2, st.3, st.4, false)),
            None => None,
        }
    } else if starts_with(line, key_parent()) {
        match hex_oid(line.subrange(7, line.len() as int)) {
            Some(o) => Some((st.0, st.1.push(o), st.2, st.3, st.4, false)),
            None => None,
        }
    } else if starts_with(line, key_author()) {
        match parse_sig(line.subrange(7, line.len() as int)) {
            Some(s) => Some((st.0, st.1, Some(s), st.3, st.4, false)),
            None => None,
        }
    } else if starts_with(line, key_committer()) {
        match parse_sig(line.subrange(10, line.len() as int)) {
            Some(s) => Some((st.0, st.1, st.2, Some(s), st.4, false)),
            None => None,
        }
    } else {
        Some(st)
    }
}

/// A line without the carriage return of a CRLF ending.
pub open spec fn strip_cr(l: Seq<u8>) -> Seq<u8> {
    if l.len() > 0 && l.last() == 13u8 {
        l.drop_last()
    } else {
        l
    }
}

/// Reads the lines of `c` from position `i`, where `cur` is the part of the
/// current line already passed. Lines end at `\n` (a `\r` before it is
/// dropped); a last line without `\n` counts when it is not empty.
pub open spec fn commit_scan(c: Seq<u8>, i: int, st: CommitScanV, cur: Seq<u8>) -> Option<
    CommitScanV,
>
    decreases c.len() - i,
{
    if i >= c.len() {
        if cur.len() == 0 {
            Some(st)
        } else {
            commit_step(st, cur)
        }
    } else if c[i] == 10u8 {
        match commit_step(st, strip_cr(cur)) {
            Some(s2) => commit_scan(c, i + 1, s2, Seq::empty()),
            None => None,
        }
    } else {
        commit_scan(c, i + 1, st, cur.push(c[i]))
    }
}

/// The kind of a malformed header line: 1 for an id line (`tree`,
/// `parent`), 2 for a signature line.
pub open spec fn header_kind(line: Seq<u8>) -> u8 {
    if starts_with(line, key_tree()) || starts_with(line, key_parent()) { 1 } else { 2 }
}

/// Why reading the lines of `c` from `i` fails: the kind of the first
/// malformed header, or 0 when none is.
pub open spec fn commit_scan_fail(c: Seq<u8>, i: int, st: CommitScanV, cur: Seq<u8>) -> u8
    decreases c.len() - i,
{
    if i >= c.len() {
        if cur.len() == 0 || commit_step(st, cur) is Some { 0 } else { header_kind(cur) }
    } else if c[i] == 10u8 {
        match commit_step(st, strip_cr(cur)) {
            Some(s2) => commit_scan_fail(c, i + 1, s2, Seq::empty()),
            None => header_kind(strip_cr(cur)),
        }
    } else {
        commit_scan_fail(c, i + 1, st, cur.push(c[i]))
    }
}

/// The reading state before the first line.
pub open spec fn commit_start() -> CommitScanV {
    (None, Seq::empty(), None, None, Seq::empty(), false)
}

/// A commit's fields as values: tree, parents, author, committer, message.
pub type CommitV = (Seq<u8>, Seq<Seq<u8>>, SigV, SigV, Seq<u8>);

/// The fields of a commit body, when it is well formed.
pub open spec fn parse_commit_body(c: Seq<u8>) -> Option<CommitV> {
    if !valid_utf8(c) {
        None
    } else {
        match commit_scan(c, 0, commit_start(), Seq::empty()) {
            Some(st) => if st.0 is Some && st.2 is Some && st.3 is Some && valid_utf8(st.4) {
                Some((st.0->0, st.1, st.2->0, st.3->0, st.4))
            } else {
                None
            },
            None => None,
        }
    }
}

/// A commit: a tree snapshot, its parents, who made it and why.
#[derive(Debug, Clone)]
pub struct Commit {
    pub oid: Oid,
    pub tree: Oid,
    pub parents: Vec<Oid>,
    pub author: Signature,
    pub committer: Signature,
    pub message: String,
}

/// The identifiers of a list of object ids, as values.
pub open spec fn oids_v(v: Seq<Oid>) -> Seq<Seq<u8>> {
    v.map_values(|o: Oid| o@)
}

/// The fields of a commit as values.
pub open spec fn commit_v(c: Commit) -> CommitV {
    (c.tree@, oids_v(c.parents@), sig_v(c.author), sig_v(c.committer), bytes_of(c.message@))
}

struct CommitScan {
    tree: Option<Oid>,
    parents: Vec<Oid>,
    author: Option<Signature>,
    committer: Option<Signature>,
    message: Vec<u8>,
    in_message: bool,
}

spec fn opt_oid_v(o: Option<Oid>) -> Option<Seq<u8>> {
    match o {
        Some(x) => Some(x@),
        None => None,
    }
}

spec fn opt_sig_v(o: Option<Signature>) -> Option<SigV> {
    match o {
        Some(x) => Some(sig_v(x)),
        None => None,
    }
}

spec fn scan_v(s: CommitScan) -> CommitScanV {
    (opt_oid_v(s.tree), oids_v(s.parents@), opt_sig_v(s.author), opt_sig_v(s.committer), s.message@, s.in_message)
}

fn key_bytes(k: &'static str) -> (r: &'static [u8])
    ensures
        r@ == bytes_of(k@),
{
    k.as_bytes()
}

/// Applies the line `c[from..to]` to the reading state.
fn commit_line(st: &mut CommitScan, c: &[u8], from: usize, to: usize) -> (ok: bool)
    requires
        from <= to <= c@.len(),
    ensures
        ok == (commit_step(scan_v(*old(st)), c@.subrange(from as int, to as int)) is Some),
        ok ==> scan_v(*final(st)) == commit_step(
            scan_v(*old(st)),
            c@.subrange(from as int, to as int),
        )->0,
{
    let ghost line = c@.subrange(from as int, to as int);
    if st.in_message {
        let ghost before = st.message@;
        if st.message.len() > 0 {
            st.message.push(10u8);
        }
        crate::text::append_range(&mut st.message, c, from, to);
        proof {
            if before.len() == 0 {
                assert(st.message@ =~= line);
            }
        }
        return true;
    }
    if from == to {
        st.in_message = true;
        return true;
    }
    let kt = key_bytes("tree ");
    let kp = key_bytes("parent ");
    let ka = key_bytes("author ");
    let kc = key_bytes("committer ");
    proof {
        reveal_strlit("tree ");
        reveal_strlit("parent ");
        reveal_strlit("author ");
        reveal_strlit("committer ");
        lemma_ascii_chars_bytes("tree "@);
        lemma_ascii_chars_bytes("parent "@);
        lemma_ascii_chars_bytes("author "@);
        lemma_ascii_chars_bytes("committer "@);
        assert(kt@ =~= key_tree());
        assert(kp@ =~= key_parent());
        assert(ka@ =~= key_author());
        assert(kc@ =~= key_committer());
    }
    if to - from >= 5 && range_eq(c, from, from + 5, kt) {
        assert(line.subrange(0, 5) =~= c@.subrange(from as int, from + 5));
        assert(line.subrange(5, line.len() as int) =~= c@.subrange(from + 5, to as int));
        match Oid::from_hex_range(c, from + 5, to) {
            Some(o) => {
                st.tree = Some(o);
                true
            },
            None => false,
        }
    } else if to - from >= 7 && range_eq(c, from, from + 7, kp) {
        assert(line.subrange(0, 5) =~= c@.subrange(from as int, from + 5));
        assert(line.subrange(0, 7) =~= c@.subrange(from as int, from + 7));
        assert(line.subrange(7, line.len() as int) =~= c@.subrange(from + 7, to as int));
        match Oid::from_hex_range(c, from + 7, to) {
            Some(o) => {
                st.parents.push(o);
                proof {
                    assert(oids_v(st.parents@) =~= oids_v(old(st).parents@).push(o@));
                }
                true
            },
            None => false,
        }
    } else if to - from >= 7 && range_eq(c, from, from + 7, ka) {
        assert(line.subrange(0, 5) =~= c@.subrange(from as int, from + 5));
        assert(line.subrange(0, 7) =~= c@.subrange(from as int, from + 7));
        assert(line.subrange(7, line.len() as int) =~= c@.subrange(from + 7, to as int));
        match Signature::parse_range(c, from + 7, to) {
            Ok(s) => {
                st.author = Some(s);
                true
            },
            Err(_) => false,
        }
    } else if to - from >= 10 && range_eq(c, from, from + 10, kc) {
        assert(line.subrange(0, 5) =~= c@.subrange(from as int, from + 5));
        assert(line.subrange(0, 7) =~= c@.subrange(from as int, from + 7));
        assert(line.subrange(0, 10) =~= c@.subrange(from as int, from + 10));
        assert(line.subrange(10, line.len() as int) =~= c@.subrange(from + 10, to as int));
        match Signature::parse_range(c, from + 10, to) {
            Ok(s) => {
                st.committer = Some(s);
                true
            },
            Err(_) => false,
        }
    } else {
        proof {
            if line.len() >= 5 {
                assert(line.subrange(0, 5) =~= c@.subrange(from as int, from + 5));
            }
            if line.len() >= 7 {
                assert(line.subrange(0, 7) =~= c@.subrange(from as int, from + 7));
            }
            if line.len() >= 10 {
                assert(line.subrange(0, 10) =~= c@.subrange(from as int, from + 10));
            }
        }
        true
    }
}

/// The error for the malformed header line `c[from..to]`: a bad id is
/// `InvalidOid` with the line, a bad signature `InvalidUtf8`.
fn header_error(c: &[u8], from: usize, to: usize) -> (r: Error)
    requires
        from <= to <= c@.len(),
    ensures
        header_kind(c@.subrange(from as int, to as int)) == 1 ==> r is InvalidOid,
        header_kind(c@.subrange(from as int, to as int)) == 2 ==> r is InvalidUtf8,
{
    let ghost line = c@.subrange(from as int, to as int);
    let kt = key_bytes("tree ");
    let kp = key_bytes("parent ");
    proof {
        reveal_strlit("tree ");
        reveal_strlit("parent ");
        lemma_ascii_chars_bytes("tree "@);
        lemma_ascii_chars_bytes("parent "@);
        assert(kt@ =~= key_tree());
        assert(kp@ =~= key_parent());
        if line.len() >= 5 {
            assert(line.subrange(0, 5) =~= c@.subrange(from as int, from + 5));
        }
        if line.len() >= 7 {
            assert(line.subrange(0, 7) =~= c@.subrange(from as int, from + 7));
        }
    }
    if (to - from >= 5 && range_eq(c, from, from + 5, kt)) || (to - from >= 7 && range_eq(c, from, from + 7, kp)) {
        let text = match utf8_string(copy_range(c, from, to)) {
            Some(t) => t,
            None => String::new(),
        };
        Error::InvalidOid(text)
    } else {
        Error::InvalidUtf8
    }
}

fn invalid_commit(reason: &str) -> (r: Error)
    ensures
        r is InvalidObject,
{
    Error::InvalidObject { oid: owned(""), reason: owned(reason) }
}

impl Commit {
    /// Reads a commit from a raw object.
    pub fn parse(oid: Oid, raw: RawObject) -> (r: Result<Commit, Error>)
        ensures
            r is Ok <==> (raw.object_type == ObjectType::Commit && parse_commit_body(raw.content@) is Some),
            r is Ok ==> commit_v(r->Ok_0) == parse_commit_body(raw.content@)->0 && r->Ok_0.oid == oid,
            raw.object_type != ObjectType::Commit ==> r is Err && r->Err_0 is TypeMismatch
                && r->Err_0->TypeMismatch_expected@ == "commit"@
                && bytes_of(r->Err_0->TypeMismatch_actual@) == crate::objects::store::kind_name(raw.object_type),
            raw.object_type == ObjectType::Commit && !valid_utf8(raw.content@) ==> r is Err && r->Err_0 is InvalidUtf8,
            raw.object_type == ObjectType::Commit && valid_utf8(raw.content@) && ({
                let st = commit_scan(raw.content@, 0, commit_start(), Seq::empty());
                st is Some && ((st->0).0 is None || (st->0).2 is None || (st->0).3 is None)
            }) ==> r is Err && r->Err_0 is InvalidObject,
            raw.object_type == ObjectType::Commit && valid_utf8(raw.content@)
                && commit_scan(raw.content@, 0, commit_start(), Seq::empty()) is None ==> r is Err
                && (commit_scan_fail(raw.content@, 0, commit_start(), Seq::empty()) == 1 ==> r->Err_0 is InvalidOid)
                && (commit_scan_fail(raw.content@, 0, commit_start(), Seq::empty()) == 2 ==> r->Err_0 is InvalidUtf8),
    {
        if raw.object_type != ObjectType::Commit {
            return Err(
                Error::TypeMismatch { expected: "commit", actual: raw.object_type.as_str() },
            );
        }
        let c = raw.content.as_slice();
        if str_from_utf8_check(c) == false {
            return Err(Error::InvalidUtf8);
        }
        let mut st = CommitScan {
            tree: None,
            parents: Vec::new(),
            author: None,
            committer: None,
            message: Vec::new(),
            in_message: false,
        };
        assert(oids_v(st.parents@) =~= Seq::<Seq<u8>>::empty());
        assert(scan_v(st) == commit_start());
        assert(c@.subrange(0, 0) =~= Seq::<u8>::empty());
        let len = c.len();
        let mut line_start: usize = 0;
        let mut i: usize = 0;
        while i < len
            invariant
                0 <= line_start <= i <= len,
                len == c@.len(),
                c@ == raw.content@,
                raw.object_type == ObjectType::Commit,
                valid_utf8(c@),
                commit_scan(c@, 0, commit_start(), Seq::empty()) == commit_scan(
                    c@,
                    i as int,
                    scan_v(st),
                    c@.subrange(line_start as int, i as int),
                ),
                commit_scan_fail(c@, 0, commit_start(), Seq::empty()) == commit_scan_fail(
                    c@,
                    i as int,
                    scan_v(st),
                    c@.subrange(line_start as int, i as int),
                ),
            decreases len - i,
        {
            if c[i] == 10u8 {
                let end = if i > line_start && c[i - 1] == 13u8 {
                    i - 1
                } else {
                    i
                };
                assert(c@.subrange(line_start as int, end as int) =~= strip_cr(
                    c@.subrange(line_start as int, i as int),
                ));
                if !commit_line(&mut st, c, line_start, end) {
                    return Err(header_error(c, line_start, end));
                }
                line_start = i + 1;
                assert(c@.subrange(line_start as int, i + 1) =~= Seq::<u8>::empty());
            } else {
                assert(c@.subrange(line_start as int, i + 1) =~= c@.subrange(
                    line_start as int,
                    i as int,
                ).push(c@[i as int]));
            }
            i = i + 1;
        }
        if line_start < len {
            if !commit_line(&mut st, c, line_start, len) {
                return Err(header_error(c, line_start, len));
            }
        }
        let tree = match st.tree {
            Some(t) => t,
            None => { return Err(invalid_commit("missing tree")); },
        };
        let author = match st.author {
            Some(a) => a,
            None => { return Err(invalid_commit("missing author")); },
        };
        let committer = match st.committer {
            Some(a) => a,
            None => { return Err(invalid_commit("missing committer")); },
        };
        let message = match utf8_string(st.message) {
            Some(m) => m,
            None => { return Err(Error::InvalidUtf8); },
        };
        Ok(Commit { oid, tree, parents: st.parents, author, committer, message })
    }

    /// This commit's own identifier.
    pub fn oid(&self) -> (r: &Oid)
        ensures
            *r == self.oid,
    {
        &self.oid
    }

    /// The root tree of the snapshot.
    pub fn tree(&self) -> (r: &Oid)
        ensures
            *r == self.tree,
    {
        &self.tree
    }

    /// The parents, in order.
    pub fn parents(&self) -> (r: &[Oid])
        ensures
            r@ == self.parents@,
    {
        self.parents.as_slice()
    }

    /// The first parent, if any.
    pub fn parent(&self) -> (r: Option<&Oid>)
        ensures
            r is None <==> self.parents@.len() == 0,
            r is Some ==> *r->Some_0 == self.parents@[0],
    {
        if self.parents.len() == 0 {
            None
        } else {
            Some(&self.parents[0])
        }
    }

    /// The author.
    pub fn author(&self) -> (r: &Signature)
        ensures
            *r == self.author,
    {
        &self.author
    }

    /// The committer.
    pub fn committer(&self) -> (r: &Signature)
        ensures
            *r == self.committer,
    {
        &self.committer
    }

    /// The message.
    pub fn message(&self) -> (r: &str)
        ensures
            r@ == self.message@,
    {
        self.message.as_str()
    }

    /// The first line of the message.
    pub fn summary(&self) -> (r: String)
        ensures
            bytes_of(r@) == first_line(bytes_of(self.message@)),
    {
        first_line_of(self.message.as_str())
    }

    /// Whether the commit has no parents.
    pub fn is_root(&self) -> (r: bool)
        ensures
            r == (self.parents@.len() == 0),
    {
        self.parents.len() == 0
    }

    /// Whether the commit has two or more parents.
    pub fn is_merge(&self) -> (r: bool)
        ensures
            r == (self.parents@.len() > 1),
    {
        self.parents.len() > 1
    }
}

/// Whether bytes are valid UTF-8.
fn str_from_utf8_check(c: &[u8]) -> (r: bool)
    ensures
        r == valid_utf8(c@),
{
    crate::text::str_from_utf8(c).is_some()
}

/// The first line of a text: up to the first `\n` (without a `\r` before
/// it), or all of it.
pub open spec fn first_line(m: Seq<u8>) -> Seq<u8> {
    let nl = find_from(m, 10, 0);
    if nl < 0 {
        m
    } else {
        strip_cr(m.subrange(0, nl))
    }
}

/// The first line of a text.
pub fn first_line_of(m: &str) -> (r: String)
    ensures
        bytes_of(r@) == first_line(bytes_of(m@)),
{
    let b = str_bytes(m);
    let end = match position_from(b, 0, 10) {
        Some(i) => {
            proof {
                lemma_find_from(b@, 10, 0);
            }
            if i > 0 && b[i - 1] == 13u8 {
                i - 1
            } else {
                i
            }
        },
        None => b.len(),
    };
    assert(b@.subrange(0, b@.len() as int) =~= b@);
    let line = copy_range(b, 0, end);
    proof {
        let nl = find_from(b@, 10, 0);
        if nl >= 0 {
            assert(line@ =~= strip_cr(b@.subrange(0, nl)));
        }
        lemma_prefix_valid(m@, end as int);
    }
    crate::text::text_of(line)
}

/// The bytes of a text before an ASCII byte position form valid UTF-8.
pub proof fn lemma_prefix_valid(m: Seq<char>, k: int)
    requires
        0 <= k <= bytes_of(m).len(),
        k == bytes_of(m).len() || bytes_of(m)[k] < 128,
    ensures
        valid_utf8(bytes_of(m).subrange(0, k)),
{
    let b = bytes_of(m);
    encode_utf8_valid_utf8(m);
    if k < b.len() {
        is_char_boundary_iff_is_leading_byte(b, k);
        valid_utf8_split(b, k);
    } else {
        assert(b.subrange(0, k) =~= b);
    }
}

} // verus!
