//! The INI-like configuration text: `[section]` or `[section "sub"]`
//! headers, then `key = value` lines; `#` and `;` start comments.

use vstd::prelude::*;
use vstd::utf8::*;

use crate::config::{cfg_set, cfg_v, lower_bytes, lower_of, CfgV, Config};
use crate::error::Error;
use crate::objects::commit::strip_cr;
use crate::text::{
    bytes_of, find_from, is_ws, lemma_find_from, lemma_ws_bounds, position_from, skip_ws, str_bytes,
    trim_end_at, trim_range, trimmed, utf8_string,
};

verus! {

/// Backslash escapes of values: `\n`, `\t`, `\\` and `\"`; any other
/// backslash stays.
pub open spec fn unescape_v(s: Seq<u8>) -> Seq<u8>
    decreases s.len(),
{
    if s.len() == 0 {
        Seq::empty()
    } else if s[0] == 92 && s.len() >= 2 && (s[1] == 110 || s[1] == 116 || s[1] == 92 || s[1] == 34) {
        seq![if s[1] == 110 { 10u8 } else if s[1] == 116 { 9u8 } else { s[1] }] + unescape_v(s.subrange(2, s.len() as int))
    } else {
        seq![s[0]] + unescape_v(s.subrange(1, s.len() as int))
    }
}

/// Backslash escapes of subsection names: `\\` and `\"` only.
pub open spec fn unescape_sub_v(s: Seq<u8>) -> Seq<u8>
    decreases s.len(),
{
    if s.len() == 0 {
        Seq::empty()
    } else if s[0] == 92 && s.len() >= 2 && (s[1] == 92 || s[1] == 34) {
        seq![s[1]] + unescape_sub_v(s.subrange(2, s.len() as int))
    } else {
        seq![s[0]] + unescape_sub_v(s.subrange(1, s.len() as int))
    }
}

/// Where an inline comment starts: the first `#` or `;` outside double
/// quotes and not after a backslash, or -1.
pub open spec fn comment_pos(s: Seq<u8>, i: int, in_q: bool, esc: bool) -> int
    decreases s.len() - i,
{
    if i < 0 || i >= s.len() {
        -1
    } else if esc {
        comment_pos(s, i + 1, in_q, false)
    } else if s[i] == 92 {
        comment_pos(s, i + 1, in_q, true)
    } else if s[i] == 34 {
        comment_pos(s, i + 1, !in_q, false)
    } else if (s[i] == 35 || s[i] == 59) && !in_q {
        i
    } else {
        comment_pos(s, i + 1, in_q, false)
    }
}

/// A value without its inline comment and the whitespace before it.
pub open spec fn strip_comment(s: Seq<u8>) -> Seq<u8> {
    let p = comment_pos(s, 0, false, false);
    if p < 0 {
        s
    } else {
        s.subrange(0, trim_end_at(s, p))
    }
}

/// The value written by the (trimmed) text after `=`.
pub open spec fn value_of(vp: Seq<u8>) -> Seq<u8> {
    let s = strip_comment(vp);
    if s.len() > 0 && s[0] == 34 && find_from(s, 34, 1) >= 0 {
        unescape_v(s.subrange(1, find_from(s, 34, 1)))
    } else {
        unescape_v(s)
    }
}

/// The key and value of a `key = value` line.
pub open spec fn kv_of(line: Seq<u8>) -> Option<(Seq<u8>, Seq<u8>)> {
    let eq = find_from(line, 61, 0);
    if eq < 0 {
        None
    } else {
        let key = trimmed(line.subrange(0, eq));
        let vp = trimmed(line.subrange(eq + 1, line.len() as int));
        if key.len() == 0 {
            None
        } else {
            Some((key, value_of(vp)))
        }
    }
}

/// The last `c` before position `j`, or -1.
pub open spec fn rfind_v(s: Seq<u8>, c: u8, j: int) -> int
    decreases j,
{
    if j <= 0 || j > s.len() {
        -1
    } else if s[j - 1] == c {
        j - 1
    } else {
        rfind_v(s, c, j - 1)
    }
}

/// The section and subsection of a (trimmed) `[...]` line.
pub open spec fn header_of(t: Seq<u8>) -> Option<(Seq<u8>, Seq<u8>)> {
    if t.len() < 2 || t[0] != 91 || t.last() != 93 {
        None
    } else {
        let inner = t.subrange(1, t.len() - 1);
        let q = find_from(inner, 34, 0);
        if q >= 0 && rfind_v(inner.subrange(q + 1, inner.len() as int), 34, inner.len() - q - 1) >= 0 {
            let rest = inner.subrange(q + 1, inner.len() as int);
            Some((trimmed(inner.subrange(0, q)), unescape_sub_v(rest.subrange(0, rfind_v(rest, 34, rest.len() as int)))))
        } else {
            Some((trimmed(inner), Seq::empty()))
        }
    }
}

/// The reading state: current section, current subsection, settings.
pub type ParseV = (Seq<u8>, Seq<u8>, Seq<CfgV>);

/// What one line does to the reading state.
pub open spec fn line_step(st: ParseV, line: Seq<u8>) -> ParseV {
    let t = trimmed(line);
    if t.len() == 0 || t[0] == 35 || t[0] == 59 {
        st
    } else if t[0] == 91 {
        match header_of(t) {
            Some((s, u)) => if valid_utf8(s) && valid_utf8(u) {
                (s, u, st.2)
            } else {
                st
            },
            None => st,
        }
    } else if st.0.len() > 0 {
        match kv_of(t) {
            Some((k, v)) => if valid_utf8(k) && valid_utf8(v) {
                (st.0, st.1, cfg_set(st.2, lower_bytes(st.0), st.1, lower_bytes(k), v))
            } else {
                st
            },
            None => st,
        }
    } else {
        st
    }
}

/// Reads the lines of `c` from position `i`, `cur` being the part of the
/// current line passed so far (see the commit reader for the line rules).
pub open spec fn config_scan(c: Seq<u8>, i: int, st: ParseV, cur: Seq<u8>) -> ParseV
    decreases c.len() - i,
{
    if i >= c.len() {
        if cur.len() == 0 {
            st
        } else {
            line_step(st, cur)
        }
    } else if c[i] == 10u8 {
        config_scan(c, i + 1, line_step(st, strip_cr(cur)), Seq::empty())
    } else {
        config_scan(c, i + 1, st, cur.push(c[i]))
    }
}

/// The settings that configuration text holds.
pub open spec fn config_of(c: Seq<u8>) -> Seq<CfgV> {
    config_scan(c, 0, (Seq::empty(), Seq::empty(), Seq::empty()), Seq::empty()).2
}

/// Undoes the value escapes of `s[from..to]`.
pub fn unescape_value(s: &[u8], from: usize, to: usize) -> (r: Vec<u8>)
    requires
        from <= to <= s@.len(),
    ensures
        r@ == unescape_v(s@.subrange(from as int, to as int)),
{
    let mut out: Vec<u8> = Vec::new();
    let mut i = from;
    while i < to
        invariant
            from <= i <= to,
            to <= s@.len(),
            unescape_v(s@.subrange(from as int, to as int)) == out@ + unescape_v(s@.subrange(i as int, to as int)),
        decreases to - i,
    {
        let ghost rest = s@.subrange(i as int, to as int);
        let c = s[i];
        if c == 92 && to - i >= 2 && (s[i + 1] == 110 || s[i + 1] == 116 || s[i + 1] == 92 || s[i + 1] == 34) {
            let n = s[i + 1];
            out.push(if n == 110 { 10u8 } else if n == 116 { 9u8 } else { n });
            assert(rest.subrange(2, rest.len() as int) =~= s@.subrange(i + 2, to as int));
            i = i + 2;
        } else {
            out.push(c);
            assert(rest.subrange(1, rest.len() as int) =~= s@.subrange(i + 1, to as int));
            i = i + 1;
        }
    }
    assert(s@.subrange(to as int, to as int) =~= Seq::<u8>::empty());
    assert(out@ + Seq::<u8>::empty() =~= out@);
    out
}

/// Undoes the subsection escapes of `s[from..to]`.
pub fn unescape_subsection(s: &[u8], from: usize, to: usize) -> (r: Vec<u8>)
    requires
        from <= to <= s@.len(),
    ensures
        r@ == unescape_sub_v(s@.subrange(from as int, to as int)),
{
    let mut out: Vec<u8> = Vec::new();
    let mut i = from;
    while i < to
        invariant
            from <= i <= to,
            to <= s@.len(),
            unescape_sub_v(s@.subrange(from as int, to as int)) == out@ + unescape_sub_v(s@.subrange(i as int, to as int)),
        decreases to - i,
    {
        let ghost rest = s@.subrange(i as int, to as int);
        let c = s[i];
        if c == 92 && to - i >= 2 && (s[i + 1] == 92 || s[i + 1] == 34) {
            out.push(s[i + 1]);
            assert(rest.subrange(2, rest.len() as int) =~= s@.subrange(i + 2, to as int));
            i = i + 2;
        } else {
            out.push(c);
            assert(rest.subrange(1, rest.len() as int) =~= s@.subrange(i + 1, to as int));
            i = i + 1;
        }
    }
    assert(s@.subrange(to as int, to as int) =~= Seq::<u8>::empty());
    assert(out@ + Seq::<u8>::empty() =~= out@);
    out
}

/// The end of `s[from..to]` once an inline comment and the whitespace
/// before it are removed.
pub fn remove_inline_comment(s: &[u8], from: usize, to: usize) -> (r: usize)
    requires
        from <= to <= s@.len(),
    ensures
        from <= r <= to,
        s@.subrange(from as int, r as int) == strip_comment(s@.subrange(from as int, to as int)),
{
    let ghost t = s@.subrange(from as int, to as int);
    let mut i = from;
    let mut in_q = false;
    let mut esc = false;
    while i < to
        invariant
            from <= i <= to,
            to <= s@.len(),
            t == s@.subrange(from as int, to as int),
            comment_pos(t, 0, false, false) == comment_pos(t, i - from, in_q, esc),
        decreases to - i,
    {
        let c = s[i];
        if esc {
            esc = false;
        } else if c == 92 {
            esc = true;
        } else if c == 34 {
            in_q = !in_q;
        } else if (c == 35 || c == 59) && !in_q {
            let mut e = i;
            while e > from && (s[e - 1] == 32 || s[e - 1] == 9 || s[e - 1] == 10 || s[e - 1] == 11 || s[e - 1] == 12 || s[e - 1] == 13)
                invariant
                    from <= e <= i,
                    i < to,
                    to <= s@.len(),
                    t == s@.subrange(from as int, to as int),
                    trim_end_at(t, i - from) == trim_end_at(t, e - from),
                decreases e,
            {
                e = e - 1;
            }
            proof {
                crate::text::lemma_ws_bounds(t, e - from);
                assert(t.subrange(0, e - from) =~= s@.subrange(from as int, e as int));
            }
            return e;
        }
        i = i + 1;
    }
    to
}

/// Parses a value (the trimmed text after `=`) of `s[from..to]`.
pub fn parse_value(s: &[u8], from: usize, to: usize) -> (r: Vec<u8>)
    requires
        from <= to <= s@.len(),
    ensures
        r@ == value_of(s@.subrange(from as int, to as int)),
{
    let e = remove_inline_comment(s, from, to);
    let ghost v = s@.subrange(from as int, e as int);
    if e > from && s[from] == 34 {
        match position_from(s, from + 1, 34) {
            Some(q) => {
                proof {
                    lemma_find_from(s@, 34, from + 1);
                    crate::objects::tree::lemma_find_shift(s@, 34, from as int, 1);
                }
                if q < e {
                    proof {
                        lemma_find_restrict(s@, 34, from as int, e as int, q as int);
                        assert(v.subrange(1, q - from) =~= s@.subrange(from + 1, q as int));
                    }
                    return unescape_value(s, from + 1, q);
                } else {
                    proof {
                        lemma_find_restrict_none(s@, 34, from as int, e as int);
                    }
                }
            },
            None => {
                proof {
                    lemma_find_restrict_none(s@, 34, from as int, e as int);
                }
            },
        }
    }
    unescape_value(s, from, e)
}

/// A search inside a prefix slice agrees with one on the whole when the
/// hit lies inside the prefix.
proof fn lemma_find_restrict(s: Seq<u8>, c: u8, from: int, e: int, q: int)
    requires
        0 <= from < e <= s.len(),
        from + 1 <= q < e,
        s[q] == c,
        forall|j: int| from + 1 <= j < q ==> s[j] != c,
    ensures
        find_from(s.subrange(from, e), c, 1) == q - from,
{
    let v = s.subrange(from, e);
    crate::objects::store::lemma_first_at(v.subrange(1, v.len() as int), c, q - from - 1);
    crate::objects::tree::lemma_find_shift(v, c, 1, 0);
}

/// With no hit inside the prefix, the search in the prefix slice fails.
proof fn lemma_find_restrict_none(s: Seq<u8>, c: u8, from: int, e: int)
    requires
        0 <= from < e <= s.len(),
        find_from(s, c, from + 1) == -1 || find_from(s, c, from + 1) >= e,
    ensures
        find_from(s.subrange(from, e), c, 1) == -1,
{
    let v = s.subrange(from, e);
    lemma_find_from(s, c, from + 1);
    lemma_find_from(v, c, 1);
    if find_from(v, c, 1) != -1 {
        let k = find_from(v, c, 1);
        assert(s[from + k] == c);
    }
}

} // verus!

verus! {

/// The key and value of the line `s[from..to]`.
pub fn kv_range(s: &[u8], from: usize, to: usize) -> (r: Option<(Vec<u8>, Vec<u8>)>)
    requires
        from <= to <= s@.len(),
    ensures
        match r { Some((k, v)) => Some((k@, v@)), None => None } == kv_of(s@.subrange(from as int, to as int)),
{
    let ghost line = s@.subrange(from as int, to as int);
    let eq = match position_from(s, from, 61) {
        Some(i) => i,
        None => {
            proof {
                crate::objects::tree::lemma_find_shift(s@.subrange(0, to as int), 61, from as int, 0);
                lemma_find_prefix_none(s@, 61, from as int, to as int);
            }
            return None;
        },
    };
    proof {
        lemma_find_from(s@, 61, from as int);
    }
    if eq >= to {
        proof {
            lemma_find_prefix_none(s@, 61, from as int, to as int);
        }
        return None;
    }
    proof {
        lemma_find_prefix_hit(s@, 61, from as int, to as int, eq as int);
    }
    let (ka, kb) = trim_range(s, from, eq);
    assert(line.subrange(0, eq - from) =~= s@.subrange(from as int, eq as int));
    if ka >= kb {
        return None;
    }
    let key = crate::text::copy_range(s, ka, kb);
    let (va, vb) = trim_range(s, eq + 1, to);
    assert(line.subrange(eq - from + 1, line.len() as int) =~= s@.subrange(eq + 1, to as int));
    let value = if va < vb {
        parse_value(s, va, vb)
    } else {
        proof {
            assert(strip_comment(Seq::<u8>::empty()) =~= Seq::<u8>::empty());
            assert(unescape_v(Seq::<u8>::empty()) =~= Seq::<u8>::empty());
        }
        Vec::new()
    };
    Some((key, value))
}

proof fn lemma_find_prefix_none(s: Seq<u8>, c: u8, from: int, to: int)
    requires
        0 <= from <= to <= s.len(),
        find_from(s, c, from) == -1 || find_from(s, c, from) >= to,
    ensures
        find_from(s.subrange(from, to), c, 0) == -1,
{
    let v = s.subrange(from, to);
    lemma_find_from(s, c, from);
    lemma_find_from(v, c, 0);
    if find_from(v, c, 0) != -1 {
        let k = find_from(v, c, 0);
        assert(s[from + k] == c);
    }
}

proof fn lemma_find_prefix_hit(s: Seq<u8>, c: u8, from: int, to: int, q: int)
    requires
        0 <= from <= q < to <= s.len(),
        find_from(s, c, from) == q,
    ensures
        find_from(s.subrange(from, to), c, 0) == q - from,
{
    lemma_find_from(s, c, from);
    let v = s.subrange(from, to);
    crate::objects::store::lemma_first_at(v, c, q - from);
}

/// The last position before `j` holding `c`.
pub fn rposition(s: &[u8], from: usize, j: usize, c: u8) -> (r: Option<usize>)
    requires
        from <= j <= s@.len(),
    ensures
        match r { Some(i) => i - from, None => -1 } == rfind_v(s@.subrange(from as int, j as int), c, j - from),
        r is Some ==> from <= r->Some_0 < j,
{
    let ghost t = s@.subrange(from as int, j as int);
    let mut k = j;
    while k > from
        invariant
            from <= k <= j,
            j <= s@.len(),
            t == s@.subrange(from as int, j as int),
            rfind_v(t, c, j - from) == rfind_v(t, c, k - from),
        decreases k,
    {
        if s[k - 1] == c {
            return Some(k - 1);
        }
        k = k - 1;
    }
    None
}

/// The section and subsection of the trimmed header line `s[from..to]`.
pub fn header_range(s: &[u8], from: usize, to: usize) -> (r: Option<(Vec<u8>, Vec<u8>)>)
    requires
        from <= to <= s@.len(),
    ensures
        match r { Some((a, b)) => Some((a@, b@)), None => None } == header_of(s@.subrange(from as int, to as int)),
{
    let ghost t = s@.subrange(from as int, to as int);
    if to - from < 2 || s[from] != 91 || s[to - 1] != 93 {
        return None;
    }
    let ia = from + 1;
    let ib = to - 1;
    let ghost inner = t.subrange(1, t.len() - 1);
    assert(inner =~= s@.subrange(ia as int, ib as int));
    proof {
        lemma_find_from(s@, 34, ia as int);
    }
    let q = match position_from(s, ia, 34) {
        Some(q) => if q < ib {
            proof {
                lemma_find_prefix_hit(s@, 34, ia as int, ib as int, q as int);
            }
            Some(q)
        } else {
            proof {
                lemma_find_prefix_none(s@, 34, ia as int, ib as int);
            }
            None
        },
        None => {
            proof {
                lemma_find_prefix_none(s@, 34, ia as int, ib as int);
            }
            None
        },
    };
    match q {
        Some(q) => {
            let ghost rest = inner.subrange(q - ia + 1, inner.len() as int);
            assert(rest =~= s@.subrange(q + 1, ib as int));
            match rposition(s, q + 1, ib, 34) {
                Some(qe) => {
                    let (sa, sb) = trim_range(s, ia, q);
                    assert(inner.subrange(0, q - ia) =~= s@.subrange(ia as int, q as int));
                    let sec = if sa < sb { crate::text::copy_range(s, sa, sb) } else { Vec::new() };
                    let sub = unescape_subsection(s, q + 1, qe);
                    assert(rest.subrange(0, qe - q - 1) =~= s@.subrange(q + 1, qe as int));
                    Some((sec, sub))
                },
                None => {
                    let (sa, sb) = trim_range(s, ia, ib);
                    let sec = if sa < sb { crate::text::copy_range(s, sa, sb) } else { Vec::new() };
                    Some((sec, Vec::new()))
                },
            }
        },
        None => {
            let (sa, sb) = trim_range(s, ia, ib);
            let sec = if sa < sb { crate::text::copy_range(s, sa, sb) } else { Vec::new() };
            Some((sec, Vec::new()))
        },
    }
}

struct ParseState {
    section: String,
    subsection: String,
    config: Config,
}

spec fn state_v(st: ParseState) -> ParseV {
    (bytes_of(st.section@), bytes_of(st.subsection@), cfg_v(st.config.entries@))
}

fn process_line(st: &mut ParseState, s: &[u8], from: usize, to: usize)
    requires
        from <= to <= s@.len(),
    ensures
        state_v(*final(st)) == line_step(state_v(*old(st)), s@.subrange(from as int, to as int)),
{
    let ghost line = s@.subrange(from as int, to as int);
    let (a, b) = trim_range(s, from, to);
    if a >= b {
        return;
    }
    let c = s[a];
    assert(trimmed(line)[0] == c);
    if c == 35 || c == 59 {
        return;
    }
    if c == 91 {
        match header_range(s, a, b) {
            Some((sec, sub)) => {
                match (utf8_string(sec), utf8_string(sub)) {
                    (Some(x), Some(y)) => {
                        st.section = x;
                        st.subsection = y;
                    },
                    _ => {},
                }
            },
            None => {},
        }
        return;
    }
    if st.section.as_str().as_bytes().len() == 0 {
        return;
    }
    match kv_range(s, a, b) {
        Some((k, v)) => {
            match (utf8_string(k), utf8_string(v)) {
                (Some(ks), Some(vs)) => {
                    proof {
                        encode_utf8_decode_utf8(st.section@);
                        encode_utf8_decode_utf8(ks@);
                    }
                    let sec = st.section.clone();
                    let sub = st.subsection.clone();
                    st.config.set(sec.as_str(), sub.as_str(), ks.as_str(), vs.as_str());
                },
                _ => {},
            }
        },
        None => {},
    }
}

/// Parses configuration text; it always succeeds, ignoring lines it
/// cannot read.
pub fn parse(content: &str) -> (r: Result<Config, Error>)
    ensures
        r is Ok,
        cfg_v(r->Ok_0.entries@) == config_of(bytes_of(content@)),
{
    let c = str_bytes(content);
    let mut st = ParseState { section: String::new(), subsection: String::new(), config: Config::new() };
    assert(cfg_v(st.config.entries@) =~= Seq::<CfgV>::empty());
    assert(c@.subrange(0, 0) =~= Seq::<u8>::empty());
    let len = c.len();
    let mut line_start: usize = 0;
    let mut i: usize = 0;
    while i < len
        invariant
            0 <= line_start <= i <= len,
            len == c@.len(),
            config_scan(c@, 0, (Seq::empty(), Seq::empty(), Seq::empty()), Seq::empty()) == config_scan(
                c@,
                i as int,
                state_v(st),
                c@.subrange(line_start as int, i as int),
            ),
        decreases len - i,
    {
        if c[i] == 10u8 {
            let end = if i > line_start && c[i - 1] == 13u8 {
                i - 1
            } else {
                i
            };
            assert(c@.subrange(line_start as int, end as int) =~= strip_cr(
                c@.subrange(line_start as int, i as int),
            ));
            process_line(&mut st, c, line_start, end);
            line_start = i + 1;
            assert(c@.subrange(line_start as int, i + 1) =~= Seq::<u8>::empty());
        } else {
            assert(c@.subrange(line_start as int, i + 1) =~= c@.subrange(
                line_start as int,
                i as int,
            ).push(c@[i as int]));
        }
        i = i + 1;
    }
    if line_start < len {
        process_line(&mut st, c, line_start, len);
    }
    Ok(st.config)
}

/// The section and subsection of a header line such as `[remote "origin"]`;
/// `None` when the line is not a header (or a name is not valid UTF-8).
pub fn parse_section_header(line: &str) -> (r: Option<(String, String)>)
    ensures
        r is Some ==> header_of(trimmed(bytes_of(line@))) == Some((bytes_of(r->Some_0.0@), bytes_of(r->Some_0.1@))),
        header_of(trimmed(bytes_of(line@))) is None ==> r is None,
        ({
            let h = header_of(trimmed(bytes_of(line@)));
            h is Some && valid_utf8((h->0).0) && valid_utf8((h->0).1) ==> r is Some
        }),
{
    let s = str_bytes(line);
    let (a, b) = trim_range(s, 0, s.len());
    assert(s@.subrange(0, s@.len() as int) =~= s@);
    let (a, b) = if a < b { (a, b) } else { (0, 0) };
    proof {
        if a == 0 && b == 0 {
            assert(s@.subrange(0, 0) =~= Seq::<u8>::empty());
        }
    }
    match header_range(s, a, b) {
        Some((x, y)) => {
            match (utf8_string(x), utf8_string(y)) {
                (Some(p), Some(q)) => Some((p, q)),
                _ => None,
            }
        },
        None => None,
    }
}

/// The key and value of a `key = value` line; `None` without `=`, with
/// an empty key (or text that is not valid UTF-8).
pub fn parse_key_value(line: &str) -> (r: Option<(String, String)>)
    ensures
        r is Some ==> kv_of(bytes_of(line@)) == Some((bytes_of(r->Some_0.0@), bytes_of(r->Some_0.1@))),
        kv_of(bytes_of(line@)) is None ==> r is None,
        ({
            let h = kv_of(bytes_of(line@));
            h is Some && valid_utf8((h->0).0) && valid_utf8((h->0).1) ==> r is Some
        }),
{
    let s = str_bytes(line);
    assert(s@.subrange(0, s@.len() as int) =~= s@);
    match kv_range(s, 0, s.len()) {
        Some((k, v)) => {
            match (utf8_string(k), utf8_string(v)) {
                (Some(p), Some(q)) => Some((p, q)),
                _ => None,
            }
        },
        None => None,
    }
}

} // verus!
