//! Configuration lookup: sections, optional subsections and keys, with
//! section and key names compared case-insensitively and subsections
//! case-sensitively.

pub mod parser;

use vstd::prelude::*;
use vstd::utf8::*;

use crate::error::Error;
use crate::objects::commit::{i64_value, parse_i64};
use crate::text::{
    bytes_of, copy_range, in_paths, lemma_valid_slice, owned, range_eq, str_bytes, str_eq_bytes,
    strictly_sorted, text_of, trim_range, trimmed,
};

verus! {

/// The lowercase form that `str::to_lowercase` gives a text.
pub uninterp spec fn lower_of(s: Seq<char>) -> Seq<char>;

/// Relies on `str::to_lowercase`: the result depends on the characters alone.
#[verifier::external_body]
fn to_lower(s: &str) -> (r: String)
    ensures
        r@ == lower_of(s@),
{
    s.to_lowercase()
}

/// The lowercase bytes of UTF-8 text.
pub open spec fn lower_bytes(b: Seq<u8>) -> Seq<u8> {
    bytes_of(lower_of(decode_utf8(b)))
}

/// One setting.
#[derive(Debug, Clone)]
pub struct ConfigEntry {
    pub section: String,
    pub subsection: String,
    pub key: String,
    pub value: String,
}

/// A setting as values: section, subsection, key, value.
pub type CfgV = (Seq<u8>, Seq<u8>, Seq<u8>, Seq<u8>);

pub open spec fn entry_v(e: ConfigEntry) -> CfgV {
    (bytes_of(e.section@), bytes_of(e.subsection@), bytes_of(e.key@), bytes_of(e.value@))
}

pub open spec fn cfg_v(es: Seq<ConfigEntry>) -> Seq<CfgV> {
    es.map_values(|e: ConfigEntry| entry_v(e))
}

/// The position of the setting for a section, subsection and key, or -1.
pub open spec fn cfg_find(m: Seq<CfgV>, s: Seq<u8>, u: Seq<u8>, k: Seq<u8>) -> int
    decreases m.len(),
{
    if m.len() == 0 {
        -1
    } else if m.last().0 == s && m.last().1 == u && m.last().2 == k && cfg_find(m.drop_last(), s, u, k) == -1 {
        m.len() - 1
    } else {
        cfg_find(m.drop_last(), s, u, k)
    }
}

/// The value of a setting, if set.
pub open spec fn cfg_get(m: Seq<CfgV>, s: Seq<u8>, u: Seq<u8>, k: Seq<u8>) -> Option<Seq<u8>> {
    let i = cfg_find(m, s, u, k);
    if i < 0 {
        None
    } else {
        Some(m[i].3)
    }
}

/// Sets a value, replacing an earlier one for the same names.
pub open spec fn cfg_set(m: Seq<CfgV>, s: Seq<u8>, u: Seq<u8>, k: Seq<u8>, v: Seq<u8>) -> Seq<CfgV> {
    let i = cfg_find(m, s, u, k);
    if i < 0 {
        m.push((s, u, k, v))
    } else {
        m.update(i, (s, u, k, v))
    }
}

/// Facts about the search.
pub proof fn lemma_cfg_find(m: Seq<CfgV>, s: Seq<u8>, u: Seq<u8>, k: Seq<u8>)
    ensures
        -1 <= cfg_find(m, s, u, k) < m.len(),
        cfg_find(m, s, u, k) >= 0 ==> ({
            let i = cfg_find(m, s, u, k);
            m[i].0 == s && m[i].1 == u && m[i].2 == k && forall|j: int| 0 <= j < i ==> !(m[j].0 == s && m[j].1 == u && m[j].2 == k)
        }),
        cfg_find(m, s, u, k) == -1 ==> forall|j: int| 0 <= j < m.len() ==> !(m[j].0 == s && m[j].1 == u && m[j].2 == k),
    decreases m.len(),
{
    if m.len() > 0 {
        lemma_cfg_find(m.drop_last(), s, u, k);
        let d = m.drop_last();
        assert forall|j: int| 0 <= j < d.len() implies d[j] == m[j] by {}
    }
}

/// Settings read from configuration text.
#[derive(Debug, Clone)]
pub struct Config {
    pub entries: Vec<ConfigEntry>,
}

/// The truth value of a boolean setting, after trimming and lowercasing.
pub open spec fn bool_of(l: Seq<u8>) -> Option<bool> {
    if l == seq![116u8, 114, 117, 101] || l == seq![121u8, 101, 115] || l == seq![111u8, 110] || l == seq![49u8] {
        Some(true)
    } else if l == seq![102u8, 97, 108, 115, 101] || l == seq![110u8, 111] || l == seq![111u8, 102, 102] || l == seq![48u8] || l.len() == 0 {
        Some(false)
    } else {
        None
    }
}

/// The multiplier of a size suffix: k, m or g (either case) for 2^10, 2^20, 2^30.
pub open spec fn suffix_mult(c: u8) -> int {
    if c == 107 || c == 75 {
        1024
    } else if c == 109 || c == 77 {
        1048576
    } else if c == 103 || c == 71 {
        1073741824
    } else {
        1
    }
}

/// The value of an integer setting (trimmed text), with an optional size suffix.
pub open spec fn int_of(t: Seq<u8>) -> Option<i64> {
    if t.len() == 0 {
        Some(0)
    } else {
        let m = suffix_mult(t.last());
        let num = if m == 1 { t } else { trimmed(t.drop_last()) };
        match i64_value(num) {
            Some(n) => if i64::MIN <= n * m <= i64::MAX {
                Some((n * m) as i64)
            } else {
                None
            },
            None => None,
        }
    }
}

fn lit(s: &'static str) -> (r: &'static [u8])
    ensures
        r@ == bytes_of(s@),
{
    s.as_bytes()
}

/// The trimmed part of a text, as a new text.
pub fn trim_text(s: &str) -> (r: String)
    ensures
        bytes_of(r@) == trimmed(bytes_of(s@)),
{
    let b = str_bytes(s);
    let (a, c) = trim_range(b, 0, b.len());
    assert(b@.subrange(0, b@.len() as int) =~= b@);
    if a < c {
        proof {
            encode_utf8_valid_utf8(s@);
            lemma_valid_slice(b@, a as int, c as int);
        }
        text_of(copy_range(b, a, c))
    } else {
        proof {
            lemma_ascii_valid_utf8_empty();
        }
        text_of(Vec::new())
    }
}

proof fn lemma_ascii_valid_utf8_empty()
    ensures
        valid_utf8(Seq::<u8>::empty()),
{
}

/// Reads a boolean setting's text: true, yes, on, 1; false, no, off, 0 or
/// empty; any other is an error.
pub fn parse_bool(value: &str) -> (r: Result<bool, Error>)
    ensures
        r is Ok <==> bool_of(lower_bytes(trimmed(bytes_of(value@)))) is Some,
        r is Ok ==> r->Ok_0 == bool_of(lower_bytes(trimmed(bytes_of(value@))))->0,
        r is Err ==> r->Err_0 is ConfigNotFound,
{
    let t = trim_text(value);
    let l = to_lower(t.as_str());
    let lb = l.as_str().as_bytes();
    proof {
        encode_utf8_decode_utf8(t@);
        assert(decode_utf8(bytes_of(t@)) == t@);
        reveal_strlit("true");
        reveal_strlit("yes");
        reveal_strlit("on");
        reveal_strlit("1");
        reveal_strlit("false");
        reveal_strlit("no");
        reveal_strlit("off");
        reveal_strlit("0");
        crate::text::lemma_ascii_chars_bytes("true"@);
        crate::text::lemma_ascii_chars_bytes("yes"@);
        crate::text::lemma_ascii_chars_bytes("on"@);
        crate::text::lemma_ascii_chars_bytes("1"@);
        crate::text::lemma_ascii_chars_bytes("false"@);
        crate::text::lemma_ascii_chars_bytes("no"@);
        crate::text::lemma_ascii_chars_bytes("off"@);
        crate::text::lemma_ascii_chars_bytes("0"@);
        assert(bytes_of("true"@) =~= seq![116u8, 114, 117, 101]);
        assert(bytes_of("yes"@) =~= seq![121u8, 101, 115]);
        assert(bytes_of("on"@) =~= seq![111u8, 110]);
        assert(bytes_of("1"@) =~= seq![49u8]);
        assert(bytes_of("false"@) =~= seq![102u8, 97, 108, 115, 101]);
        assert(bytes_of("no"@) =~= seq![110u8, 111]);
        assert(bytes_of("off"@) =~= seq![111u8, 102, 102]);
        assert(bytes_of("0"@) =~= seq![48u8]);
    }
    let n = lb.len();
    assert(lb@.subrange(0, n as int) =~= lb@);
    if range_eq(lb, 0, n, lit("true")) || range_eq(lb, 0, n, lit("yes")) || range_eq(lb, 0, n, lit("on")) || range_eq(lb, 0, n, lit("1")) {
        Ok(true)
    } else if range_eq(lb, 0, n, lit("false")) || range_eq(lb, 0, n, lit("no")) || range_eq(lb, 0, n, lit("off")) || range_eq(lb, 0, n, lit("0")) || n == 0 {
        Ok(false)
    } else {
        Err(Error::ConfigNotFound(owned(value)))
    }
}

/// Reads an integer setting's text, with an optional k, m or g suffix.
pub fn parse_int(value: &str) -> (r: Result<i64, Error>)
    ensures
        r is Ok <==> int_of(trimmed(bytes_of(value@))) is Some,
        r is Ok ==> r->Ok_0 == int_of(trimmed(bytes_of(value@)))->0,
        r is Err ==> r->Err_0 is ConfigNotFound,
{
    let b = str_bytes(value);
    let (a, c) = trim_range(b, 0, b.len());
    assert(b@.subrange(0, b@.len() as int) =~= b@);
    if a >= c {
        return Ok(0);
    }
    let ghost t = b@.subrange(a as int, c as int);
    let last = b[c - 1];
    assert(t.last() == last);
    let mult: i64 = if last == 107 || last == 75 {
        1024
    } else if last == 109 || last == 77 {
        1048576
    } else if last == 103 || last == 71 {
        1073741824
    } else {
        1
    };
    let (na, nc) = if mult == 1 {
        (a, c)
    } else {
        let (x, y) = trim_range(b, a, c - 1);
        assert(t.drop_last() =~= b@.subrange(a as int, c - 1));
        (x, y)
    };
    let n = if na < nc {
        parse_i64(b, na, nc)
    } else {
        proof {
            assert(i64_value(Seq::<u8>::empty()) is None);
        }
        None
    };
    proof {
        if mult == 1 {
            assert(b@.subrange(na as int, nc as int) == t);
        }
    }
    match n {
        Some(x) => {
            match x.checked_mul(mult) {
                Some(v) => Ok(v),
                None => Err(Error::ConfigNotFound(owned(value))),
            }
        },
        None => Err(Error::ConfigNotFound(owned(value))),
    }
}

} // verus!

verus! {

impl Config {
    /// An empty configuration.
    pub fn new() -> (r: Config)
        ensures
            r.entries@.len() == 0,
    {
        Config { entries: Vec::new() }
    }

    /// Parses configuration text.
    pub fn from_str(content: &str) -> (r: Result<Config, Error>)
        ensures
            r is Ok,
            cfg_v(r->Ok_0.entries@) == parser::config_of(bytes_of(content@)),
    {
        parser::parse(content)
    }

    fn find(&self, s: &[u8], u: &[u8], k: &[u8]) -> (r: Option<usize>)
        ensures
            match r { Some(i) => i as int, None => -1 } == cfg_find(cfg_v(self.entries@), s@, u@, k@),
            r is Some ==> r->Some_0 < self.entries@.len(),
    {
        let ghost m = cfg_v(self.entries@);
        let mut i: usize = self.entries.len();
        let mut found: Option<usize> = None;
        proof {
            lemma_cfg_find(m, s@, u@, k@);
        }
        let mut j: usize = 0;
        while j < self.entries.len()
            invariant
                0 <= j <= self.entries@.len(),
                m == cfg_v(self.entries@),
                forall|x: int| 0 <= x < j ==> !(m[x].0 == s@ && m[x].1 == u@ && m[x].2 == k@),
            decreases self.entries@.len() - j,
        {
            let e = &self.entries[j];
            if str_eq_bytes(e.section.as_str(), s) && str_eq_bytes(e.subsection.as_str(), u) && str_eq_bytes(e.key.as_str(), k) {
                proof {
                    lemma_cfg_find(m, s@, u@, k@);
                    let f = cfg_find(m, s@, u@, k@);
                    if f == -1 {
                        assert(m[j as int].0 == s@ && m[j as int].1 == u@ && m[j as int].2 == k@);
                    } else if f < j {
                    } else if f > j {
                    }
                }
                return Some(j);
            }
            j = j + 1;
        }
        None
    }

    /// Sets a value under names taken as they are.
    pub fn set_raw(&mut self, section: &str, subsection: &str, key: &str, value: &str)
        ensures
            cfg_v(final(self).entries@) == cfg_set(cfg_v(old(self).entries@), bytes_of(section@), bytes_of(subsection@), bytes_of(key@), bytes_of(value@)),
    {
        let e = ConfigEntry { section: owned(section), subsection: owned(subsection), key: owned(key), value: owned(value) };
        match self.find(str_bytes(section), str_bytes(subsection), str_bytes(key)) {
            Some(i) => {
                self.entries.set(i, e);
                assert(cfg_v(self.entries@) =~= cfg_v(old(self).entries@).update(i as int, entry_v(e)));
            },
            None => {
                self.entries.push(e);
                assert(cfg_v(self.entries@) =~= cfg_v(old(self).entries@).push(entry_v(e)));
            },
        }
    }

    /// Sets a value; the section and key are stored lowercase.
    pub fn set(&mut self, section: &str, subsection: &str, key: &str, value: &str)
        ensures
            cfg_v(final(self).entries@) == cfg_set(cfg_v(old(self).entries@), bytes_of(lower_of(section@)), bytes_of(subsection@), bytes_of(lower_of(key@)), bytes_of(value@)),
    {
        let s = to_lower(section);
        let k = to_lower(key);
        self.set_raw(s.as_str(), subsection, k.as_str(), value);
    }

    /// The value of a key in a section and subsection (empty for none).
    pub fn get_subsection(&self, section: &str, subsection: &str, key: &str) -> (r: Option<&str>)
        ensures
            match r { Some(v) => Some(bytes_of(v@)), None => None } == cfg_get(cfg_v(self.entries@), bytes_of(lower_of(section@)), bytes_of(subsection@), bytes_of(lower_of(key@))),
    {
        let s = to_lower(section);
        let k = to_lower(key);
        match self.find(str_bytes(s.as_str()), str_bytes(subsection), str_bytes(k.as_str())) {
            Some(i) => Some(self.entries[i].value.as_str()),
            None => None,
        }
    }

    /// The value of a key in a section without subsection.
    pub fn get(&self, section: &str, key: &str) -> (r: Option<&str>)
        ensures
            match r { Some(v) => Some(bytes_of(v@)), None => None } == cfg_get(cfg_v(self.entries@), bytes_of(lower_of(section@)), Seq::empty(), bytes_of(lower_of(key@))),
    {
        proof {
            reveal_strlit("");
            assert(bytes_of(""@) =~= Seq::<u8>::empty());
        }
        self.get_subsection(section, "", key)
    }

    /// A boolean setting; absent is false.
    pub fn get_bool_subsection(&self, section: &str, subsection: &str, key: &str) -> (r: Result<bool, Error>)
        ensures
            ({
                let v = cfg_get(cfg_v(self.entries@), bytes_of(lower_of(section@)), bytes_of(subsection@), bytes_of(lower_of(key@)));
                match v {
                    None => r == Ok::<bool, Error>(false),
                    Some(x) => (r is Ok <==> bool_of(lower_bytes(trimmed(x))) is Some) && (r is Ok ==> r->Ok_0 == bool_of(lower_bytes(trimmed(x)))->0),
                }
            }),
    {
        match self.get_subsection(section, subsection, key) {
            None => Ok(false),
            Some(v) => parse_bool(v),
        }
    }

    /// A boolean setting in a section without subsection; absent is false.
    pub fn get_bool(&self, section: &str, key: &str) -> (r: Result<bool, Error>)
        ensures
            ({
                let v = cfg_get(cfg_v(self.entries@), bytes_of(lower_of(section@)), Seq::empty(), bytes_of(lower_of(key@)));
                match v {
                    None => r == Ok::<bool, Error>(false),
                    Some(x) => (r is Ok <==> bool_of(lower_bytes(trimmed(x))) is Some) && (r is Ok ==> r->Ok_0 == bool_of(lower_bytes(trimmed(x)))->0),
                }
            }),
    {
        proof {
            reveal_strlit("");
            assert(bytes_of(""@) =~= Seq::<u8>::empty());
        }
        self.get_bool_subsection(section, "", key)
    }

    /// An integer setting; absent is 0.
    pub fn get_int_subsection(&self, section: &str, subsection: &str, key: &str) -> (r: Result<i64, Error>)
        ensures
            ({
                let v = cfg_get(cfg_v(self.entries@), bytes_of(lower_of(section@)), bytes_of(subsection@), bytes_of(lower_of(key@)));
                match v {
                    None => r == Ok::<i64, Error>(0),
                    Some(x) => (r is Ok <==> int_of(trimmed(x)) is Some) && (r is Ok ==> r->Ok_0 == int_of(trimmed(x))->0),
                }
            }),
    {
        match self.get_subsection(section, subsection, key) {
            None => Ok(0),
            Some(v) => parse_int(v),
        }
    }

    /// An integer setting in a section without subsection; absent is 0.
    pub fn get_int(&self, section: &str, key: &str) -> (r: Result<i64, Error>)
        ensures
            ({
                let v = cfg_get(cfg_v(self.entries@), bytes_of(lower_of(section@)), Seq::empty(), bytes_of(lower_of(key@)));
                match v {
                    None => r == Ok::<i64, Error>(0),
                    Some(x) => (r is Ok <==> int_of(trimmed(x)) is Some) && (r is Ok ==> r->Ok_0 == int_of(trimmed(x))->0),
                }
            }),
    {
        proof {
            reveal_strlit("");
            assert(bytes_of(""@) =~= Seq::<u8>::empty());
        }
        self.get_int_subsection(section, "", key)
    }

    /// The section names, sorted, each once.
    pub fn sections(&self) -> (r: Vec<String>)
        ensures
            strictly_sorted(r@),
            forall|q: Seq<u8>| #[trigger] in_paths(r@, q) <==> exists|i: int| 0 <= i < self.entries@.len() && cfg_v(self.entries@)[i].0 == q,
    {
        let mut out: Vec<String> = Vec::new();
        let mut i: usize = 0;
        while i < self.entries.len()
            invariant
                0 <= i <= self.entries@.len(),
                strictly_sorted(out@),
                forall|q: Seq<u8>| #[trigger] in_paths(out@, q) <==> exists|x: int| 0 <= x < i && cfg_v(self.entries@)[x].0 == q,
            decreases self.entries@.len() - i,
        {
            crate::text::insert_sorted_unique(&mut out, &self.entries[i].section);
            proof {
                assert forall|q: Seq<u8>| #[trigger] in_paths(out@, q) <==> exists|x: int| 0 <= x < i + 1 && cfg_v(self.entries@)[x].0 == q by {
                    if q == bytes_of(self.entries@[i as int].section@) {
                        assert(cfg_v(self.entries@)[i as int].0 == q);
                    }
                    if exists|x: int| 0 <= x < i + 1 && cfg_v(self.entries@)[x].0 == q {
                        let x = choose|x: int| 0 <= x < i + 1 && cfg_v(self.entries@)[x].0 == q;
                        if x < i {
                        }
                    }
                }
            }
            i = i + 1;
        }
        out
    }

    /// The non-empty subsection names of a section, sorted, each once.
    pub fn subsections(&self, section: &str) -> (r: Vec<String>)
        ensures
            strictly_sorted(r@),
            forall|q: Seq<u8>| #[trigger] in_paths(r@, q) <==> (q.len() > 0 && exists|i: int| 0 <= i < self.entries@.len() && cfg_v(self.entries@)[i].0 == bytes_of(lower_of(section@)) && cfg_v(self.entries@)[i].1 == q),
    {
        let s = to_lower(section);
        let sb = str_bytes(s.as_str());
        let mut out: Vec<String> = Vec::new();
        let mut i: usize = 0;
        while i < self.entries.len()
            invariant
                0 <= i <= self.entries@.len(),
                sb@ == bytes_of(lower_of(section@)),
                strictly_sorted(out@),
                forall|q: Seq<u8>| #[trigger] in_paths(out@, q) <==> (q.len() > 0 && exists|x: int| 0 <= x < i && cfg_v(self.entries@)[x].0 == sb@ && cfg_v(self.entries@)[x].1 == q),
            decreases self.entries@.len() - i,
        {
            let e = &self.entries[i];
            if str_eq_bytes(e.section.as_str(), sb) && e.subsection.as_str().as_bytes().len() > 0 {
                crate::text::insert_sorted_unique(&mut out, &e.subsection);
            }
            proof {
                assert forall|q: Seq<u8>| #[trigger] in_paths(out@, q) <==> (q.len() > 0 && exists|x: int| 0 <= x < i + 1 && cfg_v(self.entries@)[x].0 == sb@ && cfg_v(self.entries@)[x].1 == q) by {
                    if q == bytes_of(self.entries@[i as int].subsection@) {
                        assert(cfg_v(self.entries@)[i as int].1 == q);
                    }
                    if exists|x: int| 0 <= x < i + 1 && cfg_v(self.entries@)[x].0 == sb@ && cfg_v(self.entries@)[x].1 == q {
                        let x = choose|x: int| 0 <= x < i + 1 && cfg_v(self.entries@)[x].0 == sb@ && cfg_v(self.entries@)[x].1 == q;
                        if x < i {
                        }
                    }
                }
            }
            i = i + 1;
        }
        out
    }

    /// The keys of a section and subsection, sorted, each once.
    pub fn keys_subsection(&self, section: &str, subsection: &str) -> (r: Vec<String>)
        ensures
            strictly_sorted(r@),
            forall|q: Seq<u8>| #[trigger] in_paths(r@, q) <==> exists|i: int| 0 <= i < self.entries@.len() && cfg_v(self.entries@)[i].0 == bytes_of(lower_of(section@)) && cfg_v(self.entries@)[i].1 == bytes_of(subsection@) && cfg_v(self.entries@)[i].2 == q,
    {
        let s = to_lower(section);
        let sb = str_bytes(s.as_str());
        let ub = str_bytes(subsection);
        let mut out: Vec<String> = Vec::new();
        let mut i: usize = 0;
        while i < self.entries.len()
            invariant
                0 <= i <= self.entries@.len(),
                sb@ == bytes_of(lower_of(section@)),
                ub@ == bytes_of(subsection@),
                strictly_sorted(out@),
                forall|q: Seq<u8>| #[trigger] in_paths(out@, q) <==> exists|x: int| 0 <= x < i && cfg_v(self.entries@)[x].0 == sb@ && cfg_v(self.entries@)[x].1 == ub@ && cfg_v(self.entries@)[x].2 == q,
            decreases self.entries@.len() - i,
        {
            let e = &self.entries[i];
            if str_eq_bytes(e.section.as_str(), sb) && str_eq_bytes(e.subsection.as_str(), ub) {
                crate::text::insert_sorted_unique(&mut out, &e.key);
            }
            proof {
                assert forall|q: Seq<u8>| #[trigger] in_paths(out@, q) <==> exists|x: int| 0 <= x < i + 1 && cfg_v(self.entries@)[x].0 == sb@ && cfg_v(self.entries@)[x].1 == ub@ && cfg_v(self.entries@)[x].2 == q by {
                    if q == bytes_of(self.entries@[i as int].key@) {
                        assert(cfg_v(self.entries@)[i as int].2 == q);
                    }
                    if exists|x: int| 0 <= x < i + 1 && cfg_v(self.entries@)[x].0 == sb@ && cfg_v(self.entries@)[x].1 == ub@ && cfg_v(self.entries@)[x].2 == q {
                        let x = choose|x: int| 0 <= x < i + 1 && cfg_v(self.entries@)[x].0 == sb@ && cfg_v(self.entries@)[x].1 == ub@ && cfg_v(self.entries@)[x].2 == q;
                        if x < i {
                        }
                    }
                }
            }
            i = i + 1;
        }
        out
    }

    /// The keys of a section without subsection, sorted, each once.
    pub fn keys(&self, section: &str) -> (r: Vec<String>)
        ensures
            strictly_sorted(r@),
            forall|q: Seq<u8>| #[trigger] in_paths(r@, q) <==> exists|i: int| 0 <= i < self.entries@.len() && cfg_v(self.entries@)[i].0 == bytes_of(lower_of(section@)) && cfg_v(self.entries@)[i].1 == Seq::<u8>::empty() && cfg_v(self.entries@)[i].2 == q,
    {
        proof {
            reveal_strlit("");
            assert(bytes_of(""@) =~= Seq::<u8>::empty());
        }
        self.keys_subsection(section, "")
    }

    /// Copies every setting of `other` over this one, in its order.
    pub fn merge(&mut self, other: &Config)
        ensures
            cfg_v(final(self).entries@) == merge_v(cfg_v(old(self).entries@), cfg_v(other.entries@)),
    {
        let mut i: usize = 0;
        while i < other.entries.len()
            invariant
                0 <= i <= other.entries@.len(),
                cfg_v(self.entries@) == merge_v(cfg_v(old(self).entries@), cfg_v(other.entries@).subrange(0, i as int)),
            decreases other.entries@.len() - i,
        {
            let e = &other.entries[i];
            self.set_raw(e.section.as_str(), e.subsection.as_str(), e.key.as_str(), e.value.as_str());
            assert(cfg_v(other.entries@).subrange(0, i + 1).drop_last() =~= cfg_v(other.entries@).subrange(0, i as int));
            i = i + 1;
        }
        assert(cfg_v(other.entries@).subrange(0, other.entries@.len() as int) =~= cfg_v(other.entries@));
    }
}

/// Settings of `o` applied in order on top of `m`.
pub open spec fn merge_v(m: Seq<CfgV>, o: Seq<CfgV>) -> Seq<CfgV>
    decreases o.len(),
{
    if o.len() == 0 {
        m
    } else {
        let x = o.last();
        cfg_set(merge_v(m, o.drop_last()), x.0, x.1, x.2, x.3)
    }
}

} // verus!
