//! Bytes and text: the UTF-8 boundary of the library.

use vstd::prelude::*;
use vstd::utf8::*;

verus! {

/// The UTF-8 bytes of a character sequence.
pub open spec fn bytes_of(s: Seq<char>) -> Seq<u8> {
    encode_utf8(s)
}

/// True when every byte is ASCII.
pub open spec fn all_ascii(b: Seq<u8>) -> bool {
    forall|i: int| 0 <= i < b.len() ==> b[i] < 128
}

/// An ASCII byte sequence is valid UTF-8.
pub proof fn lemma_ascii_valid_utf8(b: Seq<u8>)
    requires
        all_ascii(b),
    ensures
        valid_utf8(b),
{
    let cs = Seq::new(b.len(), |i: int| b[i] as char);
    assert(is_ascii_chars(cs));
    is_ascii_chars_encode_utf8(cs);
    assert(encode_utf8(cs) =~= b);
    encode_utf8_valid_utf8(cs);
}

/// Relies on `String::from_utf8`: it succeeds exactly on valid UTF-8 and
/// decodes those bytes.
#[verifier::external_body]
fn string_from_utf8(b: Vec<u8>) -> (r: Option<String>)
    ensures
        r is Some <==> valid_utf8(b@),
        r is Some ==> r->Some_0@ == decode_utf8(b@),
{
    String::from_utf8(b).ok()
}

/// Turns bytes into a `String` when they are valid UTF-8; the text holds
/// exactly those bytes.
pub fn utf8_string(b: Vec<u8>) -> (r: Option<String>)
    ensures
        r is Some <==> valid_utf8(b@),
        r is Some ==> bytes_of(r->Some_0@) == b@,
{
    proof {
        if valid_utf8(b@) {
            decode_utf8_encode_utf8(b@);
        }
    }
    string_from_utf8(b)
}

/// Turns ASCII bytes into a `String`.
pub fn ascii_string(b: Vec<u8>) -> (r: String)
    requires
        all_ascii(b@),
    ensures
        bytes_of(r@) == b@,
{
    proof {
        lemma_ascii_valid_utf8(b@);
    }
    let r = utf8_string(b);
    r.unwrap()
}

/// The bytes of a string slice.
pub fn str_bytes(s: &str) -> (r: &[u8])
    ensures
        r@ == bytes_of(s@),
{
    s.as_bytes()
}

/// A copy of a string slice as an owned `String`.
pub fn owned(s: &str) -> (r: String)
    ensures
        r@ == s@,
{
    s.to_owned()
}

} // verus!

verus! {

/// The UTF-8 bytes of ASCII text are its characters one by one.
pub proof fn lemma_ascii_chars_bytes(s: Seq<char>)
    requires
        is_ascii_chars(s),
    ensures
        bytes_of(s) == s.map_values(|c: char| c as u8),
{
    is_ascii_chars_encode_utf8(s);
    assert(bytes_of(s) =~= s.map_values(|c: char| c as u8));
}

/// The index of the first `c` in `s` at or after `from`, or -1.
pub open spec fn find_from(s: Seq<u8>, c: u8, from: int) -> int
    decreases s.len() - from,
{
    if from < 0 || from >= s.len() {
        -1
    } else if s[from] == c {
        from
    } else {
        find_from(s, c, from + 1)
    }
}

/// Facts about a search result.
pub proof fn lemma_find_from(s: Seq<u8>, c: u8, from: int)
    requires
        0 <= from,
    ensures
        find_from(s, c, from) == -1 || (from <= find_from(s, c, from) < s.len() && s[find_from(
            s,
            c,
            from,
        )] == c),
        find_from(s, c, from) == -1 ==> forall|j: int| from <= j < s.len() ==> s[j] != c,
        find_from(s, c, from) != -1 ==> forall|j: int|
            from <= j < find_from(s, c, from) ==> s[j] != c,
    decreases s.len() - from,
{
    if from < s.len() && s[from] != c {
        lemma_find_from(s, c, from + 1);
    }
}

/// The first position at or after `from` holding `c`.
pub fn position_from(s: &[u8], from: usize, c: u8) -> (r: Option<usize>)
    ensures
        r is Some <==> find_from(s@, c, from as int) != -1,
        r is Some ==> r->Some_0 as int == find_from(s@, c, from as int),
{
    let mut i = from;
    while i < s.len()
        invariant
            from <= i,
            find_from(s@, c, from as int) == find_from(s@, c, i as int),
        decreases s@.len() - i,
    {
        if s[i] == c {
            return Some(i);
        }
        i = i + 1;
    }
    None
}

/// A copy of part of a byte slice.
pub fn copy_range(s: &[u8], from: usize, to: usize) -> (r: Vec<u8>)
    requires
        from <= to <= s@.len(),
    ensures
        r@ == s@.subrange(from as int, to as int),
{
    let mut r: Vec<u8> = Vec::with_capacity(to - from);
    let mut i = from;
    while i < to
        invariant
            from <= i <= to,
            to <= s@.len(),
            r@ == s@.subrange(from as int, i as int),
        decreases to - i,
    {
        r.push(s[i]);
        i = i + 1;
    }
    r
}

/// True when every byte is an ASCII decimal digit.
pub open spec fn all_digits(s: Seq<u8>) -> bool {
    forall|i: int| 0 <= i < s.len() ==> 48 <= #[trigger] s[i] <= 57
}

/// The number that a run of decimal digits denotes.
pub open spec fn digits_value(s: Seq<u8>) -> nat
    decreases s.len(),
{
    if s.len() == 0 {
        0
    } else {
        digits_value(s.drop_last()) * 10 + (s.last() - 48) as nat
    }
}

/// A longer run of digits is worth at least as much as its prefix.
pub proof fn lemma_digits_monotone(s: Seq<u8>, j: int)
    requires
        0 <= j <= s.len(),
        all_digits(s),
    ensures
        digits_value(s.subrange(0, j)) <= digits_value(s),
    decreases s.len() - j,
{
    if j < s.len() {
        lemma_digits_monotone(s, j + 1);
        assert(s.subrange(0, j + 1).drop_last() =~= s.subrange(0, j));
    } else {
        assert(s.subrange(0, j) =~= s);
    }
}

/// Parses a run of ASCII decimal digits of `s[from..to]` that fits in `u64`.
pub fn parse_digits_u64(s: &[u8], from: usize, to: usize) -> (r: Option<u64>)
    requires
        from <= to <= s@.len(),
    ensures
        r is Some <==> (to > from && all_digits(s@.subrange(from as int, to as int))
            && digits_value(s@.subrange(from as int, to as int)) <= u64::MAX),
        r is Some ==> r->Some_0 == digits_value(s@.subrange(from as int, to as int)),
{
    if to == from {
        return None;
    }
    let ghost d = s@.subrange(from as int, to as int);
    let mut v: u64 = 0;
    let mut i = from;
    while i < to
        invariant
            from <= i <= to,
            to <= s@.len(),
            d == s@.subrange(from as int, to as int),
            all_digits(d.subrange(0, i - from)),
            v == digits_value(d.subrange(0, i - from)),
        decreases to - i,
    {
        let c = s[i];
        if c < 48 || c > 57 {
            assert(d[i - from] == c);
            return None;
        }
        assert(d.subrange(0, i + 1 - from).drop_last() =~= d.subrange(0, i - from));
        let dv = (c - 48) as u64;
        if v > (u64::MAX - dv) / 10 {
            proof {
                let k = i + 1 - from;
                assert(v * 10 + dv > u64::MAX) by (nonlinear_arith)
                    requires
                        v > (u64::MAX - dv) / 10,
                        dv <= 9,
                ;
                if all_digits(d) {
                    lemma_digits_monotone(d, k);
                }
            }
            return None;
        }
        assert(v * 10 + dv <= u64::MAX) by (nonlinear_arith)
            requires
                v <= (u64::MAX - dv) / 10,
                dv <= 9,
        ;
        v = v * 10 + dv;
        i = i + 1;
    }
    assert(d.subrange(0, to - from) =~= d);
    Some(v)
}

/// Parses a run of ASCII decimal digits of `s[from..to]` that fits in `usize`.
pub fn parse_digits(s: &[u8], from: usize, to: usize) -> (r: Option<usize>)
    requires
        from <= to <= s@.len(),
    ensures
        r is Some <==> (to > from && all_digits(s@.subrange(from as int, to as int))
            && digits_value(s@.subrange(from as int, to as int)) <= usize::MAX),
        r is Some ==> r->Some_0 == digits_value(s@.subrange(from as int, to as int)),
{
    match parse_digits_u64(s, from, to) {
        Some(v) => {
            if v > usize::MAX as u64 {
                None
            } else {
                Some(v as usize)
            }
        },
        None => None,
    }
}

/// Decimal digits read back to the number.
pub proof fn lemma_digits_of_decimal(n: nat)
    ensures
        all_digits(crate::infra::hash::decimal(n)),
        digits_value(crate::infra::hash::decimal(n)) == n,
    decreases n,
{
    if n >= 10 {
        lemma_digits_of_decimal(n / 10);
        let d = crate::infra::hash::decimal(n);
        assert(d.drop_last() =~= crate::infra::hash::decimal(n / 10));
        assert(d.last() == (48 + n % 10) as u8);
        assert(digits_value(d) == digits_value(d.drop_last()) * 10 + (d.last() - 48) as nat);
        assert((n / 10) * 10 + n % 10 == n);
    } else {
        let d = crate::infra::hash::decimal(n);
        assert(d.drop_last() =~= Seq::<u8>::empty());
        assert(digits_value(d) == digits_value(d.drop_last()) * 10 + (d.last() - 48) as nat);
    }
}

} // verus!

verus! {

/// Turns bytes known to be valid UTF-8 into a `String`.
pub fn text_of(b: Vec<u8>) -> (r: String)
    requires
        valid_utf8(b@),
    ensures
        bytes_of(r@) == b@,
{
    utf8_string(b).unwrap()
}

/// Appends part of a byte slice to a vector.
pub fn append_range(out: &mut Vec<u8>, s: &[u8], from: usize, to: usize)
    requires
        from <= to <= s@.len(),
    ensures
        final(out)@ == old(out)@ + s@.subrange(from as int, to as int),
{
    let ghost start = out@;
    let mut i = from;
    while i < to
        invariant
            from <= i <= to,
            to <= s@.len(),
            out@ == start + s@.subrange(from as int, i as int),
        decreases to - i,
    {
        out.push(s[i]);
        i = i + 1;
        assert(out@ =~= start + s@.subrange(from as int, i as int));
    }
}

/// Appends a whole byte slice to a vector.
pub fn append_all(out: &mut Vec<u8>, s: &[u8])
    ensures
        final(out)@ == old(out)@ + s@,
{
    append_range(out, s, 0, s.len());
    assert(s@.subrange(0, s@.len() as int) =~= s@);
}

} // verus!

verus! {

/// Relies on `std::str::from_utf8`: it succeeds exactly on valid UTF-8 and
/// borrows those bytes as text.
#[verifier::external_body]
pub(crate) fn str_from_utf8(b: &[u8]) -> (r: Option<&str>)
    ensures
        r is Some <==> valid_utf8(b@),
        r is Some ==> r->Some_0@ == decode_utf8(b@),
{
    std::str::from_utf8(b).ok()
}

/// Texts with the same bytes are the same text.
pub proof fn lemma_bytes_of_injective(a: Seq<char>, b: Seq<char>)
    requires
        bytes_of(a) == bytes_of(b),
    ensures
        a == b,
{
    encode_utf8_decode_utf8(a);
    encode_utf8_decode_utf8(b);
}

/// Compares a string slice with a byte sequence.
pub fn str_eq_bytes(s: &str, b: &[u8]) -> (r: bool)
    ensures
        r == (bytes_of(s@) == b@),
{
    let sb = str_bytes(s);
    if sb.len() != b.len() {
        return false;
    }
    let mut i: usize = 0;
    while i < b.len()
        invariant
            0 <= i <= b@.len(),
            sb@.len() == b@.len(),
            sb@ == bytes_of(s@),
            forall|j: int| 0 <= j < i ==> sb@[j] == b@[j],
        decreases b@.len() - i,
    {
        if sb[i] != b[i] {
            assert(sb@[i as int] != b@[i as int]);
            return false;
        }
        i = i + 1;
    }
    assert(sb@ =~= b@);
    true
}

} // verus!

verus! {

/// Whether `s[from..to]` equals `lit`.
pub fn range_eq(s: &[u8], from: usize, to: usize, lit: &[u8]) -> (r: bool)
    requires
        from <= to <= s@.len(),
    ensures
        r == (s@.subrange(from as int, to as int) == lit@),
{
    if to - from != lit.len() {
        return false;
    }
    let mut i: usize = 0;
    while i < lit.len()
        invariant
            0 <= i <= lit@.len(),
            to - from == lit@.len(),
            from <= to <= s@.len(),
            forall|j: int| 0 <= j < i ==> s@[from + j] == lit@[j],
        decreases lit@.len() - i,
    {
        if s[from + i] != lit[i] {
            assert(s@.subrange(from as int, to as int)[i as int] != lit@[i as int]);
            return false;
        }
        i = i + 1;
    }
    assert(s@.subrange(from as int, to as int) =~= lit@);
    true
}

} // verus!

verus! {

/// ASCII whitespace: space, tab, line feed, vertical tab, form feed, carriage return.
pub open spec fn is_ws(b: u8) -> bool {
    b == 32 || b == 9 || b == 10 || b == 11 || b == 12 || b == 13
}

/// The first index at or after `i` that is not whitespace, or the length.
pub open spec fn skip_ws(s: Seq<u8>, i: int) -> int
    decreases s.len() - i,
{
    if i < 0 || i >= s.len() {
        s.len() as int
    } else if is_ws(s[i]) {
        skip_ws(s, i + 1)
    } else {
        i
    }
}

/// The first index at or after `i` that is whitespace, or the length.
pub open spec fn token_end(s: Seq<u8>, i: int) -> int
    decreases s.len() - i,
{
    if i < 0 || i >= s.len() {
        s.len() as int
    } else if is_ws(s[i]) {
        i
    } else {
        token_end(s, i + 1)
    }
}

/// The end of `s[..j]` once trailing whitespace is dropped.
pub open spec fn trim_end_at(s: Seq<u8>, j: int) -> int
    decreases j,
{
    if j <= 0 || j > s.len() {
        if j > s.len() { s.len() as int } else { 0 }
    } else if is_ws(s[j - 1]) {
        trim_end_at(s, j - 1)
    } else {
        j
    }
}

/// `s` without leading and trailing whitespace.
pub open spec fn trimmed(s: Seq<u8>) -> Seq<u8> {
    let a = skip_ws(s, 0);
    let b = trim_end_at(s, s.len() as int);
    if a < b {
        s.subrange(a, b)
    } else {
        Seq::empty()
    }
}

/// Bounds of the whitespace helpers.
pub proof fn lemma_ws_bounds(s: Seq<u8>, i: int)
    requires
        0 <= i <= s.len(),
    ensures
        i <= skip_ws(s, i) <= s.len(),
        i <= token_end(s, i) <= s.len(),
        0 <= trim_end_at(s, i) <= i,
    decreases s.len() - i,
{
    if i < s.len() {
        lemma_ws_bounds(s, i + 1);
    }
    lemma_trim_bounds(s, i);
}

proof fn lemma_trim_bounds(s: Seq<u8>, j: int)
    requires
        0 <= j <= s.len(),
    ensures
        0 <= trim_end_at(s, j) <= j,
    decreases j,
{
    if j > 0 {
        lemma_trim_bounds(s, j - 1);
    }
}

/// Skips whitespace in `s` from `i`.
pub fn skip_whitespace(s: &[u8], i: usize) -> (r: usize)
    requires
        i <= s@.len(),
    ensures
        r == skip_ws(s@, i as int),
{
    let mut k = i;
    while k < s.len() && (s[k] == 32 || s[k] == 9 || s[k] == 10 || s[k] == 11 || s[k] == 12
        || s[k] == 13)
        invariant
            i <= k <= s@.len(),
            skip_ws(s@, i as int) == skip_ws(s@, k as int),
        decreases s@.len() - k,
    {
        k = k + 1;
    }
    k
}

/// The end of the token of `s` that starts at `i`.
pub fn token_end_at(s: &[u8], i: usize) -> (r: usize)
    requires
        i <= s@.len(),
    ensures
        r == token_end(s@, i as int),
{
    let mut k = i;
    while k < s.len() && !(s[k] == 32 || s[k] == 9 || s[k] == 10 || s[k] == 11 || s[k] == 12
        || s[k] == 13)
        invariant
            i <= k <= s@.len(),
            token_end(s@, i as int) == token_end(s@, k as int),
        decreases s@.len() - k,
    {
        k = k + 1;
    }
    k
}

/// The bounds of `s[from..to]` without surrounding whitespace, as `(a, b)`
/// with `a >= b` when nothing is left.
pub fn trim_range(s: &[u8], from: usize, to: usize) -> (r: (usize, usize))
    requires
        from <= to <= s@.len(),
    ensures
        trimmed(s@.subrange(from as int, to as int)) == if r.0 < r.1 {
            s@.subrange(r.0 as int, r.1 as int)
        } else {
            Seq::empty()
        },
        from <= r.0,
        r.1 <= to,
        r.0 < r.1 ==> (r.0 == from || is_ws(s@[r.0 - 1])) && (r.1 == to || is_ws(s@[r.1 as int])),
{
    let ghost t = s@.subrange(from as int, to as int);
    let mut a = from;
    while a < to && (s[a] == 32 || s[a] == 9 || s[a] == 10 || s[a] == 11 || s[a] == 12 || s[a]
        == 13)
        invariant
            from <= a <= to,
            to <= s@.len(),
            t == s@.subrange(from as int, to as int),
            skip_ws(t, 0) == skip_ws(t, a - from),
            a == from || is_ws(s@[a - 1]),
        decreases to - a,
    {
        a = a + 1;
    }
    let mut b = to;
    while b > from && (s[b - 1] == 32 || s[b - 1] == 9 || s[b - 1] == 10 || s[b - 1] == 11
        || s[b - 1] == 12 || s[b - 1] == 13)
        invariant
            from <= b <= to,
            to <= s@.len(),
            t == s@.subrange(from as int, to as int),
            trim_end_at(t, t.len() as int) == trim_end_at(t, b - from),
            b == to || is_ws(s@[b as int]),
        decreases b,
    {
        b = b - 1;
    }
    proof {
        lemma_ws_bounds(t, 0);
        if a < b {
            assert(t.subrange(a - from, b - from) =~= s@.subrange(a as int, b as int));
        }
    }
    (a, b)
}

} // verus!

verus! {

/// Lexicographic order on bytes from position `i` on, given that the
/// earlier bytes agree.
pub open spec fn lex_lt_from(a: Seq<u8>, b: Seq<u8>, i: int) -> bool
    decreases a.len() - i,
{
    if i < 0 {
        false
    } else if i >= a.len() {
        i < b.len()
    } else if i >= b.len() {
        false
    } else if a[i] != b[i] {
        a[i] < b[i]
    } else {
        lex_lt_from(a, b, i + 1)
    }
}

/// Strict lexicographic order on byte sequences (a proper prefix comes first).
pub open spec fn lex_lt(a: Seq<u8>, b: Seq<u8>) -> bool {
    lex_lt_from(a, b, 0)
}

proof fn lemma_lex_total_from(a: Seq<u8>, b: Seq<u8>, i: int)
    requires
        0 <= i <= a.len(),
        i <= b.len(),
        a.subrange(0, i) == b.subrange(0, i),
    ensures
        lex_lt_from(a, b, i) || lex_lt_from(b, a, i) || a == b,
        !(lex_lt_from(a, b, i) && lex_lt_from(b, a, i)),
    decreases a.len() - i,
{
    if i < a.len() && i < b.len() && a[i] == b[i] {
        assert(a.subrange(0, i + 1) =~= a.subrange(0, i).push(a[i]));
        assert(b.subrange(0, i + 1) =~= b.subrange(0, i).push(b[i]));
        lemma_lex_total_from(a, b, i + 1);
    } else if i == a.len() && i == b.len() {
        assert(a =~= a.subrange(0, i));
        assert(b =~= b.subrange(0, i));
    }
}

/// Any two byte sequences are ordered one way, the other, or equal; never both ways.
pub proof fn lemma_lex_total(a: Seq<u8>, b: Seq<u8>)
    ensures
        lex_lt(a, b) || lex_lt(b, a) || a == b,
        !(lex_lt(a, b) && lex_lt(b, a)),
{
    assert(a.subrange(0, 0) =~= b.subrange(0, 0));
    lemma_lex_total_from(a, b, 0);
}

proof fn lemma_lex_trans_from(a: Seq<u8>, b: Seq<u8>, c: Seq<u8>, i: int)
    requires
        0 <= i,
        lex_lt_from(a, b, i),
        lex_lt_from(b, c, i),
    ensures
        lex_lt_from(a, c, i),
    decreases a.len() - i,
{
    if i < a.len() && i < b.len() && i < c.len() && a[i] == b[i] && b[i] == c[i] {
        lemma_lex_trans_from(a, b, c, i + 1);
    }
}

/// The order is transitive.
pub proof fn lemma_lex_trans(a: Seq<u8>, b: Seq<u8>, c: Seq<u8>)
    requires
        lex_lt(a, b),
        lex_lt(b, c),
    ensures
        lex_lt(a, c),
{
    lemma_lex_trans_from(a, b, c, 0);
}

/// The order is irreflexive.
pub proof fn lemma_lex_irreflexive(a: Seq<u8>)
    ensures
        !lex_lt(a, a),
{
    lemma_lex_total(a, a);
}

/// Whether `a` comes strictly before `b`.
pub fn bytes_lt(a: &[u8], b: &[u8]) -> (r: bool)
    ensures
        r == lex_lt(a@, b@),
{
    let mut i: usize = 0;
    while i < a.len() && i < b.len() && a[i] == b[i]
        invariant
            0 <= i <= a@.len(),
            i <= b@.len(),
            lex_lt(a@, b@) == lex_lt_from(a@, b@, i as int),
        decreases a@.len() - i,
    {
        i = i + 1;
    }
    if i < a.len() && i < b.len() {
        a[i] < b[i]
    } else {
        i == a.len() && i < b.len()
    }
}

} // verus!

verus! {

/// True when `q` is the bytes of one of the texts.
pub open spec fn in_paths(ps: Seq<String>, q: Seq<u8>) -> bool {
    exists|k: int| 0 <= k < ps.len() && bytes_of(ps[k]@) == q
}

/// Adds a text to a strictly sorted list of texts, unless it is there.
pub fn insert_sorted_unique(paths: &mut Vec<String>, p: &String)
    requires
        forall|a: int, b: int| 0 <= a < b < old(paths)@.len() ==> lex_lt(bytes_of(old(paths)@[a]@), bytes_of(old(paths)@[b]@)),
    ensures
        forall|a: int, b: int| 0 <= a < b < final(paths)@.len() ==> lex_lt(bytes_of(final(paths)@[a]@), bytes_of(final(paths)@[b]@)),
        forall|q: Seq<u8>| #[trigger] in_paths(final(paths)@, q) <==> (in_paths(old(paths)@, q) || q == bytes_of(p@)),
{
    let pb = str_bytes(p.as_str());
    let mut q: usize = 0;
    while q < paths.len() && bytes_lt(str_bytes(paths[q].as_str()), pb)
        invariant
            0 <= q <= paths@.len(),
            paths@ == old(paths)@,
            pb@ == bytes_of(p@),
            forall|a: int| 0 <= a < q ==> lex_lt(bytes_of(#[trigger] paths@[a]@), pb@),
        decreases paths@.len() - q,
    {
        q = q + 1;
    }
    if q < paths.len() && str_eq_bytes(paths[q].as_str(), pb) {
        assert(bytes_of(paths@[q as int]@) == pb@);
        assert(in_paths(paths@, pb@));
        return;
    }
    let ghost old_ps = paths@;
    paths.insert(q, p.clone());
    proof {
        let ps = paths@;
        assert(ps =~= old_ps.insert(q as int, *p));
        if q < old_ps.len() {
            crate::text::lemma_lex_total(bytes_of(old_ps[q as int]@), pb@);
        }
        assert forall|a: int, b: int| 0 <= a < b < ps.len() implies lex_lt(bytes_of(ps[a]@), bytes_of(ps[b]@)) by {
            if b < q {
            } else if a < q && b == q {
            } else if a < q && b > q {
                assert(ps[b] == old_ps[b - 1]);
                crate::text::lemma_lex_trans(bytes_of(old_ps[a]@), pb@, bytes_of(old_ps[q as int]@));
                if b - 1 > q {
                    crate::text::lemma_lex_trans(bytes_of(old_ps[a]@), bytes_of(old_ps[q as int]@), bytes_of(old_ps[b - 1]@));
                }
            } else if a == q {
                assert(ps[b] == old_ps[b - 1]);
                if b - 1 > q {
                    crate::text::lemma_lex_trans(pb@, bytes_of(old_ps[q as int]@), bytes_of(old_ps[b - 1]@));
                }
            } else {
                assert(ps[a] == old_ps[a - 1]);
                assert(ps[b] == old_ps[b - 1]);
            }
        }
        assert forall|x: Seq<u8>| #[trigger] in_paths(ps, x) <==> (in_paths(old_ps, x) || x == pb@) by {
            if exists|k: int| 0 <= k < old_ps.len() && bytes_of(old_ps[k]@) == x {
                let k = choose|k: int| 0 <= k < old_ps.len() && bytes_of(old_ps[k]@) == x;
                if k < q {
                    assert(ps[k] == old_ps[k]);
                } else {
                    assert(ps[k + 1] == old_ps[k]);
                }
            }
            if x == pb@ {
                assert(ps[q as int] == *p);
            }
            if exists|k: int| 0 <= k < ps.len() && bytes_of(ps[k]@) == x {
                let k = choose|k: int| 0 <= k < ps.len() && bytes_of(ps[k]@) == x;
                if k < q {
                    assert(ps[k] == old_ps[k]);
                } else if k > q {
                    assert(ps[k] == old_ps[k - 1]);
                }
            }
        }
    }
}


/// Texts in strictly ascending byte order.
pub open spec fn strictly_sorted(ps: Seq<String>) -> bool {
    forall|a: int, b: int| 0 <= a < b < ps.len() ==> lex_lt(bytes_of(ps[a]@), bytes_of(ps[b]@))
}

/// Joins two texts.
pub fn concat(a: &str, b: &str) -> (r: String)
    ensures
        bytes_of(r@) == bytes_of(a@) + bytes_of(b@),
{
    let mut v: Vec<u8> = Vec::new();
    append_all(&mut v, str_bytes(a));
    append_all(&mut v, str_bytes(b));
    proof {
        encode_utf8_valid_utf8(a@);
        encode_utf8_valid_utf8(b@);
        valid_utf8_concat(bytes_of(a@), bytes_of(b@));
    }
    text_of(v)
}

/// Whether `s` begins with `prefix`.
pub fn starts_with_bytes(s: &[u8], prefix: &[u8]) -> (r: bool)
    ensures
        r == (s@.len() >= prefix@.len() && s@.subrange(0, prefix@.len() as int) == prefix@),
{
    if s.len() < prefix.len() {
        return false;
    }
    range_eq(s, 0, prefix.len(), prefix)
}

} // verus!

verus! {

/// Valid UTF-8 cut next to an ASCII byte leaves valid UTF-8 on both sides.
pub proof fn lemma_valid_cut(b: Seq<u8>, k: int)
    requires
        valid_utf8(b),
        0 <= k <= b.len(),
        k == 0 || k == b.len() || b[k] < 128 || b[k - 1] < 128,
    ensures
        valid_utf8(b.subrange(0, k)),
        valid_utf8(b.subrange(k, b.len() as int)),
{
    if k == 0 {
        assert(b.subrange(0, 0) =~= Seq::<u8>::empty());
        assert(b.subrange(0, b.len() as int) =~= b);
    } else if k == b.len() {
        assert(b.subrange(0, k) =~= b);
        assert(b.subrange(k, k) =~= Seq::<u8>::empty());
    } else if b[k] < 128 {
        is_char_boundary_iff_is_leading_byte(b, k);
        valid_utf8_split(b, k);
    } else {
        is_char_boundary_iff_is_leading_byte(b, k - 1);
        valid_utf8_split(b, k - 1);
        let r = b.subrange(k - 1, b.len() as int);
        assert(valid_utf8(r));
        assert(length_of_first_scalar(r) == 1);
        assert(pop_first_scalar(r) =~= b.subrange(k, b.len() as int));
        let one = seq![b[k - 1]];
        lemma_ascii_valid_utf8(one);
        valid_utf8_concat(b.subrange(0, k - 1), one);
        assert(b.subrange(0, k - 1) + one =~= b.subrange(0, k));
    }
}

/// A slice of valid UTF-8 whose ends sit next to ASCII bytes is valid.
pub proof fn lemma_valid_slice(b: Seq<u8>, a: int, c: int)
    requires
        valid_utf8(b),
        0 <= a <= c <= b.len(),
        a == 0 || a == b.len() || b[a] < 128 || b[a - 1] < 128,
        c == 0 || c == b.len() || b[c] < 128 || b[c - 1] < 128,
    ensures
        valid_utf8(b.subrange(a, c)),
{
    lemma_valid_cut(b, a);
    let s = b.subrange(a, b.len() as int);
    let k = c - a;
    if k == 0 || k == s.len() {
    } else {
        assert(s[k] == b[c]);
        assert(s[k - 1] == b[c - 1]);
    }
    lemma_valid_cut(s, k);
    assert(s.subrange(0, k) =~= b.subrange(a, c));
}

} // verus!
