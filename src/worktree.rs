//! Decisions behind the operations that change a repository: which files
//! the working tree holds, which paths a checkout removes or writes, how
//! commits and trees are written, and which names and prefixes are valid.

use vstd::prelude::*;
use vstd::string::StrSliceExecFns;

use crate::diff::{flat_v, flats_v, FlatEntry, FlatV};
use crate::error::Error;
use crate::index::{entries_v, Index, IndexEntry, IndexEntryV};
use crate::infra::hash::{decimal, decimal_bytes, object_id};
use crate::objects::commit::i64_value;
use crate::objects::oid::{hex_of, is_hex, Oid};
use crate::objects::store::{kind_name, ObjectType};
use crate::objects::tree::{entries_v as tree_entries_v, octal_of, tree_body, EntryV, FileMode, TreeEntry};
use crate::status::flat_lookup;
use crate::text::{append_all, bytes_lt, bytes_of, lex_lt, owned, str_bytes, str_eq_bytes};

verus! {

/// A control character (Unicode category Cc).
pub open spec fn is_control(c: char) -> bool {
    (c as u32) < 0x20 || (0x7f <= (c as u32) && (c as u32) <= 0x9f)
}

/// A character that reference names may not hold.
pub open spec fn is_banned(c: char) -> bool {
    c == '~' || c == '^' || c == ':' || c == '?' || c == '*' || c == '[' || c == '\\'
}

/// A valid branch name: not empty, no leading `-`, no leading or trailing
/// `/`, no trailing `.lock`, none of `~ ^ : ? * [ \`, no `..`, no control
/// character.
pub open spec fn valid_branch_name(s: Seq<char>) -> bool {
    &&& s.len() > 0
    &&& s[0] != '-'
    &&& s[0] != '/'
    &&& s.last() != '/'
    &&& !(s.len() >= 5 && s.subrange(s.len() - 5, s.len() as int) == seq!['.', 'l', 'o', 'c', 'k'])
    &&& forall|i: int| 0 <= i < s.len() ==> !is_banned(#[trigger] s[i]) && !is_control(s[i])
    &&& forall|i: int| 0 <= i < s.len() - 1 ==> !(#[trigger] s[i] == '.' && s[i + 1] == '.')
}

/// Checks a branch name.
pub fn validate_branch_name(name: &str) -> (r: Result<(), Error>)
    ensures
        r is Ok <==> valid_branch_name(name@),
        r is Err ==> r->Err_0 is InvalidRefName,
{
    let n = name.unicode_len();
    if n == 0 {
        return Err(Error::InvalidRefName(owned(name)));
    }
    let first = name.get_char(0);
    let last = name.get_char(n - 1);
    if first == '-' || first == '/' || last == '/' {
        return Err(Error::InvalidRefName(owned(name)));
    }
    if n >= 5 && name.get_char(n - 5) == '.' && name.get_char(n - 4) == 'l' && name.get_char(n - 3) == 'o'
        && name.get_char(n - 2) == 'c' && name.get_char(n - 1) == 'k' {
        assert(name@.subrange(n - 5, n as int) =~= seq!['.', 'l', 'o', 'c', 'k']);
        return Err(Error::InvalidRefName(owned(name)));
    }
    proof {
        if n >= 5 && name@.subrange(n - 5, n as int) == seq!['.', 'l', 'o', 'c', 'k'] {
            assert(name@[n - 5] == name@.subrange(n - 5, n as int)[0]);
            assert(name@[n - 4] == name@.subrange(n - 5, n as int)[1]);
            assert(name@[n - 3] == name@.subrange(n - 5, n as int)[2]);
            assert(name@[n - 2] == name@.subrange(n - 5, n as int)[3]);
            assert(name@[n - 1] == name@.subrange(n - 5, n as int)[4]);
        }
    }
    let mut i: usize = 0;
    while i < n
        invariant
            0 <= i <= n,
            n == name@.len(),
            forall|j: int| 0 <= j < i ==> !is_banned(#[trigger] name@[j]) && !is_control(name@[j]),
            forall|j: int| 0 <= j < i && j < n - 1 ==> !(#[trigger] name@[j] == '.' && name@[j + 1] == '.'),
        decreases n - i,
    {
        let c = name.get_char(i);
        let u = c as u32;
        if c == '~' || c == '^' || c == ':' || c == '?' || c == '*' || c == '[' || c == '\\' || u < 0x20 || (0x7f <= u && u <= 0x9f) {
            return Err(Error::InvalidRefName(owned(name)));
        }
        if i + 1 < n && c == '.' && name.get_char(i + 1) == '.' {
            return Err(Error::InvalidRefName(owned(name)));
        }
        i = i + 1;
    }
    Ok(())
}

/// Whether the walker keeps a directory entry of this name: `.git` never,
/// other names starting with `.` only `.gitignore` and `.gitattributes`.
pub open spec fn keeps_name(n: Seq<u8>) -> bool {
    let git = seq![46u8, 103, 105, 116];
    let ignore = seq![46u8, 103, 105, 116, 105, 103, 110, 111, 114, 101];
    let attrs = seq![46u8, 103, 105, 116, 97, 116, 116, 114, 105, 98, 117, 116, 101, 115];
    n != git && (n.len() == 0 || n[0] != 46u8 || n == ignore || n == attrs)
}

/// Whether the working-tree walker keeps an entry with this file name.
pub fn is_tracked_name(name: &str) -> (r: bool)
    ensures
        r == keeps_name(bytes_of(name@)),
{
    let b = str_bytes(name);
    let g = ".git".as_bytes();
    let gi = ".gitignore".as_bytes();
    let ga = ".gitattributes".as_bytes();
    proof {
        reveal_strlit(".git");
        reveal_strlit(".gitignore");
        reveal_strlit(".gitattributes");
        crate::text::lemma_ascii_chars_bytes(".git"@);
        crate::text::lemma_ascii_chars_bytes(".gitignore"@);
        crate::text::lemma_ascii_chars_bytes(".gitattributes"@);
        assert(g@ =~= seq![46u8, 103, 105, 116]);
        assert(gi@ =~= seq![46u8, 103, 105, 116, 105, 103, 110, 111, 114, 101]);
        assert(ga@ =~= seq![46u8, 103, 105, 116, 97, 116, 116, 114, 105, 98, 117, 116, 101, 115]);
    }
    let n = b.len();
    assert(b@.subrange(0, n as int) =~= b@);
    if crate::text::range_eq(b, 0, n, g) {
        return false;
    }
    if n > 0 && b[0] == 46u8 {
        return crate::text::range_eq(b, 0, n, gi) || crate::text::range_eq(b, 0, n, ga);
    }
    true
}

/// A relative path that is safe to join to a root: no `..` component and
/// no NUL byte.
pub open spec fn safe_relative(p: Seq<u8>) -> bool {
    (forall|i: int| 0 <= i < p.len() ==> p[i] != 0)
        && forall|i: int| 0 <= i <= p.len() - 2 ==> !(#[trigger] p[i] == 46u8 && p[i + 1] == 46u8
            && (i == 0 || p[i - 1] == 47u8) && (i + 2 == p.len() || p[i + 2] == 47u8))
}

/// Checks that a relative path (with `/` separators) stays below its root.
pub fn check_relative_path(path: &str) -> (r: Result<(), Error>)
    ensures
        r is Ok <==> safe_relative(bytes_of(path@)),
        r is Err ==> r->Err_0 is PathNotFound && r->Err_0->PathNotFound_0@ == path@,
{
    let p = str_bytes(path);
    assert(p@ == bytes_of(path@));
    let n = p.len();
    let mut i: usize = 0;
    while i < n
        invariant
            0 <= i <= n,
            n == p@.len(),
            p@ == bytes_of(path@),
            forall|j: int| 0 <= j < i ==> p@[j] != 0,
            forall|j: int| 0 <= j < i && j <= n - 2 ==> !(#[trigger] p@[j] == 46u8 && p@[j + 1] == 46u8
                && (j == 0 || p@[j - 1] == 47u8) && (j + 2 == n || p@[j + 2] == 47u8)),
        decreases n - i,
    {
        if p[i] == 0 {
            assert(p@[i as int] == 0);
            assert(!safe_relative(bytes_of(path@)));
            return Err(Error::PathNotFound(owned(path)));
        }
        if i + 1 < n && p[i] == 46u8 && p[i + 1] == 46u8 && (i == 0 || p[i - 1] == 47u8) && (i + 2 == n || p[i + 2] == 47u8) {
            assert(p@[i as int] == 46u8 && p@[i + 1] == 46u8 && (i == 0 || p@[i - 1] == 47u8) && (i + 2 == p@.len() || p@[i + 2] == 47u8));
            assert(!safe_relative(p@));
            assert(!safe_relative(bytes_of(path@)));
            return Err(Error::PathNotFound(owned(path)));
        }
        i = i + 1;
    }
    Ok(())
}

/// Checks a short object id for a prefix search: 4 to 40 hexadecimal
/// digits; otherwise `InvalidOid`.
pub fn validate_prefix(prefix: &str) -> (r: Result<(), Error>)
    ensures
        r is Ok <==> (4 <= bytes_of(prefix@).len() <= 40 && is_hex(bytes_of(prefix@))),
        r is Err ==> r->Err_0 is InvalidOid,
{
    let p = str_bytes(prefix);
    assert(p@ == bytes_of(prefix@));
    if p.len() < 4 || p.len() > 40 {
        return Err(Error::InvalidOid(owned(prefix)));
    }
    let mut i: usize = 0;
    while i < p.len()
        invariant
            0 <= i <= p@.len(),
            p@ == bytes_of(prefix@),
            forall|j: int| 0 <= j < i ==> (#[trigger] crate::objects::oid::hex_value(p@[j])) is Some,
        decreases p@.len() - i,
    {
        if crate::objects::oid::hex_digit_to_value(p[i]).is_none() {
            assert(crate::objects::oid::hex_value(p@[i as int]) is None);
            assert(!is_hex(p@));
            assert(!is_hex(bytes_of(prefix@)));
            return Err(Error::InvalidOid(owned(prefix)));
        }
        i = i + 1;
    }
    Ok(())
}

/// Picks the object a short id names: exactly one match is it, none is
/// `ObjectNotFound`, several are `InvalidOid` (ambiguous).
pub fn pick_unique(short: &str, matches: &[Oid]) -> (r: Result<Oid, Error>)
    ensures
        matches@.len() == 1 ==> r == Ok::<Oid, Error>(matches@[0]),
        matches@.len() == 0 ==> r is Err && r->Err_0 is ObjectNotFound && r->Err_0->ObjectNotFound_0@ == short@,
        matches@.len() > 1 ==> r is Err && r->Err_0 is InvalidOid,
{
    if matches.len() == 0 {
        Err(Error::ObjectNotFound(owned(short)))
    } else if matches.len() == 1 {
        Ok(matches[0])
    } else {
        Err(Error::InvalidOid(owned(short)))
    }
}

/// The paths of the current tree that the target tree lacks.
pub fn paths_to_remove(current: &[FlatEntry], target: &[FlatEntry]) -> (r: Vec<String>)
    ensures
        forall|i: int| 0 <= i < r@.len() ==> flat_lookup(flats_v(current@), #[trigger] bytes_of(r@[i]@)) is Some
            && flat_lookup(flats_v(target@), bytes_of(r@[i]@)) is None,
        forall|i: int| 0 <= i < current@.len() && flat_lookup(flats_v(target@), #[trigger] flats_v(current@)[i].0) is None
            ==> exists|k: int| 0 <= k < r@.len() && bytes_of(r@[k]@) == flats_v(current@)[i].0,
{
    let ghost cv = flats_v(current@);
    let ghost tv = flats_v(target@);
    let mut removals: Vec<String> = Vec::new();
    let mut i: usize = 0;
    while i < current.len()
        invariant
            0 <= i <= current@.len(),
            cv == flats_v(current@),
            tv == flats_v(target@),
            forall|k: int| 0 <= k < removals@.len() ==> flat_lookup(cv, #[trigger] bytes_of(removals@[k]@)) is Some
                && flat_lookup(tv, bytes_of(removals@[k]@)) is None,
            forall|x: int| 0 <= x < i && flat_lookup(tv, #[trigger] cv[x].0) is None
                ==> exists|k: int| 0 <= k < removals@.len() && bytes_of(removals@[k]@) == cv[x].0,
        decreases current@.len() - i,
    {
        let p = str_bytes(current[i].path.as_str());
        let ghost before = removals@;
        if lookup(target, p).is_none() {
            removals.push(current[i].path.clone());
            proof {
                crate::status::lemma_flat_lookup(cv, cv[i as int].0);
                assert(bytes_of(removals@[removals@.len() - 1]@) == cv[i as int].0);
            }
        }
        proof {
            assert forall|x: int| 0 <= x < i + 1 && flat_lookup(tv, #[trigger] cv[x].0) is None
                implies exists|k: int| 0 <= k < removals@.len() && bytes_of(removals@[k]@) == cv[x].0 by {
                if x < i {
                    let k = choose|k: int| 0 <= k < before.len() && bytes_of(before[k]@) == cv[x].0;
                    assert(removals@[k] == before[k]);
                } else {
                    assert(bytes_of(removals@[removals@.len() - 1]@) == cv[i as int].0);
                }
            }
        }
        i = i + 1;
    }
    removals
}

/// `e` is a target file that the current tree lacks or holds with another blob.
pub open spec fn needs_write(cur: Seq<FlatV>, tgt: Seq<FlatV>, e: FlatV) -> bool {
    exists|j: int| 0 <= j < tgt.len() && e == tgt[j] && flat_lookup(cur, tgt[j].0) != Some(tgt[j].1)
}

/// The files of the target tree that are new or hold another blob.
pub fn files_to_write(current: &[FlatEntry], target: &[FlatEntry]) -> (r: Vec<FlatEntry>)
    ensures
        forall|i: int| 0 <= i < r@.len() ==> needs_write(flats_v(current@), flats_v(target@), #[trigger] flat_v(r@[i])),
        forall|j: int| 0 <= j < target@.len() && flat_lookup(flats_v(current@), #[trigger] flats_v(target@)[j].0) != Some(flats_v(target@)[j].1)
            ==> exists|i: int| 0 <= i < r@.len() && flat_v(r@[i]) == flats_v(target@)[j],
{
    let ghost cv = flats_v(current@);
    let ghost tv = flats_v(target@);
    let mut writes: Vec<FlatEntry> = Vec::new();
    let mut j: usize = 0;
    while j < target.len()
        invariant
            0 <= j <= target@.len(),
            cv == flats_v(current@),
            tv == flats_v(target@),
            forall|k: int| 0 <= k < writes@.len() ==> needs_write(cv, tv, #[trigger] flat_v(writes@[k])),
            forall|x: int| 0 <= x < j && flat_lookup(cv, #[trigger] tv[x].0) != Some(tv[x].1)
                ==> exists|k: int| 0 <= k < writes@.len() && flat_v(writes@[k]) == tv[x],
        decreases target@.len() - j,
    {
        let p = str_bytes(target[j].path.as_str());
        let same = match lookup(current, p) {
            Some(o) => o == target[j].oid,
            None => false,
        };
        let ghost before = writes@;
        if !same {
            let e = FlatEntry { path: target[j].path.clone(), oid: target[j].oid, mode: target[j].mode };
            writes.push(e);
            proof {
                assert(flat_v(writes@[writes@.len() - 1]) == tv[j as int]);
            }
        }
        proof {
            assert forall|k: int| 0 <= k < writes@.len() implies needs_write(cv, tv, #[trigger] flat_v(writes@[k])) by {
                if k < before.len() {
                    assert(writes@[k] == before[k]);
                } else {
                    assert(flat_v(writes@[k]) == tv[j as int]);
                }
            }
            assert forall|x: int| 0 <= x < j + 1 && flat_lookup(cv, #[trigger] tv[x].0) != Some(tv[x].1)
                implies exists|k: int| 0 <= k < writes@.len() && flat_v(writes@[k]) == tv[x] by {
                if x < j {
                    let k = choose|k: int| 0 <= k < before.len() && flat_v(before[k]) == tv[x];
                    assert(writes@[k] == before[k]);
                } else {
                    assert(flat_v(writes@[writes@.len() - 1]) == tv[j as int]);
                }
            }
        }
        j = j + 1;
    }
    writes
}

fn lookup(es: &[FlatEntry], p: &[u8]) -> (r: Option<Oid>)
    ensures
        match r { Some(o) => Some(o@), None => None } == flat_lookup(flats_v(es@), p@),
{
    let mut i: usize = 0;
    assert(flats_v(es@).subrange(0, es@.len() as int) =~= flats_v(es@));
    while i < es.len()
        invariant
            0 <= i <= es@.len(),
            flat_lookup(flats_v(es@), p@) == flat_lookup(flats_v(es@).subrange(i as int, es@.len() as int), p@),
        decreases es@.len() - i,
    {
        let ghost rest = flats_v(es@).subrange(i as int, es@.len() as int);
        assert(rest.drop_first() =~= flats_v(es@).subrange(i + 1, es@.len() as int));
        if str_eq_bytes(es[i].path.as_str(), p) {
            return Some(es[i].oid);
        }
        i = i + 1;
    }
    None
}

} // verus!

verus! {

/// A commit body: `tree`, an optional `parent`, `author` and `committer`
/// lines, a blank line, then the message.
pub open spec fn commit_text(tree: Seq<u8>, parent: Option<Seq<u8>>, author: Seq<u8>, committer: Seq<u8>, message: Seq<u8>) -> Seq<u8> {
    let nl = seq![10u8];
    crate::objects::commit::key_tree() + hex_of(tree) + nl
        + (match parent { Some(p) => crate::objects::commit::key_parent() + hex_of(p) + nl, None => Seq::empty() })
        + crate::objects::commit::key_author() + author + nl
        + crate::objects::commit::key_committer() + committer + nl
        + nl + message
}

fn push_lit(out: &mut Vec<u8>, s: &'static str)
    ensures
        final(out)@ == old(out)@ + bytes_of(s@),
{
    append_all(out, s.as_bytes());
}

/// Writes a commit body.
pub fn format_commit(tree: &Oid, parent: Option<&Oid>, author: &str, committer: &str, message: &str) -> (r: Vec<u8>)
    ensures
        r@ == commit_text(tree@, match parent { Some(p) => Some(p@), None => None }, bytes_of(author@), bytes_of(committer@), bytes_of(message@)),
{
    proof {
        reveal_strlit("tree ");
        reveal_strlit("parent ");
        reveal_strlit("author ");
        reveal_strlit("committer ");
        reveal_strlit("\n");
        crate::text::lemma_ascii_chars_bytes("tree "@);
        crate::text::lemma_ascii_chars_bytes("parent "@);
        crate::text::lemma_ascii_chars_bytes("author "@);
        crate::text::lemma_ascii_chars_bytes("committer "@);
        crate::text::lemma_ascii_chars_bytes("\n"@);
        assert(bytes_of("tree "@) =~= crate::objects::commit::key_tree());
        assert(bytes_of("parent "@) =~= crate::objects::commit::key_parent());
        assert(bytes_of("author "@) =~= crate::objects::commit::key_author());
        assert(bytes_of("committer "@) =~= crate::objects::commit::key_committer());
        assert(bytes_of("\n"@) =~= seq![10u8]);
    }
    let mut out: Vec<u8> = Vec::new();
    push_lit(&mut out, "tree ");
    let th = tree.to_hex();
    append_all(&mut out, th.as_str().as_bytes());
    push_lit(&mut out, "\n");
    let ghost head = out@;
    match parent {
        Some(p) => {
            push_lit(&mut out, "parent ");
            let ph = p.to_hex();
            append_all(&mut out, ph.as_str().as_bytes());
            push_lit(&mut out, "\n");
        },
        None => {},
    }
    push_lit(&mut out, "author ");
    append_all(&mut out, str_bytes(author));
    push_lit(&mut out, "\n");
    push_lit(&mut out, "committer ");
    append_all(&mut out, str_bytes(committer));
    push_lit(&mut out, "\n");
    push_lit(&mut out, "\n");
    append_all(&mut out, str_bytes(message));
    proof {
        let pp = match parent { Some(p) => Some(p@), None => None::<Seq<u8>> };
        assert(out@ =~= commit_text(tree@, pp, bytes_of(author@), bytes_of(committer@), bytes_of(message@)));
    }
    out
}

/// A signature field with a UTC offset: `Name <email> <seconds> +0000`.
pub fn signature_line(name: &str, email: &str, timestamp: u64) -> (r: String)
    ensures
        bytes_of(r@) == bytes_of(name@) + seq![32u8, 60] + bytes_of(email@) + seq![62u8, 32] + decimal(timestamp as nat) + seq![32u8, 43, 48, 48, 48, 48],
{
    let mut out: Vec<u8> = Vec::new();
    append_all(&mut out, str_bytes(name));
    out.push(32u8);
    out.push(60u8);
    append_all(&mut out, str_bytes(email));
    out.push(62u8);
    out.push(32u8);
    let mut d = crate::infra::hash::decimal_u64(timestamp);
    let ghost dv = d@;
    out.append(&mut d);
    out.push(32u8);
    out.push(43u8);
    out.push(48u8);
    out.push(48u8);
    out.push(48u8);
    out.push(48u8);
    proof {
        let tail = seq![32u8, 60];
        let mid = seq![62u8, 32] + dv + seq![32u8, 43, 48, 48, 48, 48];
        crate::infra::hash::lemma_decimal_ascii(timestamp as nat);
        vstd::utf8::encode_utf8_valid_utf8(name@);
        vstd::utf8::encode_utf8_valid_utf8(email@);
        crate::text::lemma_ascii_valid_utf8(tail);
        assert(crate::text::all_ascii(mid));
        crate::text::lemma_ascii_valid_utf8(mid);
        vstd::utf8::valid_utf8_concat(bytes_of(name@), tail);
        vstd::utf8::valid_utf8_concat(bytes_of(name@) + tail, bytes_of(email@));
        vstd::utf8::valid_utf8_concat(bytes_of(name@) + tail + bytes_of(email@), mid);
        assert(out@ =~= bytes_of(name@) + tail + bytes_of(email@) + mid);
    }
    crate::text::text_of(out)
}

/// Writes a tree body from its entries, in the order given.
pub fn build_tree_content(entries: &[TreeEntry]) -> (r: Vec<u8>)
    ensures
        r@ == tree_body(tree_entries_v(entries@)),
{
    let mut out: Vec<u8> = Vec::new();
    let ghost es = tree_entries_v(entries@);
    let mut k: usize = 0;
    assert(es.subrange(0, es.len() as int) =~= es);
    assert(out@ + tree_body(es) =~= tree_body(es));
    while k < entries.len()
        invariant
            0 <= k <= entries@.len(),
            es == tree_entries_v(entries@),
            tree_body(es) == out@ + tree_body(es.subrange(k as int, es.len() as int)),
        decreases entries@.len() - k,
    {
        let e = &entries[k];
        let ghost before = out@;
        append_all(&mut out, e.mode.as_octal().as_bytes());
        out.push(32u8);
        append_all(&mut out, e.name.as_str().as_bytes());
        out.push(0u8);
        append_all(&mut out, e.oid.as_bytes().as_slice());
        proof {
            let rest = es.subrange(k as int, es.len() as int);
            assert(rest[0] == crate::objects::tree::entry_v(entries@[k as int]));
            assert(rest.subrange(1, rest.len() as int) =~= es.subrange(k + 1, es.len() as int));
            assert(out@ =~= before + (octal_of(rest[0].0) + seq![32u8] + rest[0].1 + seq![0u8] + rest[0].2));
        }
        k = k + 1;
    }
    assert(es.subrange(es.len() as int, es.len() as int) =~= Seq::<EntryV>::empty());
    assert(out@ + Seq::<u8>::empty() =~= out@);
    out
}

} // verus!

verus! {

/// The directory part of a path (before the last `/`), or empty.
pub open spec fn parent_of(p: Seq<u8>) -> Seq<u8> {
    let k = crate::config::parser::rfind_v(p, 47, p.len() as int);
    if k < 0 { Seq::empty() } else { p.subrange(0, k) }
}

/// The last component of a path (after the last `/`).
pub open spec fn base_of(p: Seq<u8>) -> Seq<u8> {
    let k = crate::config::parser::rfind_v(p, 47, p.len() as int);
    if k < 0 { p } else { p.subrange(k + 1, p.len() as int) }
}

fn split_path(p: &str) -> (r: (Vec<u8>, Vec<u8>))
    ensures
        r.0@ == parent_of(bytes_of(p@)),
        r.1@ == base_of(bytes_of(p@)),
{
    let b = str_bytes(p);
    match crate::config::parser::rposition(b, 0, b.len(), 47) {
        Some(k) => {
            assert(b@.subrange(0, b@.len() as int) =~= b@);
            (crate::text::copy_range(b, 0, k), crate::text::copy_range(b, k + 1, b.len()))
        },
        None => {
            assert(b@.subrange(0, b@.len() as int) =~= b@);
            (Vec::new(), crate::text::copy_range(b, 0, b.len()))
        },
    }
}

/// The number of `/` in a path, its depth below the root.
pub open spec fn depth_of(p: Seq<u8>) -> nat
    decreases p.len(),
{
    if p.len() == 0 {
        0
    } else {
        depth_of(p.drop_last()) + if p.last() == 47u8 { 1nat } else { 0nat }
    }
}

/// A tree object built from the index: the directory it records (empty
/// for the root), its id and its body.
#[derive(Debug, Clone)]
pub struct TreeObject {
    pub dir: String,
    pub oid: Oid,
    pub body: Vec<u8>,
}

/// The files of the index that sit directly in directory `db`.
pub open spec fn files_in(es: Seq<IndexEntry>, db: Seq<u8>) -> Seq<EntryV>
    decreases es.len(),
{
    if es.len() == 0 {
        Seq::empty()
    } else {
        let p = bytes_of(es.last().path@);
        files_in(es.drop_last(), db) + if parent_of(p) == db && vstd::utf8::valid_utf8(base_of(p)) {
            seq![(es.last().mode, base_of(p), es.last().oid@)]
        } else {
            Seq::empty()
        }
    }
}

/// The trees already built whose directory sits directly in `db`.
pub open spec fn subdirs_in(os: Seq<TreeObject>, db: Seq<u8>) -> Seq<EntryV>
    decreases os.len(),
{
    if os.len() == 0 {
        Seq::empty()
    } else {
        let d = bytes_of(os.last().dir@);
        subdirs_in(os.drop_last(), db) + if d.len() > 0 && parent_of(d) == db && vstd::utf8::valid_utf8(base_of(d)) {
            seq![(FileMode::Directory, base_of(d), os.last().oid@)]
        } else {
            Seq::empty()
        }
    }
}

/// Entries in ascending name order.
pub open spec fn names_sorted(s: Seq<EntryV>) -> bool {
    forall|a: int, b: int| 0 <= a < b < s.len() ==> !lex_lt(s[b].1, s[a].1)
}

/// `body` lists, sorted by name, the files of `db` and the trees built so
/// far for its subdirectories.
pub open spec fn tree_of(es: Seq<IndexEntry>, os: Seq<TreeObject>, db: Seq<u8>, body: Seq<u8>) -> bool {
    exists|s: Seq<EntryV>|
        names_sorted(s) && s.to_multiset() == (files_in(es, db) + subdirs_in(os, db)).to_multiset()
            && body == #[trigger] tree_body(s)
}

/// Every tree object is stored under the hash of its body and lists its
/// directory's files and the subdirectory trees built before it.
pub open spec fn built_ok(es: Seq<IndexEntry>, os: Seq<TreeObject>) -> bool {
    forall|k: int| 0 <= k < os.len() ==> {
        &&& (#[trigger] os[k]).oid@ == object_id(kind_name(ObjectType::Tree), os[k].body@)
        &&& tree_of(es, os.subrange(0, k), bytes_of(os[k].dir@), os[k].body@)
    }
}

/// Building keeps earlier objects: appending one that is right for the
/// objects before it keeps the whole list right.
proof fn lemma_built_push(es: Seq<IndexEntry>, os: Seq<TreeObject>, o: TreeObject)
    requires
        built_ok(es, os),
        o.oid@ == object_id(kind_name(ObjectType::Tree), o.body@),
        tree_of(es, os, bytes_of(o.dir@), o.body@),
    ensures
        built_ok(es, os.push(o)),
{
    let n = os.push(o);
    assert forall|k: int| 0 <= k < n.len() implies {
        &&& (#[trigger] n[k]).oid@ == object_id(kind_name(ObjectType::Tree), n[k].body@)
        &&& tree_of(es, n.subrange(0, k), bytes_of(n[k].dir@), n[k].body@)
    } by {
        if k < os.len() {
            assert(n[k] == os[k]);
            assert(n.subrange(0, k) =~= os.subrange(0, k));
        } else {
            assert(n.subrange(0, k) =~= os);
        }
    }
}

/// Whether some tree object records directory `d`.
pub open spec fn listed(os: Seq<TreeObject>, d: Seq<u8>) -> bool {
    exists|k: int| 0 <= k < os.len() && bytes_of(os[k].dir@) == d
}

/// The directory a tree object records, as bytes.
pub open spec fn dir_of(o: TreeObject) -> Seq<u8> {
    bytes_of(o.dir@)
}

/// How deep a directory is: 0 for the root, one more than its slashes
/// otherwise.
pub open spec fn lvl(d: Seq<u8>) -> nat {
    if d.len() == 0 { 0 } else { depth_of(d) + 1 }
}

/// Deeper directories come first.
pub open spec fn deepest_first(os: Seq<TreeObject>) -> bool {
    forall|k: int, j: int| 0 <= k <= j < os.len() ==> lvl(dir_of(#[trigger] os[j])) <= lvl(dir_of(#[trigger] os[k]))
}

/// No directory is built twice.
pub open spec fn distinct_dirs(os: Seq<TreeObject>) -> bool {
    forall|j: int, k: int| 0 <= j < k < os.len() ==> dir_of(#[trigger] os[j]) != dir_of(#[trigger] os[k])
}

/// Every directory's tree comes before its parent's tree.
pub open spec fn children_first(os: Seq<TreeObject>) -> bool {
    forall|k: int, j: int| 0 <= k <= j < os.len() && dir_of(#[trigger] os[j]).len() > 0
        ==> parent_of(dir_of(os[j])) != dir_of(#[trigger] os[k])
}

proof fn lemma_rfind(s: Seq<u8>, c: u8, j: int)
    ensures
        crate::config::parser::rfind_v(s, c, j) == -1 || (0 <= crate::config::parser::rfind_v(s, c, j) < j
            && crate::config::parser::rfind_v(s, c, j) < s.len() && s[crate::config::parser::rfind_v(s, c, j)] == c),
    decreases j,
{
    if 0 < j <= s.len() && s[j - 1] != c {
        lemma_rfind(s, c, j - 1);
    }
}

proof fn lemma_depth_prefix(p: Seq<u8>, k: int)
    requires
        0 <= k < p.len(),
        p[k] == 47u8,
    ensures
        depth_of(p.subrange(0, k)) + 1 <= depth_of(p),
    decreases p.len(),
{
    if k == p.len() - 1 {
        assert(p.drop_last() =~= p.subrange(0, k));
    } else {
        lemma_depth_prefix(p.drop_last(), k);
        assert(p.drop_last().subrange(0, k) =~= p.subrange(0, k));
    }
}

/// A parent directory is shallower than its child.
proof fn lemma_parent_lvl(d: Seq<u8>)
    requires
        d.len() > 0,
    ensures
        lvl(parent_of(d)) < lvl(d),
{
    let k = crate::config::parser::rfind_v(d, 47, d.len() as int);
    lemma_rfind(d, 47, d.len() as int);
    if k >= 0 {
        lemma_depth_prefix(d, k);
    }
}

/// Building deepest first puts children before parents.
proof fn lemma_children_first(os: Seq<TreeObject>)
    requires
        deepest_first(os),
    ensures
        children_first(os),
{
    assert forall|k: int, j: int| 0 <= k <= j < os.len() && dir_of(#[trigger] os[j]).len() > 0
        implies parent_of(dir_of(os[j])) != dir_of(#[trigger] os[k]) by {
        lemma_parent_lvl(dir_of(os[j]));
        assert(lvl(dir_of(os[j])) <= lvl(dir_of(os[k])));
    }
}

/// Appending a directory of the current depth keeps the build order.
proof fn lemma_level_push(before: Seq<TreeObject>, o: TreeObject, dirs: Seq<String>, k: int, level: int)
    requires
        0 <= k < dirs.len(),
        crate::text::strictly_sorted(dirs),
        dir_of(o) == bytes_of(dirs[k]@),
        lvl(dir_of(o)) == level,
        deepest_first(before),
        distinct_dirs(before),
        forall|x: int| 0 <= x < before.len() ==> lvl(dir_of(#[trigger] before[x])) >= level,
        forall|x: int| 0 <= x < before.len() && lvl(dir_of(#[trigger] before[x])) == level
            ==> exists|j: int| 0 <= j < k && dir_of(before[x]) == bytes_of(dirs[j]@),
    ensures
        deepest_first(before.push(o)),
        distinct_dirs(before.push(o)),
        forall|x: int| 0 <= x < before.push(o).len() ==> lvl(dir_of(#[trigger] before.push(o)[x])) >= level,
        forall|x: int| 0 <= x < before.push(o).len() && lvl(dir_of(#[trigger] before.push(o)[x])) == level
            ==> exists|j: int| 0 <= j < k + 1 && dir_of(before.push(o)[x]) == bytes_of(dirs[j]@),
{
    let objs = before.push(o);
    let n = before.len() as int;
    assert(objs[n] == o);
    assert forall|x: int| 0 <= x < n implies objs[x] == before[x] by {}
    assert forall|a: int, b: int| 0 <= a <= b < objs.len() implies lvl(dir_of(#[trigger] objs[b])) <= lvl(dir_of(#[trigger] objs[a])) by {
        if b == n {
            if a < n {
                assert(lvl(dir_of(before[a])) >= level);
            }
        } else {
            assert(lvl(dir_of(before[b])) <= lvl(dir_of(before[a])));
        }
    }
    assert forall|a: int, b: int| 0 <= a < b < objs.len() implies dir_of(#[trigger] objs[a]) != dir_of(#[trigger] objs[b]) by {
        if b == n {
            if lvl(dir_of(before[a])) == level {
                let j = choose|j: int| 0 <= j < k && dir_of(before[a]) == bytes_of(dirs[j]@);
                assert(lex_lt(bytes_of(dirs[j]@), bytes_of(dirs[k]@)));
                crate::text::lemma_lex_irreflexive(bytes_of(dirs[j]@));
            }
        } else {
            assert(dir_of(before[a]) != dir_of(before[b]));
        }
    }
    assert forall|x: int| 0 <= x < objs.len() && lvl(dir_of(#[trigger] objs[x])) == level
        implies exists|j: int| 0 <= j < k + 1 && dir_of(objs[x]) == bytes_of(dirs[j]@) by {
        if x < n {
            let j = choose|j: int| 0 <= j < k && dir_of(before[x]) == bytes_of(dirs[j]@);
        } else {
            assert(dir_of(objs[x]) == bytes_of(dirs[k]@));
        }
    }
}

/// Builds the trees of the (non-root) directories with `level - 1` slashes.
fn build_level(index: &Index, dirs: &Vec<String>, level: usize, objects: &mut Vec<TreeObject>)
    requires
        built_ok(index.entries@, old(objects)@),
        crate::text::strictly_sorted(dirs@),
        deepest_first(old(objects)@),
        distinct_dirs(old(objects)@),
        forall|x: int| 0 <= x < old(objects)@.len() ==> lvl(dir_of(#[trigger] old(objects)@[x])) > level,
    ensures
        built_ok(index.entries@, final(objects)@),
        deepest_first(final(objects)@),
        distinct_dirs(final(objects)@),
        forall|x: int| 0 <= x < final(objects)@.len() ==> lvl(dir_of(#[trigger] final(objects)@[x])) >= level,
        forall|d: Seq<u8>| listed(old(objects)@, d) ==> listed(final(objects)@, d),
        forall|j: int| 0 <= j < dirs@.len() && bytes_of(#[trigger] dirs@[j]@).len() > 0
            && depth_of(bytes_of(dirs@[j]@)) + 1 == level ==> listed(final(objects)@, bytes_of(dirs@[j]@)),
{
    let ghost start = objects@;
    let mut k: usize = 0;
    while k < dirs.len()
        invariant
            0 <= k <= dirs@.len(),
            built_ok(index.entries@, objects@),
            crate::text::strictly_sorted(dirs@),
            deepest_first(objects@),
            distinct_dirs(objects@),
            forall|x: int| 0 <= x < objects@.len() ==> lvl(dir_of(#[trigger] objects@[x])) >= level,
            forall|x: int| 0 <= x < objects@.len() && lvl(dir_of(#[trigger] objects@[x])) == level
                ==> exists|j: int| 0 <= j < k && dir_of(objects@[x]) == bytes_of(dirs@[j]@),
            forall|d: Seq<u8>| listed(start, d) ==> listed(objects@, d),
            forall|j: int| 0 <= j < k && bytes_of(#[trigger] dirs@[j]@).len() > 0
                && depth_of(bytes_of(dirs@[j]@)) + 1 == level ==> listed(objects@, bytes_of(dirs@[j]@)),
        decreases dirs@.len() - k,
    {
        let db = str_bytes(dirs[k].as_str());
        let d = count_slashes(db);
        if db.len() > 0 && d < level && d + 1 == level {
            let (oid, body) = build_dir(index, objects, db);
            let o = TreeObject { dir: dirs[k].clone(), oid, body };
            proof {
                lemma_built_push(index.entries@, objects@, o);
            }
            let ghost before = objects@;
            objects.push(o);
            proof {
                lemma_level_push(before, o, dirs@, k as int, level as int);
                assert(objects@[before.len() as int] == o);
                assert forall|d: Seq<u8>| listed(before, d) implies listed(objects@, d) by {
                    let w = choose|w: int| 0 <= w < before.len() && bytes_of(before[w].dir@) == d;
                    assert(objects@[w] == before[w]);
                }
            }
        }
        k = k + 1;
    }
}

/// The tree object of one directory: its files from the index and its
/// subdirectories already built, sorted by name; with its id.
fn build_dir(index: &Index, objects: &Vec<TreeObject>, db: &[u8]) -> (r: (Oid, Vec<u8>))
    ensures
        r.0@ == object_id(kind_name(ObjectType::Tree), r.1@),
        tree_of(index.entries@, objects@, db@, r.1@),
{
    let ghost es = index.entries@;
    let mut entries: Vec<TreeEntry> = Vec::new();
    let mut j: usize = 0;
    while j < index.entries.len()
        invariant
            0 <= j <= index.entries@.len(),
            es == index.entries@,
            tree_entries_v(entries@) == files_in(es.subrange(0, j as int), db@),
        decreases index.entries@.len() - j,
    {
        let e = &index.entries[j];
        let (parent, base) = split_path(e.path.as_str());
        let ghost before = tree_entries_v(entries@);
        let ghost sub = es.subrange(0, j + 1);
        assert(sub.drop_last() =~= es.subrange(0, j as int));
        assert(sub.last() == es[j as int]);
        assert(parent@.subrange(0, parent@.len() as int) =~= parent@);
        if crate::text::range_eq(parent.as_slice(), 0, parent.len(), db) {
            match crate::text::utf8_string(base) {
                Some(name) => {
                    let t = TreeEntry { mode: e.mode, name, oid: e.oid };
                    entries.push(t);
                    assert(tree_entries_v(entries@) =~= before + seq![crate::objects::tree::entry_v(t)]);
                },
                None => {
                    assert(before + Seq::<EntryV>::empty() =~= before);
                },
            }
        } else {
            assert(before + Seq::<EntryV>::empty() =~= before);
        }
        j = j + 1;
    }
    assert(es.subrange(0, es.len() as int) =~= es);
    let ghost files = tree_entries_v(entries@);
    let mut b: usize = 0;
    while b < objects.len()
        invariant
            0 <= b <= objects@.len(),
            es == index.entries@,
            files == files_in(es, db@),
            tree_entries_v(entries@) == files + subdirs_in(objects@.subrange(0, b as int), db@),
        decreases objects@.len() - b,
    {
        let (parent, base) = split_path(objects[b].dir.as_str());
        let ghost before = tree_entries_v(entries@);
        let ghost sub = objects@.subrange(0, b + 1);
        assert(sub.drop_last() =~= objects@.subrange(0, b as int));
        assert(sub.last() == objects@[b as int]);
        assert(parent@.subrange(0, parent@.len() as int) =~= parent@);
        if objects[b].dir.as_str().as_bytes().len() > 0 && crate::text::range_eq(parent.as_slice(), 0, parent.len(), db) {
            match crate::text::utf8_string(base) {
                Some(name) => {
                    let t = TreeEntry { mode: FileMode::Directory, name, oid: objects[b].oid };
                    entries.push(t);
                    assert(tree_entries_v(entries@) =~= before + seq![crate::objects::tree::entry_v(t)]);
                },
                None => {
                    assert(before + Seq::<EntryV>::empty() =~= before);
                },
            }
        } else {
            assert(before + Seq::<EntryV>::empty() =~= before);
        }
        proof {
            let all_b = files + subdirs_in(objects@.subrange(0, b + 1), db@);
            assert(tree_entries_v(entries@) =~= all_b);
        }
        b = b + 1;
    }
    assert(objects@.subrange(0, objects@.len() as int) =~= objects@);
    let ghost want = tree_entries_v(entries@);
    let sorted = sort_entries(entries);
    let body = build_tree_content(sorted.as_slice());
    let (oid, _) = crate::objects::store::LooseObjectStore::encode(ObjectType::Tree, body.as_slice());
    proof {
        let s = tree_entries_v(sorted@);
        assert(names_sorted(s)) by {
            assert forall|a: int, c: int| 0 <= a < c < s.len() implies !lex_lt(s[c].1, s[a].1) by {
                assert(s[c].1 == bytes_of(sorted@[c].name@));
                assert(s[a].1 == bytes_of(sorted@[a].name@));
            }
        }
        assert(body@ == tree_body(s));
    }
    (oid, body)
}

fn count_slashes(p: &[u8]) -> (r: usize)
    ensures
        r == depth_of(p@),
{
    let mut n: usize = 0;
    let mut i: usize = 0;
    while i < p.len()
        invariant
            0 <= i <= p@.len(),
            n == depth_of(p@.subrange(0, i as int)),
            n <= i,
        decreases p@.len() - i,
    {
        assert(p@.subrange(0, i + 1).drop_last() =~= p@.subrange(0, i as int));
        if p[i] == 47u8 {
            n = n + 1;
        }
        i = i + 1;
    }
    assert(p@.subrange(0, p@.len() as int) =~= p@);
    n
}

/// The tree objects that record an index, deepest directories first and
/// the root last. Each is stored under the hash of its body and lists its
/// directory's files and the trees built before it for its
/// subdirectories; the returned root is the last one, and every directory
/// that holds an index path (the root included) has its tree.
pub fn build_tree_from_index(index: &Index) -> (r: (Oid, Vec<TreeObject>))
    ensures
        r.1@.len() >= 1,
        r.0 == r.1@.last().oid,
        bytes_of(r.1@.last().dir@) == Seq::<u8>::empty(),
        built_ok(index.entries@, r.1@),
        distinct_dirs(r.1@),
        children_first(r.1@),
        listed(r.1@, Seq::empty()),
        forall|i: int, k: int| 0 <= i < index.entries@.len() && 0 <= k < bytes_of(index.entries@[i].path@).len()
            && #[trigger] bytes_of(index.entries@[i].path@)[k] == 47u8
            ==> listed(r.1@, bytes_of(index.entries@[i].path@).subrange(0, k)),
{
    // Every directory that holds something: each prefix of a path ending
    // before a `/`.
    let mut dirs: Vec<String> = Vec::new();
    let mut i: usize = 0;
    while i < index.entries.len()
        invariant
            0 <= i <= index.entries@.len(),
            crate::text::strictly_sorted(dirs@),
            forall|j: int| 0 <= j < dirs@.len() ==> bytes_of(#[trigger] dirs@[j]@).len() < usize::MAX,
            forall|x: int, k: int| 0 <= x < i && 0 <= k < bytes_of(index.entries@[x].path@).len()
                && #[trigger] bytes_of(index.entries@[x].path@)[k] == 47u8
                ==> crate::text::in_paths(dirs@, bytes_of(index.entries@[x].path@).subrange(0, k)),
        decreases index.entries@.len() - i,
    {
        let p = str_bytes(index.entries[i].path.as_str());
        let ghost pv = p@;
        let mut k: usize = 0;
        while k < p.len()
            invariant
                0 <= k <= p@.len(),
                pv == p@,
                p@ == bytes_of(index.entries@[i as int].path@),
                crate::text::strictly_sorted(dirs@),
                forall|j: int| 0 <= j < dirs@.len() ==> bytes_of(#[trigger] dirs@[j]@).len() < usize::MAX,
                forall|x: int, m: int| 0 <= x < i && 0 <= m < bytes_of(index.entries@[x].path@).len()
                    && #[trigger] bytes_of(index.entries@[x].path@)[m] == 47u8
                    ==> crate::text::in_paths(dirs@, bytes_of(index.entries@[x].path@).subrange(0, m)),
                forall|m: int| 0 <= m < k && #[trigger] pv[m] == 47u8 ==> crate::text::in_paths(dirs@, pv.subrange(0, m)),
            decreases p@.len() - k,
        {
            if p[k] == 47u8 {
                proof {
                    vstd::utf8::encode_utf8_valid_utf8(index.entries@[i as int].path@);
                    crate::text::lemma_valid_slice(pv, 0, k as int);
                }
                let d = crate::text::text_of(crate::text::copy_range(p, 0, k));
                let ghost old_dirs = dirs@;
                crate::text::insert_sorted_unique(&mut dirs, &d);
                proof {
                    assert forall|j: int| 0 <= j < dirs@.len() implies bytes_of(#[trigger] dirs@[j]@).len() < usize::MAX by {
                        assert(crate::text::in_paths(dirs@, bytes_of(dirs@[j]@)));
                        if crate::text::in_paths(old_dirs, bytes_of(dirs@[j]@)) {
                            let w = choose|w: int| 0 <= w < old_dirs.len() && bytes_of(old_dirs[w]@) == bytes_of(dirs@[j]@);
                            assert(bytes_of(old_dirs[w]@).len() < usize::MAX);
                        }
                    }
                }
            }
            k = k + 1;
        }
        i = i + 1;
    }
    // Deepest first: order the directories by depth, then build each.
    let mut max_depth: usize = 0;
    let mut k: usize = 0;
    while k < dirs.len()
        invariant
            0 <= k <= dirs@.len(),
            crate::text::strictly_sorted(dirs@),
            forall|j: int| 0 <= j < dirs@.len() ==> bytes_of(#[trigger] dirs@[j]@).len() < usize::MAX,
            forall|j: int| 0 <= j < k ==> depth_of(bytes_of(#[trigger] dirs@[j]@)) + 1 <= max_depth,
        decreases dirs@.len() - k,
    {
        let db = str_bytes(dirs[k].as_str());
        let d = count_slashes(db);
        proof {
            lemma_depth_len(db@);
        }
        if d + 1 > max_depth {
            max_depth = d + 1;
        }
        k = k + 1;
    }
    let mut objects: Vec<TreeObject> = Vec::new();
    let mut level: usize = max_depth;
    while level > 0
        invariant
            built_ok(index.entries@, objects@),
            crate::text::strictly_sorted(dirs@),
            deepest_first(objects@),
            distinct_dirs(objects@),
            forall|x: int| 0 <= x < objects@.len() ==> lvl(dir_of(#[trigger] objects@[x])) > level,
            level <= max_depth,
            forall|j: int| 0 <= j < dirs@.len() ==> depth_of(bytes_of(#[trigger] dirs@[j]@)) + 1 <= max_depth,
            forall|j: int| 0 <= j < dirs@.len() && bytes_of(#[trigger] dirs@[j]@).len() > 0
                && depth_of(bytes_of(dirs@[j]@)) + 1 > level ==> listed(objects@, bytes_of(dirs@[j]@)),
        decreases level,
    {
        let ghost before = objects@;
        build_level(index, &dirs, level, &mut objects);
        proof {
            assert forall|j: int| 0 <= j < dirs@.len() && bytes_of(#[trigger] dirs@[j]@).len() > 0
                && depth_of(bytes_of(dirs@[j]@)) + 1 > level - 1 implies listed(objects@, bytes_of(dirs@[j]@)) by {
                if depth_of(bytes_of(dirs@[j]@)) + 1 > level {
                    assert(listed(before, bytes_of(dirs@[j]@)));
                }
            }
        }
        level = level - 1;
    }
    let empty: Vec<u8> = Vec::new();
    let (oid, body) = build_dir(index, &objects, empty.as_slice());
    let o = TreeObject { dir: String::new(), oid, body };
    proof {
        lemma_built_push(index.entries@, objects@, o);
        assert(bytes_of(o.dir@) =~= Seq::<u8>::empty()) by {
            assert(o.dir@ == Seq::<char>::empty());
        }
    }
    let ghost before = objects@;
    objects.push(o);
    proof {
        let n = before.len() as int;
        assert(objects@[n] == o);
        assert forall|x: int| 0 <= x < n implies objects@[x] == before[x] by {}
        assert(lvl(dir_of(o)) == 0);
        assert forall|a: int, b: int| 0 <= a <= b < objects@.len() implies lvl(dir_of(#[trigger] objects@[b])) <= lvl(dir_of(#[trigger] objects@[a])) by {
            if b < n {
                assert(lvl(dir_of(before[b])) <= lvl(dir_of(before[a])));
            }
        }
        assert forall|a: int, b: int| 0 <= a < b < objects@.len() implies dir_of(#[trigger] objects@[a]) != dir_of(#[trigger] objects@[b]) by {
            if b == n {
                assert(lvl(dir_of(before[a])) > 0);
            } else {
                assert(dir_of(before[a]) != dir_of(before[b]));
            }
        }
        lemma_children_first(objects@);
        assert forall|d: Seq<u8>| listed(before, d) implies listed(objects@, d) by {
            let w = choose|w: int| 0 <= w < before.len() && bytes_of(before[w].dir@) == d;
            assert(objects@[w] == before[w]);
        }
        assert forall|x: int, m: int| 0 <= x < index.entries@.len() && 0 <= m < bytes_of(index.entries@[x].path@).len()
            && #[trigger] bytes_of(index.entries@[x].path@)[m] == 47u8
            implies listed(objects@, bytes_of(index.entries@[x].path@).subrange(0, m)) by {
            let q = bytes_of(index.entries@[x].path@).subrange(0, m);
            assert(crate::text::in_paths(dirs@, q));
            let j = choose|j: int| 0 <= j < dirs@.len() && bytes_of(dirs@[j]@) == q;
            if q.len() > 0 {
                assert(depth_of(bytes_of(dirs@[j]@)) + 1 > 0);
                assert(listed(before, q));
            } else {
                assert(bytes_of(objects@[before.len() as int].dir@) == q);
            }
        }
    }
    (oid, objects)
}

/// A path has no more slashes than bytes.
proof fn lemma_depth_len(p: Seq<u8>)
    ensures
        depth_of(p) <= p.len(),
    decreases p.len(),
{
    if p.len() > 0 {
        lemma_depth_len(p.drop_last());
    }
}

/// Sorts tree entries by name (stable).
pub fn sort_entries(es: Vec<TreeEntry>) -> (r: Vec<TreeEntry>)
    ensures
        r@.len() == es@.len(),
        tree_entries_v(r@).to_multiset() == tree_entries_v(es@).to_multiset(),
        forall|a: int, b: int| 0 <= a < b < r@.len() ==> !lex_lt(bytes_of(r@[b].name@), bytes_of(r@[a].name@)),
{
    let mut result: Vec<TreeEntry> = Vec::new();
    let mut t: usize = 0;
    assert(tree_entries_v(result@) =~= tree_entries_v(es@).subrange(0, 0));
    while t < es.len()
        invariant
            0 <= t <= es@.len(),
            result@.len() == t,
            tree_entries_v(result@).to_multiset() == tree_entries_v(es@).subrange(0, t as int).to_multiset(),
            forall|a: int, b: int| 0 <= a < b < result@.len() ==> !lex_lt(bytes_of(result@[b].name@), bytes_of(result@[a].name@)),
        decreases es@.len() - t,
    {
        let x = TreeEntry { mode: es[t].mode, name: es[t].name.clone(), oid: es[t].oid };
        assert(crate::objects::tree::entry_v(x) == tree_entries_v(es@)[t as int]);
        let xp = str_bytes(x.name.as_str());
        let mut q: usize = 0;
        while q < result.len() && !bytes_lt(xp, str_bytes(result[q].name.as_str()))
            invariant
                0 <= q <= result@.len(),
                xp@ == bytes_of(x.name@),
                forall|a: int| 0 <= a < q ==> !lex_lt(xp@, bytes_of(#[trigger] result@[a].name@)),
            decreases result@.len() - q,
        {
            q = q + 1;
        }
        let ghost rv = result@;
        result.insert(q, x);
        proof {
            let nv = result@;
            assert(tree_entries_v(nv) =~= tree_entries_v(rv).insert(q as int, crate::objects::tree::entry_v(x)));
            crate::diff::lemma_ms_insert(tree_entries_v(rv), q as int, crate::objects::tree::entry_v(x));
            let c = tree_entries_v(es@);
            assert(c.subrange(0, t + 1) =~= c.subrange(0, t as int).push(c[t as int]));
            c.subrange(0, t as int).to_multiset_ensures();
            assert forall|a: int, b: int| 0 <= a < b < nv.len() implies !lex_lt(bytes_of(nv[b].name@), bytes_of(nv[a].name@)) by {
                if b < q {
                } else if a < q && b == q {
                } else if a < q && b > q {
                    assert(nv[b] == rv[b - 1]);
                    if lex_lt(bytes_of(rv[b - 1].name@), xp@) {
                        crate::text::lemma_lex_trans(bytes_of(rv[b - 1].name@), xp@, bytes_of(rv[q as int].name@));
                    }
                    crate::text::lemma_lex_total(xp@, bytes_of(rv[a].name@));
                    if lex_lt(bytes_of(rv[b - 1].name@), bytes_of(rv[a].name@)) {
                        crate::text::lemma_lex_trans(bytes_of(rv[b - 1].name@), bytes_of(rv[a].name@), xp@);
                        crate::text::lemma_lex_trans(bytes_of(rv[b - 1].name@), xp@, bytes_of(rv[q as int].name@));
                    }
                } else if a == q {
                    assert(nv[b] == rv[b - 1]);
                    if lex_lt(bytes_of(rv[b - 1].name@), xp@) {
                        crate::text::lemma_lex_trans(bytes_of(rv[b - 1].name@), xp@, bytes_of(rv[q as int].name@));
                        if b - 1 == q {
                            crate::text::lemma_lex_irreflexive(bytes_of(rv[q as int].name@));
                        }
                    }
                } else {
                    assert(nv[a] == rv[a - 1]);
                    assert(nv[b] == rv[b - 1]);
                }
            }
        }
        t = t + 1;
    }
    assert(tree_entries_v(es@).subrange(0, es@.len() as int) =~= tree_entries_v(es@));
    result
}

} // verus!

verus! {

use crate::objects::commit::{commit_scan, commit_start, commit_step, parse_commit_body, strip_cr, CommitScanV, key_tree, key_parent, key_author, key_committer, hex_oid, starts_with};

/// Reading up to the end of a line: the scan continues after the newline
/// with the line applied.
proof fn lemma_scan_line(c: Seq<u8>, i: int, j: int, st: CommitScanV, cur: Seq<u8>)
    requires
        0 <= i <= j < c.len(),
        c[j] == 10u8,
        forall|k: int| i <= k < j ==> c[k] != 10u8,
    ensures
        commit_scan(c, i, st, cur) == match commit_step(st, strip_cr(cur + c.subrange(i, j))) {
            Some(s2) => commit_scan(c, j + 1, s2, Seq::empty()),
            None => None,
        },
    decreases j - i,
{
    if i == j {
        assert(cur + c.subrange(i, j) =~= cur);
    } else {
        lemma_scan_line(c, i + 1, j, st, cur.push(c[i]));
        assert(cur.push(c[i]) + c.subrange(i + 1, j) =~= cur + c.subrange(i, j));
    }
}

/// Once in the message, reading on keeps the tree.
proof fn lemma_scan_message(c: Seq<u8>, i: int, st: CommitScanV, cur: Seq<u8>)
    requires
        st.5,
        0 <= i,
    ensures
        commit_scan(c, i, st, cur) is Some,
        (commit_scan(c, i, st, cur)->0).0 == st.0,
    decreases c.len() - i,
{
    if i < c.len() {
        if c[i] == 10u8 {
            lemma_scan_message(c, i + 1, commit_step(st, strip_cr(cur))->0, Seq::empty());
        } else {
            lemma_scan_message(c, i + 1, st, cur.push(c[i]));
        }
    }
}

/// Hexadecimal text has no line break and no carriage return.
proof fn lemma_hex_plain(b: Seq<u8>)
    ensures
        forall|k: int| 0 <= k < hex_of(b).len() ==> hex_of(b)[k] != 10u8 && hex_of(b)[k] != 13u8,
{
    assert forall|k: int| 0 <= k < hex_of(b).len() implies hex_of(b)[k] != 10u8 && hex_of(b)[k] != 13u8 by {
        let x = b[k / 2];
        assert(x / 16 < 16 && x % 16 < 16);
    }
}

/// A 20-byte id survives hexadecimal text.
proof fn lemma_hex_id(t: Seq<u8>)
    requires
        t.len() == 20,
    ensures
        hex_oid(hex_of(t)) == Some(t),
{
    let h = hex_of(t);
    assert forall|i: int| 0 <= i < h.len() implies (#[trigger] crate::objects::oid::hex_value(h[i])) is Some by {
        let b = t[i / 2];
        assert(b / 16 < 16 && b % 16 < 16);
    }
    assert forall|i: int| 0 <= i < 20 implies #[trigger] crate::objects::oid::bytes_of_hex(h)[i] == t[i] by {
        let b = t[i];
        assert(h[2 * i] == crate::objects::oid::hex_digit(b / 16));
        assert(h[2 * i + 1] == crate::objects::oid::hex_digit(b % 16));
        assert(b / 16 < 16 && b % 16 < 16);
        assert((b / 16) * 16 + b % 16 == b);
    }
    assert(crate::objects::oid::bytes_of_hex(h) =~= t);
}

/// A header line that does not start with `t` keeps the tree of the
/// reading state, or the reading fails.
proof fn lemma_header_line(c: Seq<u8>, i: int, j: int, st: CommitScanV, line: Seq<u8>)
    requires
        0 <= i <= j < c.len(),
        c[j] == 10u8,
        c.subrange(i, j) == line,
        forall|k: int| i <= k < j ==> c[k] != 10u8,
        !st.5,
        line.len() > 0,
        line[0] != 116u8,
        line[0] != 13u8,
    ensures
        commit_scan(c, i, st, Seq::empty()) is None || ({
            &&& commit_step(st, strip_cr(line)) is Some
            &&& commit_scan(c, i, st, Seq::empty()) == commit_scan(c, j + 1, commit_step(st, strip_cr(line))->0, Seq::empty())
            &&& (commit_step(st, strip_cr(line))->0).0 == st.0
            &&& !(commit_step(st, strip_cr(line))->0).5
        }),
{
    lemma_scan_line(c, i, j, st, Seq::empty());
    assert(Seq::<u8>::empty() + c.subrange(i, j) =~= line);
    let l = strip_cr(line);
    assert(l.len() > 0 && l[0] == line[0]);
    if l.len() >= 5 {
        assert(l.subrange(0, 5) != key_tree()) by {
            assert(l.subrange(0, 5)[0] != key_tree()[0]);
        }
    }
    assert(!starts_with(l, key_tree()));
}

/// After the tree and parent lines: author, committer, blank line and
/// message leave the tree as it is.
#[verifier::rlimit(100)]
proof fn lemma_tail_keeps(c: Seq<u8>, i3: int, s2: CommitScanV, author: Seq<u8>, committer: Seq<u8>, message: Seq<u8>)
    requires
        0 <= i3 <= c.len(),
        c.subrange(i3, c.len() as int) == (key_author() + author) + seq![10u8] + (key_committer() + committer) + seq![10u8] + seq![10u8] + message,
        forall|k: int| 0 <= k < author.len() ==> author[k] != 10u8,
        forall|k: int| 0 <= k < committer.len() ==> committer[k] != 10u8,
        !s2.5,
    ensures
        commit_scan(c, i3, s2, Seq::empty()) is Some ==> (commit_scan(c, i3, s2, Seq::empty())->0).0 == s2.0,
{
    let la = key_author() + author;
    let lc = key_committer() + committer;
    let nl = seq![10u8];
    let tail = c.subrange(i3, c.len() as int);
    let p1 = la + nl;
    let p2 = p1 + lc;
    let p3 = p2 + nl;
    let p4 = p3 + nl;
    assert(tail =~= p4 + message);
    assert forall|x: int| 0 <= x < tail.len() implies c[i3 + x] == #[trigger] tail[x] by {}
    let ja = i3 + la.len();
    assert forall|k: int| i3 <= k < ja implies c[k] != 10u8 by {
        assert(tail[k - i3] == p4[k - i3]);
        assert(p4[k - i3] == p1[k - i3]);
        assert(p1[k - i3] == la[k - i3]);
    }
    assert(tail[la.len() as int] == p1[la.len() as int]);
    assert(c.subrange(i3, ja) =~= la);
    lemma_header_line(c, i3, ja, s2, la);
    if commit_scan(c, i3, s2, Seq::empty()) is Some {
        let s3 = commit_step(s2, strip_cr(la))->0;
        let i4 = ja + 1;
        let jc = i4 + lc.len();
        assert forall|k: int| i4 <= k < jc implies c[k] != 10u8 by {
            assert(tail[k - i3] == p4[k - i3]);
            assert(p4[k - i3] == p2[k - i3]);
            assert(p2[k - i3] == lc[k - i4]);
        }
        assert(tail[jc - i3] == p3[jc - i3]);
        assert forall|x: int| 0 <= x < lc.len() implies c[i4 + x] == lc[x] by {
            assert(tail[i4 - i3 + x] == p4[i4 - i3 + x]);
            assert(p4[i4 - i3 + x] == p2[i4 - i3 + x]);
        }
        assert(c.subrange(i4, jc) =~= lc);
        lemma_header_line(c, i4, jc, s3, lc);
        if commit_scan(c, i4, s3, Seq::empty()) is Some {
            let s4 = commit_step(s3, strip_cr(lc))->0;
            let i5 = jc + 1;
            assert(tail[i5 - i3] == p4[i5 - i3]);
            lemma_scan_line(c, i5, i5, s4, Seq::empty());
            assert(Seq::<u8>::empty() + c.subrange(i5, i5) =~= Seq::<u8>::empty());
            let s5 = commit_step(s4, Seq::empty())->0;
            lemma_scan_message(c, i5 + 1, s5, Seq::empty());
        }
    }
}

/// The lines of a written commit body.
proof fn lemma_commit_text_shape(t: Seq<u8>, parent: Option<Seq<u8>>, author: Seq<u8>, committer: Seq<u8>, message: Seq<u8>)
    ensures
        commit_text(t, parent, author, committer, message) == (key_tree() + hex_of(t)) + seq![10u8]
            + (match parent { Some(p) => key_parent() + hex_of(p) + seq![10u8], None => Seq::<u8>::empty() })
            + ((key_author() + author) + seq![10u8] + (key_committer() + committer) + seq![10u8] + seq![10u8] + message),
{
    let nl = seq![10u8];
    let pl = match parent { Some(p) => key_parent() + hex_of(p) + nl, None => Seq::<u8>::empty() };
    assert(commit_text(t, parent, author, committer, message) =~= (key_tree() + hex_of(t)) + nl + pl
        + ((key_author() + author) + nl + (key_committer() + committer) + nl + nl + message));
}

/// The first line of a written commit body sets the tree.
#[verifier::rlimit(100)]
proof fn lemma_tree_line(c: Seq<u8>, t: Seq<u8>, x: Seq<u8>)
    requires
        t.len() == 20,
        c == (key_tree() + hex_of(t)) + seq![10u8] + x,
    ensures
        commit_step(commit_start(), key_tree() + hex_of(t)) is Some,
        (commit_step(commit_start(), key_tree() + hex_of(t))->0).0 == Some(t),
        !(commit_step(commit_start(), key_tree() + hex_of(t))->0).5,
        commit_scan(c, 0, commit_start(), Seq::empty()) == commit_scan(
            c,
            (key_tree() + hex_of(t)).len() + 1 as int,
            commit_step(commit_start(), key_tree() + hex_of(t))->0,
            Seq::empty(),
        ),
        c.subrange((key_tree() + hex_of(t)).len() + 1 as int, c.len() as int) == x,
{
    let l1 = key_tree() + hex_of(t);
    lemma_hex_plain(t);
    let j1 = l1.len() as int;
    assert forall|k: int| 0 <= k < j1 implies c[k] != 10u8 by {
        assert(c[k] == l1[k]);
    }
    assert(c[j1] == 10u8);
    lemma_scan_line(c, 0, j1, commit_start(), Seq::empty());
    assert(Seq::<u8>::empty() + c.subrange(0, j1) =~= l1);
    assert(l1[l1.len() - 1] == hex_of(t)[hex_of(t).len() - 1]);
    assert(strip_cr(l1) == l1);
    assert(l1.subrange(0, 5) =~= key_tree());
    assert(l1.subrange(5, l1.len() as int) =~= hex_of(t));
    lemma_hex_id(t);
    assert(c.subrange(j1 + 1, c.len() as int) =~= x);
}

/// A parent line keeps the tree of the reading state.
#[verifier::rlimit(100)]
proof fn lemma_parent_line(c: Seq<u8>, i2: int, s1: CommitScanV, p: Seq<u8>, x: Seq<u8>)
    requires
        0 <= i2 <= c.len(),
        c.subrange(i2, c.len() as int) == (key_parent() + hex_of(p)) + seq![10u8] + x,
        !s1.5,
    ensures
        commit_scan(c, i2, s1, Seq::empty()) is None || ({
            let s2 = commit_step(s1, strip_cr(key_parent() + hex_of(p)))->0;
            &&& commit_scan(c, i2, s1, Seq::empty()) == commit_scan(c, i2 + (key_parent() + hex_of(p)).len() + 1, s2, Seq::empty())
            &&& s2.0 == s1.0
            &&& !s2.5
        }),
        c.subrange(i2 + (key_parent() + hex_of(p)).len() + 1, c.len() as int) == x,
{
    lemma_hex_plain(p);
    let lp = key_parent() + hex_of(p);
    let tail = c.subrange(i2, c.len() as int);
    assert(tail.len() == c.len() - i2);
    assert(tail.len() == lp.len() + 1 + x.len());
    assert forall|y: int| 0 <= y < tail.len() implies c[i2 + y] == #[trigger] tail[y] by {}
    let jp = i2 + lp.len();
    assert forall|k: int| i2 <= k < jp implies c[k] != 10u8 by {
        assert(tail[k - i2] == lp[k - i2]);
    }
    assert(tail[lp.len() as int] == 10u8);
    assert forall|y: int| 0 <= y < lp.len() implies c[i2 + y] == lp[y] by {
        assert(c[i2 + y] == tail[y]);
    }
    assert(c.subrange(i2, jp) =~= lp);
    lemma_header_line(c, i2, jp, s1, lp);
    assert(c.subrange(jp + 1, c.len() as int) =~= x) by {
        assert forall|y: int| 0 <= y < x.len() implies c[jp + 1 + y] == x[y] by {
            assert(c[jp + 1 + y] == tail[lp.len() + 1 + y]);
        }
    }
}

/// A commit written for a tree records that tree: when the written body
/// reads back, its tree is the one given (signature fields on one line).
#[verifier::rlimit(100)]
pub proof fn lemma_commit_records_tree(t: Seq<u8>, parent: Option<Seq<u8>>, author: Seq<u8>, committer: Seq<u8>, message: Seq<u8>)
    requires
        t.len() == 20,
        forall|k: int| 0 <= k < author.len() ==> author[k] != 10u8,
        forall|k: int| 0 <= k < committer.len() ==> committer[k] != 10u8,
    ensures
        parse_commit_body(commit_text(t, parent, author, committer, message)) is Some ==>
            (parse_commit_body(commit_text(t, parent, author, committer, message))->0).0 == t,
{
    let c = commit_text(t, parent, author, committer, message);
    let nl = seq![10u8];
    let pl = match parent { Some(p) => key_parent() + hex_of(p) + nl, None => Seq::<u8>::empty() };
    let rest = (key_author() + author) + nl + (key_committer() + committer) + nl + nl + message;
    lemma_commit_text_shape(t, parent, author, committer, message);
    assert(c == (key_tree() + hex_of(t)) + nl + (pl + rest)) by {
        assert((key_tree() + hex_of(t)) + nl + pl + rest =~= (key_tree() + hex_of(t)) + nl + (pl + rest));
    }
    lemma_tree_line(c, t, pl + rest);
    let s1 = commit_step(commit_start(), key_tree() + hex_of(t))->0;
    let i2: int = (key_tree() + hex_of(t)).len() + 1 as int;
    match parent {
        Some(p) => {
            assert(pl + rest =~= (key_parent() + hex_of(p)) + nl + rest);
            lemma_parent_line(c, i2, s1, p, rest);
            if commit_scan(c, i2, s1, Seq::empty()) is Some {
                let s2 = commit_step(s1, strip_cr(key_parent() + hex_of(p)))->0;
                let i3: int = i2 + (key_parent() + hex_of(p)).len() + 1;
                lemma_tail_keeps(c, i3, s2, author, committer, message);
            }
        },
        None => {
            assert(pl + rest =~= rest);
            lemma_tail_keeps(c, i2, s1, author, committer, message);
        },
    }
}


/// The full hex id a file in an object subdirectory stands for: the
/// lowercase first two digits of the prefix, then the file name.
pub open spec fn candidate(p: Seq<u8>, name: Seq<u8>) -> Seq<u8> {
    crate::objects::oid::lower(p).subrange(0, 2) + name
}

/// Whether a file name in the prefix's subdirectory is an object whose id
/// begins with the prefix.
pub open spec fn name_matches(p: Seq<u8>, name: Seq<u8>) -> bool {
    let c = candidate(p, name);
    c.len() == 40 && is_hex(c) && c.subrange(0, p.len() as int) == crate::objects::oid::lower(p)
}

/// The ids named by matching files, in order.
pub open spec fn matched_ids(p: Seq<u8>, names: Seq<String>) -> Seq<Seq<u8>>
    decreases names.len(),
{
    if names.len() == 0 {
        Seq::empty()
    } else {
        matched_ids(p, names.drop_last()) + if name_matches(p, bytes_of(names.last()@)) {
            seq![crate::objects::oid::bytes_of_hex(candidate(p, bytes_of(names.last()@)))]
        } else {
            Seq::empty()
        }
    }
}

/// The objects whose hex id begins with `prefix`, given the file names in
/// the objects subdirectory named by its first two digits.
pub fn objects_with_prefix(prefix: &str, names: &[String]) -> (r: Vec<Oid>)
    requires
        4 <= bytes_of(prefix@).len() <= 40,
    ensures
        r@.map_values(|o: Oid| o@) == matched_ids(bytes_of(prefix@), names@),
{
    let p = str_bytes(prefix);
    let mut low: Vec<u8> = Vec::new();
    let mut i: usize = 0;
    while i < p.len()
        invariant
            0 <= i <= p@.len(),
            low@ == crate::objects::oid::lower(p@.subrange(0, i as int)),
        decreases p@.len() - i,
    {
        let c = p[i];
        low.push(if 65 <= c && c <= 90 { c + 32 } else { c });
        i = i + 1;
        assert(low@ =~= crate::objects::oid::lower(p@.subrange(0, i as int)));
    }
    assert(p@.subrange(0, p@.len() as int) =~= p@);
    let ghost pv = p@;
    let mut out: Vec<Oid> = Vec::new();
    let mut k: usize = 0;
    assert(names@.subrange(0, 0) =~= Seq::<String>::empty());
    while k < names.len()
        invariant
            0 <= k <= names@.len(),
            pv == bytes_of(prefix@),
            low@ == crate::objects::oid::lower(pv),
            4 <= pv.len() <= 40,
            out@.map_values(|o: Oid| o@) == matched_ids(pv, names@.subrange(0, k as int)),
        decreases names@.len() - k,
    {
        let ghost sub = names@.subrange(0, k + 1);
        assert(sub.drop_last() =~= names@.subrange(0, k as int));
        let nb = str_bytes(names[k].as_str());
        let mut cand: Vec<u8> = Vec::new();
        crate::text::append_range(&mut cand, low.as_slice(), 0, 2);
        crate::text::append_all(&mut cand, nb);
        assert(cand@ =~= candidate(pv, nb@));
        let ghost before = out@.map_values(|o: Oid| o@);
        if cand.len() == 40 && crate::text::range_eq(cand.as_slice(), 0, low.len(), low.as_slice()) {
            match Oid::from_hex_range(cand.as_slice(), 0, 40) {
                Some(o) => {
                    assert(cand@.subrange(0, 40) =~= cand@);
                    out.push(o);
                    assert(out@.map_values(|o: Oid| o@) =~= before + seq![o@]);
                },
                None => {
                    assert(cand@.subrange(0, 40) =~= cand@);
                    assert(before + Seq::<Seq<u8>>::empty() =~= before);
                },
            }
        } else {
            assert(before + Seq::<Seq<u8>>::empty() =~= before);
        }
        k = k + 1;
    }
    assert(names@.subrange(0, names@.len() as int) =~= names@);
    out
}

} // verus!
