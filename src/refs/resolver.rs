//! Reading reference files and following symbolic references. The store
//! works on a snapshot of the reference files: their names (relative to
//! the git directory, with forward slashes) and their contents.

use vstd::prelude::*;
use vstd::utf8::*;

use crate::error::Error;
use crate::objects::commit::{hex_oid, starts_with};
use crate::objects::oid::Oid;
use crate::refs::head::{heads_prefix, heads_ref};
use crate::refs::tag::tags_prefix;
use crate::text::{
    bytes_of, concat, copy_range, in_paths, lex_lt, owned, range_eq, starts_with_bytes,
    str_bytes, str_eq_bytes, strictly_sorted, trim_range, trimmed, utf8_string,
};

verus! {

/// The contents of a reference file.
#[derive(Debug, Clone, PartialEq, Eq)]
pub enum RefValue {
    Direct(Oid),
    Symbolic(String),
}

/// A reference value as `(is symbolic, target bytes)`.
pub open spec fn ref_v(r: RefValue) -> (bool, Seq<u8>) {
    match r {
        RefValue::Direct(o) => (false, o@),
        RefValue::Symbolic(s) => (true, bytes_of(s@)),
    }
}

/// A reference followed to its end: the last name and the object id.
#[derive(Debug, Clone)]
pub struct ResolvedRef {
    pub name: String,
    pub oid: Oid,
}

/// The bytes `ref: `.
pub open spec fn ref_prefix() -> Seq<u8> {
    seq![114u8, 101, 102, 58, 32]
}

/// What a reference file holds: `ref: <name>` (symbolic) or 40 hex digits
/// (direct), surrounding whitespace ignored.
pub open spec fn parse_ref_text(c: Seq<u8>) -> Option<(bool, Seq<u8>)> {
    let t = trimmed(c);
    if starts_with(t, ref_prefix()) {
        let target = t.subrange(5, t.len() as int);
        if valid_utf8(target) {
            Some((true, target))
        } else {
            None
        }
    } else {
        match hex_oid(t) {
            Some(o) => Some((false, o)),
            None => None,
        }
    }
}

/// The contents of the first snapshot file with the given name.
pub open spec fn lookup_ref(refs: Seq<(String, String)>, name: Seq<u8>) -> Option<Seq<u8>>
    decreases refs.len(),
{
    if refs.len() == 0 {
        None
    } else if bytes_of(refs[0].0@) == name {
        Some(bytes_of(refs[0].1@))
    } else {
        lookup_ref(refs.drop_first(), name)
    }
}

/// The value of a reference in a snapshot, when present and well formed.
pub open spec fn read_ref_v(refs: Seq<(String, String)>, name: Seq<u8>) -> Option<(bool, Seq<u8>)> {
    match lookup_ref(refs, name) {
        Some(c) => parse_ref_text(c),
        None => None,
    }
}

/// Why following a reference from `depth` fails: 1 for a missing file
/// (with its name), 2 for a malformed one, 3 for more than ten hops; 0
/// when it does not fail.
pub open spec fn resolve_error(refs: Seq<(String, String)>, name: Seq<u8>, depth: nat) -> (u8, Seq<u8>)
    decreases max_hops() + 1 - depth,
{
    if depth > max_hops() {
        (3, name)
    } else {
        match lookup_ref(refs, name) {
            None => (1, name),
            Some(c) => match parse_ref_text(c) {
                None => (2, name),
                Some((false, _)) => (0, name),
                Some((true, t)) => resolve_error(refs, t, depth + 1),
            },
        }
    }
}

/// The most symbolic hops followed.
pub open spec fn max_hops() -> nat {
    10
}

/// Follows a reference: the final name and object id, when every file on
/// the way is present and well formed and at most ten symbolic hops are
/// taken, counting from `depth`.
pub open spec fn resolve_v(refs: Seq<(String, String)>, name: Seq<u8>, depth: nat) -> Option<(Seq<u8>, Seq<u8>)>
    decreases max_hops() + 1 - depth,
{
    if depth > max_hops() {
        None
    } else {
        match read_ref_v(refs, name) {
            Some((false, o)) => Some((name, o)),
            Some((true, t)) => resolve_v(refs, t, depth + 1),
            None => None,
        }
    }
}

/// Parses the contents of a reference file.
pub fn parse_ref_content(content: &str) -> (r: Result<RefValue, Error>)
    ensures
        r is Ok <==> parse_ref_text(bytes_of(content@)) is Some,
        r is Ok ==> ref_v(r->Ok_0) == parse_ref_text(bytes_of(content@))->0,
        r is Err ==> r->Err_0 is InvalidOid,
{
    let c = str_bytes(content);
    let (a, b) = trim_range(c, 0, c.len());
    assert(c@.subrange(0, c@.len() as int) =~= c@);
    let t = if a < b { copy_range(c, a, b) } else { Vec::new() };
    assert(t@ == trimmed(c@));
    let ts = t.as_slice();
    let kp = "ref: ".as_bytes();
    proof {
        reveal_strlit("ref: ");
        crate::text::lemma_ascii_chars_bytes("ref: "@);
        assert(kp@ =~= ref_prefix());
    }
    if starts_with_bytes(ts, kp) {
        let target = copy_range(ts, 5, ts.len());
        match utf8_string(target) {
            Some(s) => Ok(RefValue::Symbolic(s)),
            None => Err(Error::InvalidOid(owned(content))),
        }
    } else {
        assert(ts@.subrange(0, ts@.len() as int) =~= ts@);
        match Oid::from_hex_range(ts, 0, ts.len()) {
            Some(o) => Ok(RefValue::Direct(o)),
            None => Err(Error::InvalidOid(owned(content))),
        }
    }
}

/// The reference file that a new commit moves, given HEAD's contents: the
/// branch HEAD names when it is symbolic, otherwise HEAD itself.
pub fn head_update_target(head_content: &str) -> (r: String)
    ensures
        ({
            let v = parse_ref_text(bytes_of(head_content@));
            if v is Some && (v->0).0 {
                bytes_of(r@) == (v->0).1
            } else {
                r@ == "HEAD"@
            }
        }),
{
    match parse_ref_content(head_content) {
        Ok(RefValue::Symbolic(t)) => t,
        _ => owned("HEAD"),
    }
}

/// The reference files of a repository, as a snapshot.
#[derive(Debug)]
pub struct RefStore {
    pub git_dir: String,
    pub refs: Vec<(String, String)>,
}

/// Names under a prefix, with the prefix removed.
pub open spec fn under(refs: Seq<(String, String)>, prefix: Seq<u8>, q: Seq<u8>) -> bool {
    valid_utf8(q) && exists|k: int| 0 <= k < refs.len() && bytes_of(refs[k].0@) == prefix + q
}

impl RefStore {
    /// A store for the given git directory with no files read yet.
    pub fn new(git_dir: &str) -> (r: RefStore)
        ensures
            r.git_dir@ == git_dir@,
            r.refs@.len() == 0,
    {
        RefStore { git_dir: owned(git_dir), refs: Vec::new() }
    }

    /// Records the contents of one reference file.
    pub fn insert(&mut self, name: String, content: String)
        ensures
            final(self).git_dir == old(self).git_dir,
            final(self).refs@ == old(self).refs@.push((name, content)),
    {
        self.refs.push((name, content));
    }

    fn content_of(&self, name: &str) -> (r: Option<&String>)
        ensures
            match r { Some(c) => Some(bytes_of(c@)), None => None } == lookup_ref(self.refs@, bytes_of(name@)),
    {
        let nb = str_bytes(name);
        let mut i: usize = 0;
        assert(self.refs@.subrange(0, self.refs@.len() as int) =~= self.refs@);
        while i < self.refs.len()
            invariant
                0 <= i <= self.refs@.len(),
                nb@ == bytes_of(name@),
                lookup_ref(self.refs@, nb@) == lookup_ref(self.refs@.subrange(i as int, self.refs@.len() as int), nb@),
            decreases self.refs@.len() - i,
        {
            let ghost rest = self.refs@.subrange(i as int, self.refs@.len() as int);
            assert(rest.drop_first() =~= self.refs@.subrange(i + 1, self.refs@.len() as int));
            if str_eq_bytes(self.refs[i].0.as_str(), nb) {
                return Some(&self.refs[i].1);
            }
            i = i + 1;
        }
        None
    }

    /// Reads one reference: missing is `RefNotFound`, malformed `InvalidOid`.
    pub fn read_ref_file(&self, name: &str) -> (r: Result<RefValue, Error>)
        ensures
            r is Ok <==> read_ref_v(self.refs@, bytes_of(name@)) is Some,
            r is Ok ==> ref_v(r->Ok_0) == read_ref_v(self.refs@, bytes_of(name@))->0,
            lookup_ref(self.refs@, bytes_of(name@)) is None ==> r is Err && r->Err_0 is RefNotFound
                && r->Err_0->RefNotFound_0@ == name@,
            lookup_ref(self.refs@, bytes_of(name@)) is Some && r is Err ==> r->Err_0 is InvalidOid,
    {
        match self.content_of(name) {
            Some(c) => parse_ref_content(c.as_str()),
            None => Err(Error::RefNotFound(owned(name))),
        }
    }

    /// Follows symbolic references from `name` to a direct one, at most ten
    /// hops; a longer chain (or a cycle) is `InvalidRefName`, a missing
    /// file `RefNotFound` with its name, a malformed one `InvalidOid`.
    pub fn resolve_recursive(&self, name: &str) -> (r: Result<ResolvedRef, Error>)
        ensures
            r is Ok <==> resolve_v(self.refs@, bytes_of(name@), 0) is Some,
            r is Ok ==> (bytes_of(r->Ok_0.name@), r->Ok_0.oid@) == resolve_v(self.refs@, bytes_of(name@), 0)->0,
            r is Err ==> ({
                let (k, n) = resolve_error(self.refs@, bytes_of(name@), 0);
                &&& (k == 1 ==> r->Err_0 is RefNotFound && bytes_of(r->Err_0->RefNotFound_0@) == n)
                &&& (k == 2 ==> r->Err_0 is InvalidOid)
                &&& (k == 3 ==> r->Err_0 is InvalidRefName)
            }),
    {
        let mut current = owned(name);
        let mut depth: usize = 0;
        while depth <= 10
            invariant
                0 <= depth <= 11,
                resolve_v(self.refs@, bytes_of(name@), 0) == resolve_v(self.refs@, bytes_of(current@), depth as nat),
                resolve_error(self.refs@, bytes_of(name@), 0) == resolve_error(self.refs@, bytes_of(current@), depth as nat),
            decreases 11 - depth,
        {
            match self.read_ref_file(current.as_str()) {
                Ok(RefValue::Direct(oid)) => {
                    return Ok(ResolvedRef { name: current, oid });
                },
                Ok(RefValue::Symbolic(target)) => {
                    current = target;
                    depth = depth + 1;
                },
                Err(e) => {
                    return Err(e);
                },
            }
        }
        Err(Error::InvalidRefName(owned(name)))
    }

    /// HEAD followed to its commit.
    pub fn head(&self) -> (r: Result<ResolvedRef, Error>)
        ensures
            r is Ok <==> resolve_v(self.refs@, seq![72u8, 69, 65, 68], 0) is Some,
            r is Ok ==> (bytes_of(r->Ok_0.name@), r->Ok_0.oid@) == resolve_v(self.refs@, seq![72u8, 69, 65, 68], 0)->0,
    {
        proof {
            reveal_strlit("HEAD");
            crate::text::lemma_ascii_chars_bytes("HEAD"@);
            assert(bytes_of("HEAD"@) =~= seq![72u8, 69, 65, 68]);
        }
        self.resolve_recursive("HEAD")
    }

    /// The checked-out branch's short name; `None` when HEAD is detached or
    /// points outside `refs/heads/`.
    pub fn current_branch(&self) -> (r: Result<Option<String>, Error>)
        ensures
            r is Ok <==> read_ref_v(self.refs@, seq![72u8, 69, 65, 68]) is Some,
            r is Ok ==> ({
                let v = read_ref_v(self.refs@, seq![72u8, 69, 65, 68])->0;
                if v.0 && starts_with(v.1, heads_prefix()) && valid_utf8(v.1.subrange(11, v.1.len() as int)) {
                    r->Ok_0 is Some && bytes_of(r->Ok_0->Some_0@) == v.1.subrange(11, v.1.len() as int)
                } else {
                    r->Ok_0 is None
                }
            }),
    {
        proof {
            reveal_strlit("HEAD");
            crate::text::lemma_ascii_chars_bytes("HEAD"@);
            assert(bytes_of("HEAD"@) =~= seq![72u8, 69, 65, 68]);
        }
        match self.read_ref_file("HEAD")? {
            RefValue::Symbolic(target) => {
                let tb = str_bytes(target.as_str());
                let hp = "refs/heads/".as_bytes();
                proof {
                    reveal_strlit("refs/heads/");
                    crate::text::lemma_ascii_chars_bytes("refs/heads/"@);
                    assert(hp@ =~= heads_prefix());
                }
                if starts_with_bytes(tb, hp) {
                    let rest = copy_range(tb, 11, tb.len());
                    match utf8_string(rest) {
                        Some(s) => Ok(Some(s)),
                        None => Ok(None),
                    }
                } else {
                    Ok(None)
                }
            },
            RefValue::Direct(_) => Ok(None),
        }
    }

    /// Names of the files under a prefix, prefix removed, sorted.
    pub fn names_under(&self, prefix: &str) -> (r: Vec<String>)
        ensures
            strictly_sorted(r@),
            forall|q: Seq<u8>| #[trigger] in_paths(r@, q) <==> under(self.refs@, bytes_of(prefix@), q),
    {
        let pb = str_bytes(prefix);
        let mut out: Vec<String> = Vec::new();
        let mut i: usize = 0;
        while i < self.refs.len()
            invariant
                0 <= i <= self.refs@.len(),
                pb@ == bytes_of(prefix@),
                strictly_sorted(out@),
                forall|q: Seq<u8>| #[trigger] in_paths(out@, q) <==> (valid_utf8(q) && exists|k: int| 0 <= k < i && bytes_of(self.refs@[k].0@) == pb@ + q),
            decreases self.refs@.len() - i,
        {
            let nb = str_bytes(self.refs[i].0.as_str());
            let ghost pre = out@;
            if starts_with_bytes(nb, pb) {
                let rest = copy_range(nb, pb.len(), nb.len());
                proof {
                    assert(nb@ =~= pb@ + rest@);
                }
                let ghost rv = rest@;
                match utf8_string(rest) {
                    Some(s) => {
                        crate::text::insert_sorted_unique(&mut out, &s);
                    },
                    None => {},
                }
                proof {
                    assert forall|q: Seq<u8>| #[trigger] in_paths(out@, q) <==> (valid_utf8(q) && exists|k: int| 0 <= k < i + 1 && bytes_of(self.refs@[k].0@) == pb@ + q) by {
                        if q == rv && valid_utf8(q) {
                            assert(bytes_of(self.refs@[i as int].0@) == pb@ + q);
                        }
                        if in_paths(out@, q) {
                            let k = choose|k: int| 0 <= k < out@.len() && bytes_of(out@[k]@) == q;
                            encode_utf8_valid_utf8(out@[k]@);
                        }
                        if exists|k: int| 0 <= k < i + 1 && bytes_of(self.refs@[k].0@) == pb@ + q {
                            let k = choose|k: int| 0 <= k < i + 1 && bytes_of(self.refs@[k].0@) == pb@ + q;
                            if k == i {
                                assert((pb@ + q).subrange(pb@.len() as int, (pb@ + q).len() as int) =~= q);
                                assert(nb@.subrange(pb@.len() as int, nb@.len() as int) =~= rv);
                            }
                        }
                    }
                }
            } else {
                proof {
                    assert forall|q: Seq<u8>| #[trigger] in_paths(out@, q) <==> (valid_utf8(q) && exists|k: int| 0 <= k < i + 1 && bytes_of(self.refs@[k].0@) == pb@ + q) by {
                        if exists|k: int| 0 <= k < i + 1 && bytes_of(self.refs@[k].0@) == pb@ + q {
                            let k = choose|k: int| 0 <= k < i + 1 && bytes_of(self.refs@[k].0@) == pb@ + q;
                            if k == i {
                                assert((pb@ + q).subrange(0, pb@.len() as int) =~= pb@);
                            }
                        }
                    }
                }
            }
            i = i + 1;
        }
        out
    }

    /// The local branches' short names, sorted.
    pub fn branches(&self) -> (r: Vec<String>)
        ensures
            strictly_sorted(r@),
            forall|q: Seq<u8>| #[trigger] in_paths(r@, q) <==> under(self.refs@, heads_prefix(), q),
    {
        proof {
            reveal_strlit("refs/heads/");
            crate::text::lemma_ascii_chars_bytes("refs/heads/"@);
            assert(bytes_of("refs/heads/"@) =~= heads_prefix());
        }
        self.names_under("refs/heads/")
    }

    /// The tags' names, sorted.
    pub fn tags(&self) -> (r: Vec<String>)
        ensures
            strictly_sorted(r@),
            forall|q: Seq<u8>| #[trigger] in_paths(r@, q) <==> under(self.refs@, tags_prefix(), q),
    {
        proof {
            reveal_strlit("refs/tags/");
            crate::text::lemma_ascii_chars_bytes("refs/tags/"@);
            assert(bytes_of("refs/tags/"@) =~= tags_prefix());
        }
        self.names_under("refs/tags/")
    }

    /// Resolves a name as given, else as a branch, else as a tag; the
    /// first that resolves wins, and none is `RefNotFound`.
    pub fn resolve(&self, name: &str) -> (r: Result<ResolvedRef, Error>)
        ensures
            resolve_v(self.refs@, bytes_of(name@), 0) is Some ==> r is Ok && (bytes_of(r->Ok_0.name@), r->Ok_0.oid@) == resolve_v(self.refs@, bytes_of(name@), 0)->0,
            resolve_v(self.refs@, bytes_of(name@), 0) is None && resolve_v(self.refs@, heads_prefix() + bytes_of(name@), 0) is Some ==> r is Ok && (bytes_of(r->Ok_0.name@), r->Ok_0.oid@) == resolve_v(self.refs@, heads_prefix() + bytes_of(name@), 0)->0,
            resolve_v(self.refs@, bytes_of(name@), 0) is None && resolve_v(self.refs@, heads_prefix() + bytes_of(name@), 0) is None && resolve_v(self.refs@, tags_prefix() + bytes_of(name@), 0) is Some ==> r is Ok && (bytes_of(r->Ok_0.name@), r->Ok_0.oid@) == resolve_v(self.refs@, tags_prefix() + bytes_of(name@), 0)->0,
            r is Ok <==> (resolve_v(self.refs@, bytes_of(name@), 0) is Some || resolve_v(self.refs@, heads_prefix() + bytes_of(name@), 0) is Some || resolve_v(self.refs@, tags_prefix() + bytes_of(name@), 0) is Some),
            r is Err ==> r->Err_0 is RefNotFound,
    {
        if let Ok(x) = self.resolve_recursive(name) {
            return Ok(x);
        }
        let b = heads_ref(name);
        if let Ok(x) = self.resolve_recursive(b.as_str()) {
            return Ok(x);
        }
        let p = "refs/tags/";
        proof {
            reveal_strlit("refs/tags/");
            crate::text::lemma_ascii_chars_bytes(p@);
            assert(bytes_of(p@) =~= tags_prefix());
        }
        let t = concat(p, name);
        if let Ok(x) = self.resolve_recursive(t.as_str()) {
            return Ok(x);
        }
        Err(Error::RefNotFound(owned(name)))
    }
}

} // verus!
