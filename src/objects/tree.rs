//! Trees: directory listings of `(mode, name, child id)` entries.

use vstd::prelude::*;
use vstd::std_specs::iter::IteratorSpec;
use vstd::utf8::*;

use crate::error::Error;
use crate::objects::oid::Oid;
use crate::objects::store::{ObjectType, RawObject};
use crate::text::{
    bytes_of, copy_range, find_from, lemma_ascii_chars_bytes, lemma_find_from, owned, range_eq,
    str_bytes, str_eq_bytes, utf8_string,
};

verus! {

/// The closed set of entry modes.
#[derive(Debug, Clone, Copy, PartialEq, Eq, Structural)]
pub enum FileMode {
    Regular,
    Executable,
    Symlink,
    Directory,
    Submodule,
}

/// The canonical octal text of a mode.
pub open spec fn octal_of(m: FileMode) -> Seq<u8> {
    match m {
        FileMode::Regular => seq![49u8, 48, 48, 54, 52, 52],
        FileMode::Executable => seq![49u8, 48, 48, 55, 53, 53],
        FileMode::Symlink => seq![49u8, 50, 48, 48, 48, 48],
        FileMode::Directory => seq![52u8, 48, 48, 48, 48],
        FileMode::Submodule => seq![49u8, 54, 48, 48, 48, 48],
    }
}

/// The mode that an octal text denotes; `644` and `755` are accepted as
/// short forms.
pub open spec fn mode_of_octal(s: Seq<u8>) -> Option<FileMode> {
    if s == octal_of(FileMode::Regular) || s == seq![54u8, 52, 52] {
        Some(FileMode::Regular)
    } else if s == octal_of(FileMode::Executable) || s == seq![55u8, 53, 53] {
        Some(FileMode::Executable)
    } else if s == octal_of(FileMode::Symlink) {
        Some(FileMode::Symlink)
    } else if s == octal_of(FileMode::Directory) {
        Some(FileMode::Directory)
    } else if s == octal_of(FileMode::Submodule) {
        Some(FileMode::Submodule)
    } else {
        None
    }
}

/// Regular, executable and symbolic-link entries are files.
pub open spec fn mode_is_file(m: FileMode) -> bool {
    m == FileMode::Regular || m == FileMode::Executable || m == FileMode::Symlink
}

fn lit_bytes(s: &'static str) -> (r: &'static [u8])
    ensures
        r@ == bytes_of(s@),
{
    s.as_bytes()
}

impl FileMode {
    /// The mode written by an octal text, if it is one of the known ones.
    pub fn from_octal(s: &str) -> (r: Option<FileMode>)
        ensures
            r == mode_of_octal(bytes_of(s@)),
    {
        let b = str_bytes(s);
        assert(b@.subrange(0, b@.len() as int) =~= b@);
        FileMode::from_octal_bytes(b, 0, b.len())
    }

    /// The mode written by `s[from..to]`.
    pub fn from_octal_bytes(s: &[u8], from: usize, to: usize) -> (r: Option<FileMode>)
        requires
            from <= to <= s@.len(),
        ensures
            r == mode_of_octal(s@.subrange(from as int, to as int)),
    {
        let short_regular = lit_bytes("644");
        let short_exec = lit_bytes("755");
        proof {
            reveal_strlit("644");
            reveal_strlit("755");
            lemma_ascii_chars_bytes("644"@);
            lemma_ascii_chars_bytes("755"@);
            assert(short_regular@ =~= seq![54u8, 52, 52]);
            assert(short_exec@ =~= seq![55u8, 53, 53]);
        }
        if range_eq(s, from, to, FileMode::Regular.as_octal().as_bytes()) || range_eq(
            s,
            from,
            to,
            short_regular,
        ) {
            Some(FileMode::Regular)
        } else if range_eq(s, from, to, FileMode::Executable.as_octal().as_bytes()) || range_eq(
            s,
            from,
            to,
            short_exec,
        ) {
            Some(FileMode::Executable)
        } else if range_eq(s, from, to, FileMode::Symlink.as_octal().as_bytes()) {
            Some(FileMode::Symlink)
        } else if range_eq(s, from, to, FileMode::Directory.as_octal().as_bytes()) {
            Some(FileMode::Directory)
        } else if range_eq(s, from, to, FileMode::Submodule.as_octal().as_bytes()) {
            Some(FileMode::Submodule)
        } else {
            None
        }
    }

    /// The canonical octal text.
    pub fn as_octal(&self) -> (r: &'static str)
        ensures
            bytes_of(r@) == octal_of(*self),
    {
        match self {
            FileMode::Regular => {
                proof {
                    reveal_strlit("100644");
                    lemma_ascii_chars_bytes("100644"@);
                    assert(bytes_of("100644"@) =~= octal_of(*self));
                }
                "100644"
            },
            FileMode::Executable => {
                proof {
                    reveal_strlit("100755");
                    lemma_ascii_chars_bytes("100755"@);
                    assert(bytes_of("100755"@) =~= octal_of(*self));
                }
                "100755"
            },
            FileMode::Symlink => {
                proof {
                    reveal_strlit("120000");
                    lemma_ascii_chars_bytes("120000"@);
                    assert(bytes_of("120000"@) =~= octal_of(*self));
                }
                "120000"
            },
            FileMode::Directory => {
                proof {
                    reveal_strlit("40000");
                    lemma_ascii_chars_bytes("40000"@);
                    assert(bytes_of("40000"@) =~= octal_of(*self));
                }
                "40000"
            },
            FileMode::Submodule => {
                proof {
                    reveal_strlit("160000");
                    lemma_ascii_chars_bytes("160000"@);
                    assert(bytes_of("160000"@) =~= octal_of(*self));
                }
                "160000"
            },
        }
    }

    /// Regular, executable and symbolic-link entries are files.
    pub fn is_file(&self) -> (r: bool)
        ensures
            r == mode_is_file(*self),
    {
        match self {
            FileMode::Regular | FileMode::Executable | FileMode::Symlink => true,
            _ => false,
        }
    }

    /// Whether this is a subtree.
    pub fn is_directory(&self) -> (r: bool)
        ensures
            r == (*self == FileMode::Directory),
    {
        match self {
            FileMode::Directory => true,
            _ => false,
        }
    }

    /// Whether this is an executable file.
    pub fn is_executable(&self) -> (r: bool)
        ensures
            r == (*self == FileMode::Executable),
    {
        match self {
            FileMode::Executable => true,
            _ => false,
        }
    }
}

/// One entry of a tree.
#[derive(Debug, Clone, PartialEq, Eq)]
pub struct TreeEntry {
    pub mode: FileMode,
    pub name: String,
    pub oid: Oid,
}

/// An entry as values: mode, name bytes, child id bytes.
pub type EntryV = (FileMode, Seq<u8>, Seq<u8>);

/// The value of an entry.
pub open spec fn entry_v(e: TreeEntry) -> EntryV {
    (e.mode, bytes_of(e.name@), e.oid@)
}

/// The values of a list of entries.
pub open spec fn entries_v(es: Seq<TreeEntry>) -> Seq<EntryV> {
    es.map_values(|e: TreeEntry| entry_v(e))
}

impl TreeEntry {
    /// The mode.
    pub fn mode(&self) -> (r: FileMode)
        ensures
            r == self.mode,
    {
        self.mode
    }

    /// The name within its directory.
    pub fn name(&self) -> (r: &str)
        ensures
            r@ == self.name@,
    {
        self.name.as_str()
    }

    /// The child's identifier.
    pub fn oid(&self) -> (r: &Oid)
        ensures
            *r == self.oid,
    {
        &self.oid
    }

    /// Whether the entry is a file.
    pub fn is_file(&self) -> (r: bool)
        ensures
            r == mode_is_file(self.mode),
    {
        self.mode.is_file()
    }

    /// Whether the entry is a subtree.
    pub fn is_directory(&self) -> (r: bool)
        ensures
            r == (self.mode == FileMode::Directory),
    {
        self.mode.is_directory()
    }
}

/// Prefixes known entries to the outcome of parsing the rest.
pub open spec fn prepend(a: Seq<EntryV>, r: Option<Seq<EntryV>>) -> Option<Seq<EntryV>> {
    match r {
        Some(es) => Some(a + es),
        None => None,
    }
}

/// The entries of a tree body: each `"<octal mode> <name>\0<20-byte id>"`.
pub open spec fn parse_tree_body(c: Seq<u8>) -> Option<Seq<EntryV>>
    decreases c.len(),
{
    if c.len() == 0 {
        Some(Seq::empty())
    } else {
        let sp = find_from(c, 32, 0);
        let nul = find_from(c, 0, sp + 1);
        if sp < 0 || nul < 0 || nul + 21 > c.len() {
            None
        } else {
            let mode = mode_of_octal(c.subrange(0, sp));
            let name = c.subrange(sp + 1, nul);
            if mode is None || !valid_utf8(name) {
                None
            } else {
                prepend(
                    seq![(mode->0, name, c.subrange(nul + 1, nul + 21))],
                    parse_tree_body(c.subrange(nul + 21, c.len() as int)),
                )
            }
        }
    }
}

/// The body that lists the given entries in order.
pub open spec fn tree_body(es: Seq<EntryV>) -> Seq<u8>
    decreases es.len(),
{
    if es.len() == 0 {
        Seq::empty()
    } else {
        octal_of(es[0].0) + seq![32u8] + es[0].1 + seq![0u8] + es[0].2 + tree_body(
            es.subrange(1, es.len() as int),
        )
    }
}

/// A directory listing.
#[derive(Debug, Clone)]
pub struct Tree {
    pub entries: Vec<TreeEntry>,
}

fn invalid_tree(reason: &str) -> (r: Error)
    ensures
        r is InvalidObject,
{
    Error::InvalidObject { oid: owned(""), reason: owned(reason) }
}

impl Tree {
    /// Reads a tree from a raw object.
    pub fn parse(raw: RawObject) -> (r: Result<Tree, Error>)
        ensures
            r is Ok <==> (raw.object_type == ObjectType::Tree && parse_tree_body(raw.content@) is Some),
            r is Ok ==> entries_v(r->Ok_0.entries@) == parse_tree_body(raw.content@)->0,
            raw.object_type != ObjectType::Tree ==> r is Err && r->Err_0 is TypeMismatch
                && r->Err_0->TypeMismatch_expected@ == "tree"@
                && bytes_of(r->Err_0->TypeMismatch_actual@) == crate::objects::store::kind_name(raw.object_type),
            raw.object_type == ObjectType::Tree && r is Err ==> r->Err_0 is InvalidObject,
    {
        if raw.object_type != ObjectType::Tree {
            return Err(Error::TypeMismatch { expected: "tree", actual: raw.object_type.as_str() });
        }
        let c = raw.content.as_slice();
        let len = c.len();
        let mut entries: Vec<TreeEntry> = Vec::new();
        let mut pos: usize = 0;
        assert(c@.subrange(0, len as int) =~= c@);
        proof {
            match parse_tree_body(c@) {
                Some(es) => {
                    assert(entries_v(entries@) + es =~= es);
                },
                None => {},
            }
        }
        while pos < len
            invariant
                0 <= pos <= len,
                raw.object_type == ObjectType::Tree,
                len == c@.len(),
                c@ == raw.content@,
                parse_tree_body(c@) == prepend(
                    entries_v(entries@),
                    parse_tree_body(c@.subrange(pos as int, len as int)),
                ),
            decreases len - pos,
        {
            let ghost rest = c@.subrange(pos as int, len as int);
            let sp = match crate::text::position_from(c, pos, 32) {
                Some(i) => i,
                None => {
                    proof {
                        lemma_find_shift(c@, 32, pos as int, 0);
                    }
                    return Err(invalid_tree("missing space in tree entry"));
                },
            };
            proof {
                lemma_find_shift(c@, 32, pos as int, 0);
                lemma_find_from(c@, 32, pos as int);
            }
            let mode = match FileMode::from_octal_bytes(c, pos, sp) {
                Some(m) => m,
                None => {
                    assert(c@.subrange(pos as int, sp as int) =~= rest.subrange(0, sp - pos));
                    return Err(invalid_tree("unknown file mode"));
                },
            };
            assert(c@.subrange(pos as int, sp as int) =~= rest.subrange(0, sp - pos));
            let nul = match crate::text::position_from(c, sp + 1, 0) {
                Some(i) => i,
                None => {
                    proof {
                        lemma_find_shift(c@, 0, pos as int, sp + 1 - pos);
                    }
                    return Err(invalid_tree("missing null byte in tree entry"));
                },
            };
            proof {
                lemma_find_shift(c@, 0, pos as int, sp + 1 - pos);
                lemma_find_from(c@, 0, sp + 1);
            }
            if len - nul < 21 {
                return Err(invalid_tree("truncated SHA-1 in tree entry"));
            }
            let name_bytes = copy_range(c, sp + 1, nul);
            assert(name_bytes@ =~= rest.subrange(sp + 1 - pos, nul - pos));
            let name = match utf8_string(name_bytes) {
                Some(n) => n,
                None => { return Err(invalid_tree("invalid UTF-8 in entry name")); },
            };
            let oid = Oid::read_at(c, nul + 1);
            let entry = TreeEntry { mode, name, oid };
            let ghost before = entries@;
            entries.push(entry);
            proof {
                assert(oid@ =~= rest.subrange(nul + 1 - pos, nul + 21 - pos));
                assert(c@.subrange(nul + 21, len as int) =~= rest.subrange(
                    nul + 21 - pos,
                    rest.len() as int,
                ));
                assert(entries_v(entries@) =~= entries_v(before) + seq![entry_v(entry)]);
                let tail = parse_tree_body(c@.subrange(nul + 21, len as int));
                match tail {
                    Some(es) => {
                        assert(entries_v(before) + (seq![entry_v(entry)] + es) =~= entries_v(
                            entries@,
                        ) + es);
                    },
                    None => {},
                }
            }
            pos = nul + 21;
        }
        assert(c@.subrange(len as int, len as int) =~= Seq::<u8>::empty());
        assert(entries_v(entries@) + Seq::<EntryV>::empty() =~= entries_v(entries@));
        Ok(Tree { entries })
    }

    /// The entries in stored order.
    pub fn entries(&self) -> (r: &[TreeEntry])
        ensures
            r@ == self.entries@,
    {
        self.entries.as_slice()
    }

    /// The number of entries.
    pub fn len(&self) -> (r: usize)
        ensures
            r == self.entries@.len(),
    {
        self.entries.len()
    }

    /// Whether the tree has no entries.
    pub fn is_empty(&self) -> (r: bool)
        ensures
            r == (self.entries@.len() == 0),
    {
        self.entries.len() == 0
    }

    /// The first entry with the given name.
    pub fn get(&self, name: &str) -> (r: Option<&TreeEntry>)
        ensures
            r is None <==> forall|i: int|
                0 <= i < self.entries@.len() ==> self.entries@[i].name@ != name@,
            r is Some ==> exists|i: int|
                0 <= i < self.entries@.len() && self.entries@[i] == *r->Some_0
                    && self.entries@[i].name@ == name@ && forall|j: int|
                    0 <= j < i ==> self.entries@[j].name@ != name@,
    {
        let nb = str_bytes(name);
        let mut i: usize = 0;
        while i < self.entries.len()
            invariant
                0 <= i <= self.entries@.len(),
                nb@ == bytes_of(name@),
                forall|j: int| 0 <= j < i ==> self.entries@[j].name@ != name@,
            decreases self.entries@.len() - i,
        {
            if str_eq_bytes(self.entries[i].name.as_str(), nb) {
                proof {
                    crate::text::lemma_bytes_of_injective(self.entries@[i as int].name@, name@);
                }
                return Some(&self.entries[i]);
            }
            i = i + 1;
        }
        None
    }

    /// Iterates over the entries in stored order.
    pub fn iter(&self) -> (r: std::slice::Iter<'_, TreeEntry>)
        ensures
            r.remaining() == self.entries@.as_ref(),
    {
        self.entries.iter()
    }
}

/// A search that starts inside a suffix finds the same place, shifted.
pub proof fn lemma_find_shift(s: Seq<u8>, c: u8, base: int, from: int)
    requires
        0 <= base <= s.len(),
        0 <= from,
    ensures
        find_from(s.subrange(base, s.len() as int), c, from) == if find_from(s, c, base + from)
            == -1 {
            -1
        } else {
            find_from(s, c, base + from) - base
        },
    decreases s.len() - base - from,
{
    if base + from < s.len() && s[base + from] != c {
        lemma_find_shift(s, c, base, from + 1);
    }
}

} // verus!

verus! {

/// Entries that a tree body can carry: names without NUL and valid UTF-8,
/// ids of 20 bytes.
pub open spec fn writable_entries(es: Seq<EntryV>) -> bool {
    forall|i: int| 0 <= i < es.len() ==> {
        &&& valid_utf8(#[trigger] es[i].1)
        &&& es[i].2.len() == 20
        &&& forall|j: int| 0 <= j < es[i].1.len() ==> es[i].1[j] != 0u8
    }
}

/// Modes read back from their octal text.
pub proof fn lemma_octal_round_trip(m: FileMode)
    ensures
        mode_of_octal(octal_of(m)) == Some(m),
        forall|j: int| 0 <= j < octal_of(m).len() ==> octal_of(m)[j] != 32u8 && octal_of(m)[j] != 0u8,
        octal_of(m).len() > 0,
{
    match m {
        FileMode::Regular => {},
        FileMode::Executable => {
            assert(octal_of(m) != octal_of(FileMode::Regular));
            assert(octal_of(m) != seq![54u8, 52, 52]);
        },
        FileMode::Symlink => {
            assert(octal_of(m) != octal_of(FileMode::Regular));
            assert(octal_of(m) != seq![54u8, 52, 52]);
            assert(octal_of(m) != octal_of(FileMode::Executable));
            assert(octal_of(m) != seq![55u8, 53, 53]);
        },
        FileMode::Directory => {
            assert(octal_of(m) != octal_of(FileMode::Regular));
            assert(octal_of(m) != seq![54u8, 52, 52]);
            assert(octal_of(m) != octal_of(FileMode::Executable));
            assert(octal_of(m) != seq![55u8, 53, 53]);
            assert(octal_of(m) != octal_of(FileMode::Symlink));
        },
        FileMode::Submodule => {
            assert(octal_of(m) != octal_of(FileMode::Regular));
            assert(octal_of(m) != seq![54u8, 52, 52]);
            assert(octal_of(m) != octal_of(FileMode::Executable));
            assert(octal_of(m) != seq![55u8, 53, 53]);
            assert(octal_of(m) != octal_of(FileMode::Symlink));
            assert(octal_of(m) != octal_of(FileMode::Directory));
        },
    }
}

/// Writing entries and reading them back gives the same entries.
pub proof fn lemma_tree_round_trip(es: Seq<EntryV>)
    requires
        writable_entries(es),
    ensures
        parse_tree_body(tree_body(es)) == Some(es),
    decreases es.len(),
{
    if es.len() > 0 {
        let e = es[0];
        let rest = es.subrange(1, es.len() as int);
        assert(writable_entries(rest)) by {
            assert forall|i: int| 0 <= i < rest.len() implies {
                &&& valid_utf8(#[trigger] rest[i].1)
                &&& rest[i].2.len() == 20
                &&& forall|j: int| 0 <= j < rest[i].1.len() ==> rest[i].1[j] != 0u8
            } by {
                assert(rest[i] == es[i + 1]);
            }
        }
        lemma_tree_round_trip(rest);
        lemma_octal_round_trip(e.0);
        let o = octal_of(e.0);
        let c = tree_body(es);
        let sp = o.len() as int;
        let nul = sp + 1 + e.1.len();
        assert(c == o + seq![32u8] + e.1 + seq![0u8] + e.2 + tree_body(rest));
        assert(c[sp] == 32u8);
        assert forall|j: int| 0 <= j < sp implies c[j] != 32u8 by {
            assert(c[j] == o[j]);
        }
        crate::objects::store::lemma_first_at(c, 32u8, sp);
        assert(c[nul] == 0u8);
        assert forall|j: int| sp + 1 <= j < nul implies c[j] != 0u8 by {
            assert(c[j] == e.1[j - sp - 1]);
        }
        crate::objects::store::lemma_first_at_from(c, 0u8, sp + 1, nul);
        assert(c.subrange(0, sp) =~= o);
        assert(c.subrange(sp + 1, nul) =~= e.1);
        assert(c.subrange(nul + 1, nul + 21) =~= e.2);
        assert(c.subrange(nul + 21, c.len() as int) =~= tree_body(rest));
        assert(seq![(e.0, e.1, e.2)] + rest =~= es);
    }
}

/// Reading a tree body, writing the entries back and reading again gives
/// what the first read gave.
pub proof fn lemma_tree_reparse(b: Seq<u8>)
    requires
        parse_tree_body(b) is Some,
    ensures
        parse_tree_body(tree_body(parse_tree_body(b)->0)) == parse_tree_body(b),
    decreases b.len(),
{
    lemma_parsed_writable(b);
    lemma_tree_round_trip(parse_tree_body(b)->0);
}

/// What a parse yields can be written back.
pub proof fn lemma_parsed_writable(b: Seq<u8>)
    requires
        parse_tree_body(b) is Some,
    ensures
        writable_entries(parse_tree_body(b)->0),
    decreases b.len(),
{
    if b.len() > 0 {
        let sp = find_from(b, 32, 0);
        let nul = find_from(b, 0, sp + 1);
        lemma_find_from(b, 32, 0);
        lemma_find_from(b, 0, sp + 1);
        let rest = b.subrange(nul + 21, b.len() as int);
        lemma_parsed_writable(rest);
        let es = parse_tree_body(b)->0;
        let tail = parse_tree_body(rest)->0;
        assert(es == seq![(mode_of_octal(b.subrange(0, sp))->0, b.subrange(sp + 1, nul), b.subrange(nul + 1, nul + 21))] + tail);
        assert forall|i: int| 0 <= i < es.len() implies {
            &&& valid_utf8(#[trigger] es[i].1)
            &&& es[i].2.len() == 20
            &&& forall|j: int| 0 <= j < es[i].1.len() ==> es[i].1[j] != 0u8
        } by {
            if i > 0 {
                assert(es[i] == tail[i - 1]);
            } else {
                assert forall|j: int| 0 <= j < es[0].1.len() implies es[0].1[j] != 0u8 by {
                    assert(es[0].1[j] == b[sp + 1 + j]);
                }
            }
        }
    }
}

} // verus!
