//! Writing the binary index file.

use vstd::prelude::*;

use crate::index::{entries_v, path_of, Index, IndexEntry, IndexEntryV};
use crate::infra::hash::{be32, sha1, sha1_spec};
use crate::objects::tree::FileMode;
use crate::text::{append_all, bytes_of, str_bytes};

verus! {

/// The big-endian bytes of a 16-bit value.
pub open spec fn be16(x: u16) -> Seq<u8> {
    seq![(x >> 8u16) as u8, (x & 0xff) as u8]
}

/// The magic bytes `DIRC`.
pub open spec fn dirc() -> Seq<u8> {
    seq![68u8, 73, 82, 67]
}

/// The numeric mode stored for each kind of entry.
pub open spec fn mode_bits(m: FileMode) -> u32 {
    match m {
        FileMode::Regular => 0o100644,
        FileMode::Executable => 0o100755,
        FileMode::Symlink => 0o120000,
        FileMode::Directory => 0o040000,
        FileMode::Submodule => 0o160000,
    }
}

/// A path with every backslash turned into a forward slash.
pub open spec fn unix_path(p: Seq<u8>) -> Seq<u8> {
    p.map_values(|c: u8| if c == 92u8 { 47u8 } else { c })
}

/// The path bytes as stored, with forward slashes.
pub fn path_to_unix_bytes(path: &str) -> (r: Vec<u8>)
    ensures
        r@ == unix_path(bytes_of(path@)),
{
    let b = str_bytes(path);
    let mut out: Vec<u8> = Vec::new();
    let mut i: usize = 0;
    while i < b.len()
        invariant
            0 <= i <= b@.len(),
            out@ == unix_path(b@.subrange(0, i as int)),
        decreases b@.len() - i,
    {
        out.push(if b[i] == 92u8 { 47u8 } else { b[i] });
        i = i + 1;
        assert(out@ =~= unix_path(b@.subrange(0, i as int)));
    }
    assert(b@.subrange(0, b@.len() as int) =~= b@);
    out
}

/// The flags word: name length saturated at 0xFFF, stage in bits 12-13.
pub open spec fn entry_flags(e: IndexEntryV) -> u16 {
    let n: u16 = if e.path.len() < 0xFFF { e.path.len() as u16 } else { 0xFFF };
    n | ((e.stage as u16) << 12u16)
}

/// The NUL padding after an entry of `n` bytes: one to eight bytes, so
/// that the entry ends on a multiple of eight.
pub open spec fn pad_len(n: nat) -> nat {
    (8 - n % 8) as nat
}

/// The fixed-size part of an entry: times, ids, mode, size, object id, flags.
pub open spec fn fixed_bytes(e: IndexEntryV) -> Seq<u8> {
    be32(e.ctime as u32) + be32(0) + be32(e.mtime as u32) + be32(0) + be32(e.dev) + be32(e.ino)
        + be32(mode_bits(e.mode)) + be32(e.uid) + be32(e.gid) + be32(e.size) + e.oid + be16(
        entry_flags(e),
    )
}

/// The bytes of one entry.
pub open spec fn entry_bytes(e: IndexEntryV) -> Seq<u8> {
    fixed_bytes(e) + unix_path(e.path) + Seq::new(pad_len(62 + e.path.len()), |i: int| 0u8)
}

/// The bytes of a list of entries, in order.
pub open spec fn entries_bytes(es: Seq<IndexEntryV>) -> Seq<u8>
    decreases es.len(),
{
    if es.len() == 0 {
        Seq::empty()
    } else {
        entries_bytes(es.drop_last()) + entry_bytes(es.last())
    }
}

/// Everything before the checksum.
pub open spec fn index_body(version: u32, es: Seq<IndexEntryV>) -> Seq<u8> {
    dirc() + be32(version) + be32(es.len() as u32) + entries_bytes(es)
}

/// The whole file: body, then the SHA-1 of the body.
pub open spec fn index_file(version: u32, es: Seq<IndexEntryV>) -> Seq<u8> {
    index_body(version, es) + sha1_spec(index_body(version, es))
}

fn push_u32(out: &mut Vec<u8>, x: u32)
    ensures
        final(out)@ == old(out)@ + be32(x),
{
    out.push((x >> 24u32) as u8);
    out.push(((x >> 16u32) & 0xff) as u8);
    out.push(((x >> 8u32) & 0xff) as u8);
    out.push((x & 0xff) as u8);
    assert(final(out)@ =~= old(out)@ + be32(x));
}

fn push_u16(out: &mut Vec<u8>, x: u16)
    ensures
        final(out)@ == old(out)@ + be16(x),
{
    out.push((x >> 8u16) as u8);
    out.push((x & 0xff) as u8);
    assert(final(out)@ =~= old(out)@ + be16(x));
}

/// The numeric mode stored for a kind of entry.
pub fn file_mode_to_u32(mode: FileMode) -> (r: u32)
    ensures
        r == mode_bits(mode),
{
    match mode {
        FileMode::Regular => 0o100644,
        FileMode::Executable => 0o100755,
        FileMode::Symlink => 0o120000,
        FileMode::Directory => 0o040000,
        FileMode::Submodule => 0o160000,
    }
}

/// Appends one entry.
pub fn write_entry(out: &mut Vec<u8>, entry: &IndexEntry)
    ensures
        final(out)@ == old(out)@ + entry_bytes(crate::index::entry_v(*entry)),
{
    let ghost e = crate::index::entry_v(*entry);
    let ghost start = out@;
    push_u32(out, #[verifier::truncate] (entry.ctime as u32));
    push_u32(out, 0);
    push_u32(out, #[verifier::truncate] (entry.mtime as u32));
    push_u32(out, 0);
    push_u32(out, entry.dev);
    push_u32(out, entry.ino);
    push_u32(out, file_mode_to_u32(entry.mode));
    push_u32(out, entry.uid);
    push_u32(out, entry.gid);
    push_u32(out, entry.size);
    append_all(out, entry.oid.as_bytes().as_slice());
    let pv = path_to_unix_bytes(entry.path.as_str());
    let path = pv.as_slice();
    let n: u16 = if path.len() < 0xFFF {
        path.len() as u16
    } else {
        0xFFF
    };
    let flags: u16 = n | ((entry.stage as u16) << 12u16);
    push_u16(out, flags);
    append_all(out, path);
    let pad: usize = 8 - (6 + path.len() % 8) % 8;
    assert((62 + path@.len()) % 8 == (6 + path@.len() % 8) % 8);
    let ghost mid = out@;
    let mut k: usize = 0;
    while k < pad
        invariant
            0 <= k <= pad,
            out@ == mid + Seq::new(k as nat, |i: int| 0u8),
        decreases pad - k,
    {
        out.push(0u8);
        k = k + 1;
        assert(out@ =~= mid + Seq::new(k as nat, |i: int| 0u8));
    }
    assert(out@ =~= start + entry_bytes(e));
}

/// Writes the header `DIRC`, version and entry count.
pub fn write_header(out: &mut Vec<u8>, version: u32, entry_count: u32)
    ensures
        final(out)@ == old(out)@ + dirc() + be32(version) + be32(entry_count),
{
    out.push(68u8);
    out.push(73u8);
    out.push(82u8);
    out.push(67u8);
    assert(out@ =~= old(out)@ + dirc());
    push_u32(out, version);
    push_u32(out, entry_count);
    assert(final(out)@ =~= old(out)@ + dirc() + be32(version) + be32(entry_count));
}

/// The index file for an index: header, entries in order, checksum.
pub fn write(index: &Index) -> (r: Vec<u8>)
    requires
        index.entries@.len() <= u32::MAX,
    ensures
        r@ == index_file(index.version, entries_v(index.entries@)),
{
    let mut buf: Vec<u8> = Vec::new();
    write_header(&mut buf, index.version, index.entries.len() as u32);
    let ghost head = buf@;
    let mut i: usize = 0;
    while i < index.entries.len()
        invariant
            0 <= i <= index.entries@.len(),
            buf@ == head + entries_bytes(entries_v(index.entries@.subrange(0, i as int))),
        decreases index.entries@.len() - i,
    {
        let ghost before = buf@;
        write_entry(&mut buf, &index.entries[i]);
        proof {
            let es = entries_v(index.entries@.subrange(0, i + 1));
            assert(es.drop_last() =~= entries_v(index.entries@.subrange(0, i as int)));
            assert(es.last() == crate::index::entry_v(index.entries@[i as int]));
        }
        i = i + 1;
    }
    assert(index.entries@.subrange(0, index.entries@.len() as int) =~= index.entries@);
    assert(buf@ =~= index_body(index.version, entries_v(index.entries@)));
    let checksum = sha1(buf.as_slice());
    let ghost body = buf@;
    append_all(&mut buf, checksum.as_slice());
    buf
}

} // verus!
