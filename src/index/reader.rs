//! Reading the binary index file.

use vstd::prelude::*;
use vstd::utf8::*;

use crate::error::Error;
use crate::index::{entries_v, entry_v, Index, IndexEntry, IndexEntryV};
use crate::objects::oid::Oid;
use crate::objects::tree::FileMode;
use crate::text::{copy_range, find_from, lemma_find_from, owned, position_from, utf8_string};

verus! {

/// The big-endian 32-bit value at position `p`.
pub open spec fn u32_at(d: Seq<u8>, p: int) -> u32 {
    ((d[p] as u32) << 24u32) | ((d[p + 1] as u32) << 16u32) | ((d[p + 2] as u32) << 8u32) | (d[p
        + 3] as u32)
}

/// The big-endian 16-bit value at position `p`.
pub open spec fn u16_at(d: Seq<u8>, p: int) -> u16 {
    ((d[p] as u16) << 8u16) | (d[p + 1] as u16)
}

/// The entry mode that a stored numeric mode denotes: one of the five
/// standard modes, nothing else.
pub open spec fn mode_of_bits(m: u32) -> Option<FileMode> {
    if m == 0o100644 {
        Some(FileMode::Regular)
    } else if m == 0o100755 {
        Some(FileMode::Executable)
    } else if m == 0o120000 {
        Some(FileMode::Symlink)
    } else if m == 0o040000 {
        Some(FileMode::Directory)
    } else if m == 0o160000 {
        Some(FileMode::Submodule)
    } else {
        None
    }
}

/// Skips the NUL padding of an entry that began at `start` and whose name
/// ended at `name_end`: up to the first multiple of eight past the name,
/// stopping early at a non-NUL byte or the end of the data.
pub open spec fn skip_pad(d: Seq<u8>, start: int, name_end: int, pos: int) -> int
    decreases d.len() - pos,
{
    if pos < 0 || pos >= d.len() || (pos - start > name_end - start && (pos - start) % 8 == 0)
        || d[pos] != 0 {
        pos
    } else {
        skip_pad(d, start, name_end, pos + 1)
    }
}

/// The entry stored at `p` for a given version, and where the next one begins.
pub open spec fn parse_entry_at(d: Seq<u8>, p: int, version: u32) -> Option<(IndexEntryV, int)> {
    if p < 0 || p + 62 > d.len() {
        None
    } else {
        let flags = u16_at(d, p + 60);
        let name_len = (flags & 0xFFF) as int;
        let stage = ((flags >> 12u16) & 3) as u8;
        let ext = version >= 3 && flags & 0x4000 != 0;
        let q = if ext { p + 64 } else { p + 62 };
        let mode = mode_of_bits(u32_at(d, p + 24));
        if mode is None || q > d.len() {
            None
        } else {
            let nul = find_from(d, 0, q);
            let name_end = if name_len == 0xFFF { nul } else { q + name_len };
            let after = if name_len == 0xFFF { nul + 1 } else { q + name_len };
            if (name_len == 0xFFF && nul < 0) || name_end > d.len() || !valid_utf8(
                d.subrange(q, name_end),
            ) {
                None
            } else {
                let e = IndexEntryV {
                    ctime: u32_at(d, p) as u64,
                    mtime: u32_at(d, p + 8) as u64,
                    dev: u32_at(d, p + 16),
                    ino: u32_at(d, p + 20),
                    mode: mode->0,
                    uid: u32_at(d, p + 28),
                    gid: u32_at(d, p + 32),
                    size: u32_at(d, p + 36),
                    oid: d.subrange(p + 40, p + 60),
                    path: d.subrange(q, name_end),
                    stage: stage,
                };
                Some((e, skip_pad(d, p, name_end, after)))
            }
        }
    }
}

/// The `n` entries stored from position `p` on, and the position after them.
pub open spec fn parse_entries(d: Seq<u8>, p: int, n: nat, version: u32) -> Option<
    (Seq<IndexEntryV>, int),
>
    decreases n,
{
    if n == 0 {
        Some((Seq::empty(), p))
    } else {
        match parse_entries(d, p, (n - 1) as nat, version) {
            Some((es, q)) => match parse_entry_at(d, q, version) {
                Some((e, r)) => Some((es.push(e), r)),
                None => None,
            },
            None => None,
        }
    }
}

/// The header's magic bytes are `DIRC`.
pub open spec fn has_magic(d: Seq<u8>) -> bool {
    d.len() >= 4 && d[0] == 68 && d[1] == 73 && d[2] == 82 && d[3] == 67
}

/// The version and entry count of a header, when it is acceptable.
pub open spec fn parse_header_spec(d: Seq<u8>) -> Option<(u32, u32)> {
    if !has_magic(d) || d.len() < 12 || u32_at(d, 4) < 2 || u32_at(d, 4) > 4 {
        None
    } else {
        Some((u32_at(d, 4), u32_at(d, 8)))
    }
}

/// The version a header error reports: 0 before a version is read.
pub open spec fn header_error_version(d: Seq<u8>) -> u32 {
    if has_magic(d) && d.len() >= 8 {
        u32_at(d, 4)
    } else {
        0
    }
}

/// The version and entries of an index file; the checksum is not consulted.
pub open spec fn parse_index(d: Seq<u8>) -> Option<(u32, Seq<IndexEntryV>)> {
    match parse_header_spec(d) {
        Some((v, n)) => match parse_entries(d, 12, n as nat, v) {
            Some((es, _)) => Some((v, es)),
            None => None,
        },
        None => None,
    }
}

/// Reads a big-endian 32-bit value.
pub fn read_u32_be(d: &[u8], p: usize) -> (r: u32)
    requires
        p + 4 <= d@.len(),
    ensures
        r == u32_at(d@, p as int),
{
    ((d[p] as u32) << 24u32) | ((d[p + 1] as u32) << 16u32) | ((d[p + 2] as u32) << 8u32) | (d[p
        + 3] as u32)
}

/// Reads a big-endian 16-bit value.
pub fn read_u16_be(d: &[u8], p: usize) -> (r: u16)
    requires
        p + 2 <= d@.len(),
    ensures
        r == u16_at(d@, p as int),
{
    ((d[p] as u16) << 8u16) | (d[p + 1] as u16)
}

fn index_error(version: u32, reason: &str) -> (r: Error)
    ensures
        r is InvalidIndex,
        r->InvalidIndex_version == version,
{
    Error::InvalidIndex { version, reason: owned(reason) }
}

/// The entry mode for a stored numeric mode.
pub fn parse_mode(mode: u32, version: u32) -> (r: Result<FileMode, Error>)
    ensures
        r is Ok <==> mode_of_bits(mode) is Some,
        r is Ok ==> r->Ok_0 == mode_of_bits(mode)->0,
        r is Err ==> r->Err_0 is InvalidIndex && r->Err_0->InvalidIndex_version == version,
{
    if mode == 0o100644 {
        Ok(FileMode::Regular)
    } else if mode == 0o100755 {
        Ok(FileMode::Executable)
    } else if mode == 0o120000 {
        Ok(FileMode::Symlink)
    } else if mode == 0o040000 {
        Ok(FileMode::Directory)
    } else if mode == 0o160000 {
        Ok(FileMode::Submodule)
    } else {
        Err(index_error(version, "unknown file mode"))
    }
}

/// Reads the header: magic, version (2 to 4) and entry count.
pub fn parse_header(d: &[u8]) -> (r: Result<(u32, u32), Error>)
    ensures
        r is Ok <==> parse_header_spec(d@) is Some,
        r is Ok ==> r->Ok_0 == parse_header_spec(d@)->0,
        r is Err ==> r->Err_0 is InvalidIndex && r->Err_0->InvalidIndex_version == header_error_version(d@),
{
    if d.len() < 4 {
        return Err(index_error(0, "failed to read signature"));
    }
    if !(d[0] == 68 && d[1] == 73 && d[2] == 82 && d[3] == 67) {
        return Err(index_error(0, "invalid signature"));
    }
    if d.len() < 8 {
        return Err(index_error(0, "failed to read version"));
    }
    let version = read_u32_be(d, 4);
    if version < 2 || version > 4 {
        return Err(index_error(version, "unsupported version"));
    }
    if d.len() < 12 {
        return Err(index_error(version, "failed to read entry count"));
    }
    let count = read_u32_be(d, 8);
    Ok((version, count))
}

/// Reads one entry at `p`; returns it with the position of the next.
pub fn parse_entry(d: &[u8], p: usize, version: u32) -> (r: Result<(IndexEntry, usize), Error>)
    ensures
        r is Ok <==> parse_entry_at(d@, p as int, version) is Some,
        r is Ok ==> ({
            let (e, next) = r->Ok_0;
            let (ev, nx) = parse_entry_at(d@, p as int, version)->0;
            entry_v(e) == ev && next == nx
        }),
        r is Err ==> r->Err_0 is InvalidIndex && r->Err_0->InvalidIndex_version == version,
{
    let len = d.len();
    if p > len || len - p < 62 {
        return Err(index_error(version, "truncated entry"));
    }
    let ctime = read_u32_be(d, p);
    let mtime = read_u32_be(d, p + 8);
    let dev = read_u32_be(d, p + 16);
    let ino = read_u32_be(d, p + 20);
    let mode = parse_mode(read_u32_be(d, p + 24), version)?;
    let uid = read_u32_be(d, p + 28);
    let gid = read_u32_be(d, p + 32);
    let size = read_u32_be(d, p + 36);
    let oid = Oid::read_at(d, p + 40);
    let flags = read_u16_be(d, p + 60);
    let name_len = (flags & 0xFFF) as usize;
    assert((flags >> 12u16) & 3 <= 3) by (bit_vector);
    let stage = ((flags >> 12u16) & 3) as u8;
    let ext = version >= 3 && flags & 0x4000 != 0;
    let q = if ext {
        if len - p < 64 {
            return Err(index_error(version, "truncated extended flags"));
        }
        p + 64
    } else {
        p + 62
    };
    let (name_end, after) = if name_len == 0xFFF {
        match position_from(d, q, 0) {
            Some(nul) => {
                proof {
                    lemma_find_from(d@, 0, q as int);
                }
                (nul, nul + 1)
            },
            None => { return Err(index_error(version, "unterminated long name")); },
        }
    } else {
        if len - q < name_len {
            return Err(index_error(version, "truncated name"));
        }
        (q + name_len, q + name_len)
    };
    let name = match utf8_string(copy_range(d, q, name_end)) {
        Some(n) => n,
        None => { return Err(index_error(version, "invalid UTF-8 in entry name")); },
    };
    let mut pos = after;
    while pos < len && !(pos - p > name_end - p && (pos - p) % 8 == 0) && d[pos] == 0
        invariant
            p <= name_end <= pos,
            len == d@.len(),
            skip_pad(d@, p as int, name_end as int, after as int) == skip_pad(
                d@,
                p as int,
                name_end as int,
                pos as int,
            ),
        decreases len - pos,
    {
        pos = pos + 1;
    }
    let entry = IndexEntry {
        ctime: ctime as u64,
        mtime: mtime as u64,
        dev,
        ino,
        mode,
        uid,
        gid,
        size,
        oid,
        path: name,
        stage,
    };
    Ok((entry, pos))
}

/// Reads an index file.
pub fn parse(data: &[u8]) -> (r: Result<Index, Error>)
    ensures
        r is Ok <==> parse_index(data@) is Some,
        r is Ok ==> (r->Ok_0.version, entries_v(r->Ok_0.entries@)) == parse_index(data@)->0,
        r is Err ==> r->Err_0 is InvalidIndex,
        parse_header_spec(data@) is None ==> r is Err && r->Err_0->InvalidIndex_version == header_error_version(data@),
        parse_header_spec(data@) is Some ==> r is Err ==> r->Err_0->InvalidIndex_version == (parse_header_spec(data@)->0).0,
{
    let (version, count) = parse_header(data)?;
    let mut entries: Vec<IndexEntry> = Vec::new();
    let mut pos: usize = 12;
    let mut k: u32 = 0;
    assert(entries_v(entries@) =~= Seq::<IndexEntryV>::empty());
    while k < count
        invariant
            0 <= k <= count,
            parse_header_spec(data@) == Some((version, count)),
            parse_entries(data@, 12, k as nat, version) == Some((entries_v(entries@), pos as int)),
        decreases count - k,
    {
        let (e, next) = match parse_entry(data, pos, version) {
            Ok(x) => x,
            Err(err) => {
                proof {
                    lemma_entries_fail(data@, k as nat, count as nat, version);
                }
                return Err(err);
            },
        };
        entries.push(e);
        assert(entries_v(entries@) =~= entries_v(entries@.drop_last()).push(entry_v(e)));
        assert(entries@.drop_last() =~= entries@.subrange(0, entries@.len() - 1));
        pos = next;
        k = k + 1;
    }
    Ok(Index { version, entries })
}

/// Once an entry fails, every longer read fails too.
proof fn lemma_entries_fail(d: Seq<u8>, k: nat, n: nat, version: u32)
    requires
        k < n,
        parse_entries(d, 12, k, version) is Some,
        ({
            let (es, q) = parse_entries(d, 12, k, version)->0;
            parse_entry_at(d, q, version) is None
        }),
    ensures
        parse_entries(d, 12, n, version) is None,
    decreases n - k,
{
    if n > k + 1 {
        lemma_entries_none_grows(d, k + 1, n, version);
    }
}

proof fn lemma_entries_none_grows(d: Seq<u8>, k: nat, n: nat, version: u32)
    requires
        k <= n,
        parse_entries(d, 12, k, version) is None,
    ensures
        parse_entries(d, 12, n, version) is None,
    decreases n - k,
{
    if n > k {
        lemma_entries_none_grows(d, k, (n - 1) as nat, version);
    }
}

} // verus!
