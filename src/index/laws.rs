//! The index file format read back: what is written is what is read.

use vstd::prelude::*;

use crate::index::reader::{mode_of_bits, parse_entries, parse_entry_at, parse_header_spec, parse_index, skip_pad, u16_at, u32_at};
use crate::index::writer::{be16, dirc, fixed_bytes, entries_bytes, entry_bytes, entry_flags, index_body, index_file, mode_bits, pad_len, unix_path};
use crate::index::IndexEntryV;
use crate::infra::hash::{be32, sha1_spec};
use crate::objects::tree::FileMode;
use crate::text::find_from;

verus! {

proof fn lemma_be32_read(s: Seq<u8>, p: int, x: u32)
    requires
        0 <= p,
        p + 4 <= s.len(),
        s.subrange(p, p + 4) == be32(x),
    ensures
        u32_at(s, p) == x,
{
    assert(s[p] == be32(x)[0]);
    assert(s[p + 1] == be32(x)[1]);
    assert(s[p + 2] == be32(x)[2]);
    assert(s[p + 3] == be32(x)[3]);
    let b0 = (x >> 24u32) as u8;
    let b1 = ((x >> 16u32) & 0xff) as u8;
    let b2 = ((x >> 8u32) & 0xff) as u8;
    let b3 = (x & 0xff) as u8;
    assert(((b0 as u32) << 24u32) | ((b1 as u32) << 16u32) | ((b2 as u32) << 8u32) | (b3 as u32) == x) by (bit_vector)
        requires
            b0 == (x >> 24u32) as u8,
            b1 == ((x >> 16u32) & 0xff) as u8,
            b2 == ((x >> 8u32) & 0xff) as u8,
            b3 == (x & 0xff) as u8,
    ;
}

proof fn lemma_be16_read(s: Seq<u8>, p: int, x: u16)
    requires
        0 <= p,
        p + 2 <= s.len(),
        s.subrange(p, p + 2) == be16(x),
    ensures
        u16_at(s, p) == x,
{
    assert(s[p] == be16(x)[0]);
    assert(s[p + 1] == be16(x)[1]);
    let b0 = (x >> 8u16) as u8;
    let b1 = (x & 0xff) as u8;
    assert(((b0 as u16) << 8u16) | (b1 as u16) == x) by (bit_vector)
        requires
            b0 == (x >> 8u16) as u8,
            b1 == (x & 0xff) as u8,
    ;
}

/// An entry that the writer's format carries exactly.
pub open spec fn storable(e: IndexEntryV) -> bool {
    &&& e.ctime <= u32::MAX
    &&& e.mtime <= u32::MAX
    &&& e.stage <= 3
    &&& e.oid.len() == 20
    &&& vstd::utf8::valid_utf8(e.path)
    &&& unix_path(e.path) == e.path
    &&& (e.path.len() >= 0xFFF ==> forall|j: int| 0 <= j < e.path.len() ==> e.path[j] != 0u8)
}

proof fn lemma_flags(n: u16, stage: u8)
    requires
        n <= 0xFFF,
        stage <= 3,
    ensures
        ((n | ((stage as u16) << 12u16)) & 0xFFF) == n,
        (((n | ((stage as u16) << 12u16)) >> 12u16) & 3) as u8 == stage,
        ((n | ((stage as u16) << 12u16)) & 0x4000) == 0,
{
    assert(((n | ((stage as u16) << 12u16)) & 0xFFF) == n) by (bit_vector)
        requires n <= 0xFFF, stage <= 3;
    assert((((n | ((stage as u16) << 12u16)) >> 12u16) & 3) == stage as u16) by (bit_vector)
        requires n <= 0xFFF, stage <= 3;
    assert(((n | ((stage as u16) << 12u16)) & 0x4000) == 0) by (bit_vector)
        requires n <= 0xFFF, stage <= 3;
}

proof fn lemma_skip(d: Seq<u8>, start: int, name_end: int, pos: int, target: int)
    requires
        0 <= start <= name_end <= pos <= target <= d.len(),
        (target - start) % 8 == 0,
        target - start > name_end - start,
        target - (name_end - start) - start <= 8,
        forall|j: int| pos <= j < target ==> d[j] == 0u8,
    ensures
        skip_pad(d, start, name_end, pos) == target,
    decreases target - pos,
{
    if pos < target {
        assert((pos - start) % 8 != 0 || pos - start <= name_end - start);
        lemma_skip(d, start, name_end, pos + 1, target);
    }
}

proof fn lemma_fixed_fields(e: IndexEntryV)
    requires
        e.oid.len() == 20,
    ensures
        fixed_bytes(e).len() == 62,
        fixed_bytes(e).subrange(0, 4) == be32(e.ctime as u32),
        fixed_bytes(e).subrange(8, 12) == be32(e.mtime as u32),
        fixed_bytes(e).subrange(16, 20) == be32(e.dev),
        fixed_bytes(e).subrange(20, 24) == be32(e.ino),
        fixed_bytes(e).subrange(24, 28) == be32(mode_bits(e.mode)),
        fixed_bytes(e).subrange(28, 32) == be32(e.uid),
        fixed_bytes(e).subrange(32, 36) == be32(e.gid),
        fixed_bytes(e).subrange(36, 40) == be32(e.size),
        fixed_bytes(e).subrange(40, 60) == e.oid,
        fixed_bytes(e).subrange(60, 62) == be16(entry_flags(e)),
{
    let a1 = be32(e.ctime as u32);
    let a2 = a1 + be32(0);
    let a3 = a2 + be32(e.mtime as u32);
    let a4 = a3 + be32(0);
    let a5 = a4 + be32(e.dev);
    let a6 = a5 + be32(e.ino);
    let a7 = a6 + be32(mode_bits(e.mode));
    let a8 = a7 + be32(e.uid);
    let a9 = a8 + be32(e.gid);
    let a10 = a9 + be32(e.size);
    let a11 = a10 + e.oid;
    let f = a11 + be16(entry_flags(e));
    assert(f == fixed_bytes(e));
    assert(f.subrange(0, 60) =~= a11);
    assert(a11.subrange(0, 40) =~= a10);
    assert(a10.subrange(0, 36) =~= a9);
    assert(a9.subrange(0, 32) =~= a8);
    assert(a8.subrange(0, 28) =~= a7);
    assert(a7.subrange(0, 24) =~= a6);
    assert(a6.subrange(0, 20) =~= a5);
    assert(a5.subrange(0, 16) =~= a4);
    assert(a4.subrange(0, 12) =~= a3);
    assert(a3.subrange(0, 8) =~= a2);
    assert(a2.subrange(0, 4) =~= a1);
    assert(f.subrange(60, 62) =~= be16(entry_flags(e)));
    assert(f.subrange(40, 60) =~= a11.subrange(40, 60));
    assert(a11.subrange(40, 60) =~= e.oid);
    assert(f.subrange(36, 40) =~= a10.subrange(36, 40));
    assert(a10.subrange(36, 40) =~= be32(e.size));
    assert(f.subrange(32, 36) =~= a9.subrange(32, 36));
    assert(a9.subrange(32, 36) =~= be32(e.gid));
    assert(f.subrange(28, 32) =~= a8.subrange(28, 32));
    assert(a8.subrange(28, 32) =~= be32(e.uid));
    assert(f.subrange(24, 28) =~= a7.subrange(24, 28));
    assert(a7.subrange(24, 28) =~= be32(mode_bits(e.mode)));
    assert(f.subrange(20, 24) =~= a6.subrange(20, 24));
    assert(a6.subrange(20, 24) =~= be32(e.ino));
    assert(f.subrange(16, 20) =~= a5.subrange(16, 20));
    assert(a5.subrange(16, 20) =~= be32(e.dev));
    assert(f.subrange(8, 12) =~= a3.subrange(8, 12));
    assert(a3.subrange(8, 12) =~= be32(e.mtime as u32));
    assert(f.subrange(0, 4) =~= a1);
}

/// One written entry reads back, and the reader ends where the writer did.
pub proof fn lemma_entry_read(d: Seq<u8>, p: int, e: IndexEntryV, v: u32)
    requires
        storable(e),
        0 <= p,
        p + entry_bytes(e).len() <= d.len(),
        d.subrange(p, p + entry_bytes(e).len()) == entry_bytes(e),
    ensures
        parse_entry_at(d, p, v) == Some((e, p + entry_bytes(e).len())),
{
    let eb = entry_bytes(e);
    let l = e.path.len() as int;
    let pad = pad_len((62 + l) as nat) as int;
    assert(eb.len() == 62 + l + pad);
    assert forall|j: int| 0 <= j < eb.len() implies d[p + j] == eb[j] by {
        assert(d.subrange(p, p + eb.len())[j] == d[p + j]);
    }
    let n: u16 = if l < 0xFFF { l as u16 } else { 0xFFF };
    let flags = entry_flags(e);
    assert(flags == n | ((e.stage as u16) << 12u16));
    lemma_flags(n, e.stage);
    lemma_fixed_fields(e);
    let fx = fixed_bytes(e);
    assert(eb.subrange(0, 62) =~= fx);
    assert forall|j: int| 0 <= j < 62 implies d[p + j] == fx[j] by {
        assert(eb[j] == fx[j]);
    }
    assert(d.subrange(p, p + 4) =~= fx.subrange(0, 4));
    lemma_be32_read(d, p, e.ctime as u32);
    assert(d.subrange(p + 8, p + 12) =~= fx.subrange(8, 12));
    lemma_be32_read(d, p + 8, e.mtime as u32);
    assert(d.subrange(p + 16, p + 20) =~= fx.subrange(16, 20));
    lemma_be32_read(d, p + 16, e.dev);
    assert(d.subrange(p + 20, p + 24) =~= fx.subrange(20, 24));
    lemma_be32_read(d, p + 20, e.ino);
    assert(d.subrange(p + 24, p + 28) =~= fx.subrange(24, 28));
    lemma_be32_read(d, p + 24, mode_bits(e.mode));
    assert(d.subrange(p + 28, p + 32) =~= fx.subrange(28, 32));
    lemma_be32_read(d, p + 28, e.uid);
    assert(d.subrange(p + 32, p + 36) =~= fx.subrange(32, 36));
    lemma_be32_read(d, p + 32, e.gid);
    assert(d.subrange(p + 36, p + 40) =~= fx.subrange(36, 40));
    lemma_be32_read(d, p + 36, e.size);
    assert(d.subrange(p + 40, p + 60) =~= fx.subrange(40, 60));
    assert(d.subrange(p + 60, p + 62) =~= fx.subrange(60, 62));
    lemma_be16_read(d, p + 60, flags);
    assert(mode_of_bits(mode_bits(e.mode)) == Some(e.mode));
    let q = p + 62;
    let name_end = q + l;
    assert forall|j: int| 0 <= j < l implies d[q + j] == e.path[j] by {
        assert(eb[62 + j] == unix_path(e.path)[j]);
    }
    assert(d.subrange(q, name_end) =~= e.path);
    assert(eb[62 + l] == 0u8);
    assert(d[name_end] == 0u8);
    if l >= 0xFFF {
        assert forall|j: int| q <= j < name_end implies d[j] != 0u8 by {
            assert(d[j] == e.path[j - q]);
        }
        crate::objects::store::lemma_first_at_from(d, 0u8, q, name_end);
    }
    let after = if l >= 0xFFF { name_end + 1 } else { name_end };
    let target = p + eb.len();
    assert forall|j: int| after <= j < target implies d[j] == 0u8 by {
        assert(d[j] == eb[j - p]);
        assert(eb[j - p] == Seq::new(pad as nat, |i: int| 0u8)[j - p - 62 - l]);
    }
    assert((62 + l + pad) % 8 == 0);
    lemma_skip(d, p, name_end, after, target);
    assert(((e.ctime as u32) as u64) == e.ctime);
    assert(((e.mtime as u32) as u64) == e.mtime);
}

/// The bytes of the first entries are a prefix of the bytes of all.
proof fn lemma_entries_prefix(es: Seq<IndexEntryV>, k: int)
    requires
        0 <= k <= es.len(),
    ensures
        entries_bytes(es.subrange(0, k)).len() <= entries_bytes(es).len(),
        entries_bytes(es) == entries_bytes(es.subrange(0, k)) + entries_bytes(es).subrange(entries_bytes(es.subrange(0, k)).len() as int, entries_bytes(es).len() as int),
    decreases es.len() - k,
{
    if k == es.len() {
        assert(es.subrange(0, k) =~= es);
        assert(entries_bytes(es).subrange(entries_bytes(es).len() as int, entries_bytes(es).len() as int) =~= Seq::<u8>::empty());
        assert(entries_bytes(es) =~= entries_bytes(es) + Seq::<u8>::empty());
    } else {
        lemma_entries_prefix(es, k + 1);
        let a = es.subrange(0, k + 1);
        assert(a.drop_last() =~= es.subrange(0, k));
        let x = entries_bytes(es.subrange(0, k));
        let y = entries_bytes(a);
        assert(y == x + entry_bytes(a.last()));
        let all = entries_bytes(es);
        assert(all =~= x + all.subrange(x.len() as int, all.len() as int));
    }
}

/// Where entry `k` sits in a written index.
proof fn lemma_entry_slice(es: Seq<IndexEntryV>, version: u32, k: int)
    requires
        0 <= k < es.len(),
    ensures
        ({
            let d = index_file(version, es);
            let pos: int = (12 + entries_bytes(es.subrange(0, k)).len()) as int;
            &&& pos + entry_bytes(es[k]).len() <= d.len()
            &&& d.subrange(pos, pos + entry_bytes(es[k]).len()) == entry_bytes(es[k])
        }),
{
    let d = index_file(version, es);
    let prev = es.subrange(0, k);
    let cur = es.subrange(0, k + 1);
    assert(cur.drop_last() =~= prev);
    assert(cur.last() == es[k]);
    let eb = entry_bytes(es[k]);
    lemma_entries_prefix(es, k + 1);
    let all = entries_bytes(es);
    let x = entries_bytes(prev);
    let y = entries_bytes(cur);
    assert(y == x + eb);
    let head = dirc() + be32(version) + be32(es.len() as u32);
    let c = sha1_spec(index_body(version, es));
    assert(head.len() == 12);
    assert(d == head + all + c);
    let pos: int = (12 + x.len()) as int;
    assert forall|j: int| 0 <= j < eb.len() implies d[pos + j] == eb[j] by {
        assert(all[x.len() + j] == y[x.len() + j]);
        assert(y[x.len() + j] == eb[j]);
        assert(d[pos + j] == all[x.len() + j]);
    }
    assert(d.subrange(pos, pos + eb.len()) =~= eb);
}

/// The entries read from a written index, one by one.
proof fn lemma_entries_read(es: Seq<IndexEntryV>, version: u32, k: nat)
    requires
        k <= es.len(),
        forall|i: int| 0 <= i < es.len() ==> storable(#[trigger] es[i]),
    ensures
        parse_entries(index_file(version, es), 12, k, version) == Some((es.subrange(0, k as int), (12 + entries_bytes(es.subrange(0, k as int)).len()) as int)),
    decreases k,
{
    let d = index_file(version, es);
    if k == 0 {
        assert(es.subrange(0, 0) =~= Seq::<IndexEntryV>::empty());
    } else {
        lemma_entries_read(es, version, (k - 1) as nat);
        let prev = es.subrange(0, k - 1);
        let cur = es.subrange(0, k as int);
        assert(cur.drop_last() =~= prev);
        assert(cur.last() == es[k - 1]);
        let e = es[k - 1];
        assert(entries_bytes(cur) == entries_bytes(prev) + entry_bytes(e));
        lemma_entry_slice(es, version, k - 1);
        let pos: int = (12 + entries_bytes(prev).len()) as int;
        lemma_entry_read(d, pos, e, version);
        assert(prev.push(e) =~= cur);
    }
}

/// Index files read back: writing an index and reading the bytes gives
/// the same version and entries, for versions 2 to 4 and entries the
/// format carries exactly (32-bit times, stage at most 3,
/// forward-slash paths, no NUL in paths of 4095 bytes or more).
pub proof fn lemma_index_round_trip(version: u32, es: Seq<IndexEntryV>)
    requires
        2 <= version <= 4,
        es.len() <= u32::MAX,
        forall|i: int| 0 <= i < es.len() ==> storable(#[trigger] es[i]),
    ensures
        parse_index(index_file(version, es)) == Some((version, es)),
        index_file(version, es).len() >= 20,
        index_file(version, es).subrange(index_file(version, es).len() - 20, index_file(version, es).len() as int)
            == sha1_spec(index_file(version, es).subrange(0, index_file(version, es).len() - 20)),
{
    let d = index_file(version, es);
    let body = index_body(version, es);
    crate::infra::hash::lemma_sha1_len(body);
    assert(d.subrange(0, d.len() - 20) =~= body);
    assert(d.subrange(d.len() - 20, d.len() as int) =~= sha1_spec(body));
    assert(d.subrange(4, 8) =~= be32(version));
    lemma_be32_read(d, 4, version);
    assert(d.subrange(8, 12) =~= be32(es.len() as u32));
    lemma_be32_read(d, 8, es.len() as u32);
    assert(parse_header_spec(d) == Some((version, es.len() as u32)));
    lemma_entries_read(es, version, es.len());
    assert(es.subrange(0, es.len() as int) =~= es);
}

} // verus!
