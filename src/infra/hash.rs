//! SHA-1 (RFC 3174) and the object identifier of a typed body.

use vstd::prelude::*;

use crate::text::bytes_of;

verus! {

/// The size of a SHA-1 digest in bytes.
pub const SHA1_SIZE: usize = 20;

/// Rotation of a 32-bit word to the left by `n` bits, `0 < n < 32`.
pub open spec fn rotl(x: u32, n: u32) -> u32 {
    (x << n) | (x >> ((32 - n) as u32))
}

/// The big-endian 32-bit word at word position `j` of a block.
pub open spec fn block_word(blk: Seq<u8>, j: int) -> u32 {
    ((blk[4 * j] as u32) << 24u32) | ((blk[4 * j + 1] as u32) << 16u32) | ((blk[4 * j + 2] as u32)
        << 8u32) | (blk[4 * j + 3] as u32)
}

/// The message schedule: word `t` of the 80 that one block expands to.
pub open spec fn schedule(blk: Seq<u8>, t: nat) -> u32
    decreases t,
{
    if t < 16 {
        block_word(blk, t as int)
    } else {
        rotl(
            schedule(blk, (t - 3) as nat) ^ schedule(blk, (t - 8) as nat) ^ schedule(
                blk,
                (t - 14) as nat,
            ) ^ schedule(blk, (t - 16) as nat),
            1,
        )
    }
}

/// The mixing function of round `t`.
pub open spec fn round_f(t: nat, b: u32, c: u32, d: u32) -> u32 {
    if t < 20 {
        (b & c) | (!b & d)
    } else if t < 40 {
        b ^ c ^ d
    } else if t < 60 {
        (b & c) | (b & d) | (c & d)
    } else {
        b ^ c ^ d
    }
}

/// The additive constant of round `t`.
pub open spec fn round_k(t: nat) -> u32 {
    if t < 20 {
        0x5A827999
    } else if t < 40 {
        0x6ED9EBA1
    } else if t < 60 {
        0x8F1BBCDC
    } else {
        0xCA62C1D6
    }
}

/// Working variables a..e of the compression function.
pub type Words = (u32, u32, u32, u32, u32);

/// One round of the compression function.
pub open spec fn round_step(s: Words, w: u32, t: nat) -> Words {
    let temp = wsum(wsum(wsum(wsum(rotl(s.0, 5), round_f(t, s.1, s.2, s.3)), s.4), round_k(t)), w);
    (temp, s.0, rotl(s.1, 30), s.2, s.3)
}

/// Wrapping addition of 32-bit words.
pub open spec fn wsum(x: u32, y: u32) -> u32 {
    ((x as int + y as int) % 0x1_0000_0000) as u32
}

/// The working variables after the first `t` rounds over a block.
pub open spec fn rounds(s: Words, blk: Seq<u8>, t: nat) -> Words
    decreases t,
{
    if t == 0 {
        s
    } else {
        round_step(rounds(s, blk, (t - 1) as nat), schedule(blk, (t - 1) as nat), (t - 1) as nat)
    }
}

/// The chaining value after one 64-byte block.
pub open spec fn compress_block(h: Words, blk: Seq<u8>) -> Words {
    let r = rounds(h, blk, 80);
    (wsum(h.0, r.0), wsum(h.1, r.1), wsum(h.2, r.2), wsum(h.3, r.3), wsum(h.4, r.4))
}

/// The initial chaining value.
pub open spec fn initial_words() -> Words {
    (0x67452301, 0xEFCDAB89, 0x98BADCFE, 0x10325476, 0xC3D2E1F0)
}

/// The number of zero bytes between the 0x80 marker and the length field.
pub open spec fn pad_zeros(len: nat) -> nat {
    ((119 - (len % 64) as int) % 64) as nat
}

/// The big-endian bytes of a 64-bit value.
pub open spec fn be64(n: u64) -> Seq<u8> {
    Seq::new(8, |i: int| ((n >> ((8 * (7 - i)) as u64)) & 0xff) as u8)
}

/// A message with the SHA-1 padding appended.
pub open spec fn padded(m: Seq<u8>) -> Seq<u8> {
    m + seq![0x80u8] + Seq::new(pad_zeros(m.len()), |i: int| 0u8) + be64(
        ((m.len() * 8) % 0x1_0000_0000_0000_0000) as u64,
    )
}

/// The chaining value after the first `n` blocks of a padded message.
pub open spec fn chain(p: Seq<u8>, n: nat) -> Words
    decreases n,
{
    if n == 0 {
        initial_words()
    } else {
        compress_block(chain(p, (n - 1) as nat), p.subrange(64 * (n - 1), 64 * n as int))
    }
}

/// The big-endian bytes of a 32-bit word.
pub open spec fn be32(x: u32) -> Seq<u8> {
    seq![(x >> 24u32) as u8, ((x >> 16u32) & 0xff) as u8, ((x >> 8u32) & 0xff) as u8, (x & 0xff) as u8]
}

/// The digest bytes of a chaining value.
pub open spec fn digest_of(h: Words) -> Seq<u8> {
    be32(h.0) + be32(h.1) + be32(h.2) + be32(h.3) + be32(h.4)
}

/// The SHA-1 digest of a message.
#[verifier::opaque]
pub open spec fn sha1_spec(m: Seq<u8>) -> Seq<u8> {
    let p = padded(m);
    digest_of(chain(p, p.len() / 64))
}

/// The decimal digits of a number, most significant first, without leading zeros.
pub open spec fn decimal(n: nat) -> Seq<u8>
    decreases n,
{
    if n < 10 {
        seq![(48 + n) as u8]
    } else {
        decimal(n / 10).push((48 + n % 10) as u8)
    }
}

/// The loose-object header `"<type> <size>\0"`.
pub open spec fn object_header(kind: Seq<u8>, size: nat) -> Seq<u8> {
    kind + seq![32u8] + decimal(size) + seq![0u8]
}

/// The identifier of an object: SHA-1 over its header and body.
pub open spec fn object_id(kind: Seq<u8>, body: Seq<u8>) -> Seq<u8> {
    sha1_spec(object_header(kind, body.len()) + body)
}

fn rotate(x: u32, n: u32) -> (r: u32)
    requires
        0 < n < 32,
    ensures
        r == rotl(x, n),
{
    (x << n) | (x >> (32 - n))
}

fn wadd(x: u32, y: u32) -> (r: u32)
    ensures
        r == wsum(x, y),
{
    x.wrapping_add(y)
}

/// The compression function on the block of `p` starting at `off`.
fn process_block(h: Words, p: &Vec<u8>, off: usize) -> (r: Words)
    requires
        off + 64 <= p@.len(),
    ensures
        r == compress_block(h, p@.subrange(off as int, off + 64)),
{
    let ghost blk = p@.subrange(off as int, off + 64);
    let plen = p.len();
    let mut w: Vec<u32> = Vec::with_capacity(80);
    let mut t: usize = 0;
    while t < 80
        invariant
            0 <= t <= 80,
            off + 64 <= p@.len(),
            plen == p@.len(),
            blk == p@.subrange(off as int, off + 64),
            w@.len() == t,
            forall|j: int| 0 <= j < t ==> w@[j] == schedule(blk, j as nat),
        decreases 80 - t,
    {
        if t < 16 {
            let i = off + 4 * t;
            let x = ((p[i] as u32) << 24u32) | ((p[i + 1] as u32) << 16u32) | ((p[i + 2] as u32)
                << 8u32) | (p[i + 3] as u32);
            assert(x == block_word(blk, t as int));
            w.push(x);
        } else {
            let x = rotate(w[t - 3] ^ w[t - 8] ^ w[t - 14] ^ w[t - 16], 1);
            w.push(x);
        }
        t = t + 1;
    }
    let mut s: Words = h;
    let mut t: usize = 0;
    while t < 80
        invariant
            0 <= t <= 80,
            w@.len() == 80,
            forall|j: int| 0 <= j < 80 ==> w@[j] == schedule(blk, j as nat),
            s == rounds(h, blk, t as nat),
        decreases 80 - t,
    {
        let (a, b, c, d, e) = s;
        let f: u32 = if t < 20 {
            (b & c) | (!b & d)
        } else if t < 40 {
            b ^ c ^ d
        } else if t < 60 {
            (b & c) | (b & d) | (c & d)
        } else {
            b ^ c ^ d
        };
        let k: u32 = if t < 20 {
            0x5A827999
        } else if t < 40 {
            0x6ED9EBA1
        } else if t < 60 {
            0x8F1BBCDC
        } else {
            0xCA62C1D6
        };
        assert(f == round_f(t as nat, b, c, d));
        assert(k == round_k(t as nat));
        let temp = wadd(wadd(wadd(wadd(rotate(a, 5), f), e), k), w[t]);
        s = (temp, a, rotate(b, 30), c, d);
        t = t + 1;
    }
    (wadd(h.0, s.0), wadd(h.1, s.1), wadd(h.2, s.2), wadd(h.3, s.3), wadd(h.4, s.4))
}

/// Appends the SHA-1 padding to a message.
fn pad_message(m: &[u8]) -> (r: Vec<u8>)
    ensures
        r@ == padded(m@),
        r@.len() % 64 == 0,
{
    let mut r: Vec<u8> = Vec::new();
    let mut i: usize = 0;
    while i < m.len()
        invariant
            0 <= i <= m@.len(),
            r@ == m@.subrange(0, i as int),
        decreases m@.len() - i,
    {
        r.push(m[i]);
        i = i + 1;
    }
    assert(r@ =~= m@);
    r.push(0x80u8);
    let zeros: usize = (119 - m.len() % 64) % 64;
    let mut z: usize = 0;
    let ghost base = r@;
    while z < zeros
        invariant
            0 <= z <= zeros,
            r@ == base + Seq::new(z as nat, |i: int| 0u8),
        decreases zeros - z,
    {
        r.push(0u8);
        z = z + 1;
        assert(r@ =~= base + Seq::new(z as nat, |i: int| 0u8));
    }
    let bits: u64 = (m.len() as u64).wrapping_mul(8);
    let ghost mid = r@;
    let mut j: usize = 0;
    while j < 8
        invariant
            0 <= j <= 8,
            r@ == mid + be64(bits).subrange(0, j as int),
        decreases 8 - j,
    {
        let byte = ((bits >> ((8 * (7 - j)) as u64)) & 0xff) as u8;
        r.push(byte);
        j = j + 1;
        assert(r@ =~= mid + be64(bits).subrange(0, j as int));
    }
    assert(be64(bits).subrange(0, 8) =~= be64(bits));
    assert(r@ =~= padded(m@));
    assert(r@.len() == m@.len() + 1 + zeros + 8);
    r
}

fn push_be32(out: &mut Vec<u8>, x: u32)
    ensures
        final(out)@ == old(out)@ + be32(x),
{
    out.push((x >> 24u32) as u8);
    out.push(((x >> 16u32) & 0xff) as u8);
    out.push(((x >> 8u32) & 0xff) as u8);
    out.push((x & 0xff) as u8);
    assert(final(out)@ =~= old(out)@ + be32(x));
}

/// The SHA-1 digest of the given bytes.
pub fn sha1(data: &[u8]) -> (r: Vec<u8>)
    ensures
        r@ == sha1_spec(data@),
        r@.len() == 20,
{
    let p = pad_message(data);
    let n: usize = p.len() / 64;
    let mut h: Words = (0x67452301, 0xEFCDAB89, 0x98BADCFE, 0x10325476, 0xC3D2E1F0);
    let mut i: usize = 0;
    while i < n
        invariant
            0 <= i <= n,
            n == p@.len() / 64,
            p@.len() % 64 == 0,
            p@.len() <= usize::MAX,
            h == chain(p@, i as nat),
        decreases n - i,
    {
        assert(64 * i + 64 <= p@.len()) by (nonlinear_arith)
            requires
                i < n,
                n == p@.len() / 64,
                p@.len() % 64 == 0,
        ;
        h = process_block(h, &p, 64 * i);
        i = i + 1;
    }
    let mut out: Vec<u8> = Vec::with_capacity(20);
    push_be32(&mut out, h.0);
    push_be32(&mut out, h.1);
    push_be32(&mut out, h.2);
    push_be32(&mut out, h.3);
    push_be32(&mut out, h.4);
    assert(out@ =~= digest_of(h));
    proof {
        reveal(sha1_spec);
    }
    out
}

/// The decimal digits of a number as ASCII bytes.
pub fn decimal_bytes(n: usize) -> (r: Vec<u8>)
    ensures
        r@ == decimal(n as nat),
    decreases n,
{
    if n < 10 {
        let mut v: Vec<u8> = Vec::new();
        v.push((48 + n) as u8);
        assert(v@ =~= decimal(n as nat));
        v
    } else {
        let mut v = decimal_bytes(n / 10);
        v.push((48 + n % 10) as u8);
        v
    }
}

/// Decimal digits are ASCII.
pub proof fn lemma_decimal_ascii(n: nat)
    ensures
        decimal(n).len() >= 1,
        forall|i: int| 0 <= i < decimal(n).len() ==> 48 <= #[trigger] decimal(n)[i] <= 57,
    decreases n,
{
    if n >= 10 {
        lemma_decimal_ascii(n / 10);
    }
}

/// Builds `"<type> <size>\0"` followed by the body.
pub fn framed_object(kind: &[u8], content: &[u8]) -> (r: Vec<u8>)
    ensures
        r@ == object_header(kind@, content@.len()) + content@,
{
    let mut r: Vec<u8> = Vec::new();
    let mut i: usize = 0;
    while i < kind.len()
        invariant
            0 <= i <= kind@.len(),
            r@ == kind@.subrange(0, i as int),
        decreases kind@.len() - i,
    {
        r.push(kind[i]);
        i = i + 1;
    }
    r.push(32u8);
    let mut d = decimal_bytes(content.len());
    r.append(&mut d);
    r.push(0u8);
    let ghost head = r@;
    assert(head =~= object_header(kind@, content@.len()));
    let mut j: usize = 0;
    while j < content.len()
        invariant
            0 <= j <= content@.len(),
            r@ == head + content@.subrange(0, j as int),
        decreases content@.len() - j,
    {
        r.push(content[j]);
        j = j + 1;
        assert(r@ =~= head + content@.subrange(0, j as int));
    }
    assert(content@.subrange(0, content@.len() as int) =~= content@);
    r
}

/// The identifier of an object with the given type name and body.
pub fn hash_object(object_type: &str, content: &[u8]) -> (r: Vec<u8>)
    ensures
        r@ == object_id(bytes_of(object_type@), content@),
        r@.len() == 20,
{
    let framed = framed_object(object_type.as_bytes(), content);
    sha1(framed.as_slice())
}

} // verus!

verus! {

/// The decimal digits of a 64-bit number as ASCII bytes.
pub fn decimal_u64(n: u64) -> (r: Vec<u8>)
    ensures
        r@ == decimal(n as nat),
    decreases n,
{
    if n < 10 {
        let mut v: Vec<u8> = Vec::new();
        v.push((48 + n) as u8);
        assert(v@ =~= decimal(n as nat));
        v
    } else {
        let mut v = decimal_u64(n / 10);
        v.push((48 + n % 10) as u8);
        v
    }
}

} // verus!

verus! {

/// A SHA-1 digest is 20 bytes.
pub proof fn lemma_sha1_len(m: Seq<u8>)
    ensures
        sha1_spec(m).len() == 20,
{
    reveal(sha1_spec);
}

} // verus!
