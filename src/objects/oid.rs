//! Object identifiers: 20-byte SHA-1 values and their hexadecimal form.

use vstd::prelude::*;

use crate::error::Error;
use crate::text::{all_ascii, ascii_string, bytes_of, owned, str_bytes};

verus! {

/// The length of an object identifier in bytes.
pub const OID_BYTES: usize = 20;

/// The length of an object identifier written in hexadecimal.
pub const OID_HEX_LEN: usize = 40;

/// The lowercase hexadecimal digit (as an ASCII byte) of a value below 16.
pub open spec fn hex_digit(n: u8) -> u8 {
    if n < 10 {
        (48 + n) as u8
    } else {
        (87 + n) as u8
    }
}

/// The value of an ASCII hexadecimal digit of either case.
pub open spec fn hex_value(c: u8) -> Option<u8> {
    if 48 <= c <= 57 {
        Some((c - 48) as u8)
    } else if 97 <= c <= 102 {
        Some((c - 87) as u8)
    } else if 65 <= c <= 70 {
        Some((c - 55) as u8)
    } else {
        None
    }
}

/// True when every byte is a hexadecimal digit.
pub open spec fn is_hex(s: Seq<u8>) -> bool {
    forall|i: int| 0 <= i < s.len() ==> (#[trigger] hex_value(s[i])) is Some
}

/// Lowercase hexadecimal text of a byte sequence, two digits per byte.
pub open spec fn hex_of(b: Seq<u8>) -> Seq<u8> {
    Seq::new(
        2 * b.len(),
        |i: int| if i % 2 == 0 { hex_digit(b[i / 2] / 16) } else { hex_digit(b[i / 2] % 16) },
    )
}

/// The bytes that a hexadecimal text of even length denotes.
pub open spec fn bytes_of_hex(s: Seq<u8>) -> Seq<u8> {
    Seq::new(
        s.len() / 2,
        |i: int| (hex_value(s[2 * i])->0 * 16 + hex_value(s[2 * i + 1])->0) as u8,
    )
}

/// ASCII lowercase of one byte.
pub open spec fn ascii_lower(c: u8) -> u8 {
    if 65 <= c <= 90 {
        (c + 32) as u8
    } else {
        c
    }
}

/// ASCII lowercase of a byte sequence.
pub open spec fn lower(s: Seq<u8>) -> Seq<u8> {
    s.map_values(|c: u8| ascii_lower(c))
}

/// A Git object identifier: the SHA-1 of an object's header and body.
#[derive(Clone, Copy, Eq, Hash, PartialOrd, Ord, Debug)]
pub struct Oid {
    pub bytes: [u8; 20],
}

impl PartialEq for Oid {
    fn eq(&self, o: &Oid) -> (r: bool)
        ensures
            r == (self@ == o@),
    {
        let mut i: usize = 0;
        while i < 20
            invariant
                0 <= i <= 20,
                forall|j: int| 0 <= j < i ==> self@[j] == o@[j],
            decreases 20 - i,
        {
            if self.bytes[i] != o.bytes[i] {
                return false;
            }
            i = i + 1;
        }
        assert(self@ =~= o@);
        true
    }
}

impl vstd::std_specs::cmp::PartialEqSpecImpl for Oid {
    open spec fn obeys_eq_spec() -> bool {
        true
    }

    open spec fn eq_spec(&self, o: &Oid) -> bool {
        self@ == o@
    }
}

impl View for Oid {
    type V = Seq<u8>;

    open spec fn view(&self) -> Seq<u8> {
        self.bytes@
    }
}

/// The value of one hexadecimal digit, if it is one.
pub fn hex_digit_to_value(c: u8) -> (r: Option<u8>)
    ensures
        r == hex_value(c),
{
    if 48 <= c && c <= 57 {
        Some(c - 48)
    } else if 97 <= c && c <= 102 {
        Some(c - 87)
    } else if 65 <= c && c <= 70 {
        Some(c - 55)
    } else {
        None
    }
}

/// The lowercase digit of a value below 16.
fn digit_of(n: u8) -> (r: u8)
    requires
        n < 16,
    ensures
        r == hex_digit(n),
        r < 128,
{
    if n < 10 {
        48 + n
    } else {
        87 + n
    }
}

impl Oid {
    /// Parses 40 hexadecimal digits of either case.
    pub fn from_hex(hex: &str) -> (r: Result<Oid, Error>)
        ensures
            r is Ok <==> (bytes_of(hex@).len() == 40 && is_hex(bytes_of(hex@))),
            r is Ok ==> r->Ok_0@ == bytes_of_hex(bytes_of(hex@)),
            r is Err ==> r == Err::<Oid, Error>(Error::InvalidOid(r->Err_0->InvalidOid_0))
                && r->Err_0->InvalidOid_0@ == hex@,
    {
        let s = str_bytes(hex);
        assert(s@.subrange(0, s@.len() as int) =~= s@);
        match Oid::from_hex_range(s, 0, s.len()) {
            Some(o) => Ok(o),
            None => Err(Error::InvalidOid(owned(hex))),
        }
    }

    /// Parses the 40 hexadecimal digits of `s[from..to]`.
    pub fn from_hex_range(s: &[u8], from: usize, to: usize) -> (r: Option<Oid>)
        requires
            from <= to <= s@.len(),
        ensures
            r is Some <==> (to - from == 40 && is_hex(s@.subrange(from as int, to as int))),
            r is Some ==> r->Some_0@ == bytes_of_hex(s@.subrange(from as int, to as int)),
    {
        let ghost t = s@.subrange(from as int, to as int);
        if to - from != OID_HEX_LEN {
            return None;
        }
        let mut bytes = [0u8; 20];
        let mut i: usize = 0;
        while i < 20
            invariant
                0 <= i <= 20,
                to - from == 40,
                to <= s@.len(),
                t == s@.subrange(from as int, to as int),
                forall|j: int| 0 <= j < 2 * i ==> (#[trigger] hex_value(t[j])) is Some,
                forall|j: int| 0 <= j < i ==> bytes@[j] == #[trigger] bytes_of_hex(t)[j],
            decreases 20 - i,
        {
            let hi = hex_digit_to_value(s[from + 2 * i]);
            let lo = hex_digit_to_value(s[from + 2 * i + 1]);
            assert(t[2 * i as int] == s@[from + 2 * i]);
            assert(t[2 * i + 1] == s@[from + 2 * i + 1]);
            match (hi, lo) {
                (Some(h), Some(l)) => {
                    assert(h < 16 && l < 16);
                    bytes[i] = h * 16 + l;
                },
                _ => {
                    proof {
                        let k = if hi is None { 2 * i as int } else { 2 * i + 1 };
                        assert(hex_value(t[k]) is None);
                    }
                    return None;
                },
            }
            i = i + 1;
        }
        assert(bytes@ =~= bytes_of_hex(t));
        Some(Oid { bytes })
    }

    /// Wraps 20 raw bytes.
    pub fn from_bytes(bytes: [u8; 20]) -> (r: Oid)
        ensures
            r@ == bytes@,
    {
        Oid { bytes }
    }

    /// The 40 lowercase hexadecimal digits.
    pub fn to_hex(&self) -> (r: String)
        ensures
            bytes_of(r@) == hex_of(self@),
    {
        let mut v: Vec<u8> = Vec::with_capacity(40);
        let mut i: usize = 0;
        while i < 20
            invariant
                0 <= i <= 20,
                self@.len() == 20,
                v@.len() == 2 * i,
                forall|j: int| 0 <= j < 2 * i ==> v@[j] == #[trigger] hex_of(self@)[j],
            decreases 20 - i,
        {
            let b = self.bytes[i];
            v.push(digit_of(b / 16));
            v.push(digit_of(b % 16));
            i = i + 1;
        }
        assert(v@ =~= hex_of(self@));
        proof {
            assert forall|j: int| 0 <= j < v@.len() implies v@[j] < 128 by {
                let b = self@[j / 2];
                assert(b / 16 < 16 && b % 16 < 16);
            }
        }
        ascii_string(v)
    }

    /// The first seven hexadecimal digits.
    pub fn short(&self) -> (r: String)
        ensures
            bytes_of(r@) == hex_of(self@).subrange(0, 7),
    {
        let mut v: Vec<u8> = Vec::with_capacity(7);
        let mut i: usize = 0;
        while i < 7
            invariant
                0 <= i <= 7,
                self@.len() == 20,
                v@.len() == i,
                forall|j: int| 0 <= j < i ==> v@[j] == #[trigger] hex_of(self@)[j],
            decreases 7 - i,
        {
            let b = self.bytes[i / 2];
            if i % 2 == 0 {
                v.push(digit_of(b / 16));
            } else {
                v.push(digit_of(b % 16));
            }
            i = i + 1;
        }
        assert(v@ =~= hex_of(self@).subrange(0, 7));
        proof {
            assert forall|j: int| 0 <= j < v@.len() implies v@[j] < 128 by {
                let b = self@[j / 2];
                assert(b / 16 < 16 && b % 16 < 16);
            }
        }
        ascii_string(v)
    }

    /// The raw 20 bytes.
    pub fn as_bytes(&self) -> (r: &[u8; 20])
        ensures
            r@ == self@,
    {
        &self.bytes
    }
}

impl std::str::FromStr for Oid {
    type Err = Error;

    fn from_str(s: &str) -> Result<Oid, Error> {
        Oid::from_hex(s)
    }
}

/// Hexadecimal text round-trips: the digits of any identifier parse back to it.
pub proof fn lemma_hex_round_trip(o: Oid)
    ensures
        hex_of(o@).len() == 40,
        is_hex(hex_of(o@)),
        bytes_of_hex(hex_of(o@)) == o@,
{
    let h = hex_of(o@);
    assert forall|i: int| 0 <= i < h.len() implies (#[trigger] hex_value(h[i])) is Some by {
        let b = o@[i / 2];
        assert(b / 16 < 16 && b % 16 < 16);
    }
    assert forall|i: int| 0 <= i < 20 implies #[trigger] bytes_of_hex(h)[i] == o@[i] by {
        let b = o@[i];
        assert(h[2 * i] == hex_digit(b / 16));
        assert(h[2 * i + 1] == hex_digit(b % 16));
        assert(b / 16 < 16 && b % 16 < 16);
        assert((b / 16) * 16 + b % 16 == b);
    }
    assert(bytes_of_hex(h) =~= o@);
}

/// Parsing 40 hexadecimal digits of any case and writing them back gives the
/// lowercase form of the text.
pub proof fn lemma_hex_normalizes(s: Seq<u8>)
    requires
        s.len() == 40,
        is_hex(s),
    ensures
        hex_of(bytes_of_hex(s)) == lower(s),
{
    let b = bytes_of_hex(s);
    assert forall|i: int| 0 <= i < 40 implies #[trigger] hex_of(b)[i] == lower(s)[i] by {
        let k = i / 2;
        assert(hex_value(s[2 * k]) is Some);
        assert(hex_value(s[2 * k + 1]) is Some);
        let h = hex_value(s[2 * k])->0;
        let l = hex_value(s[2 * k + 1])->0;
        assert(h < 16 && l < 16);
        assert(b[k] == h * 16 + l);
        assert((h * 16 + l) / 16 == h) by (nonlinear_arith) requires h < 16, l < 16;
        assert((h * 16 + l) % 16 == l) by (nonlinear_arith) requires h < 16, l < 16;
    }
    assert(hex_of(b) =~= lower(s));
}

} // verus!

verus! {

/// Hexadecimal text is ASCII.
pub proof fn lemma_hex_ascii(b: Seq<u8>)
    ensures
        crate::text::all_ascii(hex_of(b)),
{
    assert forall|i: int| 0 <= i < hex_of(b).len() implies hex_of(b)[i] < 128 by {
        let x = b[i / 2];
        assert(x / 16 < 16 && x % 16 < 16);
    }
}

} // verus!

verus! {

impl Oid {
    /// The identifier held in the 20 bytes of `s` starting at `pos`.
    pub fn read_at(s: &[u8], pos: usize) -> (r: Oid)
        requires
            pos + 20 <= s@.len(),
        ensures
            r@ == s@.subrange(pos as int, pos + 20),
    {
        let slen = s.len();
        let mut bytes = [0u8; 20];
        let mut i: usize = 0;
        while i < 20
            invariant
                0 <= i <= 20,
                pos + 20 <= s@.len(),
                slen == s@.len(),
                forall|j: int| 0 <= j < i ==> bytes@[j] == s@[pos + j],
            decreases 20 - i,
        {
            bytes[i] = s[pos + i];
            i = i + 1;
        }
        assert(bytes@ =~= s@.subrange(pos as int, pos + 20));
        Oid { bytes }
    }
}

} // verus!

verus! {

/// Identifiers with the same bytes are the same identifier.
pub proof fn lemma_view_eq(a: Oid, b: Oid)
    requires
        a@ == b@,
    ensures
        a == b,
{
    vstd::array::axiom_array_ext_equal(a.bytes, b.bytes);
    assert(a.bytes =~= b.bytes);
}

} // verus!
