//! Object identifiers: twenty raw bytes, written as forty hex digits.

use vstd::prelude::*;
use crate::text::{chars_of, string_of};

verus! {

/// Number of bytes in an object identifier.
pub const OID_LEN: usize = 20;

/// The hex digit for a value below 16.
pub open spec fn hex_digit(n: u8) -> char {
    if n < 10 {
        (n + 48) as char
    } else {
        (n + 87) as char
    }
}

/// The value of a hex digit, upper or lower case.
pub open spec fn hex_value(c: char) -> Option<u8> {
    if '0' <= c && c <= '9' {
        Some((c as u32 - 48) as u8)
    } else if 'a' <= c && c <= 'f' {
        Some((c as u32 - 87) as u8)
    } else if 'A' <= c && c <= 'F' {
        Some((c as u32 - 55) as u8)
    } else {
        None
    }
}

/// Lower-case hex text of a byte string, high digit first.
pub open spec fn hex_text(b: Seq<u8>) -> Seq<char> {
    Seq::new(
        2 * b.len(),
        |i: int|
            if i % 2 == 0 {
                hex_digit(b[i / 2] / 16)
            } else {
                hex_digit(b[i / 2] % 16)
            },
    )
}

/// Whether `s` is the hex text of a full object identifier.
pub open spec fn is_oid_text(s: Seq<char>) -> bool {
    s.len() == 2 * OID_LEN && forall|i: int| 0 <= i < s.len() ==> (#[trigger] hex_value(s[i])) is Some
}

/// The bytes that hex text `s` denotes.
pub open spec fn hex_bytes(s: Seq<char>) -> Seq<u8> {
    Seq::new(
        s.len() / 2,
        |k: int| (hex_value(s[2 * k])->0 * 16 + hex_value(s[2 * k + 1])->0) as u8,
    )
}

/// An object identifier; its view is its raw bytes.
pub struct Oid {
    bytes: Vec<u8>,
}

impl View for Oid {
    type V = Seq<u8>;

    closed spec fn view(&self) -> Seq<u8> {
        self.bytes@
    }
}

fn hex_digit_exec(n: u8) -> (r: char)
    requires
        n < 16,
    ensures
        r == hex_digit(n),
{
    if n < 10 {
        (n + 48) as char
    } else {
        (n + 87) as char
    }
}

fn hex_value_exec(c: char) -> (r: Option<u8>)
    ensures
        r == hex_value(c),
{
    if '0' <= c && c <= '9' {
        Some((c as u32 - 48) as u8)
    } else if 'a' <= c && c <= 'f' {
        Some((c as u32 - 87) as u8)
    } else if 'A' <= c && c <= 'F' {
        Some((c as u32 - 55) as u8)
    } else {
        None
    }
}

impl Oid {
    /// Every identifier holds exactly twenty bytes.
    #[verifier::type_invariant]
    spec fn full_length(&self) -> bool {
        self.bytes@.len() == OID_LEN
    }

    /// An identifier from its raw bytes; `None` unless there are exactly twenty.
    pub fn from_bytes(b: &[u8]) -> (r: Option<Oid>)
        ensures
            r is Some <==> b@.len() == OID_LEN,
            r matches Some(o) ==> o@ == b@,
    {
        if b.len() != OID_LEN {
            return None;
        }
        let mut bytes: Vec<u8> = Vec::new();
        let mut i: usize = 0;
        while i < b.len()
            invariant
                i <= b@.len(),
                bytes@ == b@.subrange(0, i as int),
            decreases b@.len() - i,
        {
            bytes.push(b[i]);
            i = i + 1;
        }
        assert(bytes@ =~= b@);
        Some(Oid { bytes })
    }

    /// The raw bytes.
    pub fn as_bytes(&self) -> (r: &[u8])
        ensures
            r@ == self@,
            r@.len() == OID_LEN,
    {
        proof {
            use_type_invariant(self);
        }
        self.bytes.as_slice()
    }

    /// A second identifier with the same bytes.
    pub fn duplicate(&self) -> (r: Oid)
        ensures
            r@ == self@,
    {
        proof {
            use_type_invariant(self);
        }
        let mut bytes: Vec<u8> = Vec::new();
        let mut i: usize = 0;
        while i < self.bytes.len()
            invariant
                i <= self.bytes@.len(),
                bytes@ == self.bytes@.subrange(0, i as int),
            decreases self.bytes@.len() - i,
        {
            bytes.push(self.bytes[i]);
            i = i + 1;
        }
        assert(bytes@ =~= self.bytes@);
        Oid { bytes }
    }

    /// Whether two identifiers hold the same bytes.
    pub fn same_as(&self, other: &Oid) -> (r: bool)
        ensures
            r == (self@ == other@),
    {
        if self.bytes.len() != other.bytes.len() {
            return false;
        }
        let mut i: usize = 0;
        while i < self.bytes.len()
            invariant
                i <= self.bytes@.len(),
                self.bytes@.len() == other.bytes@.len(),
                self.bytes@.subrange(0, i as int) == other.bytes@.subrange(0, i as int),
            decreases self.bytes@.len() - i,
        {
            if self.bytes[i] != other.bytes[i] {
                assert(self.bytes@.subrange(0, i + 1)[i as int] != other.bytes@.subrange(0, i + 1)[i as int]);
                return false;
            }
            assert(self.bytes@.subrange(0, i + 1) =~= other.bytes@.subrange(0, i + 1));
            i = i + 1;
        }
        assert(self.bytes@ =~= self.bytes@.subrange(0, i as int));
        assert(other.bytes@ =~= other.bytes@.subrange(0, i as int));
        true
    }

    /// Lower-case hex text of the identifier.
    pub fn to_hex(&self) -> (r: String)
        ensures
            r@ == hex_text(self@),
            self@.len() == OID_LEN,
    {
        proof {
            use_type_invariant(self);
        }
        let mut out: Vec<char> = Vec::new();
        let mut i: usize = 0;
        while i < self.bytes.len()
            invariant
                i <= self.bytes@.len(),
                out@ =~= hex_text(self.bytes@.subrange(0, i as int)),
            decreases self.bytes@.len() - i,
        {
            let b = self.bytes[i];
            out.push(hex_digit_exec(b / 16));
            out.push(hex_digit_exec(b % 16));
            assert(out@ =~= hex_text(self.bytes@.subrange(0, i + 1)));
            i = i + 1;
        }
        assert(self.bytes@.subrange(0, i as int) =~= self.bytes@);
        string_of(out.as_slice())
    }

    /// Parses forty hex digits; `None` on any other text.
    pub fn from_hex(s: &str) -> (r: Option<Oid>)
        ensures
            r is Some <==> is_oid_text(s@),
            r matches Some(o) ==> o@ == hex_bytes(s@),
    {
        let c = chars_of(s);
        if c.len() != 2 * OID_LEN {
            return None;
        }
        let mut bytes: Vec<u8> = Vec::new();
        let mut k: usize = 0;
        while k < OID_LEN
            invariant
                k <= OID_LEN,
                c@ == s@,
                c@.len() == 2 * OID_LEN,
                forall|i: int| 0 <= i < 2 * k ==> (#[trigger] hex_value(c@[i])) is Some,
                bytes@ =~= hex_bytes(c@.subrange(0, 2 * k as int)),
            decreases OID_LEN - k,
        {
            let hi = hex_value_exec(c[2 * k]);
            let lo = hex_value_exec(c[2 * k + 1]);
            match (hi, lo) {
                (Some(h), Some(l)) => {
                    bytes.push(h * 16 + l);
                    k = k + 1;
                    assert(bytes@ =~= hex_bytes(c@.subrange(0, 2 * k as int)));
                },
                _ => {
                    assert(!is_oid_text(s@)) by {
                        if hi is None {
                            assert(hex_value(s@[2 * k as int]) is None);
                        } else {
                            assert(hex_value(s@[2 * k + 1]) is None);
                        }
                    }
                    return None;
                },
            }
        }
        assert(c@.subrange(0, 2 * k as int) =~= c@);
        Some(Oid { bytes })
    }
}

/// Hex text read back gives the same identifier.
pub proof fn lemma_hex_round_trip(b: Seq<u8>)
    requires
        b.len() == OID_LEN,
    ensures
        is_oid_text(hex_text(b)),
        hex_bytes(hex_text(b)) == b,
{
    let t = hex_text(b);
    assert forall|i: int| 0 <= i < t.len() implies (#[trigger] hex_value(t[i])) is Some by {
        let d: u8 = if i % 2 == 0 { b[i / 2] / 16 } else { b[i / 2] % 16 };
        assert(t[i] == hex_digit(d));
        assert(d < 16);
    }
    assert forall|k: int| 0 <= k < b.len() implies #[trigger] hex_bytes(t)[k] == b[k] by {
        assert((2 * k) % 2 == 0);
        assert((2 * k + 1) % 2 == 1);
        assert((2 * k) / 2 == k);
        assert((2 * k + 1) / 2 == k);
        let x = b[k];
        assert(x == (x / 16) * 16 + x % 16);
    }
    assert(hex_bytes(t) =~= b);
}

} // verus!
