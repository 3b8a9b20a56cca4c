//! One decoded IFD entry.
//!
//! A 12-byte entry on disk carries a tag, a type code, an element count and a
//! four-byte value field. When the value does not fit the four bytes (or the
//! type is ASCII), the field is a file offset and the walker copies the
//! out-of-line payload into `actual_value`; otherwise the value is inline.

use crate::bytes::{lemma_u32_round_trip, read_u16, read_u32, spec_u16_at, spec_u32_at,
    spec_u32_to_bytes};
use vstd::prelude::*;
use vstd::string::StringSliceAdditionalSpecFns;
use vstd::string::StrSliceExecFns;
use vstd::utf8::{decode_utf8, encode_utf8_decode_utf8, valid_utf8};

verus! {

/// The element size in bytes for a TIFF type code; unknown codes count as one.
pub open spec fn spec_element_size(format: u16) -> u32 {
    if format == 1 {
        1
    } else if format == 2 {
        1
    } else if format == 3 {
        2
    } else if format == 4 {
        4
    } else if format == 5 {
        8
    } else if format == 6 {
        1
    } else if format == 7 {
        1
    } else if format == 8 {
        2
    } else if format == 9 {
        4
    } else if format == 10 {
        8
    } else if format == 11 {
        4
    } else if format == 12 {
        8
    } else if format == 13 {
        4
    } else if format == 14 {
        8
    } else {
        1
    }
}

/// The element size of a TIFF type code, as executable code.
pub fn element_size(format: u16) -> (r: u32)
    ensures
        r == spec_element_size(format),
{
    match format {
        0x0001 => 1u32,
        0x0002 => 1,
        0x0003 => 2,
        0x0004 => 4,
        0x0005 => 8,
        0x0006 => 1,
        0x0007 => 1,
        0x0008 => 2,
        0x0009 => 4,
        0x000a => 8,
        0x000b => 4,
        0x000c => 8,
        0x000d => 4,
        0x000e => 8,
        _ => 1,
    }
}

/// One captured IFD entry: the byte order of its TIFF, the raw entry fields,
/// and the out-of-line payload when the entry had one.
#[derive(Debug, Clone)]
pub struct IFDItem {
    pub is_le: bool,
    pub tag: u16,
    pub format: [u8; 2],
    pub size: [u8; 4],
    pub value: [u8; 4],
    pub actual_value: Option<Vec<u8>>,
}

impl IFDItem {
    /// The type code of the entry, decoded in the entry's byte order.
    pub open spec fn spec_format(&self) -> u16 {
        spec_u16_at(self.format@, 0, self.is_le)
    }

    /// The element count of the entry, decoded in the entry's byte order.
    pub open spec fn spec_size(&self) -> u32 {
        spec_u32_at(self.size@, 0, self.is_le)
    }

    /// The inline value field as a 16-bit integer.
    pub open spec fn spec_u16(&self) -> u16 {
        spec_u16_at(self.value@, 0, self.is_le)
    }

    /// The inline value field as a 32-bit integer.
    pub open spec fn spec_u32(&self) -> u32 {
        spec_u32_at(self.value@, 0, self.is_le)
    }

    /// Whether the entry's on-disk form stores its value out of line.
    pub open spec fn spec_out_of_line(&self) -> bool {
        self.spec_format() == 2 || self.spec_size() * spec_element_size(self.spec_format()) > 4
    }

    /// The payload is present exactly when the on-disk entry stored its value
    /// out of line: either the type is ASCII or the total value size exceeds
    /// the four inline bytes. The walker establishes this for every item it
    /// stores.
    pub open spec fn payload_rule(&self) -> bool {
        self.actual_value is Some <==> self.spec_out_of_line()
    }

    /// The payload if the entry had one, else the four inline bytes.
    pub fn raw(&self) -> (r: &[u8])
        ensures
            r@ == match self.actual_value {
                Some(v) => v@,
                None => self.value@,
            },
    {
        match self.actual_value.as_ref() {
            Some(x) => x.as_slice(),
            None => self.value.as_slice(),
        }
    }

    /// The element count of the entry.
    pub fn size(&self) -> (r: u32)
        ensures
            r == self.spec_size(),
    {
        read_u32(self.size.as_slice(), 0, self.is_le)
    }

    /// The first two inline bytes as a 16-bit integer.
    pub fn u16(&self) -> (r: u16)
        ensures
            r == self.spec_u16(),
    {
        read_u16(self.value.as_slice(), 0, self.is_le)
    }

    /// The four inline bytes as a 32-bit integer.
    pub fn u32(&self) -> (r: u32)
        ensures
            r == self.spec_u32(),
    {
        read_u32(self.value.as_slice(), 0, self.is_le)
    }

    /// The payload decoded as text: present when the payload is valid
    /// UTF-8; one trailing NUL, if present, is stripped.
    pub fn str(&self) -> (r: Option<&str>)
        ensures
            r is Some <==> (self.actual_value is Some && valid_utf8(
                self.actual_value.unwrap()@,
            )),
            r is Some ==> r.unwrap()@ == ({
                let text = decode_utf8(self.actual_value.unwrap()@);
                if text.len() > 0 && text.last() == '\0' {
                    text.drop_last()
                } else {
                    text
                }
            }),
    {
        match self.actual_value.as_ref() {
            Some(bytes) => {
                match str_from_utf8(bytes.as_slice()) {
                    Some(s) => {
                        proof {
                            encode_utf8_decode_utf8(s@);
                        }
                        let n = s.unicode_len();
                        if n > 0 && s.get_char(n - 1) == '\0' {
                            Some(s.substring_char(0, n - 1))
                        } else {
                            Some(s)
                        }
                    },
                    None => None,
                }
            },
            None => None,
        }
    }

    /// The 16-bit integers of the payload, in the entry's byte order.
    pub fn u16s(&self) -> (r: Option<Vec<u16>>)
        ensures
            r is Some <==> self.actual_value is Some,
            r is Some ==> r.unwrap()@ == spec_u16s_of(self.actual_value.unwrap()@, self.is_le),
    {
        match self.actual_value.as_ref() {
            Some(bytes) => {
                let n = bytes.len() / 2;
                let mut out: Vec<u16> = Vec::new();
                let mut i: usize = 0;
                while i < n
                    invariant
                        i <= n,
                        n == bytes@.len() / 2,
                        n <= usize::MAX / 2,
                        out@ =~= spec_u16s_of(bytes@, self.is_le).take(i as int),
                    decreases n - i,
                {
                    out.push(read_u16(bytes.as_slice(), 2 * i, self.is_le));
                    i = i + 1;
                }
                proof {
                    assert(out@ =~= spec_u16s_of(bytes@, self.is_le));
                }
                Some(out)
            },
            None => None,
        }
    }

    /// The 32-bit integers of the payload, in the entry's byte order.
    pub fn u32s(&self) -> (r: Option<Vec<u32>>)
        ensures
            r is Some <==> self.actual_value is Some,
            r is Some ==> r.unwrap()@ == spec_u32s_of(self.actual_value.unwrap()@, self.is_le),
    {
        match self.actual_value.as_ref() {
            Some(bytes) => {
                let n = bytes.len() / 4;
                let mut out: Vec<u32> = Vec::new();
                let mut i: usize = 0;
                while i < n
                    invariant
                        i <= n,
                        n == bytes@.len() / 4,
                        n <= usize::MAX / 4,
                        out@ =~= spec_u32s_of(bytes@, self.is_le).take(i as int),
                    decreases n - i,
                {
                    out.push(read_u32(bytes.as_slice(), 4 * i, self.is_le));
                    i = i + 1;
                }
                proof {
                    assert(out@ =~= spec_u32s_of(bytes@, self.is_le));
                }
                Some(out)
            },
            None => None,
        }
    }

    /// The rationals of the payload as (numerator, denominator) pairs: each
    /// eight-byte element is a signed 32-bit numerator followed by an
    /// unsigned 32-bit denominator. The quotient is left to the caller.
    pub fn r64s(&self) -> (r: Option<Vec<(i32, u32)>>)
        ensures
            r is Some <==> self.actual_value is Some,
            r is Some ==> r.unwrap()@ == spec_r64s_of(self.actual_value.unwrap()@, self.is_le),
    {
        match self.actual_value.as_ref() {
            Some(bytes) => {
                let n = bytes.len() / 8;
                let mut out: Vec<(i32, u32)> = Vec::new();
                let mut i: usize = 0;
                while i < n
                    invariant
                        i <= n,
                        n == bytes@.len() / 8,
                        n <= usize::MAX / 8,
                        out@ =~= spec_r64s_of(bytes@, self.is_le).take(i as int),
                    decreases n - i,
                {
                    let num = read_u32(bytes.as_slice(), 8 * i, self.is_le) as i32;
                    let den = read_u32(bytes.as_slice(), 8 * i + 4, self.is_le);
                    out.push((num, den));
                    i = i + 1;
                }
                proof {
                    assert(out@ =~= spec_r64s_of(bytes@, self.is_le));
                }
                Some(out)
            },
            None => None,
        }
    }
}

/// The 16-bit integers of `b` in the given order; a trailing odd byte is dropped.
pub open spec fn spec_u16s_of(b: Seq<u8>, is_le: bool) -> Seq<u16> {
    Seq::new(b.len() / 2, |i: int| spec_u16_at(b, 2 * i, is_le))
}

/// The 32-bit integers of `b` in the given order; a trailing fragment is dropped.
pub open spec fn spec_u32s_of(b: Seq<u8>, is_le: bool) -> Seq<u32> {
    Seq::new(b.len() / 4, |i: int| spec_u32_at(b, 4 * i, is_le))
}

/// The (numerator, denominator) pairs of `b` in the given order.
pub open spec fn spec_r64s_of(b: Seq<u8>, is_le: bool) -> Seq<(i32, u32)> {
    Seq::new(
        b.len() / 8,
        |i: int| (spec_u32_at(b, 8 * i, is_le) as i32, spec_u32_at(b, 8 * i + 4, is_le)),
    )
}

/// Re-encoding the inline value read through `u32` in the item's own byte
/// order gives back the four inline bytes exactly.
pub proof fn lemma_endian_round_trip(item: IFDItem)
    ensures
        spec_u32_to_bytes(item.spec_u32(), item.is_le) == item.value@,
{
    let b = item.value@;
    lemma_u32_round_trip(b[0], b[1], b[2], b[3], item.is_le);
    assert(seq![b[0], b[1], b[2], b[3]] =~= b);
}

/// Relies on std's str::from_utf8: it returns Ok exactly on valid UTF-8
/// input, and the returned slice views the same bytes.
#[verifier::external_body]
pub(crate) fn str_from_utf8(v: &[u8]) -> (r: Option<&str>)
    ensures
        r is Some <==> valid_utf8(v@),
        r is Some ==> r.unwrap().spec_bytes() == v@,
{
    std::str::from_utf8(v).ok()
}

} // verus!
