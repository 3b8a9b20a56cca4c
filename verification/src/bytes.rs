//! Endian-aware decoding of integers from byte slices, and encoding back.
//!
//! A TIFF file declares its byte order in the header; every multi-byte
//! integer inside it is decoded with that order. The spec functions here are
//! the mathematical model that all contracts in the crate speak of.

use vstd::prelude::*;

verus! {

/// The 16-bit integer whose little-endian bytes are `b0 b1`.
pub open spec fn spec_u16_le(b0: u8, b1: u8) -> u16 {
    (b0 as u16) | (b1 as u16) << 8
}

/// The 16-bit integer whose big-endian bytes are `b0 b1`.
pub open spec fn spec_u16_be(b0: u8, b1: u8) -> u16 {
    spec_u16_le(b1, b0)
}

/// The 32-bit integer whose little-endian bytes are `b0 b1 b2 b3`.
pub open spec fn spec_u32_le(b0: u8, b1: u8, b2: u8, b3: u8) -> u32 {
    (b0 as u32) | (b1 as u32) << 8 | (b2 as u32) << 16 | (b3 as u32) << 24
}

/// The 32-bit integer whose big-endian bytes are `b0 b1 b2 b3`.
pub open spec fn spec_u32_be(b0: u8, b1: u8, b2: u8, b3: u8) -> u32 {
    spec_u32_le(b3, b2, b1, b0)
}

/// The 16-bit integer read from `s` at `pos` in the given byte order.
pub open spec fn spec_u16_at(s: Seq<u8>, pos: int, is_le: bool) -> u16 {
    if is_le {
        spec_u16_le(s[pos], s[pos + 1])
    } else {
        spec_u16_be(s[pos], s[pos + 1])
    }
}

/// The 32-bit integer read from `s` at `pos` in the given byte order.
pub open spec fn spec_u32_at(s: Seq<u8>, pos: int, is_le: bool) -> u32 {
    if is_le {
        spec_u32_le(s[pos], s[pos + 1], s[pos + 2], s[pos + 3])
    } else {
        spec_u32_be(s[pos], s[pos + 1], s[pos + 2], s[pos + 3])
    }
}

/// The four bytes of `x` in the given byte order.
pub open spec fn spec_u32_to_bytes(x: u32, is_le: bool) -> Seq<u8> {
    if is_le {
        seq![
            (x & 0xff) as u8,
            ((x >> 8) & 0xff) as u8,
            ((x >> 16) & 0xff) as u8,
            ((x >> 24) & 0xff) as u8,
        ]
    } else {
        seq![
            ((x >> 24) & 0xff) as u8,
            ((x >> 16) & 0xff) as u8,
            ((x >> 8) & 0xff) as u8,
            (x & 0xff) as u8,
        ]
    }
}

/// The two bytes of `x` in the given byte order.
pub open spec fn spec_u16_to_bytes(x: u16, is_le: bool) -> Seq<u8> {
    if is_le {
        seq![(x & 0xff) as u8, ((x >> 8) & 0xff) as u8]
    } else {
        seq![((x >> 8) & 0xff) as u8, (x & 0xff) as u8]
    }
}

/// Encoding the integer decoded from four bytes gives the bytes back.
pub proof fn lemma_u32_round_trip(b0: u8, b1: u8, b2: u8, b3: u8, is_le: bool)
    ensures
        spec_u32_to_bytes(spec_u32_at(seq![b0, b1, b2, b3], 0, is_le), is_le) =~= seq![
            b0,
            b1,
            b2,
            b3,
        ],
{
    if is_le {
        assert((spec_u32_le(b0, b1, b2, b3) & 0xff) as u8 == b0) by (bit_vector);
        assert(((spec_u32_le(b0, b1, b2, b3) >> 8) & 0xff) as u8 == b1) by (bit_vector);
        assert(((spec_u32_le(b0, b1, b2, b3) >> 16) & 0xff) as u8 == b2) by (bit_vector);
        assert(((spec_u32_le(b0, b1, b2, b3) >> 24) & 0xff) as u8 == b3) by (bit_vector);
    } else {
        assert((spec_u32_le(b3, b2, b1, b0) & 0xff) as u8 == b3) by (bit_vector);
        assert(((spec_u32_le(b3, b2, b1, b0) >> 8) & 0xff) as u8 == b2) by (bit_vector);
        assert(((spec_u32_le(b3, b2, b1, b0) >> 16) & 0xff) as u8 == b1) by (bit_vector);
        assert(((spec_u32_le(b3, b2, b1, b0) >> 24) & 0xff) as u8 == b0) by (bit_vector);
    }
}

/// Decoding the bytes of a 32-bit integer gives the integer back.
pub proof fn lemma_u32_from_to_bytes(x: u32, is_le: bool)
    ensures
        spec_u32_at(spec_u32_to_bytes(x, is_le), 0, is_le) == x,
{
    assert(((x & 0xff) as u8 as u32) | (((x >> 8) & 0xff) as u8 as u32) << 8 | (((x >> 16)
        & 0xff) as u8 as u32) << 16 | (((x >> 24) & 0xff) as u8 as u32) << 24 == x)
        by (bit_vector);
}

/// Encoding the integer decoded from two bytes gives the bytes back.
pub proof fn lemma_u16_round_trip(b0: u8, b1: u8, is_le: bool)
    ensures
        spec_u16_to_bytes(spec_u16_at(seq![b0, b1], 0, is_le), is_le) =~= seq![b0, b1],
{
    if is_le {
        assert((spec_u16_le(b0, b1) & 0xff) as u8 == b0) by (bit_vector);
        assert(((spec_u16_le(b0, b1) >> 8) & 0xff) as u8 == b1) by (bit_vector);
    } else {
        assert((spec_u16_le(b1, b0) & 0xff) as u8 == b1) by (bit_vector);
        assert(((spec_u16_le(b1, b0) >> 8) & 0xff) as u8 == b0) by (bit_vector);
    }
}

/// Reads a 16-bit integer from `data` at `pos` in the given byte order.
pub fn read_u16(data: &[u8], pos: usize, is_le: bool) -> (r: u16)
    requires
        pos + 2 <= data@.len(),
    ensures
        r == spec_u16_at(data@, pos as int, is_le),
{
    let b0 = data[pos];
    let b1 = data[pos + 1];
    if is_le {
        (b0 as u16) | (b1 as u16) << 8
    } else {
        (b1 as u16) | (b0 as u16) << 8
    }
}

/// Reads a 32-bit integer from `data` at `pos` in the given byte order.
pub fn read_u32(data: &[u8], pos: usize, is_le: bool) -> (r: u32)
    requires
        pos + 4 <= data@.len(),
    ensures
        r == spec_u32_at(data@, pos as int, is_le),
{
    let b0 = data[pos];
    let b1 = data[pos + 1];
    let b2 = data[pos + 2];
    let b3 = data[pos + 3];
    if is_le {
        (b0 as u32) | (b1 as u32) << 8 | (b2 as u32) << 16 | (b3 as u32) << 24
    } else {
        (b3 as u32) | (b2 as u32) << 8 | (b1 as u32) << 16 | (b0 as u32) << 24
    }
}

/// The signed reading of the same four bytes, by reinterpreting the unsigned one.
pub open spec fn spec_i32_at(s: Seq<u8>, pos: int, is_le: bool) -> i32 {
    spec_u32_at(s, pos, is_le) as i32
}

/// Reads a signed 32-bit integer from `data` at `pos` in the given byte order.
pub fn read_i32(data: &[u8], pos: usize, is_le: bool) -> (r: i32)
    requires
        pos + 4 <= data@.len(),
    ensures
        r == spec_i32_at(data@, pos as int, is_le),
{
    read_u32(data, pos, is_le) as i32
}

/// Encodes a 32-bit integer as four bytes in the given byte order.
pub fn u32_to_bytes(x: u32, is_le: bool) -> (r: [u8; 4])
    ensures
        r@ == spec_u32_to_bytes(x, is_le),
{
    let r: [u8; 4] = if is_le {
        [(x & 0xff) as u8, ((x >> 8) & 0xff) as u8, ((x >> 16) & 0xff) as u8, (
        (x >> 24) & 0xff) as u8]
    } else {
        [((x >> 24) & 0xff) as u8, ((x >> 16) & 0xff) as u8, ((x >> 8) & 0xff) as u8, (x
            & 0xff) as u8]
    };
    proof {
        assert(r@ =~= spec_u32_to_bytes(x, is_le));
    }
    r
}

/// Encodes a 16-bit integer as two bytes in the given byte order.
pub fn u16_to_bytes(x: u16, is_le: bool) -> (r: [u8; 2])
    ensures
        r@ == spec_u16_to_bytes(x, is_le),
{
    let r: [u8; 2] = if is_le {
        [(x & 0xff) as u8, ((x >> 8) & 0xff) as u8]
    } else {
        [((x >> 8) & 0xff) as u8, (x & 0xff) as u8]
    };
    proof {
        assert(r@ =~= spec_u16_to_bytes(x, is_le));
    }
    r
}

} // verus!
