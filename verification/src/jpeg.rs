//! JPEG segment-level parsing.
//!
//! Walks the marker segments of a JPEG stream and collects the quantization
//! table, the frame header, the Huffman tables and the scan. Entropy-coded
//! data is kept as raw bytes; decoding it is not this crate's concern.

use crate::bytes::spec_u16_be;
use vstd::prelude::*;
use vstd::slice::slice_subrange;

verus! {

/// What can go wrong while walking the segments.
#[derive(Debug, Clone, Copy, PartialEq, Eq)]
pub enum Error {
    /// A read would pass the end; the position it started from.
    IndexError(usize),
    /// The stream does not begin with the SOI marker; the two bytes found.
    InvalidHeader(u16),
    /// The scan does not end with the EOI marker; the two bytes found.
    InvalidTail(u16),
}

/// The big-endian 16-bit integer at `pos`.
pub open spec fn spec_jpeg_u16(b: Seq<u8>, pos: int) -> u16 {
    spec_u16_be(b[pos], b[pos + 1])
}

/// A stream that begins with SOI and follows it with a marker the walker
/// does not collect: the walk stops there at once, so it owes success.
pub open spec fn spec_jpeg_unknown_after_soi(b: Seq<u8>) -> bool {
    let m = spec_jpeg_u16(b, 2);
    &&& b.len() >= 4
    &&& spec_jpeg_u16(b, 0) == 0xffd8
    &&& m != 0xffdb
    &&& m != 0xffc0
    &&& m != 0xffc1
    &&& m != 0xffc2
    &&& m != 0xffc3
    &&& m != 0xffc7
    &&& m != 0xffc4
    &&& m != 0xffda
}

/// A stream of exactly one collected segment: SOI, a quantization-table
/// segment, then a marker the walker does not collect. The walker must
/// return the segment's body as the quantization table.
pub open spec fn spec_jpeg_soi_dqt_unknown(b: Seq<u8>) -> bool {
    let sz = spec_jpeg_u16(b, 4) as int;
    let m2 = spec_jpeg_u16(b, 4 + sz);
    &&& b.len() >= 6
    &&& spec_jpeg_u16(b, 0) == 0xffd8
    &&& spec_jpeg_u16(b, 2) == 0xffdb
    &&& sz >= 2
    &&& 4 + sz + 2 <= b.len()
    &&& m2 != 0xffdb
    &&& m2 != 0xffc0
    &&& m2 != 0xffc1
    &&& m2 != 0xffc2
    &&& m2 != 0xffc3
    &&& m2 != 0xffc7
    &&& m2 != 0xffc4
    &&& m2 != 0xffda
}

/// A stream of exactly one collected segment: SOI, a frame-header segment,
/// then a marker the walker does not collect. On success the walker must
/// return the frame header decoded from the segment's body.
pub open spec fn spec_jpeg_soi_sof_unknown(b: Seq<u8>) -> bool {
    let m1 = spec_jpeg_u16(b, 2);
    let sz = spec_jpeg_u16(b, 4) as int;
    let m2 = spec_jpeg_u16(b, 4 + sz);
    &&& b.len() >= 6
    &&& spec_jpeg_u16(b, 0) == 0xffd8
    &&& (m1 == 0xffc0 || m1 == 0xffc1 || m1 == 0xffc2 || m1 == 0xffc3 || m1 == 0xffc7)
    &&& sz >= 2
    &&& 4 + sz + 2 <= b.len()
    &&& m2 != 0xffdb
    &&& m2 != 0xffc0
    &&& m2 != 0xffc1
    &&& m2 != 0xffc2
    &&& m2 != 0xffc3
    &&& m2 != 0xffc7
    &&& m2 != 0xffc4
    &&& m2 != 0xffda
}

/// What the frame header decoded from a segment body `body` for marker id
/// `id` holds: the geometry bytes and one sampling triple per component.
pub open spec fn spec_sof_matches(body: Seq<u8>, id: u8, sof: SOF) -> bool {
    &&& sof.id == id
    &&& body.len() >= 6
    &&& sof.precision == body[0]
    &&& sof.height == spec_jpeg_u16(body, 1)
    &&& sof.width == spec_jpeg_u16(body, 3)
    &&& sof.components@.len() == body[5]
    &&& forall|i: int|
        0 <= i < sof.components@.len() ==> #[trigger] sof.components@[i] == (
        body[6 + 3 * i],
        body[7 + 3 * i] >> 4,
        body[7 + 3 * i] & 0x0f,
        body[8 + 3 * i],
        )
}

/// Reads one byte and advances.
fn jread_u8(bytes: &[u8], cursor: &mut usize) -> (r: Result<u8, Error>)
    ensures
        r is Ok <==> *old(cursor) + 1 <= bytes@.len(),
        r matches Ok(v) ==> v == bytes@[*old(cursor) as int] && *final(cursor) == *old(cursor)
            + 1,
        r is Err ==> r == Err::<u8, Error>(Error::IndexError(*old(cursor))) && *final(cursor)
            == *old(cursor),
{
    if *cursor < bytes.len() {
        let v = bytes[*cursor];
        *cursor = *cursor + 1;
        Ok(v)
    } else {
        Err(Error::IndexError(*cursor))
    }
}

/// Reads a big-endian 16-bit integer and advances.
fn jread_u16(bytes: &[u8], cursor: &mut usize) -> (r: Result<u16, Error>)
    ensures
        r is Ok <==> *old(cursor) + 2 <= bytes@.len(),
        r matches Ok(v) ==> v == spec_jpeg_u16(bytes@, *old(cursor) as int) && *final(cursor)
            == *old(cursor) + 2,
        r is Err ==> r == Err::<u16, Error>(Error::IndexError(*old(cursor))) && *final(cursor)
            == *old(cursor),
{
    if bytes.len() >= 2 && *cursor <= bytes.len() - 2 {
        let b0 = bytes[*cursor];
        let b1 = bytes[*cursor + 1];
        *cursor = *cursor + 2;
        Ok((b1 as u16) | (b0 as u16) << 8)
    } else {
        Err(Error::IndexError(*cursor))
    }
}

/// Takes `size` bytes as a fresh buffer and advances.
fn jread_slice(bytes: &[u8], cursor: &mut usize, size: usize) -> (r: Result<Vec<u8>, Error>)
    ensures
        r is Ok <==> *old(cursor) + size <= bytes@.len(),
        r matches Ok(v) ==> v@ == bytes@.subrange(*old(cursor) as int, *old(cursor) + size)
            && *final(cursor) == *old(cursor) + size,
        r is Err ==> r == Err::<Vec<u8>, Error>(Error::IndexError(*old(cursor)))
            && *final(cursor) == *old(cursor),
{
    if size <= bytes.len() && *cursor <= bytes.len() - size {
        let mut out: Vec<u8> = Vec::new();
        let mut i: usize = 0;
        while i < size
            invariant
                i <= size,
                *cursor + size <= bytes@.len(),
                bytes@.len() <= usize::MAX,
                out@ =~= bytes@.subrange(*cursor as int, *cursor + i),
            decreases size - i,
        {
            out.push(bytes[*cursor + i]);
            proof {
                assert(out@ =~= bytes@.subrange(*cursor as int, *cursor + i + 1));
            }
            i = i + 1;
        }
        *cursor = *cursor + size;
        Ok(out)
    } else {
        Err(Error::IndexError(*cursor))
    }
}

/// A frame header: image geometry and per-component sampling.
#[derive(Debug)]
pub struct SOF {
    /// Which SOF marker introduced the frame (0, 1, 2, 3 or 7).
    pub id: u8,
    pub precision: u8,
    pub height: u16,
    pub width: u16,
    /// One entry per component: its id, horizontal and vertical sampling
    /// factors, and quantization table selector.
    pub components: Vec<(u8, u8, u8, u8)>,
}

impl Default for SOF {
    /// An empty frame header.
    fn default() -> (r: SOF)
        ensures
            r.id == 0 && r.precision == 0 && r.height == 0 && r.width == 0 && r.components@.len()
                == 0,
    {
        SOF { id: 0, precision: 0, height: 0, width: 0, components: Vec::new() }
    }
}

impl SOF {
    /// Decodes a frame header from a segment body: precision, height, width,
    /// a component count, and three bytes per component.
    fn parse_from_bytes(id: u8, bytes: &[u8]) -> (r: Result<SOF, Error>)
        ensures
            r is Ok <==> 6 <= bytes@.len() && 6 + 3 * (bytes@[5] as int) <= bytes@.len(),
            r matches Ok(sof) ==> ({
                &&& sof.id == id
                &&& sof.precision == bytes@[0]
                &&& sof.height == spec_jpeg_u16(bytes@, 1)
                &&& sof.width == spec_jpeg_u16(bytes@, 3)
                &&& sof.components@.len() == bytes@[5]
                &&& forall|i: int|
                    0 <= i < sof.components@.len() ==> #[trigger] sof.components@[i] == (
                    bytes@[6 + 3 * i],
                    bytes@[7 + 3 * i] >> 4,
                    bytes@[7 + 3 * i] & 0x0f,
                    bytes@[8 + 3 * i],
                    )
            }),
    {
        let cursor = &mut 0usize;
        let precision = jread_u8(bytes, cursor)?;
        let height = jread_u16(bytes, cursor)?;
        let width = jread_u16(bytes, cursor)?;
        let count = jread_u8(bytes, cursor)? as usize;
        let mut components: Vec<(u8, u8, u8, u8)> = Vec::new();
        let mut i: usize = 0;
        while i < count
            invariant
                i <= count,
                count == bytes@[5],
                *cursor == 6 + 3 * i,
                *cursor <= bytes@.len(),
                bytes@.len() >= 6,
                components@.len() == i,
                forall|j: int|
                    0 <= j < i ==> #[trigger] components@[j] == (
                    bytes@[6 + 3 * j],
                    bytes@[7 + 3 * j] >> 4,
                    bytes@[7 + 3 * j] & 0x0f,
                    bytes@[8 + 3 * j],
                    ),
            decreases count - i,
        {
            let c = jread_u8(bytes, cursor)?;
            let hv = jread_u8(bytes, cursor)?;
            let h = hv >> 4;
            let v = hv & 0x0f;
            let tq = jread_u8(bytes, cursor)?;
            components.push((c, h, v, tq));
            i = i + 1;
        }
        Ok(SOF { id, precision, height, width, components })
    }
}

/// A scan: its per-component entropy selectors, spectral parameters, and the
/// entropy-coded bytes up to the EOI marker.
#[derive(Debug)]
pub struct SOS {
    /// One entry per component: its selector and the DC and AC entropy
    /// table selectors.
    pub scan_header: Vec<(u8, u8, u8)>,
    /// Start of spectral or predictor selection.
    pub ss: u8,
    /// End of spectral selection.
    pub se: u8,
    /// Successive approximation bit position high.
    pub ah: u8,
    /// Successive approximation bit position low, or point transform.
    pub al: u8,
    /// The entropy-coded bytes, without the trailing EOI marker.
    pub body: Vec<u8>,
}

impl Default for SOS {
    /// An empty scan.
    fn default() -> (r: SOS)
        ensures
            r.scan_header@.len() == 0 && r.ss == 0 && r.se == 0 && r.ah == 0 && r.al == 0
                && r.body@.len() == 0,
    {
        SOS { scan_header: Vec::new(), ss: 0, se: 0, ah: 0, al: 0, body: Vec::new() }
    }
}

impl SOS {
    /// Decodes a scan from the bytes at its header: the header length word,
    /// a component count with two bytes per component, three spectral
    /// bytes, then the entropy-coded body, which must end with EOI.
    fn parse_from_bytes(bytes: &[u8]) -> (r: Result<SOS, Error>)
        ensures
            r matches Ok(sos) ==> ({
                let n = bytes@[2] as int;
                &&& bytes@.len() >= 6 + 2 * n + 2
                &&& sos.scan_header@.len() == n
                &&& (forall|i: int|
                    0 <= i < n ==> #[trigger] sos.scan_header@[i] == (
                    bytes@[3 + 2 * i],
                    bytes@[4 + 2 * i] >> 4,
                    bytes@[4 + 2 * i] & 0x0f,
                    ))
                &&& sos.ss == bytes@[3 + 2 * n]
                &&& sos.se == bytes@[4 + 2 * n]
                &&& sos.ah == bytes@[5 + 2 * n] >> 4
                &&& sos.al == bytes@[5 + 2 * n] & 0x0f
                &&& sos.body@ == bytes@.subrange(6 + 2 * n, bytes@.len() - 2)
                &&& spec_jpeg_u16(bytes@, bytes@.len() - 2) == 0xffd9
            }),
            r matches Err(e) ==> (e matches Error::IndexError(_) || (e matches Error::InvalidTail(
                v,
            ) && v == spec_jpeg_u16(bytes@, bytes@.len() - 2) && v != 0xffd9 && bytes@.len() >= 6
                + 2 * (bytes@[2] as int) + 2)),
            ({
                let n = bytes@[2] as int;
                (bytes@.len() >= 6 + 2 * n + 2 && spec_jpeg_u16(bytes@, bytes@.len() - 2)
                    != 0xffd9) ==> r == Err::<SOS, Error>(
                    Error::InvalidTail(spec_jpeg_u16(bytes@, bytes@.len() - 2)),
                )
            }),
            ({
                // success is owed whenever the header fits and the tail ends
                // with the EOI marker
                let n = bytes@[2] as int;
                (bytes@.len() >= 6 + 2 * n + 2 && spec_jpeg_u16(bytes@, bytes@.len() - 2)
                    == 0xffd9) ==> r is Ok
            }),
    {
        let cursor = &mut 0usize;
        let _header_len = jread_u16(bytes, cursor)?;
        let components = jread_u8(bytes, cursor)?;
        let count = components as usize;
        let mut scan_header: Vec<(u8, u8, u8)> = Vec::new();
        let mut i: usize = 0;
        while i < count
            invariant
                i <= count,
                count == bytes@[2],
                *cursor == 3 + 2 * i,
                bytes@.len() >= 3,
                scan_header@.len() == i,
                forall|j: int|
                    0 <= j < i ==> #[trigger] scan_header@[j] == (
                    bytes@[3 + 2 * j],
                    bytes@[4 + 2 * j] >> 4,
                    bytes@[4 + 2 * j] & 0x0f,
                    ),
            decreases count - i,
        {
            let csj = jread_u8(bytes, cursor)?;
            let entropy_selector = jread_u8(bytes, cursor)?;
            let tdj = entropy_selector >> 4;
            let taj = entropy_selector & 0x0f;
            scan_header.push((csj, tdj, taj));
            i = i + 1;
        }
        let ss = jread_u8(bytes, cursor)?;
        let se = jread_u8(bytes, cursor)?;
        let successive_approximation = jread_u8(bytes, cursor)?;
        let ah = successive_approximation >> 4;
        let al = successive_approximation & 0x0f;
        if bytes.len() < 2 || *cursor > bytes.len() - 2 {
            return Err(Error::IndexError(*cursor));
        }
        let body = jread_slice(bytes, cursor, bytes.len() - *cursor - 2)?;
        let tail = jread_u16(bytes, cursor)?;
        if tail != 0xffd9 {
            Err(Error::InvalidTail(tail))
        } else {
            Ok(SOS { scan_header, ss, se, ah, al, body })
        }
    }
}

/// One Huffman table: its class, destination, and the size-indexed values.
#[derive(Debug)]
pub struct DHT {
    /// Whether the table is for AC coefficients (else DC).
    pub is_ac: bool,
    /// The table destination selector.
    pub destination: u8,
    /// How many values each code length from one to sixteen has; always
    /// sixteen entries.
    pub huff_size: Vec<u8>,
    /// The values for each code length; always sixteen lists, the list for
    /// length `i` holding `huff_size[i]` values.
    pub huff_vals: Vec<Vec<u8>>,
}

/// The sum of the first `s` of the sixteen size counts of the Huffman table
/// that begins at `pos`.
pub open spec fn spec_dht_sizes_sum(b: Seq<u8>, pos: int, s: int) -> int
    decreases s,
{
    if s <= 0 {
        0
    } else {
        spec_dht_sizes_sum(b, pos, s - 1) + b[pos + 1 + (s - 1)]
    }
}

/// The position right after the Huffman table that begins at `pos`: its
/// class byte, sixteen size counts, and as many values as the counts sum to.
pub open spec fn spec_dht_next(b: Seq<u8>, pos: int) -> int {
    pos + 17 + spec_dht_sizes_sum(b, pos, 16)
}

/// Partial size sums grow with the index.
proof fn lemma_dht_sum_mono(b: Seq<u8>, pos: int, s1: int, s2: int)
    requires
        0 <= s1 <= s2,
    ensures
        spec_dht_sizes_sum(b, pos, s1) <= spec_dht_sizes_sum(b, pos, s2),
    decreases s2,
{
    if s1 < s2 {
        lemma_dht_sum_mono(b, pos, s1, s2 - 1);
    }
}

impl DHT {
    /// Decodes the tables of one DHT segment body: each table holds a class
    /// and destination byte, sixteen size counts, then the values. The first
    /// table's fields are the bytes at the start of the segment, each value
    /// list at the position its size counts give it; a segment that holds
    /// exactly one table owes success.
    fn parse_from_bytes(bytes: &[u8]) -> (r: Result<Vec<DHT>, Error>)
        ensures
            r matches Ok(tables) ==> forall|t: int|
                0 <= t < tables@.len() ==> (#[trigger] tables@[t]).huff_size@.len() == 16
                    && tables@[t].huff_vals@.len() == 16 && forall|s: int|
                    0 <= s < 16 ==> (#[trigger] tables@[t].huff_vals@[s])@.len() == tables@[
                        t
                    ].huff_size@[s],
            r matches Ok(tables) ==> (tables@.len() == 0 <==> bytes@.len() == 0),
            r matches Ok(tables) ==> (tables@.len() > 0 ==> ({
                &&& tables@[0].is_ac == (bytes@[0] >> 4 == 1)
                &&& tables@[0].destination == bytes@[0] & 0x0f
                &&& tables@[0].huff_size@ == bytes@.subrange(1, 17)
                &&& forall|s: int|
                    0 <= s < 16 ==> (#[trigger] tables@[0].huff_vals@[s])@ == bytes@.subrange(
                        17 + spec_dht_sizes_sum(bytes@, 0, s),
                        17 + spec_dht_sizes_sum(bytes@, 0, s + 1),
                    )
            })),
            (bytes@.len() > 0 && bytes@.len() == spec_dht_next(bytes@, 0)) ==> (r matches Ok(
                tables,
            ) && tables@.len() == 1),
    {
        let mut result: Vec<DHT> = Vec::new();
        let cursor = &mut 0usize;
        while *cursor < bytes.len()
            invariant
                *cursor <= bytes@.len(),
                result@.len() == 0 <==> *cursor == 0,
                result@.len() == 1 ==> *cursor == spec_dht_next(bytes@, 0),
                result@.len() >= 2 ==> *cursor >= spec_dht_next(bytes@, 0) + 17,
                result@.len() > 0 ==> ({
                    &&& result@[0].is_ac == (bytes@[0] >> 4 == 1)
                    &&& result@[0].destination == bytes@[0] & 0x0f
                    &&& result@[0].huff_size@ == bytes@.subrange(1, 17)
                    &&& forall|s2: int|
                        0 <= s2 < 16 ==> (#[trigger] result@[0].huff_vals@[s2])@
                            == bytes@.subrange(
                            17 + spec_dht_sizes_sum(bytes@, 0, s2),
                            17 + spec_dht_sizes_sum(bytes@, 0, s2 + 1),
                        )
                }),
                forall|t: int|
                    0 <= t < result@.len() ==> (#[trigger] result@[t]).huff_size@.len() == 16
                        && result@[t].huff_vals@.len() == 16 && forall|s: int|
                        0 <= s < 16 ==> (#[trigger] result@[t].huff_vals@[s])@.len() == result@[
                            t
                        ].huff_size@[s],
            decreases bytes@.len() - *cursor,
        {
            proof {
                lemma_dht_sum_mono(bytes@, 0, 0, 16);
            }
            let ghost cstart = *cursor;
            let ghost first = result@.len() == 0;
            proof {
                assert(cstart < bytes@.len());
                if result@.len() == 1 {
                    assert(cstart == spec_dht_next(bytes@, 0));
                }
                if result@.len() >= 2 {
                    assert(cstart >= spec_dht_next(bytes@, 0) + 17);
                }
            }
            let head = jread_u8(bytes, cursor)?;
            let tc = head >> 4;
            let th = head & 0x0f;
            let huff_size = jread_slice(bytes, cursor, 16)?;
            proof {
                if first {
                    assert(huff_size@ =~= bytes@.subrange(1, 17));
                }
            }
            let mut huff_vals: Vec<Vec<u8>> = Vec::new();
            let ghost c0 = *cursor;
            let mut s: usize = 0;
            while s < 16
                invariant
                    s <= 16,
                    huff_size@.len() == 16,
                    c0 <= *cursor,
                    c0 == cstart + 17,
                    *cursor <= bytes@.len(),
                    huff_vals@.len() == s,
                    first == (result@.len() == 0),
                    cstart < bytes@.len(),
                    !first ==> (cstart == spec_dht_next(bytes@, 0) || cstart >= spec_dht_next(
                        bytes@,
                        0,
                    ) + 17),
                    first ==> ({
                        &&& cstart == 0
                        &&& huff_size@ == bytes@.subrange(1, 17)
                        &&& *cursor == 17 + spec_dht_sizes_sum(bytes@, 0, s as int)
                        &&& forall|s2: int|
                            0 <= s2 < s ==> (#[trigger] huff_vals@[s2])@ == bytes@.subrange(
                                17 + spec_dht_sizes_sum(bytes@, 0, s2),
                                17 + spec_dht_sizes_sum(bytes@, 0, s2 + 1),
                            )
                    }),
                    forall|j: int|
                        0 <= j < s ==> (#[trigger] huff_vals@[j])@.len() == huff_size@[j],
                decreases 16 - s,
            {
                let size = huff_size[s] as usize;
                proof {
                    if first {
                        lemma_dht_sum_mono(bytes@, 0, s as int + 1, 16);
                        assert(huff_size@[s as int] == bytes@[1 + s]);
                        assert(spec_dht_sizes_sum(bytes@, 0, s as int + 1)
                            == spec_dht_sizes_sum(bytes@, 0, s as int) + bytes@[1 + s]);
                    } else if bytes@.len() == spec_dht_next(bytes@, 0) {
                        assert(false);
                    }
                }
                let vals = jread_slice(bytes, cursor, size)?;
                huff_vals.push(vals);
                s = s + 1;
            }
            result.push(DHT { is_ac: tc == 1, destination: th, huff_size, huff_vals });
        }
        Ok(result)
    }
}

/// The parsed segments of one JPEG stream.
#[derive(Debug)]
pub struct JPEG {
    /// The quantization-table segment body.
    pub dqt: Vec<u8>,
    /// The frame header.
    pub sof: SOF,
    /// The Huffman tables, in segment order.
    pub dht: Vec<DHT>,
    /// Raw frame bytes; segment walking keeps none, so this stays empty.
    pub data: Vec<u8>,
    /// The scan.
    pub sos: SOS,
}

impl Default for JPEG {
    /// An empty stream description.
    fn default() -> (r: JPEG)
        ensures
            r.dqt@.len() == 0 && r.dht@.len() == 0 && r.data@.len() == 0,
    {
        JPEG {
            dqt: Vec::new(),
            sof: SOF::default(),
            dht: Vec::new(),
            data: Vec::new(),
            sos: SOS::default(),
        }
    }
}

impl JPEG {
    /// Walks the segments of a JPEG stream from its SOI marker, collecting
    /// the quantization table, frame header, Huffman tables and scan, and
    /// stops at the first unknown marker.
    pub fn new(bytes: &[u8]) -> (r: Result<JPEG, Error>)
        ensures
            bytes@.len() < 2 ==> r == Err::<JPEG, Error>(Error::IndexError(0)),
            bytes@.len() >= 2 && spec_jpeg_u16(bytes@, 0) != 0xffd8 ==> r == Err::<JPEG, Error>(
                Error::InvalidHeader(spec_jpeg_u16(bytes@, 0)),
            ),
            r is Ok ==> bytes@.len() >= 2 && spec_jpeg_u16(bytes@, 0) == 0xffd8,
            spec_jpeg_unknown_after_soi(bytes@) ==> r is Ok,
            spec_jpeg_soi_dqt_unknown(bytes@) ==> (r matches Ok(j) && j.dqt@ == bytes@.subrange(
                6,
                4 + spec_jpeg_u16(bytes@, 4) as int,
            )),
            spec_jpeg_soi_sof_unknown(bytes@) ==> (r matches Ok(j) ==> spec_sof_matches(
                bytes@.subrange(6, 4 + spec_jpeg_u16(bytes@, 4) as int),
                (spec_jpeg_u16(bytes@, 2) & 0x000f) as u8,
                j.sof,
            )),
    {
        let cursor = &mut 0usize;
        let header = jread_u16(bytes, cursor)?;
        if header != 0xffd8 {
            return Err(Error::InvalidHeader(header));
        }
        let mut jpeg = JPEG::default();
        loop
            invariant_except_break
                spec_jpeg_unknown_after_soi(bytes@) ==> *cursor == 2,
                spec_jpeg_soi_dqt_unknown(bytes@) ==> ((*cursor == 2 && jpeg.dqt@.len() == 0) || (
                *cursor == 4 + spec_jpeg_u16(bytes@, 4) && jpeg.dqt@ == bytes@.subrange(
                    6,
                    4 + spec_jpeg_u16(bytes@, 4) as int,
                ))),
                spec_jpeg_soi_sof_unknown(bytes@) ==> (*cursor == 2 || (*cursor == 4
                    + spec_jpeg_u16(bytes@, 4) && spec_sof_matches(
                    bytes@.subrange(6, 4 + spec_jpeg_u16(bytes@, 4) as int),
                    (spec_jpeg_u16(bytes@, 2) & 0x000f) as u8,
                    jpeg.sof,
                ))),
            invariant
                bytes@.len() >= 2,
                spec_jpeg_u16(bytes@, 0) == 0xffd8,
                *cursor <= bytes@.len(),
            ensures
                spec_jpeg_soi_dqt_unknown(bytes@) ==> jpeg.dqt@ == bytes@.subrange(
                    6,
                    4 + spec_jpeg_u16(bytes@, 4) as int,
                ),
                spec_jpeg_soi_sof_unknown(bytes@) ==> spec_sof_matches(
                    bytes@.subrange(6, 4 + spec_jpeg_u16(bytes@, 4) as int),
                    (spec_jpeg_u16(bytes@, 2) & 0x000f) as u8,
                    jpeg.sof,
                ),
            decreases bytes@.len() - *cursor,
        {
            let ghost chead = *cursor;
            let marker = jread_u16(bytes, cursor)?;
            proof {
                if spec_jpeg_soi_dqt_unknown(bytes@) {
                    if chead == 2 {
                        assert(marker == 0xffdb);
                    } else {
                        assert(chead == 4 + spec_jpeg_u16(bytes@, 4));
                        assert(marker == spec_jpeg_u16(
                            bytes@,
                            4 + spec_jpeg_u16(bytes@, 4) as int,
                        ));
                    }
                }
                if spec_jpeg_soi_sof_unknown(bytes@) {
                    if chead == 2 {
                        assert(marker == spec_jpeg_u16(bytes@, 2));
                    } else {
                        assert(chead == 4 + spec_jpeg_u16(bytes@, 4));
                        assert(marker == spec_jpeg_u16(
                            bytes@,
                            4 + spec_jpeg_u16(bytes@, 4) as int,
                        ));
                    }
                }
            }
            match marker {
                0xffdb => {
                    let size = jread_u16(bytes, cursor)? as usize;
                    if size < 2 {
                        return Err(Error::IndexError(*cursor));
                    }
                    jpeg.dqt = jread_slice(bytes, cursor, size - 2)?;
                },
                0xffc0 | 0xffc1 | 0xffc2 | 0xffc3 | 0xffc7 => {
                    let size = jread_u16(bytes, cursor)? as usize;
                    if size < 2 {
                        return Err(Error::IndexError(*cursor));
                    }
                    let sof_id = (marker & 0x000f) as u8;
                    let body = jread_slice(bytes, cursor, size - 2)?;
                    jpeg.sof = SOF::parse_from_bytes(sof_id, body.as_slice())?;
                },
                0xffc4 => {
                    let size = jread_u16(bytes, cursor)? as usize;
                    if size < 2 {
                        return Err(Error::IndexError(*cursor));
                    }
                    let body = jread_slice(bytes, cursor, size - 2)?;
                    let dhts = DHT::parse_from_bytes(body.as_slice())?;
                    let mut dhts = dhts;
                    jpeg.dht.append(&mut dhts);
                },
                0xffda => {
                    let rest = slice_subrange(bytes, *cursor, bytes.len());
                    let sos = SOS::parse_from_bytes(rest)?;
                    jpeg.sos = sos;
                },
                _ => {
                    break ;
                },
            }
        }
        Ok(jpeg)
    }
}

} // verus!
