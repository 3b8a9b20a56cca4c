//! Selective EXIF/TIFF metadata extraction.
//!
//! The crate walks the Image File Directories (IFDs) of a TIFF-based image
//! held in memory, records only the entries that the caller asked for by
//! path, and returns their decoded values.

pub mod bytes;
pub mod ifd;
pub mod jpeg;
pub mod log_helper;
pub mod parsed_info;
pub mod parser;
pub mod report;
pub mod rule;
pub mod sony;
pub mod store;
pub mod value;
pub mod walker;

use crate::bytes::{spec_u16_at, spec_u32_at};
use crate::store::ResultStore;
use crate::walker::{item_from_data, lemma_descents_walked_mono, lemma_max_path_len,
    spec_entry_descents_walked, spec_envelope_skip, spec_ifd_plain, spec_item_matches_entry,
    spec_last_entry_with_tag, spec_path_lookup, spec_path_shadow, stored_item_ok, TiffParser,
    ADDR_LIMIT};
use vstd::prelude::*;
use vstd::slice::slice_to_vec;

verus! {

/// What can go wrong while walking a container.
#[derive(Debug, Clone, Copy, PartialEq, Eq)]
pub enum Error {
    /// A read or seek would leave the data.
    Io,
    /// The two bytes at the TIFF header position, which are neither `II` nor `MM`.
    InvalidTiffHeader(u8, u8),
    /// The requested part number is not defined for the file type.
    PartNotDefined(u8),
}

/// The first position at or after `at`, stepping four bytes at a time, where
/// the four marker bytes occur; `None` when they never do. The pre-seek
/// helpers scan whole four-byte records, so only matches aligned to the scan
/// start are found.
pub open spec fn spec_chunk_find(data: Seq<u8>, at: int, m0: u8, m1: u8, m2: u8, m3: u8) -> Option<
    int,
>
    decreases data.len() - at,
{
    if at < 0 || at + 4 > data.len() {
        None
    } else if data[at] == m0 && data[at + 1] == m1 && data[at + 2] == m2 && data[at + 3] == m3 {
        Some(at)
    } else {
        spec_chunk_find(data, at + 4, m0, m1, m2, m3)
    }
}

/// The position right after the `n`-th (counting from zero) four-byte record
/// equal to the marker, scanning from `at`; `None` when fewer occur.
pub open spec fn spec_chunk_find_nth(
    data: Seq<u8>,
    at: int,
    n: nat,
    m0: u8,
    m1: u8,
    m2: u8,
    m3: u8,
) -> Option<int>
    decreases n,
{
    match spec_chunk_find(data, at, m0, m1, m2, m3) {
        None => None,
        Some(p) => if n == 0 {
            Some(p + 4)
        } else {
            spec_chunk_find_nth(data, p + 4, (n - 1) as nat, m0, m1, m2, m3)
        },
    }
}

/// Scans four-byte records from `at` for the marker; on a match returns the
/// matching record's position.
fn chunk_find(data: &[u8], at: usize, m0: u8, m1: u8, m2: u8, m3: u8) -> (r: Option<usize>)
    requires
        at <= data@.len(),
    ensures
        r matches Some(p) ==> Some(p as int) == spec_chunk_find(data@, at as int, m0, m1, m2, m3),
        r is None ==> spec_chunk_find(data@, at as int, m0, m1, m2, m3) is None,
{
    let n = data.len();
    let mut p: usize = at;
    while n - p >= 4
        invariant
            p <= n,
            n == data@.len(),
            spec_chunk_find(data@, at as int, m0, m1, m2, m3) == spec_chunk_find(
                data@,
                p as int,
                m0,
                m1,
                m2,
                m3,
            ),
        decreases n - p,
    {
        if data[p] == m0 && data[p + 1] == m1 && data[p + 2] == m2 && data[p + 3] == m3 {
            return Some(p);
        }
        p = p + 4;
    }
    None
}

/// Positions the cursor of a CR3 container at the requested metadata block.
///
/// Parts 0 to 2 find the `CMT1`, `CMT2` and `CMT3` box tags and return the
/// position right after the tag, where a TIFF header begins. Parts 3 and 4
/// skip to the fixed CTB offset and return the position after the first and
/// second occurrence of the `7C 92 00 00` record. Any other part is not
/// defined for this file type.
pub fn seek_header_cr3(data: &[u8], part: u8) -> (r: Result<usize, Error>)
    ensures
        part <= 2 ==> ({
            let no = (0x31 + part) as u8;
            match spec_chunk_find(data@, 0, 0x43, 0x4d, 0x54, no) {
                Some(p) => r == Ok::<usize, Error>((p + 4) as usize),
                None => r == Err::<usize, Error>(Error::Io),
            }
        }),
        (part == 3 || part == 4) ==> ({
            let n = (part - 3) as nat;
            match spec_chunk_find_nth(data@, 0x1a00002, n, 0x7c, 0x92, 0x00, 0x00) {
                Some(p) => r == Ok::<usize, Error>(p as usize),
                None => r == Err::<usize, Error>(Error::Io),
            }
        }),
        part > 4 ==> r == Err::<usize, Error>(Error::PartNotDefined(part)),
{
    if part <= 2 {
        let no: u8 = 0x31 + part;
        let _len = data.len();
        match chunk_find(data, 0, 0x43, 0x4d, 0x54, no) {
            Some(p) => {
                proof {
                    lemma_chunk_find_in_range(data@, 0, 0x43, 0x4d, 0x54, no);
                }
                Ok(p + 4)
            },
            None => Err(Error::Io),
        }
    } else if part == 3 || part == 4 {
        seek_cr3_header(data, part - 3)
    } else {
        Err(Error::PartNotDefined(part))
    }
}

/// Finds the position after the `index`-th `7C 92 00 00` record past the
/// fixed CTB offset of a CR3 container.
fn seek_cr3_header(data: &[u8], index: u8) -> (r: Result<usize, Error>)
    ensures
        match spec_chunk_find_nth(data@, 0x1a00002, index as nat, 0x7c, 0x92, 0x00, 0x00) {
            Some(p) => r == Ok::<usize, Error>(p as usize),
            None => r == Err::<usize, Error>(Error::Io),
        },
{
    let start: usize = 0x1a00002;
    if start > data.len() {
        proof {
            lemma_chunk_find_nth_short(data@, start as int, index as nat);
        }
        return Err(Error::Io);
    }
    let mut at: usize = start;
    let mut remaining: u8 = index;
    loop
        invariant
            start == 0x1a00002usize,
            at <= data@.len(),
            data@.len() <= usize::MAX,
            spec_chunk_find_nth(data@, start as int, index as nat, 0x7c, 0x92, 0x00, 0x00)
                == spec_chunk_find_nth(data@, at as int, remaining as nat, 0x7c, 0x92, 0x00, 0x00),
        decreases data@.len() - at, remaining,
    {
        match chunk_find(data, at, 0x7c, 0x92, 0x00, 0x00) {
            None => {
                proof {
                    assert(spec_chunk_find(data@, at as int, 0x7c, 0x92, 0x00, 0x00) is None);
                    assert(spec_chunk_find_nth(
                        data@,
                        at as int,
                        remaining as nat,
                        0x7c,
                        0x92,
                        0x00,
                        0x00,
                    ) is None);
                }
                return Err(Error::Io);
            },
            Some(p) => {
                proof {
                    lemma_chunk_find_in_range(data@, at as int, 0x7c, 0x92, 0x00, 0x00);
                }
                if remaining == 0 {
                    proof {
                        assert(spec_chunk_find_nth(
                            data@,
                            at as int,
                            remaining as nat,
                            0x7c,
                            0x92,
                            0x00,
                            0x00,
                        ) == Some(p + 4));
                    }
                    return Ok(p + 4);
                }
                at = p + 4;
                remaining = remaining - 1;
            },
        }
    }
}

/// A found record position lies in range and past the scan start.
proof fn lemma_chunk_find_in_range(data: Seq<u8>, at: int, m0: u8, m1: u8, m2: u8, m3: u8)
    ensures
        spec_chunk_find(data, at, m0, m1, m2, m3) matches Some(p) ==> at <= p && p + 4
            <= data.len(),
    decreases data.len() - at,
{
    if !(at < 0 || at + 4 > data.len()) && !(data[at] == m0 && data[at + 1] == m1 && data[at + 2]
        == m2 && data[at + 3] == m3) {
        lemma_chunk_find_in_range(data, at + 4, m0, m1, m2, m3);
    }
}

/// Scanning from past the end finds nothing.
proof fn lemma_chunk_find_nth_short(data: Seq<u8>, at: int, n: nat)
    requires
        at + 4 > data.len(),
    ensures
        spec_chunk_find_nth(data, at, n, 0x7c, 0x92, 0x00, 0x00) is None,
{
}

/// Positions the cursor of a RAF container at the requested TIFF block.
///
/// Part 0 returns the position after the 148-byte header. Part 1 skips 164
/// bytes and scans four-byte records for the little-endian TIFF magic
/// `49 49 2A 00`, returning its position. Any other part is not defined for
/// this file type.
pub fn seek_header_raf(data: &[u8], part: u8) -> (r: Result<usize, Error>)
    ensures
        part == 0 ==> (if data@.len() >= 148 {
            r == Ok::<usize, Error>(148usize)
        } else {
            r == Err::<usize, Error>(Error::Io)
        }),
        part == 1 ==> (match spec_chunk_find(data@, 164, 0x49, 0x49, 0x2a, 0x00) {
            Some(p) => r == Ok::<usize, Error>(p as usize),
            None => r == Err::<usize, Error>(Error::Io),
        }),
        part >= 2 ==> r == Err::<usize, Error>(Error::PartNotDefined(part)),
{
    if part == 0 {
        if data.len() >= 148 {
            Ok(148)
        } else {
            Err(Error::Io)
        }
    } else if part == 1 {
        if data.len() < 164 {
            return Err(Error::Io);
        }
        match chunk_find(data, 164, 0x49, 0x49, 0x2a, 0x00) {
            Some(p) => Ok(p),
            None => Err(Error::Io),
        }
    } else {
        Err(Error::PartNotDefined(part))
    }
}

/// Walks the TIFF (or JPEG-enveloped TIFF) at the start of `data`, records
/// the entries of the registered paths, and returns the store and whether
/// the TIFF is little-endian.
///
/// When `sony_decrypt_index` is `Some((outer, inner))`, the SR2Private
/// region named by the entries collected under dense path index `outer` is
/// decrypted afterwards and walked under the path registered at position
/// `inner` of the list.
///
/// Every stored item carries the detected byte order, obeys the
/// payload-presence rule, and is keyed by a registered dense path index and
/// its own tag; without the decrypt hint, each item's raw fields and payload
/// are the bytes of an actual entry of `data`, and the items of IFD0 are
/// pinned to its entries exactly. Every descent IFD0 schedules into a
/// registered extension path - a single sub-IFD, or one instance per element
/// of a long array - is walked, with embedded JPEG headers and maker-note
/// prefixes re-anchoring the bias at the target, and the sub-IFD's entries
/// stored under the extension path's index. With the decrypt hint, the
/// region named by the three entries collected under the outer index is
/// decrypted and its IFD walked under the inner path's index. A malformed
/// header is reported exactly, and success is owed whenever the first IFD is
/// wholly in bounds with its payloads, chain-ending and free of registered
/// descents.
pub fn parse_exif(
    data: &[u8],
    path_dig: &[&[u16]],
    sony_decrypt_index: Option<(u16, usize)>,
) -> (r: Result<(ResultStore, bool), Error>)
    requires
        path_dig@.len() <= 0xffff,
        sony_decrypt_index matches Some((outer, inner)) ==> inner < path_dig@.len(),
    ensures
        r matches Ok(out) ==> ({
            let store = out.0;
            let is_le = out.1;
            &&& store.wf()
            &&& spec_envelope_skip(data@) matches Some(skip) && skip + 2 <= data@.len() && ((
            data@[skip] == 0x49 && data@[skip + 1] == 0x49 && is_le) || (data@[skip] == 0x4d
                && data@[skip + 1] == 0x4d && !is_le))
            &&& forall|k: (u16, u16)| #[trigger]
                store@.contains_key(k) ==> stored_item_ok(
                    is_le,
                    path_dig@.len() as int,
                    k,
                    store@[k],
                )
            &&& sony_decrypt_index is None ==> forall|k: (u16, u16)| #[trigger]
                store@.contains_key(k) ==> item_from_data(data@, is_le, store@[k])
            &&& ({
                let sp = path_dig@.map_values(|p: &[u16]| p@);
                let skip = spec_envelope_skip(data@).unwrap();
                spec_path_lookup(sp, seq![0u16]) matches Some(idx) ==> ({
                    let ifd0 = spec_u32_at(data@, skip + 4, is_le) + skip;
                    let count = spec_u16_at(data@, ifd0, is_le);
                    forall|e: int|
                        0 <= e < count ==> store@.contains_key(
                            (idx as u16, #[trigger] spec_u16_at(
                                data@,
                                ifd0 + 2 + 12 * e,
                                is_le,
                            )),
                        )
                })
            })
            &&& (sony_decrypt_index is None ==> ({
                let sp = path_dig@.map_values(|p: &[u16]| p@);
                let skip = spec_envelope_skip(data@).unwrap();
                spec_path_lookup(sp, seq![0u16]) matches Some(idx) ==> ({
                    let ifd0 = spec_u32_at(data@, skip + 4, is_le) + skip;
                    let count = spec_u16_at(data@, ifd0, is_le) as int;
                    forall|e: int|
                        0 <= e < count ==> ({
                            let tag_e = #[trigger] spec_u16_at(
                                data@,
                                ifd0 + 2 + 12 * e,
                                is_le,
                            );
                            spec_item_matches_entry(
                                data@,
                                is_le,
                                skip,
                                ifd0 + 2 + 12 * spec_last_entry_with_tag(
                                    data@,
                                    is_le,
                                    ifd0,
                                    count,
                                    tag_e,
                                ),
                                store@[(idx as u16, tag_e)],
                            )
                        })
                })
            }))
        }),
        r matches Ok(out) ==> ({
            // every descent IFD0 schedules into a registered extension path
            // has been walked and its entries stored
            let store = out.0;
            let is_le = out.1;
            let sp = path_dig@.map_values(|p: &[u16]| p@);
            let skip = spec_envelope_skip(data@).unwrap();
            let ifd0 = spec_u32_at(data@, skip + 4, is_le) + skip;
            let count = spec_u16_at(data@, ifd0, is_le);
            forall|e: int|
                0 <= e < count ==> #[trigger] spec_entry_descents_walked(
                    data@,
                    is_le,
                    skip,
                    sp,
                    seq![0u16],
                    ifd0 + 2 + 12 * e,
                    store@,
                )
        }),
        r matches Ok(out) ==> sony_decrypt_index matches Some(hint) ==> ({
            // the decrypt hint takes effect: when the walk collected the
            // region entries under the outer index (and the inner walk could
            // not overwrite them), the decrypted region's IFD was walked
            // under the inner path's index
            let store = out.0;
            let is_le = out.1;
            let sp = path_dig@.map_values(|p: &[u16]| p@);
            let skip = spec_envelope_skip(data@).unwrap();
            let outer = hint.0;
            let inner = hint.1;
            (sp[inner as int].len() > 0 && !spec_path_shadow(sp[inner as int], sp[outer as int])
                && store@.contains_key((outer, 0x7200u16)) && store@.contains_key(
                (outer, 0x7201u16),
            ) && store@.contains_key((outer, 0x7221u16))) ==> ({
                let region_offset = spec_u32_at(store@[(outer, 0x7200u16)].value@, 0, is_le);
                let region_len = spec_u32_at(store@[(outer, 0x7201u16)].value@, 0, is_le);
                let key = spec_u32_at(store@[(outer, 0x7221u16)].value@, 0, is_le);
                let plain = crate::sony::spec_sony_decrypt(
                    data@.subrange(region_offset + skip, region_offset + skip + region_len),
                    key,
                    is_le,
                );
                spec_path_lookup(sp, sp[inner as int]) matches Some(pidx) ==> ({
                    let count = spec_u16_at(plain, 0, is_le);
                    &&& forall|e: int|
                        0 <= e < count ==> store@.contains_key(
                            (pidx as u16, #[trigger] spec_u16_at(plain, 2 + 12 * e, is_le)),
                        )
                    &&& forall|e: int|
                        0 <= e < count ==> ({
                            let tag_e = #[trigger] spec_u16_at(plain, 2 + 12 * e, is_le);
                            spec_item_matches_entry(
                                plain,
                                is_le,
                                -(region_offset as int),
                                2 + 12 * spec_last_entry_with_tag(
                                    plain,
                                    is_le,
                                    0,
                                    count as int,
                                    tag_e,
                                ),
                                store@[(pidx as u16, tag_e)],
                            )
                        })
                })
            })
        }),
        r matches Err(e) ==> (e == Error::Io || ({
            let skip = spec_envelope_skip(data@).unwrap();
            &&& spec_envelope_skip(data@) is Some
            &&& skip + 2 <= data@.len()
            &&& e == Error::InvalidTiffHeader(data@[skip], data@[skip + 1])
            &&& !(data@[skip] == 0x49 && data@[skip + 1] == 0x49)
            &&& !(data@[skip] == 0x4d && data@[skip + 1] == 0x4d)
        })),
        ({
            let skip = spec_envelope_skip(data@).unwrap();
            (spec_envelope_skip(data@) is Some && skip + 2 <= data@.len() && data@.len()
                < ADDR_LIMIT && !(data@[skip] == 0x49 && data@[skip + 1] == 0x49) && !(
            data@[skip] == 0x4d && data@[skip + 1] == 0x4d)) ==> r == Err::<
                (ResultStore, bool),
                Error,
            >(Error::InvalidTiffHeader(data@[skip], data@[skip + 1]))
        }),
        ({
            // success is owed on a well-formed container whose first IFD is
            // plain: in bounds, inline entries, chain end, no descents
            let skip = spec_envelope_skip(data@).unwrap();
            let le = data@[skip] == 0x49;
            let ifd0 = spec_u32_at(data@, skip + 4, le) + skip;
            (spec_envelope_skip(data@) is Some && data@.len() < ADDR_LIMIT && skip + 8
                <= data@.len() && ((data@[skip] == 0x49 && data@[skip + 1] == 0x49) || (
            data@[skip] == 0x4d && data@[skip + 1] == 0x4d)) && 0 <= ifd0 <= data@.len()
                && spec_ifd_plain(
                data@,
                le,
                path_dig@.map_values(|p: &[u16]| p@),
                ifd0,
                skip,
                seq![0u16],
            ) && sony_decrypt_index is None) ==> r is Ok
        }),
{
    let mut paths: Vec<Vec<u16>> = Vec::new();
    let mut i: usize = 0;
    while i < path_dig.len()
        invariant
            i <= path_dig@.len(),
            paths@.len() == i,
            forall|j: int| 0 <= j < i ==> paths@[j]@ == path_dig@[j]@,
        decreases path_dig@.len() - i,
    {
        paths.push(slice_to_vec(path_dig[i]));
        i = i + 1;
    }
    let ghost paths_seq = paths@.map_values(|p: Vec<u16>| p@);
    proof {
        assert(paths_seq =~= path_dig@.map_values(|p: &[u16]| p@));
    }

    let mut parser = match TiffParser::new(data, paths) {
        Ok(p) => p,
        Err(e) => {
            return Err(e);
        },
    };
    let mut result = ResultStore::new();
    match parser.parse(&mut result) {
        Ok(()) => {},
        Err(e) => {
            return Err(e);
        },
    }

    let ghost mid = result@;
    let ghost skip = spec_envelope_skip(data@).unwrap();
    match sony_decrypt_index {
        Some((sr2private_path_index, sr2private_offset_path_index)) => {
            let inner_path: Vec<u16> = slice_to_vec(path_dig[sr2private_offset_path_index]);
            proof {
                assert(parser.spec_paths() =~= paths_seq);
                assert(inner_path@ == parser.spec_paths()[
                    sr2private_offset_path_index as int]);
                lemma_max_path_len(
                    parser.spec_paths(),
                    sr2private_offset_path_index as int,
                );
            }
            let ghost ip = inner_path@;
            match parser.parse_sony_sr2private(
                sr2private_path_index,
                inner_path,
                &mut result,
            ) {
                Ok(()) => {},
                Err(e) => {
                    return Err(e);
                },
            }
            proof {
                let sp = paths_seq;
                let outer = sr2private_path_index;
                let k1 = (outer, 0x7200u16);
                let k2 = (outer, 0x7201u16);
                let k3 = (outer, 0x7221u16);
                // the inner walk only writes shadows of the inner path, so
                // the three region entries it was driven by are unchanged
                if ip.len() > 0 && !spec_path_shadow(ip, sp[outer as int]) {
                    assert(!crate::walker::spec_key_changed(mid, result@, k1));
                    assert(!crate::walker::spec_key_changed(mid, result@, k2));
                    assert(!crate::walker::spec_key_changed(mid, result@, k3));
                    if result@.contains_key(k1) && result@.contains_key(k2)
                        && result@.contains_key(k3) {
                        assert(mid.contains_key(k1) && result@[k1] == mid[k1]);
                        assert(mid.contains_key(k2) && result@[k2] == mid[k2]);
                        assert(mid.contains_key(k3) && result@[k3] == mid[k3]);
                    }
                }
                // the main walk's descent promise survives the inner walk,
                // which never drops a key
                let is_le = parser.is_le;
                let ifd0 = spec_u32_at(data@, skip + 4, is_le) + skip;
                let count = spec_u16_at(data@, ifd0, is_le);
                assert forall|e: int|
                    0 <= e < count implies #[trigger] spec_entry_descents_walked(
                    data@,
                    is_le,
                    skip,
                    sp,
                    seq![0u16],
                    ifd0 + 2 + 12 * e,
                    result@,
                ) by {
                    lemma_descents_walked_mono(
                        data@,
                        is_le,
                        skip,
                        sp,
                        seq![0u16],
                        ifd0 + 2 + 12 * e,
                        mid,
                        result@,
                    );
                }
            }
        },
        None => {},
    }

    Ok((result, parser.is_le))
}

} // verus!
