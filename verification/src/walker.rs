//! The recursive IFD walker.
//!
//! A `TiffParser` holds the whole container in memory, a cursor position, and
//! a signed address bias: container offsets taken from entries are resolved
//! as `offset + bias`, which anchors regions whose internal offsets are
//! relative to their own base (embedded TIFFs, maker notes, decrypted
//! buffers). The walker parses one IFD at a time, records the entries whose
//! path the caller registered, follows the next-IFD chain, and descends into
//! registered sub-IFD paths.

use crate::bytes::{read_u16, read_u32, spec_u16_at, spec_u32_at};
use crate::ifd::{element_size, spec_element_size, IFDItem};
use crate::sony::{lemma_sony_words_len, sony_decrypt, spec_pad, spec_words_of};
use crate::store::ResultStore;
use crate::Error;
use vstd::prelude::*;

verus! {

broadcast use vstd::std_specs::control_flow::group_control_flow_axioms;

/// The largest container size and address bias the walker handles; offsets
/// within this range never overflow the signed 64-bit seek arithmetic.
pub const ADDR_LIMIT: i64 = 0x4000_0000_0000_0000;

/// How many bytes the envelope in front of the TIFF header takes: none, 12
/// for an EXIF application segment, 30 for a JFIF segment. `None` when the
/// data is too short to decide.
pub open spec fn spec_envelope_skip(data: Seq<u8>) -> Option<int> {
    if data.len() < 2 {
        None
    } else if data[0] == 0xff && data[1] == 0xd8 {
        if data.len() < 4 {
            None
        } else if data[2] == 0xff && data[3] == 0xe0 {
            Some(30)
        } else {
            Some(12)
        }
    } else {
        Some(0)
    }
}

/// The longest registered path.
pub open spec fn spec_max_path_len(paths: Seq<Seq<u16>>) -> nat
    decreases paths.len(),
{
    if paths.len() == 0 {
        0
    } else if paths.last().len() > spec_max_path_len(paths.drop_last()) {
        paths.last().len()
    } else {
        spec_max_path_len(paths.drop_last())
    }
}

/// Every registered path is no longer than the longest one.
pub proof fn lemma_max_path_len(paths: Seq<Seq<u16>>, i: int)
    requires
        0 <= i < paths.len(),
    ensures
        paths[i].len() <= spec_max_path_len(paths),
    decreases paths.len(),
{
    if i < paths.len() - 1 {
        lemma_max_path_len(paths.drop_last(), i);
        assert(paths.drop_last()[i] == paths[i]);
    }
}

/// The dense index of a registered path: the highest list position holding
/// it, as a later registration of the same path shadows an earlier one.
pub open spec fn spec_path_lookup(paths: Seq<Seq<u16>>, p: Seq<u16>) -> Option<int>
    decreases paths.len(),
{
    if paths.len() == 0 {
        None
    } else if paths.last() == p {
        Some(paths.len() - 1)
    } else {
        spec_path_lookup(paths.drop_last(), p)
    }
}

/// A found index is in range and holds the path.
pub proof fn lemma_path_lookup(paths: Seq<Seq<u16>>, p: Seq<u16>)
    ensures
        spec_path_lookup(paths, p) matches Some(i) ==> 0 <= i < paths.len() && paths[i] == p,
    decreases paths.len(),
{
    if paths.len() > 0 && paths.last() != p {
        lemma_path_lookup(paths.drop_last(), p);
        if spec_path_lookup(paths.drop_last(), p) is Some {
            let i = spec_path_lookup(paths.drop_last(), p).unwrap();
            assert(paths.drop_last()[i] == paths[i]);
        }
    }
}

/// When no path at position `from` or later matches, the lookup over the
/// whole list equals the lookup over the prefix before `from`.
proof fn lemma_path_lookup_prefix(paths: Seq<Seq<u16>>, p: Seq<u16>, from: int)
    requires
        0 <= from <= paths.len(),
        forall|j: int| from <= j < paths.len() ==> paths[j] != p,
    ensures
        spec_path_lookup(paths, p) == spec_path_lookup(paths.take(from), p),
    decreases paths.len() - from,
{
    if from < paths.len() {
        lemma_path_lookup_prefix(paths, p, from + 1);
        let pre = paths.take(from + 1);
        assert(pre.last() == paths[from]);
        assert(pre.drop_last() =~= paths.take(from));
        assert(spec_path_lookup(paths.take(from + 1), p) == spec_path_lookup(
            paths.take(from),
            p,
        ));
    } else {
        assert(paths.take(from) =~= paths);
    }
}

/// A fresh copy of a path.
fn clone_path(p: &Vec<u16>) -> (r: Vec<u16>)
    ensures
        r@ == p@,
{
    let mut out: Vec<u16> = Vec::new();
    let mut i: usize = 0;
    while i < p.len()
        invariant
            i <= p@.len(),
            out@ =~= p@.take(i as int),
        decreases p@.len() - i,
    {
        out.push(p[i]);
        i = i + 1;
    }
    proof {
        assert(out@ =~= p@);
    }
    out
}

/// A fresh copy of a path list.
fn clone_paths(ps: &Vec<Vec<u16>>) -> (r: Vec<Vec<u16>>)
    ensures
        r@.map_values(|p: Vec<u16>| p@) == ps@.map_values(|p: Vec<u16>| p@),
        r@.len() == ps@.len(),
{
    let mut out: Vec<Vec<u16>> = Vec::new();
    let mut i: usize = 0;
    while i < ps.len()
        invariant
            i <= ps@.len(),
            out@.len() == i,
            forall|j: int| 0 <= j < i ==> out@[j]@ == ps@[j]@,
        decreases ps@.len() - i,
    {
        out.push(clone_path(&ps[i]));
        i = i + 1;
    }
    proof {
        assert(out@.map_values(|p: Vec<u16>| p@) =~= ps@.map_values(|p: Vec<u16>| p@));
    }
    out
}

/// Whether two paths hold the same elements.
fn path_eq(a: &Vec<u16>, b: &Vec<u16>) -> (r: bool)
    ensures
        r <==> a@ == b@,
{
    if a.len() != b.len() {
        proof {
            assert(a@ != b@);
        }
        return false;
    }
    let n = a.len();
    let mut i: usize = 0;
    while i < n
        invariant
            i <= n,
            n == a@.len() == b@.len(),
            forall|j: int| 0 <= j < i ==> a@[j] == b@[j],
        decreases n - i,
    {
        if a[i] != b[i] {
            return false;
        }
        i = i + 1;
    }
    proof {
        assert(a@ =~= b@);
    }
    true
}

/// Whether the entry at `epos` stores its value out of line: its type is
/// ASCII or its total value size exceeds the four inline bytes.
pub open spec fn spec_entry_out_of_line(data: Seq<u8>, is_le: bool, epos: int) -> bool {
    let f = spec_u16_at(data, epos + 2, is_le);
    f == 2 || spec_u32_at(data, epos + 4, is_le) * spec_element_size(f) > 4
}

/// A plain IFD at `pos0`: it lies wholly inside the data, every out-of-line
/// payload it names lies in bounds through `bias`, its next pointer ends the
/// chain, and no entry's extension path is registered. Walking such an IFD
/// cannot fail, so `parse_ifd` owes success on it.
pub open spec fn spec_ifd_plain(
    data: Seq<u8>,
    is_le: bool,
    paths: Seq<Seq<u16>>,
    pos0: int,
    bias: int,
    path: Seq<u16>,
) -> bool {
    let count = spec_u16_at(data, pos0, is_le) as int;
    let next = spec_u32_at(data, pos0 + 2 + 12 * count, is_le);
    &&& 0 <= pos0
    &&& pos0 + 2 + 12 * count + 4 <= data.len()
    &&& (next == 0 || next >= 0xffffff)
    &&& forall|e: int|
        0 <= e < count ==> (#[trigger] spec_entry_out_of_line(data, is_le, pos0 + 2 + 12 * e)
            ==> ({
            let epos = pos0 + 2 + 12 * e;
            let f = spec_u16_at(data, epos + 2, is_le);
            let total = spec_u32_at(data, epos + 4, is_le) * spec_element_size(f);
            let t = spec_u32_at(data, epos + 8, is_le) + bias;
            0 <= t && t + total <= data.len()
        }))
    &&& forall|e: int|
        0 <= e < count ==> spec_path_lookup(
            paths,
            path + seq![#[trigger] spec_u16_at(data, pos0 + 2 + 12 * e, is_le), 0u16],
        ) is None
}

/// How the item stored for the entry at `epos` reads: the walk's byte
/// order, the entry's own tag and raw field bytes, and - exactly when the
/// entry stores its value out of line - the payload bytes at the entry's
/// address plus the walk's bias.
pub open spec fn spec_item_matches_entry(
    data: Seq<u8>,
    is_le: bool,
    bias: int,
    epos: int,
    item: IFDItem,
) -> bool {
    let total = spec_u32_at(data, epos + 4, is_le) * spec_element_size(
        spec_u16_at(data, epos + 2, is_le),
    );
    let t = spec_u32_at(data, epos + 8, is_le) + bias;
    &&& item.is_le == is_le
    &&& item.tag == spec_u16_at(data, epos, is_le)
    &&& item.format@ == data.subrange(epos + 2, epos + 4)
    &&& item.size@ == data.subrange(epos + 4, epos + 8)
    &&& item.value@ == data.subrange(epos + 8, epos + 12)
    &&& (spec_entry_out_of_line(data, is_le, epos) ==> (item.actual_value matches Some(v) && v@
        == data.subrange(t, t + total)))
    &&& (!spec_entry_out_of_line(data, is_le, epos) ==> item.actual_value is None)
}

/// The greatest entry index below `upto` whose tag is `tag`, or -1: a later
/// entry of the same tag within one IFD overwrites an earlier one.
pub open spec fn spec_last_entry_with_tag(
    data: Seq<u8>,
    is_le: bool,
    pos0: int,
    upto: int,
    tag: u16,
) -> int
    decreases upto,
{
    if upto <= 0 {
        -1
    } else if spec_u16_at(data, pos0 + 2 + 12 * (upto - 1), is_le) == tag {
        upto - 1
    } else {
        spec_last_entry_with_tag(data, is_le, pos0, upto - 1, tag)
    }
}

/// The instance element of the `i`-th descent scheduled for a sub-IFD
/// array: the instances count 0, 100, 200, ... in the dense 16-bit space.
pub open spec fn spec_instance_id(i: int) -> u16 {
    (((i % 0x10000) * 100) % 0x10000) as u16
}

/// The address of the `i`-th sub-IFD in the array whose offsets are the
/// out-of-line payload of the entry at `epos`.
pub open spec fn spec_subifd_addr(data: Seq<u8>, is_le: bool, bias: int, epos: int, i: int) -> u32 {
    spec_u32_at(data, spec_u32_at(data, epos + 8, is_le) + bias + 4 * i, is_le)
}

/// The cursor position and address bias fixed up by the maker-note prefix
/// at `pos`: a Panasonic note is skipped, an Olympus or Nikon note is
/// skipped and adds its own base to the bias.
pub open spec fn spec_makernote_fix(data: Seq<u8>, pos: int, bias: int) -> (int, int) {
    if pos + 4 <= data.len() && data[pos] == 0x50 && data[pos + 1] == 0x61 && data[pos + 2] == 0x6e
        && data[pos + 3] == 0x61 {
        (pos + 12, bias)
    } else if pos + 4 <= data.len() && data[pos] == 0x4f && data[pos + 1] == 0x4c && data[pos + 2]
        == 0x59 && data[pos + 3] == 0x4d {
        (pos + 12, bias + pos)
    } else if pos + 4 <= data.len() && data[pos] == 0x4e && data[pos + 1] == 0x69 && data[pos + 2]
        == 0x6b && data[pos + 3] == 0x6f {
        (pos + 18, bias + pos + 10)
    } else {
        (pos, bias)
    }
}

/// The cursor position and address bias at which the walk of a scheduled
/// descent begins: the target `addr + bias`, re-anchored behind an embedded
/// JPEG header when one stands there, then fixed up for a maker-note prefix.
pub open spec fn spec_descent_state(data: Seq<u8>, is_le: bool, bias: int, addr: u32) -> (
    int,
    int,
) {
    let t = addr + bias;
    if t + 2 <= data.len() && 0 <= t && data[t] == 0xff && data[t + 1] == 0xd8 {
        let b2 = t + 12;
        spec_makernote_fix(data, spec_u32_at(data, b2 + 4, is_le) + b2, b2)
    } else {
        spec_makernote_fix(data, t, bias)
    }
}

/// A descent to `addr` under the registered path of dense index `di` has
/// been walked: every entry of the IFD at the descent's start position is
/// in the store under `di` and its tag.
pub open spec fn spec_descent_walked(
    data: Seq<u8>,
    is_le: bool,
    bias: int,
    addr: u32,
    di: int,
    store: Map<(u16, u16), IFDItem>,
) -> bool {
    let start = spec_descent_state(data, is_le, bias, addr);
    forall|e2: int|
        0 <= e2 < spec_u16_at(data, start.0, is_le) ==> store.contains_key(
            (di as u16, #[trigger] spec_u16_at(data, start.0 + 2 + 12 * e2, is_le)),
        )
}

/// Every descent the entry at `epos` schedules has been walked into the
/// store. An entry schedules descents when its extension path is registered
/// and its count is not zero: one per array element for a `LONG` array with
/// an out-of-line payload, under instances 0, 100, 200, ...; else a single
/// descent to its inline value under instance 0.
pub open spec fn spec_entry_descents_walked(
    data: Seq<u8>,
    is_le: bool,
    bias: int,
    paths: Seq<Seq<u16>>,
    path: Seq<u16>,
    epos: int,
    store: Map<(u16, u16), IFDItem>,
) -> bool {
    let tag = spec_u16_at(data, epos, is_le);
    let ext = path + seq![tag, 0u16];
    let cnt = spec_u32_at(data, epos + 4, is_le) as int;
    (spec_path_lookup(paths, ext) is Some && cnt != 0) ==> if spec_u16_at(data, epos + 2, is_le)
        == 4 && spec_entry_out_of_line(data, is_le, epos) {
        forall|i: int|
            0 <= i < cnt ==> ({
                let inst = path + seq![tag, #[trigger] spec_instance_id(i)];
                spec_path_lookup(paths, inst) matches Some(di) ==> spec_descent_walked(
                    data,
                    is_le,
                    bias,
                    spec_subifd_addr(data, is_le, bias, epos, i),
                    di,
                    store,
                )
            })
    } else {
        spec_descent_walked(
            data,
            is_le,
            bias,
            spec_u32_at(data, epos + 8, is_le),
            spec_path_lookup(paths, ext).unwrap(),
            store,
        )
    }
}

/// A dig list holds a scheduled descent.
spec fn spec_dig_has(digs: Seq<(u32, Vec<u16>)>, addr: u32, dpath: Seq<u16>) -> bool {
    exists|q: int|
        0 <= q < digs.len() && (#[trigger] digs[q]).0 == addr && digs[q].1@ == dpath
}

/// Every descent the entry at `epos` schedules stands in the dig list.
spec fn spec_entry_scheduled(
    data: Seq<u8>,
    is_le: bool,
    bias: int,
    paths: Seq<Seq<u16>>,
    path: Seq<u16>,
    epos: int,
    digs: Seq<(u32, Vec<u16>)>,
) -> bool {
    let tag = spec_u16_at(data, epos, is_le);
    let ext = path + seq![tag, 0u16];
    let cnt = spec_u32_at(data, epos + 4, is_le) as int;
    (spec_path_lookup(paths, ext) is Some && cnt != 0) ==> if spec_u16_at(data, epos + 2, is_le)
        == 4 && spec_entry_out_of_line(data, is_le, epos) {
        forall|i: int|
            0 <= i < cnt ==> spec_dig_has(
                digs,
                spec_subifd_addr(data, is_le, bias, epos, i),
                path + seq![tag, #[trigger] spec_instance_id(i)],
            )
    } else {
        spec_dig_has(digs, spec_u32_at(data, epos + 8, is_le), ext)
    }
}

/// A longer dig list keeps every descent of a shorter one.
proof fn lemma_dig_has_mono(
    digs1: Seq<(u32, Vec<u16>)>,
    digs2: Seq<(u32, Vec<u16>)>,
    addr: u32,
    dpath: Seq<u16>,
)
    requires
        spec_dig_has(digs1, addr, dpath),
        digs1.len() <= digs2.len(),
        forall|q: int| 0 <= q < digs1.len() ==> #[trigger] digs2[q] == digs1[q],
    ensures
        spec_dig_has(digs2, addr, dpath),
{
    let q = choose|q: int|
        0 <= q < digs1.len() && (#[trigger] digs1[q]).0 == addr && digs1[q].1@ == dpath;
    assert(digs2[q] == digs1[q]);
}

/// A longer dig list keeps every scheduled descent of a shorter one.
proof fn lemma_scheduled_mono(
    data: Seq<u8>,
    is_le: bool,
    bias: int,
    paths: Seq<Seq<u16>>,
    path: Seq<u16>,
    epos: int,
    digs1: Seq<(u32, Vec<u16>)>,
    digs2: Seq<(u32, Vec<u16>)>,
)
    requires
        spec_entry_scheduled(data, is_le, bias, paths, path, epos, digs1),
        digs1.len() <= digs2.len(),
        forall|q: int| 0 <= q < digs1.len() ==> #[trigger] digs2[q] == digs1[q],
    ensures
        spec_entry_scheduled(data, is_le, bias, paths, path, epos, digs2),
{
    let tag = spec_u16_at(data, epos, is_le);
    let ext = path + seq![tag, 0u16];
    let cnt = spec_u32_at(data, epos + 4, is_le) as int;
    if spec_path_lookup(paths, ext) is Some && cnt != 0 {
        if spec_u16_at(data, epos + 2, is_le) == 4 && spec_entry_out_of_line(data, is_le, epos) {
            assert forall|i: int| 0 <= i < cnt implies spec_dig_has(
                digs2,
                spec_subifd_addr(data, is_le, bias, epos, i),
                path + seq![tag, #[trigger] spec_instance_id(i)],
            ) by {
                let a = spec_subifd_addr(data, is_le, bias, epos, i);
                let p = path + seq![tag, spec_instance_id(i)];
                let q = choose|q: int|
                    0 <= q < digs1.len() && (#[trigger] digs1[q]).0 == a && digs1[q].1@ == p;
                assert(digs2[q] == digs1[q]);
            }
        } else {
            let a = spec_u32_at(data, epos + 8, is_le);
            let q = choose|q: int|
                0 <= q < digs1.len() && (#[trigger] digs1[q]).0 == a && digs1[q].1@ == ext;
            assert(digs2[q] == digs1[q]);
        }
    }
}

/// A store that keeps every key of another keeps every walked descent.
pub proof fn lemma_descents_walked_mono(
    data: Seq<u8>,
    is_le: bool,
    bias: int,
    paths: Seq<Seq<u16>>,
    path: Seq<u16>,
    epos: int,
    store1: Map<(u16, u16), IFDItem>,
    store2: Map<(u16, u16), IFDItem>,
)
    requires
        spec_entry_descents_walked(data, is_le, bias, paths, path, epos, store1),
        forall|k: (u16, u16)| store1.contains_key(k) ==> #[trigger] store2.contains_key(k),
    ensures
        spec_entry_descents_walked(data, is_le, bias, paths, path, epos, store2),
{
}

/// The paths a walk under `base` may store under: `base` itself, a path
/// whose last element is at least `base`'s (the next-IFD chain counts it
/// up), or a longer path below one of those (a descent). `base`'s leading
/// elements are never left.
pub open spec fn spec_path_shadow(base: Seq<u16>, p: Seq<u16>) -> bool {
    &&& base.len() > 0
    &&& p.len() >= base.len()
    &&& p.subrange(0, base.len() - 1) == base.subrange(0, base.len() - 1)
    &&& p[base.len() - 1] >= base[base.len() - 1]
}

/// A shadow of the chain-bumped path is a shadow of the path.
proof fn lemma_shadow_chain(base: Seq<u16>, bumped: Seq<u16>, p: Seq<u16>)
    requires
        base.len() > 0,
        bumped.len() == base.len(),
        bumped.subrange(0, base.len() - 1) == base.subrange(0, base.len() - 1),
        bumped[base.len() - 1] >= base[base.len() - 1],
        spec_path_shadow(bumped, p),
    ensures
        spec_path_shadow(base, p),
{
}

/// A shadow of a descent path two elements below the path is a shadow of
/// the path.
proof fn lemma_shadow_dig(base: Seq<u16>, ext: Seq<u16>, p: Seq<u16>)
    requires
        base.len() > 0,
        ext.len() == base.len() + 2,
        ext.subrange(0, base.len() as int) == base,
        spec_path_shadow(ext, p),
    ensures
        spec_path_shadow(base, p),
{
    assert forall|j: int| 0 <= j < base.len() - 1 implies p[j] == base[j] by {
        assert(p.subrange(0, ext.len() - 1)[j] == ext.subrange(0, ext.len() - 1)[j]);
        assert(ext.subrange(0, base.len() as int)[j] == base[j]);
    }
    assert(p.subrange(0, base.len() - 1) =~= base.subrange(0, base.len() - 1));
    assert(p[base.len() - 1] == ext[base.len() - 1]) by {
        assert(p.subrange(0, ext.len() - 1)[base.len() - 1] == ext.subrange(
            0,
            ext.len() - 1,
        )[base.len() - 1]);
    }
    assert(ext[base.len() - 1] == ext.subrange(0, base.len() as int)[base.len() - 1]);
}

/// What holds of every item this walk stores: it carries the walk's byte
/// order, the tag of its key, a registered path index, and its payload obeys
/// the presence rule.
pub open spec fn stored_item_ok(is_le: bool, n_paths: int, k: (u16, u16), item: IFDItem) -> bool {
    item.is_le == is_le && item.payload_rule() && item.tag == k.1 && (k.0 as int) < n_paths
}

/// The item's raw fields stand as a 12-byte entry somewhere in `data`, and
/// its payload, when present, is a contiguous run of `data`.
pub open spec fn item_from_data(data: Seq<u8>, is_le: bool, item: IFDItem) -> bool {
    &&& exists|pos: int|
        0 <= pos && pos + 12 <= data.len() && item.tag == spec_u16_at(data, pos, is_le)
            && item.format@ == data.subrange(pos + 2, pos + 4) && item.size@ == data.subrange(
            pos + 4,
            pos + 8,
        ) && item.value@ == #[trigger] data.subrange(pos + 8, pos + 12)
    &&& (item.actual_value matches Some(v) ==> exists|t: int|
        0 <= t && t + v@.len() <= data.len() && v@ == #[trigger] data.subrange(
            t,
            t + v@.len(),
        ))
}

/// How a walk may change the collector: every key it held is kept, and every
/// key it holds afterwards either kept its item or was stored by this walk.
pub open spec fn collector_extended(
    is_le: bool,
    n_paths: int,
    pre: Map<(u16, u16), IFDItem>,
    post: Map<(u16, u16), IFDItem>,
) -> bool {
    &&& forall|k: (u16, u16)| pre.contains_key(k) ==> #[trigger] post.contains_key(k)
    &&& forall|k: (u16, u16)| #[trigger]
        post.contains_key(k) ==> ((pre.contains_key(k) && post[k] == pre[k]) || stored_item_ok(
            is_le,
            n_paths,
            k,
            post[k],
        ))
}

/// Whether a walk changed the collector at `k`: the key is newly present or
/// carries a new item.
pub open spec fn spec_key_changed(
    pre: Map<(u16, u16), IFDItem>,
    post: Map<(u16, u16), IFDItem>,
    k: (u16, u16),
) -> bool {
    post.contains_key(k) && !(pre.contains_key(k) && post[k] == pre[k])
}

/// A change over two steps is a change in one of them.
proof fn lemma_changed_split(
    pre0: Map<(u16, u16), IFDItem>,
    mid: Map<(u16, u16), IFDItem>,
    post: Map<(u16, u16), IFDItem>,
    k: (u16, u16),
)
    requires
        spec_key_changed(pre0, post, k),
        !spec_key_changed(mid, post, k),
    ensures
        spec_key_changed(pre0, mid, k),
{
}

/// Extension where, additionally, every item this walk stored was read out
/// of `data`.
pub open spec fn collector_extended_from(
    is_le: bool,
    n_paths: int,
    data: Seq<u8>,
    pre: Map<(u16, u16), IFDItem>,
    post: Map<(u16, u16), IFDItem>,
) -> bool {
    &&& forall|k: (u16, u16)| pre.contains_key(k) ==> #[trigger] post.contains_key(k)
    &&& forall|k: (u16, u16)| #[trigger]
        post.contains_key(k) ==> ((pre.contains_key(k) && post[k] == pre[k]) || (stored_item_ok(
            is_le,
            n_paths,
            k,
            post[k],
        ) && item_from_data(data, is_le, post[k])))
}

/// Reading out of the data is a special case of plain extension.
proof fn lemma_extend_from_weaken(
    is_le: bool,
    n_paths: int,
    data: Seq<u8>,
    pre: Map<(u16, u16), IFDItem>,
    post: Map<(u16, u16), IFDItem>,
)
    requires
        collector_extended_from(is_le, n_paths, data, pre, post),
    ensures
        collector_extended(is_le, n_paths, pre, post),
{
}

/// Extension-from-data composes across two walk steps.
proof fn lemma_extend_from_trans(
    is_le: bool,
    n_paths: int,
    data: Seq<u8>,
    a: Map<(u16, u16), IFDItem>,
    b: Map<(u16, u16), IFDItem>,
    c: Map<(u16, u16), IFDItem>,
)
    requires
        collector_extended_from(is_le, n_paths, data, a, b),
        collector_extended_from(is_le, n_paths, data, b, c),
    ensures
        collector_extended_from(is_le, n_paths, data, a, c),
{
    assert forall|k: (u16, u16)| #[trigger] c.contains_key(k) implies ((a.contains_key(k) && c[k]
        == a[k]) || (stored_item_ok(is_le, n_paths, k, c[k]) && item_from_data(
        data,
        is_le,
        c[k],
    ))) by {
        if b.contains_key(k) && c[k] == b[k] {
            assert(b.contains_key(k));
        }
    }
}

/// The walker's state over one in-memory container.
pub(crate) struct TiffParser<'a> {
    /// The byte order of the enclosing TIFF.
    pub is_le: bool,
    /// The signed delta added to container offsets before seeking.
    pub addr_offset: i64,
    /// The container, from the byte the caller positioned at.
    pub data: &'a [u8],
    /// The cursor.
    pub pos: usize,
    /// The registered paths; a path's position is its dense index.
    pub paths: Vec<Vec<u16>>,
}

impl<'a> TiffParser<'a> {
    /// The cursor stays inside the data and the path count fits the dense
    /// 16-bit index space.
    pub(crate) open spec fn wf(&self) -> bool {
        self.pos <= self.data@.len() && self.data@.len() < ADDR_LIMIT && -ADDR_LIMIT
            <= self.addr_offset <= ADDR_LIMIT && self.paths@.len() <= 0xffff
    }

    /// The registered paths as sequences.
    pub(crate) open spec fn spec_paths(&self) -> Seq<Seq<u16>> {
        self.paths@.map_values(|p: Vec<u16>| p@)
    }

    /// The fields that no walk step changes.
    pub(crate) open spec fn frame_eq(&self, other: &Self) -> bool {
        self.is_le == other.is_le && self.data == other.data && self.paths@ == other.paths@
    }

    /// Reads two bytes at the cursor and advances past them.
    pub(crate) fn read_2(&mut self) -> (r: Result<[u8; 2], Error>)
        requires
            old(self).wf(),
        ensures
            final(self).wf(),
            final(self).frame_eq(old(self)),
            final(self).addr_offset == old(self).addr_offset,
            r is Ok <==> old(self).pos + 2 <= old(self).data@.len(),
            r matches Ok(b) ==> b@ == old(self).data@.subrange(
                old(self).pos as int,
                old(self).pos + 2,
            ) && final(self).pos == old(self).pos + 2,
            r is Err ==> r == Err::<[u8; 2], Error>(Error::Io) && final(self).pos == old(
                self,
            ).pos,
    {
        if self.data.len() - self.pos >= 2 {
            let r: [u8; 2] = [self.data[self.pos], self.data[self.pos + 1]];
            proof {
                assert(r@ =~= self.data@.subrange(self.pos as int, self.pos + 2));
            }
            self.pos = self.pos + 2;
            Ok(r)
        } else {
            Err(Error::Io)
        }
    }

    /// Reads four bytes at the cursor and advances past them.
    pub(crate) fn read_4(&mut self) -> (r: Result<[u8; 4], Error>)
        requires
            old(self).wf(),
        ensures
            final(self).wf(),
            final(self).frame_eq(old(self)),
            final(self).addr_offset == old(self).addr_offset,
            r is Ok <==> old(self).pos + 4 <= old(self).data@.len(),
            r matches Ok(b) ==> b@ == old(self).data@.subrange(
                old(self).pos as int,
                old(self).pos + 4,
            ) && final(self).pos == old(self).pos + 4,
            r is Err ==> r == Err::<[u8; 4], Error>(Error::Io) && final(self).pos == old(
                self,
            ).pos,
    {
        if self.data.len() - self.pos >= 4 {
            let r: [u8; 4] = [
                self.data[self.pos],
                self.data[self.pos + 1],
                self.data[self.pos + 2],
                self.data[self.pos + 3],
            ];
            proof {
                assert(r@ =~= self.data@.subrange(self.pos as int, self.pos + 4));
            }
            self.pos = self.pos + 4;
            Ok(r)
        } else {
            Err(Error::Io)
        }
    }

    /// Reads two bytes at the cursor without moving it.
    pub(crate) fn peek_2(&mut self) -> (r: Result<[u8; 2], Error>)
        requires
            old(self).wf(),
        ensures
            final(self).wf(),
            final(self).frame_eq(old(self)),
            final(self).addr_offset == old(self).addr_offset,
            final(self).pos == old(self).pos,
            r is Ok <==> old(self).pos + 2 <= old(self).data@.len(),
            r matches Ok(b) ==> b@ == old(self).data@.subrange(
                old(self).pos as int,
                old(self).pos + 2,
            ),
            r is Err ==> r == Err::<[u8; 2], Error>(Error::Io),
    {
        let saved = self.pos;
        let r = self.read_2();
        self.pos = saved;
        r
    }

    /// Reads four bytes at the cursor without moving it.
    pub(crate) fn peek_4(&mut self) -> (r: Result<[u8; 4], Error>)
        requires
            old(self).wf(),
        ensures
            final(self).wf(),
            final(self).frame_eq(old(self)),
            final(self).addr_offset == old(self).addr_offset,
            final(self).pos == old(self).pos,
            r is Ok <==> old(self).pos + 4 <= old(self).data@.len(),
            r matches Ok(b) ==> b@ == old(self).data@.subrange(
                old(self).pos as int,
                old(self).pos + 4,
            ),
            r is Err ==> r == Err::<[u8; 4], Error>(Error::Io),
    {
        let saved = self.pos;
        let r = self.read_4();
        self.pos = saved;
        r
    }

    /// Reads a 16-bit integer at the cursor in the TIFF's byte order and
    /// advances past it.
    pub(crate) fn read_u16_shift(&mut self) -> (r: Result<u16, Error>)
        requires
            old(self).wf(),
        ensures
            final(self).wf(),
            final(self).frame_eq(old(self)),
            final(self).addr_offset == old(self).addr_offset,
            r is Ok <==> old(self).pos + 2 <= old(self).data@.len(),
            r matches Ok(v) ==> v == spec_u16_at(
                old(self).data@,
                old(self).pos as int,
                old(self).is_le,
            ) && final(self).pos == old(self).pos + 2,
            r is Err ==> r == Err::<u16, Error>(Error::Io) && final(self).pos == old(self).pos,
    {
        if self.data.len() - self.pos >= 2 {
            let v = read_u16(self.data, self.pos, self.is_le);
            self.pos = self.pos + 2;
            Ok(v)
        } else {
            Err(Error::Io)
        }
    }

    /// Reads a 32-bit integer at the cursor in the TIFF's byte order and
    /// advances past it.
    pub(crate) fn read_u32_shift(&mut self) -> (r: Result<u32, Error>)
        requires
            old(self).wf(),
        ensures
            final(self).wf(),
            final(self).frame_eq(old(self)),
            final(self).addr_offset == old(self).addr_offset,
            r is Ok <==> old(self).pos + 4 <= old(self).data@.len(),
            r matches Ok(v) ==> v == spec_u32_at(
                old(self).data@,
                old(self).pos as int,
                old(self).is_le,
            ) && final(self).pos == old(self).pos + 4,
            r is Err ==> r == Err::<u32, Error>(Error::Io) && final(self).pos == old(self).pos,
    {
        if self.data.len() - self.pos >= 4 {
            let v = read_u32(self.data, self.pos, self.is_le);
            self.pos = self.pos + 4;
            Ok(v)
        } else {
            Err(Error::Io)
        }
    }

    /// Reads exactly `n` bytes at the cursor into a fresh buffer.
    pub(crate) fn read_to_vec(&mut self, n: usize) -> (r: Result<Vec<u8>, Error>)
        requires
            old(self).wf(),
        ensures
            final(self).wf(),
            final(self).frame_eq(old(self)),
            final(self).addr_offset == old(self).addr_offset,
            r is Ok <==> old(self).pos + n <= old(self).data@.len(),
            r matches Ok(v) ==> v@ == old(self).data@.subrange(
                old(self).pos as int,
                old(self).pos + n,
            ) && final(self).pos == old(self).pos + n,
            r is Err ==> r == Err::<Vec<u8>, Error>(Error::Io) && final(self).pos == old(
                self,
            ).pos,
    {
        if n <= self.data.len() - self.pos {
            let mut out: Vec<u8> = Vec::new();
            let mut i: usize = 0;
            while i < n
                invariant
                    i <= n,
                    self.pos + n <= self.data@.len(),
                    self.data@.len() <= usize::MAX,
                    out@ =~= self.data@.subrange(self.pos as int, self.pos + i),
                decreases n - i,
            {
                out.push(self.data[self.pos + i]);
                proof {
                    assert(out@ =~= self.data@.subrange(self.pos as int, self.pos + i + 1));
                }
                i = i + 1;
            }
            self.pos = self.pos + n;
            Ok(out)
        } else {
            Err(Error::Io)
        }
    }

    /// Positions the cursor at `loc + addr_offset` from the container origin.
    pub(crate) fn seek_ab(&mut self, loc: u32) -> (r: Result<(), Error>)
        requires
            old(self).wf(),
        ensures
            final(self).wf(),
            final(self).frame_eq(old(self)),
            final(self).addr_offset == old(self).addr_offset,
            r is Ok <==> 0 <= loc + old(self).addr_offset <= old(self).data@.len(),
            r is Ok ==> final(self).pos == loc + old(self).addr_offset,
            r is Err ==> r == Err::<(), Error>(Error::Io) && final(self).pos == old(self).pos,
    {
        let target = loc as i64 + self.addr_offset;
        if 0 <= target && target as u64 <= self.data.len() as u64 {
            self.pos = target as usize;
            Ok(())
        } else {
            Err(Error::Io)
        }
    }

    /// The cursor position as the signed seek arithmetic sees it.
    pub(crate) fn pos_i64(&self) -> (r: i64)
        requires
            self.wf(),
        ensures
            r == self.pos,
    {
        self.pos as i64
    }

    /// Moves the cursor by a signed number of bytes.
    pub(crate) fn seek_re(&mut self, delta: i64) -> (r: Result<(), Error>)
        requires
            old(self).wf(),
        ensures
            final(self).wf(),
            final(self).frame_eq(old(self)),
            final(self).addr_offset == old(self).addr_offset,
            r is Ok <==> 0 <= old(self).pos + delta <= old(self).data@.len(),
            r is Ok ==> final(self).pos == old(self).pos + delta,
            r is Err ==> r == Err::<(), Error>(Error::Io) && final(self).pos == old(self).pos,
    {
        let target = (self.pos as i64).checked_add(delta);
        match target {
            Some(t) => {
                if 0 <= t && t as u64 <= self.data.len() as u64 {
                    self.pos = t as usize;
                    Ok(())
                } else {
                    Err(Error::Io)
                }
            },
            None => {
                proof {
                    assert(self.pos + delta > self.data@.len());
                }
                Err(Error::Io)
            },
        }
    }

    /// Detects the envelope in front of the TIFF header, reads the byte
    /// order, and leaves the cursor and the address bias at the header.
    pub(crate) fn new(data: &'a [u8], paths: Vec<Vec<u16>>) -> (r: Result<TiffParser<'a>, Error>)
        requires
            paths@.len() <= 0xffff,
        ensures
            r matches Ok(p) ==> ({
                &&& p.wf()
                &&& p.data == data
                &&& p.paths == paths
                &&& spec_envelope_skip(data@) matches Some(skip) && p.addr_offset == skip
                    && p.pos == skip && skip + 2 <= data@.len() && ((data@[skip] == 0x49
                    && data@[skip + 1] == 0x49 && p.is_le) || (data@[skip] == 0x4d && data@[skip
                    + 1] == 0x4d && !p.is_le))
            }),
            r == Err::<TiffParser<'a>, Error>(Error::Io) <==> data@.len() >= ADDR_LIMIT || (
            data@.len() < ADDR_LIMIT && (spec_envelope_skip(data@) is None || spec_envelope_skip(
                data@,
            ).unwrap() + 2 > data@.len())),
            r matches Err(e) ==> (e == Error::Io || ({
                let skip = spec_envelope_skip(data@).unwrap();
                &&& spec_envelope_skip(data@) is Some
                &&& skip + 2 <= data@.len()
                &&& e == Error::InvalidTiffHeader(data@[skip], data@[skip + 1])
                &&& !(data@[skip] == 0x49 && data@[skip + 1] == 0x49)
                &&& !(data@[skip] == 0x4d && data@[skip + 1] == 0x4d)
            })),
    {
        if data.len() as u64 >= ADDR_LIMIT as u64 {
            return Err(Error::Io);
        }
        if data.len() < 2 {
            return Err(Error::Io);
        }
        let skip: usize = if data[0] == 0xff && data[1] == 0xd8 {
            if data.len() < 4 {
                return Err(Error::Io);
            }
            if data[2] == 0xff && data[3] == 0xe0 {
                // a JFIF application segment precedes the TIFF header
                30
            } else {
                // an EXIF application segment precedes the TIFF header
                12
            }
        } else {
            0
        };
        if data.len() < skip + 2 {
            return Err(Error::Io);
        }
        let b0 = data[skip];
        let b1 = data[skip + 1];
        let is_le = if b0 == 0x49 && b1 == 0x49 {
            true
        } else if b0 == 0x4d && b1 == 0x4d {
            false
        } else {
            return Err(Error::InvalidTiffHeader(b0, b1));
        };
        Ok(TiffParser { is_le, addr_offset: skip as i64, data, pos: skip, paths })
    }

    /// Returns the cursor to a previously saved position.
    pub(crate) fn recover_pos(&mut self, loc: usize) -> (r: Result<(), Error>)
        requires
            old(self).wf(),
        ensures
            final(self).wf(),
            final(self).frame_eq(old(self)),
            final(self).addr_offset == old(self).addr_offset,
            r is Ok <==> loc <= old(self).data@.len(),
            r is Ok ==> final(self).pos == loc,
            r is Err ==> r == Err::<(), Error>(Error::Io) && final(self).pos == old(self).pos,
    {
        if loc <= self.data.len() {
            self.pos = loc;
            Ok(())
        } else {
            Err(Error::Io)
        }
    }

    /// The dense index registered for a path, if any.
    pub(crate) fn lookup(&self, p: &Vec<u16>) -> (r: Option<u16>)
        requires
            self.wf(),
        ensures
            r is Some <==> spec_path_lookup(self.spec_paths(), p@) is Some,
            r matches Some(i) ==> Some(i as int) == spec_path_lookup(self.spec_paths(), p@),
    {
        let ghost sp = self.spec_paths();
        let mut i: usize = self.paths.len();
        while i > 0
            invariant
                self.wf(),
                sp == self.spec_paths(),
                i <= self.paths@.len(),
                forall|j: int| i <= j < sp.len() ==> sp[j] != p@,
            decreases i,
        {
            i = i - 1;
            if path_eq(&self.paths[i], p) {
                proof {
                    assert(sp[i as int] == p@);
                    lemma_path_lookup_prefix(sp, p@, i as int + 1);
                    assert(sp.take(i as int + 1).last() == p@);
                    assert(spec_path_lookup(sp.take(i as int + 1), p@) == Some(i as int));
                }
                return Some(i as u16);
            }
            proof {
                assert(sp[i as int] != p@);
            }
        }
        proof {
            lemma_path_lookup_prefix(sp, p@, 0);
            assert(sp.take(0) =~= Seq::<Seq<u16>>::empty());
        }
        None
    }

    /// Moves from a TIFF header to its first IFD: skips the four header
    /// bytes, reads the IFD offset, and seeks there through the bias.
    pub(crate) fn shift_from_tiff_header(&mut self) -> (r: Result<(), Error>)
        requires
            old(self).wf(),
        ensures
            final(self).wf(),
            final(self).frame_eq(old(self)),
            final(self).addr_offset == old(self).addr_offset,
            r is Ok <==> old(self).pos + 8 <= old(self).data@.len() && 0 <= spec_u32_at(
                old(self).data@,
                old(self).pos + 4,
                old(self).is_le,
            ) + old(self).addr_offset <= old(self).data@.len(),
            r is Ok ==> final(self).pos == spec_u32_at(
                old(self).data@,
                old(self).pos + 4,
                old(self).is_le,
            ) + old(self).addr_offset,
            r is Err ==> r == Err::<(), Error>(Error::Io),
    {
        self.seek_re(4)?;
        let ifd_offset = self.read_u32_shift()?;
        self.seek_ab(ifd_offset)?;
        Ok(())
    }

    /// Resolves the value of one entry: when the type is ASCII or the total
    /// value size exceeds the four inline bytes, reads the out-of-line
    /// payload from `addr + bias` and returns to the entry; otherwise the
    /// value is inline and no payload exists. The payload-presence rule of
    /// `IFDItem::payload_rule` holds of what this returns.
    pub(crate) fn check_actual_value(&mut self, format: [u8; 2], size: [u8; 4], addr: [u8; 4]) -> (r:
        Result<Option<Vec<u8>>, Error>)
        requires
            old(self).wf(),
        ensures
            final(self).wf(),
            final(self).frame_eq(old(self)),
            final(self).addr_offset == old(self).addr_offset,
            r is Ok ==> final(self).pos == old(self).pos,
            r matches Ok(av) ==> ({
                let f = spec_u16_at(format@, 0, old(self).is_le);
                let total = spec_u32_at(size@, 0, old(self).is_le) * spec_element_size(f);
                let t = spec_u32_at(addr@, 0, old(self).is_le) + old(self).addr_offset;
                &&& (av is Some <==> f == 2 || total > 4)
                &&& (av matches Some(v) ==> v@ == old(self).data@.subrange(t, t + total))
            }),
            r is Ok <==> ({
                let f = spec_u16_at(format@, 0, old(self).is_le);
                let total = spec_u32_at(size@, 0, old(self).is_le) * spec_element_size(f);
                let t = spec_u32_at(addr@, 0, old(self).is_le) + old(self).addr_offset;
                !(f == 2 || total > 4) || (0 <= t && t + total <= old(self).data@.len())
            }),
            r is Err ==> r == Err::<Option<Vec<u8>>, Error>(Error::Io),
    {
        let f = read_u16(format.as_slice(), 0, self.is_le);
        let format_size = element_size(f);
        let size32 = read_u32(size.as_slice(), 0, self.is_le);
        proof {
            assert((size32 as u64) * (format_size as u64) <= 0xffff_ffffu64 * 8)
                by (nonlinear_arith)
                requires
                    size32 <= 0xffff_ffffu32,
                    format_size <= 8u32,
            ;
        }
        let total = (size32 as u64) * (format_size as u64);
        let _data_len = self.data.len();
        if f == 0x0002 || total > 4 {
            let a = read_u32(addr.as_slice(), 0, self.is_le);
            let saved = self.pos;
            self.seek_ab(a)?;
            if total > usize::MAX as u64 {
                proof {
                    assert(old(self).data@.len() <= usize::MAX);
                }
                return Err(Error::Io);
            }
            let v = self.read_to_vec(total as usize)?;
            self.recover_pos(saved)?;
            Ok(Some(v))
        } else {
            Ok(None)
        }
    }

    /// Walks the IFD at the cursor under `path`: reads its entry count and
    /// entries, stores the entries of registered paths in the collector,
    /// follows the next-IFD chain with the path's last element counted up,
    /// and descends into every scheduled sub-IFD, detecting embedded JPEG
    /// headers and maker-note prefixes at the descent target.
    ///
    /// Descents terminate because each goes two path elements deeper and
    /// only registered, finitely long paths are descended into; the
    /// next-IFD chain is cut by `fuel`, which the callers set to the data
    /// length, so only a chain that revisits positions - a cycle - is ever
    /// cut short. The chain also ends at the last representable instance
    /// number, so no walk ever revisits a path it has walked; that is what
    /// lets the contract pin each stored item to its entry.
    pub(crate) fn parse_ifd(&mut self, path: Vec<u16>, collector: &mut ResultStore, fuel: usize) -> (r:
        Result<(), Error>)
        requires
            old(self).wf(),
            old(collector).wf(),
            path@.len() <= spec_max_path_len(old(self).spec_paths()) + 2,
        ensures
            final(self).wf(),
            final(self).frame_eq(old(self)),
            final(collector).wf(),
            collector_extended_from(
                old(self).is_le,
                old(self).paths@.len() as int,
                old(self).data@,
                old(collector)@,
                final(collector)@,
            ),
            r is Ok && spec_path_lookup(old(self).spec_paths(), path@) is Some ==> ({
                let idx = spec_path_lookup(old(self).spec_paths(), path@).unwrap();
                let pos0 = old(self).pos as int;
                let count = spec_u16_at(old(self).data@, pos0, old(self).is_le);
                forall|e: int|
                    0 <= e < count ==> final(collector)@.contains_key(
                        (idx as u16, #[trigger] spec_u16_at(
                            old(self).data@,
                            pos0 + 2 + 12 * e,
                            old(self).is_le,
                        )),
                    )
            }),
            r is Ok ==> forall|e: int|
                0 <= e < spec_u16_at(old(self).data@, old(self).pos as int, old(self).is_le)
                    ==> #[trigger] spec_entry_descents_walked(
                    old(self).data@,
                    old(self).is_le,
                    old(self).addr_offset as int,
                    old(self).spec_paths(),
                    path@,
                    old(self).pos + 2 + 12 * e,
                    final(collector)@,
                ),
            r is Ok ==> ({
                // an IFD that follows no chain and schedules no descent is
                // consumed exactly: its count, its entries, its trailer
                let pos0 = old(self).pos as int;
                let count = spec_u16_at(old(self).data@, pos0, old(self).is_le) as int;
                let next = spec_u32_at(old(self).data@, pos0 + 2 + 12 * count, old(self).is_le);
                ((next == 0 || next >= 0xffffff) && (forall|e: int|
                    0 <= e < count ==> spec_path_lookup(
                        old(self).spec_paths(),
                        path@ + seq![
                            #[trigger] spec_u16_at(
                                old(self).data@,
                                pos0 + 2 + 12 * e,
                                old(self).is_le,
                            ),
                            0u16,
                        ],
                    ) is None)) ==> (final(self).pos == pos0 + 2 + 12 * count + 4
                    && final(self).addr_offset == old(self).addr_offset)
            }),
            spec_ifd_plain(
                old(self).data@,
                old(self).is_le,
                old(self).spec_paths(),
                old(self).pos as int,
                old(self).addr_offset as int,
                path@,
            ) ==> r is Ok,
            r is Ok ==> final(self).addr_offset == old(self).addr_offset,
            forall|k: (u16, u16)| #[trigger]
                spec_key_changed(old(collector)@, final(collector)@, k) ==> ((k.0 as int) < old(
                    self,
                ).spec_paths().len() && spec_path_lookup(
                    old(self).spec_paths(),
                    old(self).spec_paths()[k.0 as int],
                ) == Some(k.0 as int)),
            path@.len() > 0 ==> forall|k: (u16, u16)| #[trigger]
                spec_key_changed(old(collector)@, final(collector)@, k) ==> spec_path_shadow(
                    path@,
                    old(self).spec_paths()[k.0 as int],
                ),
            (r is Ok && path@.len() > 0 && spec_path_lookup(old(self).spec_paths(), path@)
                is Some) ==> ({
                let idx = spec_path_lookup(old(self).spec_paths(), path@).unwrap();
                let pos0 = old(self).pos as int;
                let count = spec_u16_at(old(self).data@, pos0, old(self).is_le) as int;
                forall|e: int|
                    0 <= e < count ==> ({
                        let tag_e = #[trigger] spec_u16_at(
                            old(self).data@,
                            pos0 + 2 + 12 * e,
                            old(self).is_le,
                        );
                        spec_item_matches_entry(
                            old(self).data@,
                            old(self).is_le,
                            old(self).addr_offset as int,
                            pos0 + 2 + 12 * spec_last_entry_with_tag(
                                old(self).data@,
                                old(self).is_le,
                                pos0,
                                count,
                                tag_e,
                            ),
                            final(collector)@[(idx as u16, tag_e)],
                        )
                    })
            }),
            (r is Ok && path@.len() > 0 && path@[path@.len() - 1] < 0xffff && fuel > 0) ==> ({
                let pos0 = old(self).pos as int;
                let count = spec_u16_at(old(self).data@, pos0, old(self).is_le) as int;
                let next = spec_u32_at(old(self).data@, pos0 + 2 + 12 * count, old(self).is_le);
                let bumped = path@.update(
                    path@.len() - 1,
                    (path@[path@.len() - 1] + 1) as u16,
                );
                (next != 0 && next < 0xffffff && spec_path_lookup(old(self).spec_paths(), bumped)
                    is Some) ==> ({
                    let idx2 = spec_path_lookup(old(self).spec_paths(), bumped).unwrap();
                    let npos = next + old(self).addr_offset;
                    let count2 = spec_u16_at(old(self).data@, npos, old(self).is_le);
                    forall|e2: int|
                        0 <= e2 < count2 ==> final(collector)@.contains_key(
                            (idx2 as u16, #[trigger] spec_u16_at(
                                old(self).data@,
                                npos + 2 + 12 * e2,
                                old(self).is_le,
                            )),
                        )
                })
            }),
            r matches Err(e) ==> e == Error::Io,
        decreases spec_max_path_len(self.spec_paths()) + 2 - path@.len(), fuel,
    {
        let ghost is_le0 = self.is_le;
        let ghost n_paths0 = self.paths@.len() as int;
        let ghost data0 = self.data@;
        let ghost sp0 = self.spec_paths();
        let ghost bias0 = self.addr_offset as int;
        let entry_count = self.read_u16_shift()?;

        let mut dig_deep: Vec<(u32, Vec<u16>)> = Vec::new();
        let mut e: u16 = 0;
        while e < entry_count
            invariant
                self.wf(),
                self.frame_eq(old(self)),
                collector.wf(),
                collector_extended_from(is_le0, n_paths0, data0, old(collector)@, collector@),
                is_le0 == old(self).is_le,
                n_paths0 == old(self).paths@.len() as int,
                data0 == old(self).data@,
                sp0 == old(self).spec_paths(),
                e <= entry_count,
                entry_count == spec_u16_at(data0, old(self).pos as int, is_le0),
                self.pos == old(self).pos + 2 + 12 * e,
                self.addr_offset == old(self).addr_offset,
                bias0 == old(self).addr_offset as int,
                path@.len() <= spec_max_path_len(sp0) + 2,
                forall|k: (u16, u16)| #[trigger]
                    spec_key_changed(old(collector)@, collector@, k) ==> ((k.0 as int)
                        < sp0.len() && spec_path_lookup(sp0, sp0[k.0 as int]) == Some(
                        k.0 as int,
                    ) && sp0[k.0 as int] == path@),
                spec_path_lookup(sp0, path@) matches Some(idx) ==> forall|j: int|
                    0 <= j < e ==> ({
                        let tag_j = #[trigger] spec_u16_at(
                            data0,
                            old(self).pos + 2 + 12 * j,
                            is_le0,
                        );
                        collector@.contains_key((idx as u16, tag_j))
                            && spec_item_matches_entry(
                            data0,
                            is_le0,
                            bias0,
                            old(self).pos + 2 + 12 * spec_last_entry_with_tag(
                                data0,
                                is_le0,
                                old(self).pos as int,
                                e as int,
                                tag_j,
                            ),
                            collector@[(idx as u16, tag_j)],
                        )
                    }),
                (forall|j: int|
                    0 <= j < e ==> spec_path_lookup(
                        sp0,
                        path@ + seq![
                            #[trigger] spec_u16_at(data0, old(self).pos + 2 + 12 * j, is_le0),
                            0u16,
                        ],
                    ) is None) ==> dig_deep@.len() == 0,
                forall|j: int|
                    0 <= j < dig_deep@.len() ==> (#[trigger] dig_deep@[j].1)@.len() == path@.len()
                        + 2 && dig_deep@[j].1@.len() <= spec_max_path_len(sp0) && dig_deep@[
                        j
                    ].1@.subrange(0, path@.len() as int) == path@,
                forall|j: int|
                    0 <= j < e ==> #[trigger] spec_entry_scheduled(
                        data0,
                        is_le0,
                        bias0,
                        sp0,
                        path@,
                        old(self).pos + 2 + 12 * j,
                        dig_deep@,
                    ),
            decreases entry_count - e,
        {
            let ghost entry_pos = self.pos as int;
            let tag = self.read_u16_shift()?;
            let format = self.read_2()?;
            let size = self.read_4()?;
            let value = self.read_4()?;
            let ghost bias = self.addr_offset as int;
            let actual_value = match self.check_actual_value(format, size, value) {
                Ok(av) => av,
                Err(er) => {
                    proof {
                        assert(spec_u16_at(format@, 0, is_le0) == spec_u16_at(
                            data0,
                            entry_pos + 2,
                            is_le0,
                        )) by {
                            assert(format@[0] == data0[entry_pos + 2]);
                            assert(format@[1] == data0[entry_pos + 3]);
                        }
                        assert(spec_u32_at(size@, 0, is_le0) == spec_u32_at(
                            data0,
                            entry_pos + 4,
                            is_le0,
                        )) by {
                            assert(size@[0] == data0[entry_pos + 4]);
                            assert(size@[1] == data0[entry_pos + 5]);
                            assert(size@[2] == data0[entry_pos + 6]);
                            assert(size@[3] == data0[entry_pos + 7]);
                        }
                        assert(spec_entry_out_of_line(data0, is_le0, entry_pos));
                        assert(!spec_ifd_plain(
                            data0,
                            is_le0,
                            sp0,
                            old(self).pos as int,
                            bias0,
                            path@,
                        ));
                    }
                    return Err(er);
                },
            };
            let item = IFDItem { is_le: self.is_le, tag, format, size, value, actual_value };
            proof {
                assert(item.value@ == data0.subrange(entry_pos + 8, entry_pos + 12));
                if item.actual_value is Some {
                    let v = item.actual_value.unwrap();
                    let t = spec_u32_at(value@, 0, is_le0) + bias;
                    assert(v@ == data0.subrange(t, t + v@.len()));
                }
                assert(item_from_data(data0, is_le0, item));
                assert(spec_u16_at(format@, 0, is_le0) == spec_u16_at(
                    data0,
                    entry_pos + 2,
                    is_le0,
                )) by {
                    assert(format@[0] == data0[entry_pos + 2]);
                    assert(format@[1] == data0[entry_pos + 3]);
                }
                assert(spec_u32_at(size@, 0, is_le0) == spec_u32_at(
                    data0,
                    entry_pos + 4,
                    is_le0,
                )) by {
                    assert(size@[0] == data0[entry_pos + 4]);
                    assert(size@[1] == data0[entry_pos + 5]);
                    assert(size@[2] == data0[entry_pos + 6]);
                    assert(size@[3] == data0[entry_pos + 7]);
                }
                assert(spec_u32_at(value@, 0, is_le0) == spec_u32_at(
                    data0,
                    entry_pos + 8,
                    is_le0,
                )) by {
                    assert(value@[0] == data0[entry_pos + 8]);
                    assert(value@[1] == data0[entry_pos + 9]);
                    assert(value@[2] == data0[entry_pos + 10]);
                    assert(value@[3] == data0[entry_pos + 11]);
                }
                assert(spec_item_matches_entry(data0, is_le0, bias0, entry_pos, item));
            }

            let mut path_deep = clone_path(&path);
            path_deep.push(tag);
            path_deep.push(0);
            proof {
                assert(path_deep@ =~= path@ + seq![tag, 0u16]);
            }
            let ghost digs_pre = dig_deep@;
            let descend = self.lookup(&path_deep).is_some() && item.size() != 0;
            if descend {
                // an entry with no elements schedules no descent
                proof {
                    lemma_path_lookup(self.spec_paths(), path_deep@);
                    let di = spec_path_lookup(self.spec_paths(), path_deep@).unwrap();
                    lemma_max_path_len(self.spec_paths(), di);
                    assert(spec_path_lookup(
                        sp0,
                        path@ + seq![spec_u16_at(data0, entry_pos, is_le0), 0u16],
                    ) is Some);
                }
                let fmt = read_u16(format.as_slice(), 0, self.is_le);
                let addrs_opt = item.u32s();
                match (addrs_opt, fmt) {
                    (Some(addrs), 0x0004) => {
                        // a sub-IFD array: one descent per element, the
                        // instance id counting 0, 100, 200, ...
                        proof {
                            assert(spec_u16_at(data0, entry_pos + 2, is_le0) == 4);
                            assert(spec_element_size(4) == 4);
                            assert(spec_entry_out_of_line(data0, is_le0, entry_pos));
                            let av = item.actual_value.unwrap()@;
                            let t = spec_u32_at(data0, entry_pos + 8, is_le0) + bias0;
                            let cnt = spec_u32_at(data0, entry_pos + 4, is_le0) as int;
                            assert(av == data0.subrange(t, t + cnt * 4));
                            assert(av.len() == cnt * 4);
                            assert((cnt * 4) / 4 == cnt) by (nonlinear_arith)
                                requires
                                    cnt >= 0,
                            ;
                            assert(addrs@.len() == cnt);
                            assert forall|i2: int| 0 <= i2 < cnt implies addrs@[i2]
                                == spec_subifd_addr(data0, is_le0, bias0, entry_pos, i2) by {
                                assert(av[4 * i2] == data0[t + 4 * i2]);
                                assert(av[4 * i2 + 1] == data0[t + 4 * i2 + 1]);
                                assert(av[4 * i2 + 2] == data0[t + 4 * i2 + 2]);
                                assert(av[4 * i2 + 3] == data0[t + 4 * i2 + 3]);
                            }
                        }
                        let mut i: usize = 0;
                        while i < addrs.len()
                            invariant
                                tag == spec_u16_at(data0, entry_pos, is_le0),
                                addrs@.len() == spec_u32_at(data0, entry_pos + 4, is_le0),
                                forall|i2: int|
                                    0 <= i2 < addrs@.len() ==> addrs@[i2] == spec_subifd_addr(
                                        data0,
                                        is_le0,
                                        bias0,
                                        entry_pos,
                                        i2,
                                    ),
                                i <= addrs@.len(),
                                path_deep@ == path@ + seq![tag, 0u16],
                                path_deep@.len() == path@.len() + 2,
                                path_deep@.len() <= spec_max_path_len(sp0),
                                path_deep@.subrange(0, path@.len() as int) == path@,
                                forall|j: int|
                                    0 <= j < dig_deep@.len() ==> (
                                    #[trigger] dig_deep@[j].1)@.len() == path@.len() + 2 && dig_deep@[j].1@.len()
                                        <= spec_max_path_len(sp0) && dig_deep@[j].1@.subrange(
                                        0,
                                        path@.len() as int,
                                    ) == path@,
                                forall|j: int|
                                    0 <= j < e ==> #[trigger] spec_entry_scheduled(
                                        data0,
                                        is_le0,
                                        bias0,
                                        sp0,
                                        path@,
                                        old(self).pos + 2 + 12 * j,
                                        dig_deep@,
                                    ),
                                forall|i2: int|
                                    0 <= i2 < i ==> spec_dig_has(
                                        dig_deep@,
                                        addrs@[i2],
                                        path@ + seq![tag, #[trigger] spec_instance_id(i2)],
                                    ),
                            decreases addrs@.len() - i,
                        {
                            let mut p2 = clone_path(&path_deep);
                            let id = (((i % 0x10000) * 100) % 0x10000) as u16;
                            let last = p2.len() - 1;
                            p2[last] = id;
                            proof {
                                assert(id == spec_instance_id(i as int));
                                assert(p2@ =~= path@ + seq![tag, spec_instance_id(i as int)]);
                                assert(p2@.subrange(0, path@.len() as int) =~= path@);
                            }
                            let ghost digs_in = dig_deep@;
                            dig_deep.push((addrs[i], p2));
                            proof {
                                assert forall|j: int|
                                    0 <= j < e implies #[trigger] spec_entry_scheduled(
                                    data0,
                                    is_le0,
                                    bias0,
                                    sp0,
                                    path@,
                                    old(self).pos + 2 + 12 * j,
                                    dig_deep@,
                                ) by {
                                    lemma_scheduled_mono(
                                        data0,
                                        is_le0,
                                        bias0,
                                        sp0,
                                        path@,
                                        old(self).pos + 2 + 12 * j,
                                        digs_in,
                                        dig_deep@,
                                    );
                                }
                                assert forall|i2: int|
                                    0 <= i2 < i + 1 implies spec_dig_has(
                                    dig_deep@,
                                    addrs@[i2],
                                    path@ + seq![tag, #[trigger] spec_instance_id(i2)],
                                ) by {
                                    if i2 < i {
                                        lemma_dig_has_mono(
                                            digs_in,
                                            dig_deep@,
                                            addrs@[i2],
                                            path@ + seq![tag, spec_instance_id(i2)],
                                        );
                                    } else {
                                        let q = digs_in.len() as int;
                                        assert((#[trigger] dig_deep@[q]).0 == addrs@[i2]
                                            && dig_deep@[q].1@ == path@ + seq![
                                            tag,
                                            spec_instance_id(i2),
                                        ]);
                                    }
                                }
                            }
                            i = i + 1;
                        }
                        proof {
                            assert(spec_entry_scheduled(
                                data0,
                                is_le0,
                                bias0,
                                sp0,
                                path@,
                                entry_pos,
                                dig_deep@,
                            ));
                        }
                    },
                    _ => {
                        let addr = read_u32(value.as_slice(), 0, self.is_le);
                        proof {
                            assert(path_deep@.subrange(0, path@.len() as int) =~= path@);
                        }
                        dig_deep.push((addr, path_deep));
                        proof {
                            let q = digs_pre.len() as int;
                            assert((#[trigger] dig_deep@[q]).0 == spec_u32_at(
                                data0,
                                entry_pos + 8,
                                is_le0,
                            ) && dig_deep@[q].1@ == path@ + seq![tag, 0u16]);
                            assert(spec_dig_has(
                                dig_deep@,
                                spec_u32_at(data0, entry_pos + 8, is_le0),
                                path@ + seq![tag, 0u16],
                            ));
                            // this is the single-descent case: the entry is
                            // not a long array with an out-of-line payload
                            assert(!(spec_u16_at(data0, entry_pos + 2, is_le0) == 4
                                && spec_entry_out_of_line(data0, is_le0, entry_pos)));
                            assert(spec_entry_scheduled(
                                data0,
                                is_le0,
                                bias0,
                                sp0,
                                path@,
                                entry_pos,
                                dig_deep@,
                            ));
                            assert forall|j: int|
                                0 <= j < e implies #[trigger] spec_entry_scheduled(
                                data0,
                                is_le0,
                                bias0,
                                sp0,
                                path@,
                                old(self).pos + 2 + 12 * j,
                                dig_deep@,
                            ) by {
                                lemma_scheduled_mono(
                                    data0,
                                    is_le0,
                                    bias0,
                                    sp0,
                                    path@,
                                    old(self).pos + 2 + 12 * j,
                                    digs_pre,
                                    dig_deep@,
                                );
                            }
                        }
                    },
                }
            } else {
                proof {
                    assert(!(spec_path_lookup(
                        sp0,
                        path@ + seq![spec_u16_at(data0, entry_pos, is_le0), 0u16],
                    ) is Some && spec_u32_at(data0, entry_pos + 4, is_le0) as int != 0));
                    assert(spec_entry_scheduled(
                        data0,
                        is_le0,
                        bias0,
                        sp0,
                        path@,
                        entry_pos,
                        dig_deep@,
                    ));
                }
            }
            proof {
                assert(entry_pos == old(self).pos + 2 + 12 * e);
            }

            match self.lookup(&path) {
                Some(idx) => {
                    proof {
                        lemma_path_lookup(self.spec_paths(), path@);
                        assert(sp0[idx as int] == path@);
                    }
                    let ghost pre = collector@;
                    collector.insert((idx, tag), item);
                    proof {
                        assert(stored_item_ok(is_le0, n_paths0, (idx, tag), item));
                        lemma_extend_from_trans(
                            is_le0,
                            n_paths0,
                            data0,
                            old(collector)@,
                            pre,
                            collector@,
                        );
                        assert forall|k: (u16, u16)| #[trigger]
                            spec_key_changed(old(collector)@, collector@, k) implies ((
                        k.0 as int) < sp0.len() && spec_path_lookup(sp0, sp0[k.0 as int])
                            == Some(k.0 as int) && sp0[k.0 as int] == path@) by {
                            if !spec_key_changed(old(collector)@, pre, k) {
                                assert(k == (idx, tag));
                            }
                        }
                        let posb = old(self).pos as int;
                        assert(spec_last_entry_with_tag(
                            data0,
                            is_le0,
                            posb,
                            e as int + 1,
                            tag,
                        ) == e as int);
                        assert forall|j: int| 0 <= j < e + 1 implies ({
                            let tag_j = #[trigger] spec_u16_at(data0, posb + 2 + 12 * j, is_le0);
                            collector@.contains_key((idx as u16, tag_j))
                                && spec_item_matches_entry(
                                data0,
                                is_le0,
                                bias0,
                                posb + 2 + 12 * spec_last_entry_with_tag(
                                    data0,
                                    is_le0,
                                    posb,
                                    e as int + 1,
                                    tag_j,
                                ),
                                collector@[(idx as u16, tag_j)],
                            )
                        }) by {
                            let tag_j = spec_u16_at(data0, posb + 2 + 12 * j, is_le0);
                            if tag_j == tag {
                                assert(collector@[(idx as u16, tag_j)] == item);
                            } else {
                                assert(j < e);
                                assert(spec_last_entry_with_tag(
                                    data0,
                                    is_le0,
                                    posb,
                                    e as int + 1,
                                    tag_j,
                                ) == spec_last_entry_with_tag(
                                    data0,
                                    is_le0,
                                    posb,
                                    e as int,
                                    tag_j,
                                ));
                                assert(collector@[(idx as u16, tag_j)] == pre[(
                                idx as u16,
                                tag_j,
                                )]);
                            }
                        }
                    }
                },
                None => {},
            }
            e = e + 1;
        }

        // descents resolve their targets through the bias this IFD was
        // walked with, not whatever bias the chain walk leaves behind
        let saved_bias = self.addr_offset;
        let next_ifd_offset = self.read_u32_shift()?;
        if next_ifd_offset != 0 && next_ifd_offset < 0xffffff && fuel > 0 && (path.len() == 0
            || path[path.len() - 1] < 0xffff) {
            proof {
                assert(!spec_ifd_plain(data0, is_le0, sp0, old(self).pos as int, bias0, path@));
            }
            self.seek_ab(next_ifd_offset)?;
            let mut next_path = clone_path(&path);
            if next_path.len() > 0 {
                let last = next_path.len() - 1;
                let bumped = next_path[last] + 1;
                next_path[last] = bumped;
            }
            let ghost pre = collector@;
            let ghost np = next_path@;
            let chain_res = self.parse_ifd(next_path, collector, fuel - 1);
            proof {
                lemma_extend_from_trans(is_le0, n_paths0, data0, old(collector)@, pre, collector@);
                assert forall|k: (u16, u16)| #[trigger]
                    spec_key_changed(old(collector)@, collector@, k) implies ((k.0 as int)
                    < sp0.len() && spec_path_lookup(sp0, sp0[k.0 as int]) == Some(k.0 as int)
                    && (path@.len() > 0 ==> spec_path_shadow(path@, sp0[k.0 as int]))) by {
                    if spec_key_changed(pre, collector@, k) {
                        if path@.len() > 0 {
                            assert(np.subrange(0, path@.len() - 1) =~= path@.subrange(
                                0,
                                path@.len() - 1,
                            ));
                            lemma_shadow_chain(path@, np, sp0[k.0 as int]);
                        }
                    } else {
                        lemma_changed_split(old(collector)@, pre, collector@, k);
                        if path@.len() > 0 {
                            assert(spec_path_shadow(path@, path@));
                        }
                    }
                }
                if path@.len() > 0 && spec_path_lookup(sp0, path@) is Some {
                    let idx = spec_path_lookup(sp0, path@).unwrap();
                    lemma_path_lookup(sp0, path@);
                    assert forall|j: int| 0 <= j < entry_count implies ({
                        let tag_j = #[trigger] spec_u16_at(
                            data0,
                            old(self).pos + 2 + 12 * j,
                            is_le0,
                        );
                        collector@.contains_key((idx as u16, tag_j))
                            && spec_item_matches_entry(
                            data0,
                            is_le0,
                            bias0,
                            old(self).pos + 2 + 12 * spec_last_entry_with_tag(
                                data0,
                                is_le0,
                                old(self).pos as int,
                                entry_count as int,
                                tag_j,
                            ),
                            collector@[(idx as u16, tag_j)],
                        )
                    }) by {
                        let tag_j = spec_u16_at(data0, old(self).pos + 2 + 12 * j, is_le0);
                        let kj = (idx as u16, tag_j);
                        assert(pre.contains_key(kj));
                        if spec_key_changed(pre, collector@, kj) {
                            assert(spec_path_shadow(np, sp0[idx as int]));
                            assert(false);
                        }
                        assert(collector@[kj] == pre[kj]);
                    }
                }
            }
            proof {
                if path@.len() > 0 {
                    assert(np =~= path@.update(
                        path@.len() - 1,
                        (path@[path@.len() - 1] + 1) as u16,
                    ));
                }
            }
            if let Err(er) = chain_res {
                return Err(er);
            }
        }

        if dig_deep.len() == 0 {
            // the bias is a stack discipline: restore it on the way out
            self.addr_offset = saved_bias;
            proof {
                assert forall|e2: int|
                    0 <= e2 < entry_count implies #[trigger] spec_entry_descents_walked(
                    data0,
                    is_le0,
                    bias0,
                    sp0,
                    path@,
                    old(self).pos + 2 + 12 * e2,
                    collector@,
                ) by {
                    let epos = old(self).pos + 2 + 12 * e2;
                    let tag = spec_u16_at(data0, epos, is_le0);
                    let ext = path@ + seq![tag, 0u16];
                    let cnt = spec_u32_at(data0, epos + 4, is_le0) as int;
                    if spec_path_lookup(sp0, ext) is Some && cnt != 0 {
                        assert(spec_entry_scheduled(
                            data0,
                            is_le0,
                            bias0,
                            sp0,
                            path@,
                            epos,
                            dig_deep@,
                        ));
                        if spec_u16_at(data0, epos + 2, is_le0) == 4 && spec_entry_out_of_line(
                            data0,
                            is_le0,
                            epos,
                        ) {
                            assert(spec_dig_has(
                                dig_deep@,
                                spec_subifd_addr(data0, is_le0, bias0, epos, 0),
                                path@ + seq![tag, spec_instance_id(0)],
                            ));
                            let q = choose|q: int|
                                0 <= q < dig_deep@.len() && (#[trigger] dig_deep@[q]).0
                                    == spec_subifd_addr(data0, is_le0, bias0, epos, 0)
                                    && dig_deep@[q].1@ == path@ + seq![
                                    tag,
                                    spec_instance_id(0),
                                ];
                            assert(false);
                        } else {
                            assert(spec_dig_has(
                                dig_deep@,
                                spec_u32_at(data0, epos + 8, is_le0),
                                ext,
                            ));
                            let q = choose|q: int|
                                0 <= q < dig_deep@.len() && (#[trigger] dig_deep@[q]).0
                                    == spec_u32_at(data0, epos + 8, is_le0) && dig_deep@[q].1@
                                    == ext;
                            assert(false);
                        }
                    }
                }
            }
            return Ok(());
        }
        let ghost pre_digs = collector@;
        proof {
            assert(!spec_ifd_plain(data0, is_le0, sp0, old(self).pos as int, bias0, path@)) by {
                if spec_ifd_plain(data0, is_le0, sp0, old(self).pos as int, bias0, path@) {
                    assert forall|j: int| 0 <= j < entry_count implies spec_path_lookup(
                        sp0,
                        path@ + seq![
                            #[trigger] spec_u16_at(data0, old(self).pos + 2 + 12 * j, is_le0),
                            0u16,
                        ],
                    ) is None by {}
                    assert(dig_deep@.len() == 0);
                }
            }
        }
        let mut d: usize = 0;
        while d < dig_deep.len()
            invariant
                self.wf(),
                self.frame_eq(old(self)),
                collector.wf(),
                collector_extended_from(is_le0, n_paths0, data0, old(collector)@, collector@),
                is_le0 == old(self).is_le,
                n_paths0 == old(self).paths@.len() as int,
                data0 == old(self).data@,
                sp0 == old(self).spec_paths(),
                -ADDR_LIMIT <= saved_bias <= ADDR_LIMIT,
                saved_bias == bias0,
                !spec_ifd_plain(data0, is_le0, sp0, old(self).pos as int, bias0, path@),
                entry_count == spec_u16_at(data0, old(self).pos as int, is_le0),
                forall|j: int|
                    0 <= j < entry_count ==> #[trigger] spec_entry_scheduled(
                        data0,
                        is_le0,
                        bias0,
                        sp0,
                        path@,
                        old(self).pos + 2 + 12 * j,
                        dig_deep@,
                    ),
                forall|q: int|
                    0 <= q < d ==> (spec_path_lookup(sp0, (#[trigger] dig_deep@[q]).1@) matches Some(
                        di,
                    ) ==> spec_descent_walked(
                        data0,
                        is_le0,
                        bias0,
                        dig_deep@[q].0,
                        di,
                        collector@,
                    )),
                forall|k: (u16, u16)| #[trigger]
                    spec_key_changed(old(collector)@, collector@, k) ==> ((k.0 as int)
                        < sp0.len() && spec_path_lookup(sp0, sp0[k.0 as int]) == Some(
                        k.0 as int,
                    ) && (path@.len() > 0 ==> spec_path_shadow(path@, sp0[k.0 as int]))),
                forall|k: (u16, u16)|
                    pre_digs.contains_key(k) ==> #[trigger] collector@.contains_key(k),
                spec_path_lookup(sp0, path@) matches Some(idx) ==> forall|j: int|
                    0 <= j < entry_count ==> collector@.contains_key(
                        (idx as u16, #[trigger] spec_u16_at(
                            data0,
                            old(self).pos + 2 + 12 * j,
                            is_le0,
                        )),
                    ),
                (path@.len() > 0 && spec_path_lookup(sp0, path@) is Some) ==> ({
                    let idx = spec_path_lookup(sp0, path@).unwrap();
                    forall|j: int|
                        0 <= j < entry_count ==> ({
                            let tag_j = #[trigger] spec_u16_at(
                                data0,
                                old(self).pos + 2 + 12 * j,
                                is_le0,
                            );
                            collector@.contains_key((idx as u16, tag_j))
                                && spec_item_matches_entry(
                                data0,
                                is_le0,
                                bias0,
                                old(self).pos + 2 + 12 * spec_last_entry_with_tag(
                                    data0,
                                    is_le0,
                                    old(self).pos as int,
                                    entry_count as int,
                                    tag_j,
                                ),
                                collector@[(idx as u16, tag_j)],
                            )
                        })
                }),
                bias0 == old(self).addr_offset as int,
                path@.len() <= spec_max_path_len(sp0) + 2,
                forall|j: int|
                    0 <= j < dig_deep@.len() ==> (#[trigger] dig_deep@[j].1)@.len() == path@.len()
                        + 2 && dig_deep@[j].1@.len() <= spec_max_path_len(sp0) && dig_deep@[
                        j
                    ].1@.subrange(0, path@.len() as int) == path@,
                d <= dig_deep@.len(),
            decreases dig_deep@.len() - d,
        {
            let addr = dig_deep[d].0;
            let dpath = clone_path(&dig_deep[d].1);
            self.addr_offset = saved_bias;
            self.seek_ab(addr)?;
            let ghost t0 = addr + bias0;

            // an embedded JPEG: skip its envelope and anchor the bias at the
            // embedded TIFF header
            let head = self.peek_2()?;
            if head[0] == 0xff && head[1] == 0xd8 {
                self.seek_re(12)?;
                self.addr_offset = self.pos_i64();
                self.shift_from_tiff_header()?;
            }

            // a maker-note prefix: skip it, and add the note's own base to
            // the bias where its internal offsets are self-relative
            let check = self.peek_4()?;
            if check[0] == 0x50 && check[1] == 0x61 && check[2] == 0x6e && check[3] == 0x61 {
                self.seek_re(12)?;
            } else if check[0] == 0x4f && check[1] == 0x4c && check[2] == 0x59 && check[3]
                == 0x4d {
                let nb = match self.addr_offset.checked_add(self.pos_i64()) {
                    Some(nb) => nb,
                    None => {
                        return Err(Error::Io);
                    },
                };
                if !(-ADDR_LIMIT <= nb && nb <= ADDR_LIMIT) {
                    return Err(Error::Io);
                }
                self.addr_offset = nb;
                self.seek_re(12)?;
            } else if check[0] == 0x4e && check[1] == 0x69 && check[2] == 0x6b && check[3]
                == 0x6f {
                let nb = match self.addr_offset.checked_add(self.pos_i64()) {
                    Some(nb) => nb.checked_add(10),
                    None => None,
                };
                let nb = match nb {
                    Some(nb) => nb,
                    None => {
                        return Err(Error::Io);
                    },
                };
                if !(-ADDR_LIMIT <= nb && nb <= ADDR_LIMIT) {
                    return Err(Error::Io);
                }
                self.addr_offset = nb;
                self.seek_re(18)?;
            }

            let ghost st = spec_descent_state(data0, is_le0, bias0, addr);
            proof {
                assert(self.pos == st.0);
                assert(self.addr_offset == st.1);
            }
            let ghost pre = collector@;
            let ghost dp = dpath@;
            let fuel2 = self.data.len();
            let dig_res = self.parse_ifd(dpath, collector, fuel2);
            proof {
                lemma_extend_from_trans(is_le0, n_paths0, data0, old(collector)@, pre, collector@);
                assert forall|k: (u16, u16)| #[trigger]
                    spec_key_changed(old(collector)@, collector@, k) implies ((k.0 as int)
                    < sp0.len() && spec_path_lookup(sp0, sp0[k.0 as int]) == Some(k.0 as int)
                    && (path@.len() > 0 ==> spec_path_shadow(path@, sp0[k.0 as int]))) by {
                    if spec_key_changed(pre, collector@, k) {
                        if path@.len() > 0 {
                            assert(spec_path_shadow(dp, sp0[k.0 as int]));
                            lemma_shadow_dig(path@, dp, sp0[k.0 as int]);
                        }
                    } else {
                        lemma_changed_split(old(collector)@, pre, collector@, k);
                    }
                }
                if path@.len() > 0 && spec_path_lookup(sp0, path@) is Some {
                    let idx = spec_path_lookup(sp0, path@).unwrap();
                    lemma_path_lookup(sp0, path@);
                    assert forall|j: int| 0 <= j < entry_count implies ({
                        let tag_j = #[trigger] spec_u16_at(
                            data0,
                            old(self).pos + 2 + 12 * j,
                            is_le0,
                        );
                        collector@.contains_key((idx as u16, tag_j))
                            && spec_item_matches_entry(
                            data0,
                            is_le0,
                            bias0,
                            old(self).pos + 2 + 12 * spec_last_entry_with_tag(
                                data0,
                                is_le0,
                                old(self).pos as int,
                                entry_count as int,
                                tag_j,
                            ),
                            collector@[(idx as u16, tag_j)],
                        )
                    }) by {
                        let tag_j = spec_u16_at(data0, old(self).pos + 2 + 12 * j, is_le0);
                        let kj = (idx as u16, tag_j);
                        assert(pre.contains_key(kj));
                        if spec_key_changed(pre, collector@, kj) {
                            assert(spec_path_shadow(dp, sp0[idx as int]));
                            assert(false);
                        }
                        assert(collector@[kj] == pre[kj]);
                    }
                }
            }
            if let Err(er) = dig_res {
                return Err(er);
            }
            proof {
                assert forall|q: int|
                    0 <= q < d + 1 implies (spec_path_lookup(
                    sp0,
                    (#[trigger] dig_deep@[q]).1@,
                ) matches Some(di) ==> spec_descent_walked(
                    data0,
                    is_le0,
                    bias0,
                    dig_deep@[q].0,
                    di,
                    collector@,
                )) by {
                    if spec_path_lookup(sp0, dig_deep@[q].1@) is Some {
                        let di = spec_path_lookup(sp0, dig_deep@[q].1@).unwrap();
                        if q < d {
                            // the earlier descent's keys stay in the store
                            let stq = spec_descent_state(data0, is_le0, bias0, dig_deep@[q].0);
                            assert forall|e2: int|
                                0 <= e2 < spec_u16_at(
                                    data0,
                                    stq.0,
                                    is_le0,
                                ) implies collector@.contains_key(
                                (di as u16, #[trigger] spec_u16_at(
                                    data0,
                                    stq.0 + 2 + 12 * e2,
                                    is_le0,
                                )),
                            ) by {
                                assert(pre.contains_key(
                                    (di as u16, spec_u16_at(data0, stq.0 + 2 + 12 * e2, is_le0)),
                                ));
                            }
                        } else {
                            // the walk just done stored every entry of the
                            // descent's IFD
                            assert(dig_deep@[q].1@ == dp);
                            assert(spec_descent_walked(
                                data0,
                                is_le0,
                                bias0,
                                dig_deep@[q].0,
                                di,
                                collector@,
                            ));
                        }
                    }
                }
            }
            d = d + 1;
        }

        proof {
            assert forall|e2: int|
                0 <= e2 < entry_count implies #[trigger] spec_entry_descents_walked(
                data0,
                is_le0,
                bias0,
                sp0,
                path@,
                old(self).pos + 2 + 12 * e2,
                collector@,
            ) by {
                let epos = old(self).pos + 2 + 12 * e2;
                let tag = spec_u16_at(data0, epos, is_le0);
                let ext = path@ + seq![tag, 0u16];
                let cnt = spec_u32_at(data0, epos + 4, is_le0) as int;
                if spec_path_lookup(sp0, ext) is Some && cnt != 0 {
                    assert(spec_entry_scheduled(data0, is_le0, bias0, sp0, path@, epos, dig_deep@));
                    if spec_u16_at(data0, epos + 2, is_le0) == 4 && spec_entry_out_of_line(
                        data0,
                        is_le0,
                        epos,
                    ) {
                        assert forall|i: int|
                            0 <= i < cnt implies ({
                                let inst = path@ + seq![tag, #[trigger] spec_instance_id(i)];
                                spec_path_lookup(sp0, inst) matches Some(di)
                                    ==> spec_descent_walked(
                                    data0,
                                    is_le0,
                                    bias0,
                                    spec_subifd_addr(data0, is_le0, bias0, epos, i),
                                    di,
                                    collector@,
                                )
                            }) by {
                            let inst = path@ + seq![tag, spec_instance_id(i)];
                            if spec_path_lookup(sp0, inst) is Some {
                                assert(spec_dig_has(
                                    dig_deep@,
                                    spec_subifd_addr(data0, is_le0, bias0, epos, i),
                                    inst,
                                ));
                                let q = choose|q: int|
                                    0 <= q < dig_deep@.len() && (#[trigger] dig_deep@[q]).0
                                        == spec_subifd_addr(data0, is_le0, bias0, epos, i)
                                        && dig_deep@[q].1@ == inst;
                                assert(spec_path_lookup(sp0, dig_deep@[q].1@) is Some);
                            }
                        }
                    } else {
                        assert(spec_dig_has(dig_deep@, spec_u32_at(data0, epos + 8, is_le0), ext));
                        let q = choose|q: int|
                            0 <= q < dig_deep@.len() && (#[trigger] dig_deep@[q]).0 == spec_u32_at(
                                data0,
                                epos + 8,
                                is_le0,
                            ) && dig_deep@[q].1@ == ext;
                        assert(spec_path_lookup(sp0, dig_deep@[q].1@) is Some);
                    }
                }
            }
        }
        // the bias is a stack discipline: restore it on the way out
        self.addr_offset = saved_bias;
        Ok(())
    }

    /// Runs the whole walk: moves from the TIFF header to IFD0 and walks it
    /// under path `[0]`. Everything the walk stores carries the walk's byte
    /// order, obeys the payload rule, and is keyed by a registered path
    /// index and its own tag.
    pub(crate) fn parse(&mut self, collector: &mut ResultStore) -> (r: Result<(), Error>)
        requires
            old(self).wf(),
            old(collector).wf(),
        ensures
            final(self).wf(),
            final(self).frame_eq(old(self)),
            final(collector).wf(),
            collector_extended_from(
                old(self).is_le,
                old(self).paths@.len() as int,
                old(self).data@,
                old(collector)@,
                final(collector)@,
            ),
            r is Ok && spec_path_lookup(old(self).spec_paths(), seq![0u16]) is Some ==> ({
                let idx = spec_path_lookup(old(self).spec_paths(), seq![0u16]).unwrap();
                let ifd0 = spec_u32_at(old(self).data@, old(self).pos + 4, old(self).is_le)
                    + old(self).addr_offset;
                let count = spec_u16_at(old(self).data@, ifd0, old(self).is_le);
                forall|e: int|
                    0 <= e < count ==> final(collector)@.contains_key(
                        (idx as u16, #[trigger] spec_u16_at(
                            old(self).data@,
                            ifd0 + 2 + 12 * e,
                            old(self).is_le,
                        )),
                    )
            }),
            ({
                let ifd0 = spec_u32_at(old(self).data@, old(self).pos + 4, old(self).is_le)
                    + old(self).addr_offset;
                (old(self).pos + 8 <= old(self).data@.len() && 0 <= ifd0
                    <= old(self).data@.len() && spec_ifd_plain(
                    old(self).data@,
                    old(self).is_le,
                    old(self).spec_paths(),
                    ifd0,
                    old(self).addr_offset as int,
                    seq![0u16],
                )) ==> r is Ok
            }),
            r is Ok ==> final(self).addr_offset == old(self).addr_offset,
            r is Ok ==> ({
                let ifd0 = spec_u32_at(old(self).data@, old(self).pos + 4, old(self).is_le)
                    + old(self).addr_offset;
                let count = spec_u16_at(old(self).data@, ifd0, old(self).is_le);
                forall|e: int|
                    0 <= e < count ==> #[trigger] spec_entry_descents_walked(
                        old(self).data@,
                        old(self).is_le,
                        old(self).addr_offset as int,
                        old(self).spec_paths(),
                        seq![0u16],
                        ifd0 + 2 + 12 * e,
                        final(collector)@,
                    )
            }),
            forall|k: (u16, u16)| #[trigger]
                spec_key_changed(old(collector)@, final(collector)@, k) ==> ((k.0 as int) < old(
                    self,
                ).spec_paths().len() && spec_path_lookup(
                    old(self).spec_paths(),
                    old(self).spec_paths()[k.0 as int],
                ) == Some(k.0 as int)),
            (r is Ok && spec_path_lookup(old(self).spec_paths(), seq![0u16]) is Some) ==> ({
                let idx = spec_path_lookup(old(self).spec_paths(), seq![0u16]).unwrap();
                let ifd0 = spec_u32_at(old(self).data@, old(self).pos + 4, old(self).is_le)
                    + old(self).addr_offset;
                let count = spec_u16_at(old(self).data@, ifd0, old(self).is_le) as int;
                forall|e: int|
                    0 <= e < count ==> ({
                        let tag_e = #[trigger] spec_u16_at(
                            old(self).data@,
                            ifd0 + 2 + 12 * e,
                            old(self).is_le,
                        );
                        spec_item_matches_entry(
                            old(self).data@,
                            old(self).is_le,
                            old(self).addr_offset as int,
                            ifd0 + 2 + 12 * spec_last_entry_with_tag(
                                old(self).data@,
                                old(self).is_le,
                                ifd0,
                                count,
                                tag_e,
                            ),
                            final(collector)@[(idx as u16, tag_e)],
                        )
                    })
            }),
            r matches Err(e) ==> e == Error::Io,
    {
        self.shift_from_tiff_header()?;
        let mut top: Vec<u16> = Vec::new();
        top.push(0);
        proof {
            assert(top@ =~= seq![0u16]);
        }
        let fuel = self.data.len();
        self.parse_ifd(top, collector, fuel)
    }

    /// Decrypts the SR2Private region named by the `0x7200` (offset),
    /// `0x7201` (length) and `0x7221` (key) entries previously collected
    /// under `sr2private_index`, and walks the plaintext under `path` with
    /// the bias inverted, so that absolute offsets written for the original
    /// file resolve inside the buffer. Does nothing when any of the three
    /// entries is missing.
    pub(crate) fn parse_sony_sr2private(
        &mut self,
        sr2private_index: u16,
        path: Vec<u16>,
        collector: &mut ResultStore,
    ) -> (r: Result<(), Error>)
        requires
            old(self).wf(),
            old(collector).wf(),
            path@.len() <= spec_max_path_len(old(self).spec_paths()) + 2,
        ensures
            final(self).wf(),
            final(self).frame_eq(old(self)),
            final(collector).wf(),
            collector_extended(
                old(self).is_le,
                old(self).paths@.len() as int,
                old(collector)@,
                final(collector)@,
            ),
            forall|k: (u16, u16)| #[trigger]
                spec_key_changed(old(collector)@, final(collector)@, k) ==> ((k.0 as int) < old(
                    self,
                ).spec_paths().len() && spec_path_lookup(
                    old(self).spec_paths(),
                    old(self).spec_paths()[k.0 as int],
                ) == Some(k.0 as int)),
            path@.len() > 0 ==> forall|k: (u16, u16)| #[trigger]
                spec_key_changed(old(collector)@, final(collector)@, k) ==> spec_path_shadow(
                    path@,
                    old(self).spec_paths()[k.0 as int],
                ),
            (!old(collector)@.contains_key((sr2private_index, 0x7200u16)) || !old(
                collector,
            )@.contains_key((sr2private_index, 0x7201u16)) || !old(collector)@.contains_key(
                (sr2private_index, 0x7221u16),
            )) ==> (r == Ok::<(), Error>(()) && final(collector)@ == old(collector)@),
            (r is Ok && old(collector)@.contains_key((sr2private_index, 0x7200u16)) && old(
                collector,
            )@.contains_key((sr2private_index, 0x7201u16)) && old(collector)@.contains_key(
                (sr2private_index, 0x7221u16),
            )) ==> ({
                let is_le = old(self).is_le;
                let region_offset = spec_u32_at(
                    old(collector)@[(sr2private_index, 0x7200u16)].value@,
                    0,
                    is_le,
                );
                let region_len = spec_u32_at(
                    old(collector)@[(sr2private_index, 0x7201u16)].value@,
                    0,
                    is_le,
                );
                let key = spec_u32_at(
                    old(collector)@[(sr2private_index, 0x7221u16)].value@,
                    0,
                    is_le,
                );
                let plain = crate::sony::spec_sony_decrypt(
                    old(self).data@.subrange(
                        region_offset + old(self).addr_offset,
                        region_offset + old(self).addr_offset + region_len,
                    ),
                    key,
                    is_le,
                );
                spec_path_lookup(old(self).spec_paths(), path@) matches Some(pidx) ==> ({
                    let count = spec_u16_at(plain, 0, is_le);
                    forall|e: int|
                        0 <= e < count ==> final(collector)@.contains_key(
                            (pidx as u16, #[trigger] spec_u16_at(plain, 2 + 12 * e, is_le)),
                        )
                })
            }),
            (r is Ok && path@.len() > 0 && old(collector)@.contains_key(
                (sr2private_index, 0x7200u16),
            ) && old(collector)@.contains_key((sr2private_index, 0x7201u16)) && old(
                collector,
            )@.contains_key((sr2private_index, 0x7221u16))) ==> ({
                let is_le = old(self).is_le;
                let region_offset = spec_u32_at(
                    old(collector)@[(sr2private_index, 0x7200u16)].value@,
                    0,
                    is_le,
                );
                let region_len = spec_u32_at(
                    old(collector)@[(sr2private_index, 0x7201u16)].value@,
                    0,
                    is_le,
                );
                let key = spec_u32_at(
                    old(collector)@[(sr2private_index, 0x7221u16)].value@,
                    0,
                    is_le,
                );
                let plain = crate::sony::spec_sony_decrypt(
                    old(self).data@.subrange(
                        region_offset + old(self).addr_offset,
                        region_offset + old(self).addr_offset + region_len,
                    ),
                    key,
                    is_le,
                );
                spec_path_lookup(old(self).spec_paths(), path@) matches Some(pidx) ==> ({
                    let count = spec_u16_at(plain, 0, is_le) as int;
                    forall|e: int|
                        0 <= e < count ==> ({
                            let tag_e = #[trigger] spec_u16_at(plain, 2 + 12 * e, is_le);
                            spec_item_matches_entry(
                                plain,
                                is_le,
                                -(region_offset as int),
                                2 + 12 * spec_last_entry_with_tag(
                                    plain,
                                    is_le,
                                    0,
                                    count,
                                    tag_e,
                                ),
                                final(collector)@[(pidx as u16, tag_e)],
                            )
                        })
                })
            }),
            r matches Err(e) ==> e == Error::Io,
    {
        let found: Option<(u32, u32, u32)> = {
            let offset_ifd = collector.get(&(sr2private_index, 0x7200));
            let length_ifd = collector.get(&(sr2private_index, 0x7201));
            let key_ifd = collector.get(&(sr2private_index, 0x7221));
            match (offset_ifd, length_ifd, key_ifd) {
                (Some(o), Some(l), Some(k)) => Some(
                    (
                        read_u32(o.value.as_slice(), 0, self.is_le),
                        read_u32(l.value.as_slice(), 0, self.is_le),
                        read_u32(k.value.as_slice(), 0, self.is_le),
                    ),
                ),
                _ => None,
            }
        };
        match found {
            Some((offset, length, key)) => {
                self.seek_ab(offset)?;
                if length as u64 > usize::MAX as u64 {
                    return Err(Error::Io);
                }
                let sr2private_bytes = self.read_to_vec(length as usize)?;
                let decrypted = sony_decrypt(sr2private_bytes.as_slice(), key, self.is_le);
                let inner_paths = clone_paths(&self.paths);
                let mut inner = TiffParser {
                    is_le: self.is_le,
                    addr_offset: -(offset as i64),
                    data: decrypted.as_slice(),
                    pos: 0,
                    paths: inner_paths,
                };
                proof {
                    assert(inner.spec_paths() == self.spec_paths());
                    let n = sr2private_bytes@.len();
                    lemma_sony_words_len(
                        spec_pad(key),
                        127,
                        spec_words_of(sr2private_bytes@, self.is_le),
                    );
                    assert(decrypted@.len() == (n / 4) * 4);
                    assert((n / 4) * 4 <= n) by (nonlinear_arith);
                    assert(inner.wf());
                }
                let fuel = inner.data.len();
                let ghost pre = collector@;
                inner.parse_ifd(path, collector, fuel)?;
                proof {
                    lemma_extend_from_weaken(
                        self.is_le,
                        self.paths@.len() as int,
                        decrypted@,
                        pre,
                        collector@,
                    );
                }
                Ok(())
            },
            None => Ok(()),
        }
    }
}

} // verus!
