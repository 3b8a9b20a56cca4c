//! The rule-engine front end: interprets a rule tree over a byte buffer.
//!
//! Each block rule relocates a fresh sub-parser and runs its children there;
//! item rules read entry values or scalars at offsets and capture them in a
//! `ParsedInfo`. Before a group of rules that reads IFD entries runs, the
//! current IFD's entry table is indexed by tag so that repeated tag
//! references resolve without re-seeking.

use crate::bytes::{read_u16, read_u32, spec_u16_at, spec_u32_at};
use crate::parsed_info::ParsedInfo;
use crate::rule::{CondType, OffsetType, ParsingRule};
use crate::sony::sony_decrypt;
use crate::value::{spec_value_u32, Value};
use vstd::prelude::*;
use vstd::slice::slice_subrange;
use vstd::string::StringSliceAdditionalSpecFns;
use vstd::utf8::{decode_utf8, encode_utf8_decode_utf8, valid_utf8};

verus! {

/// What can go wrong while a rule tree runs.
#[derive(Debug, Clone, PartialEq)]
pub enum Error {
    /// A captured field was missing or refused to convert.
    RawInfoError(crate::parsed_info::Error),
    /// The two bytes at a TIFF frame position form neither `II` nor `MM`.
    InvalidTiffHeaderByteOrder(u16),
    /// A required tag did not appear in the current IFD.
    TagNotFound(u16),
    /// The rule tree does not start with a block rule.
    InvalidStartRule,
    /// A scan reached the end of the buffer without finding its marker.
    ScanFailed(&'static [u8]),
    /// A read would leave the buffer.
    Bounds,
}

/// Whether a rule reads the current IFD's entries, so that the entry table
/// must be cached before its group runs.
pub open spec fn spec_is_ifd_rule(r: ParsingRule) -> bool {
    match r {
        ParsingRule::Jump { .. } => true,
        ParsingRule::TagItem { .. } => true,
        ParsingRule::SonyDecrypt { .. } => true,
        _ => false,
    }
}

/// Whether any rule of the group reads the current IFD's entries.
pub open spec fn spec_group_reads_ifd(s: Seq<ParsingRule>) -> bool {
    exists|i: int| 0 <= i < s.len() && spec_is_ifd_rule(#[trigger] s[i])
}

/// The entry table the engine caches for the IFD at `pos`: one pair of tag
/// and entry position per 12-byte entry that lies wholly inside the buffer,
/// up to the entry count.
pub open spec fn spec_ifd_cache(buffer: Seq<u8>, pos: int, is_le: bool) -> Seq<(u16, usize)> {
    let count = spec_u16_at(buffer, pos, is_le) as int;
    let fit = (buffer.len() - pos - 2) / 12;
    let m = if count <= fit {
        count
    } else {
        fit
    };
    Seq::new(
        (if m >= 0 {
            m
        } else {
            0
        }) as nat,
        |k: int| (spec_u16_at(buffer, pos + 2 + 12 * k, is_le), (pos + 2 + 12 * k) as usize),
    )
}

/// Every `Scan` marker in the tree is non-empty.
pub open spec fn spec_rules_wf(s: Seq<ParsingRule>) -> bool
    decreases s,
{
    forall|i: int| 0 <= i < s.len() ==> spec_rule_wf(#[trigger] s[i])
}

/// Every `Scan` marker in the rule and below it is non-empty.
pub open spec fn spec_rule_wf(r: ParsingRule) -> bool
    decreases r,
{
    match r {
        ParsingRule::Tiff(v) => spec_rules_wf(v@),
        ParsingRule::Condition { cond, left, right } => spec_rules_wf(left@) && spec_rules_wf(
            right@,
        ),
        ParsingRule::Offset(_, v) => spec_rules_wf(v@),
        ParsingRule::Jump { tag, is_optional, rules } => spec_rules_wf(rules@),
        ParsingRule::JumpNext(v) => spec_rules_wf(v@),
        ParsingRule::Scan { marker, name, rules } => marker@.len() > 0 && spec_rules_wf(rules@),
        ParsingRule::SonyDecrypt { offset_tag, len_tag, key_tag, rules } => spec_rules_wf(rules@),
        ParsingRule::TagItem { .. } => true,
        ParsingRule::OffsetItem { .. } => true,
    }
}

/// Whether every scan marker of the group is non-empty.
pub fn rules_wf(s: &Vec<ParsingRule>) -> (b: bool)
    ensures
        b == spec_rules_wf(s@),
    decreases s@, 0nat,
{
    let n = s.len();
    let mut i: usize = 0;
    while i < n
        invariant
            i <= n,
            n == s@.len(),
            forall|j: int| 0 <= j < i ==> spec_rule_wf(#[trigger] s@[j]),
        decreases n - i,
    {
        if !rule_wf(&s[i]) {
            proof {
                assert(!spec_rule_wf(s@[i as int]));
            }
            return false;
        }
        i = i + 1;
    }
    true
}

/// Whether every scan marker of the rule and below it is non-empty, as the
/// engine requires of the trees it runs.
pub fn rule_wf(r: &ParsingRule) -> (b: bool)
    ensures
        b == spec_rule_wf(*r),
    decreases *r, 1nat,
{
    match r {
        ParsingRule::Tiff(v) => rules_wf(v),
        ParsingRule::Condition { cond, left, right } => rules_wf(left) && rules_wf(right),
        ParsingRule::Offset(_, v) => rules_wf(v),
        ParsingRule::Jump { tag, is_optional, rules } => rules_wf(rules),
        ParsingRule::JumpNext(v) => rules_wf(v),
        ParsingRule::Scan { marker, name, rules } => marker.len() > 0 && rules_wf(rules),
        ParsingRule::SonyDecrypt { offset_tag, len_tag, key_tag, rules } => rules_wf(rules),
        ParsingRule::TagItem { .. } => true,
        ParsingRule::OffsetItem { .. } => true,
    }
}

/// The position of the first byte equal to zero at or after `i`, or the end.
pub open spec fn spec_text_end(b: Seq<u8>, i: int) -> int
    decreases b.len() - i,
{
    if i < 0 || i >= b.len() {
        b.len() as int
    } else if b[i] == 0 {
        i
    } else {
        spec_text_end(b, i + 1)
    }
}

/// An ASCII whitespace byte, as `str::trim` strips them.
pub open spec fn spec_is_ascii_ws(x: u8) -> bool {
    x == 9 || x == 10 || x == 11 || x == 12 || x == 13 || x == 32
}

/// The start of `b[i..j]` after leading ASCII whitespace.
pub open spec fn spec_trim_start(b: Seq<u8>, i: int, j: int) -> int
    decreases j - i,
{
    if i >= j {
        j
    } else if spec_is_ascii_ws(b[i]) {
        spec_trim_start(b, i + 1, j)
    } else {
        i
    }
}

/// The end of `b[i..j]` before trailing ASCII whitespace.
pub open spec fn spec_trim_end(b: Seq<u8>, i: int, j: int) -> int
    decreases j - i,
{
    if i >= j {
        i
    } else if spec_is_ascii_ws(b[j - 1]) {
        spec_trim_end(b, i, j - 1)
    } else {
        j
    }
}

/// The first position at or after `at` where the marker bytes occur,
/// scanning one byte at a time; `None` when they never do.
pub open spec fn spec_find_window(data: Seq<u8>, at: int, marker: Seq<u8>) -> Option<int>
    decreases data.len() - at,
{
    if at < 0 || marker.len() == 0 || at + marker.len() > data.len() {
        None
    } else if data.subrange(at, at + marker.len()) == marker {
        Some(at)
    } else {
        spec_find_window(data, at + 1, marker)
    }
}

/// Whether an offset-scalar read of the type of `t` at `offset` elements
/// past `cur` succeeds: the arithmetic fits and the scalar lies in bounds; a
/// text scalar must further decode as UTF-8 after the NUL cut and the trim.
pub open spec fn spec_offset_read_ok(buffer: Seq<u8>, cur: int, offset: int, t: Value) -> bool {
    let base = cur + offset * crate::value::spec_value_size(t);
    &&& offset * crate::value::spec_value_size(t) <= usize::MAX
    &&& base <= usize::MAX
    &&& match t {
        Value::U16(_) => base + 2 <= buffer.len(),
        Value::U32(_) => base + 4 <= buffer.len(),
        Value::R64(_, _) => base + 8 <= buffer.len(),
        Value::Str(_) => ({
            let e = spec_text_end(buffer, base);
            let lo = spec_trim_start(buffer, base, e);
            let hi = spec_trim_end(buffer, lo, e);
            base <= buffer.len() && valid_utf8(buffer.subrange(lo, hi))
        }),
    }
}

/// What an offset-scalar read of the type of `t` returns: the integer or
/// rational at the computed position, or the text up to the first NUL with
/// ASCII whitespace trimmed.
pub open spec fn spec_offset_value_matches(
    buffer: Seq<u8>,
    cur: int,
    offset: int,
    t: Value,
    is_le: bool,
    v: Value,
) -> bool {
    let base = cur + offset * crate::value::spec_value_size(t);
    match t {
        Value::U16(_) => v == Value::U16(spec_u16_at(buffer, base, is_le)) && base + 2
            <= buffer.len(),
        Value::U32(_) => v == Value::U32(spec_u32_at(buffer, base, is_le)) && base + 4
            <= buffer.len(),
        Value::R64(_, _) => v == Value::R64(
            spec_u32_at(buffer, base, is_le) as i32,
            spec_u32_at(buffer, base + 4, is_le),
        ) && base + 8 <= buffer.len(),
        Value::Str(_) => ({
            let e = spec_text_end(buffer, base);
            let lo = spec_trim_start(buffer, base, e);
            let hi = spec_trim_end(buffer, lo, e);
            let text = buffer.subrange(lo, hi);
            &&& base <= buffer.len()
            &&& valid_utf8(text)
            &&& v matches Value::Str(s) && s@ == decode_utf8(text)
        }),
    }
}

/// The rule engine's state over one buffer frame.
pub(crate) struct Parser<'a> {
    /// The byte order of the enclosing TIFF frame.
    pub is_le: bool,
    /// The frame's bytes; rule offsets are relative to its start.
    pub buffer: &'a [u8],
    /// The current offset inside the frame.
    pub offset: usize,
    /// The cached entry table of the current IFD: tag and the position of
    /// the tag's 12-byte entry in the buffer.
    pub entries: Vec<(u16, usize)>,
    /// The next-IFD offset captured from the current IFD's trailer.
    pub next_offset: usize,
}

/// The dense position of a tag in a cached entry table: the highest list
/// position holding it, as a later entry of the same tag shadows an earlier.
pub open spec fn spec_entry_lookup(s: Seq<(u16, usize)>, tag: u16) -> Option<usize>
    decreases s.len(),
{
    if s.len() == 0 {
        None
    } else if s.last().0 == tag {
        Some(s.last().1)
    } else {
        spec_entry_lookup(s.drop_last(), tag)
    }
}

/// When no entry at position `from` or later carries the tag, the lookup
/// over the whole list equals the lookup over the prefix before `from`.
proof fn lemma_entry_lookup_prefix(s: Seq<(u16, usize)>, tag: u16, from: int)
    requires
        0 <= from <= s.len(),
        forall|j: int| from <= j < s.len() ==> (#[trigger] s[j]).0 != tag,
    ensures
        spec_entry_lookup(s, tag) == spec_entry_lookup(s.take(from), tag),
    decreases s.len() - from,
{
    if from < s.len() {
        lemma_entry_lookup_prefix(s, tag, from + 1);
        let pre = s.take(from + 1);
        assert(pre.last() == s[from]);
        assert(pre.drop_last() =~= s.take(from));
    } else {
        assert(s.take(from) =~= s);
    }
}

impl<'a> Parser<'a> {
    /// Every cached entry lies wholly inside the buffer.
    pub(crate) open spec fn wf(&self) -> bool {
        forall|i: int|
            0 <= i < self.entries@.len() ==> (#[trigger] self.entries@[i]).1 + 12
                <= self.buffer@.len()
    }

    /// Reads a 16-bit integer of the frame's byte order at `start`.
    pub(crate) fn buf_u16(&self, start: usize) -> (r: Result<u16, Error>)
        ensures
            r is Ok <==> start + 2 <= self.buffer@.len(),
            r matches Ok(v) ==> v == spec_u16_at(self.buffer@, start as int, self.is_le),
            r is Err ==> r == Err::<u16, Error>(Error::Bounds),
    {
        if self.buffer.len() >= 2 && start <= self.buffer.len() - 2 {
            Ok(read_u16(self.buffer, start, self.is_le))
        } else {
            Err(Error::Bounds)
        }
    }

    /// Reads a 32-bit integer of the frame's byte order at `start`.
    pub(crate) fn buf_u32(&self, start: usize) -> (r: Result<u32, Error>)
        ensures
            r is Ok <==> start + 4 <= self.buffer@.len(),
            r matches Ok(v) ==> v == spec_u32_at(self.buffer@, start as int, self.is_le),
            r is Err ==> r == Err::<u32, Error>(Error::Bounds),
    {
        if self.buffer.len() >= 4 && start <= self.buffer.len() - 4 {
            Ok(read_u32(self.buffer, start, self.is_le))
        } else {
            Err(Error::Bounds)
        }
    }

    /// Whether the two bytes at `start` declare a little-endian TIFF frame.
    pub(crate) fn is_byte_order_le(buffer: &[u8], start: usize) -> (r: Result<bool, Error>)
        ensures
            start + 2 > buffer@.len() ==> r == Err::<bool, Error>(Error::Bounds),
            start + 2 <= buffer@.len() ==> ({
                let v = spec_u16_at(buffer@, start as int, true);
                if v == 0x4949 {
                    r == Ok::<bool, Error>(true)
                } else if v == 0x4d4d {
                    r == Ok::<bool, Error>(false)
                } else {
                    r == Err::<bool, Error>(Error::InvalidTiffHeaderByteOrder(v))
                }
            }),
    {
        if buffer.len() < 2 || start > buffer.len() - 2 {
            return Err(Error::Bounds);
        }
        let byte_order = read_u16(buffer, start, true);
        if byte_order == 0x4949 {
            Ok(true)
        } else if byte_order == 0x4d4d {
            Ok(false)
        } else {
            Err(Error::InvalidTiffHeaderByteOrder(byte_order))
        }
    }

    /// The position of the cached entry of a tag, if the current IFD has it.
    fn entry_of(&self, tag: u16) -> (r: Option<usize>)
        requires
            self.wf(),
        ensures
            r == spec_entry_lookup(self.entries@, tag),
            r matches Some(e) ==> e + 12 <= self.buffer@.len(),
    {
        let ghost s = self.entries@;
        let mut i: usize = self.entries.len();
        while i > 0
            invariant
                self.wf(),
                s == self.entries@,
                i <= s.len(),
                forall|j: int| i <= j < s.len() ==> (#[trigger] s[j]).0 != tag,
            decreases i,
        {
            i = i - 1;
            if self.entries[i].0 == tag {
                proof {
                    lemma_entry_lookup_prefix(s, tag, i as int + 1);
                    assert(s.take(i as int + 1).last() == s[i as int]);
                    assert(s.take(i as int + 1).last().0 == tag);
                }
                return Some(self.entries[i].1);
            }
        }
        proof {
            lemma_entry_lookup_prefix(s, tag, 0);
            assert(s.take(0) =~= Seq::<(u16, usize)>::empty());
        }
        None
    }

    /// The 32-bit value inside a tag's cached entry, at `custom_offset`
    /// bytes into the 12-byte entry (the value field at 8 when not given).
    pub(crate) fn read_u32value_from_entries(&self, tag: u16, custom_offset: Option<usize>) -> (r:
        Result<u32, Error>)
        requires
            self.wf(),
            custom_offset matches Some(o) ==> o <= 8,
        ensures
            ({
                let off = if custom_offset is Some {
                    custom_offset.unwrap() as int
                } else {
                    8
                };
                match spec_entry_lookup(self.entries@, tag) {
                    Some(e) => r == Ok::<u32, Error>(
                        spec_u32_at(self.buffer@, e + off, self.is_le),
                    ),
                    None => r == Err::<u32, Error>(Error::TagNotFound(tag)),
                }
            }),
    {
        let _len = self.buffer.len();
        match self.entry_of(tag) {
            Some(e) => {
                let off = match custom_offset {
                    Some(o) => o,
                    None => 8,
                };
                Ok(read_u32(self.buffer, e + off, self.is_le))
            },
            None => Err(Error::TagNotFound(tag)),
        }
    }

    /// The 16-bit value inside a tag's cached entry.
    pub(crate) fn read_u16value_from_entries(&self, tag: u16, custom_offset: Option<usize>) -> (r:
        Result<u16, Error>)
        requires
            self.wf(),
            custom_offset matches Some(o) ==> o <= 8,
        ensures
            ({
                let off = if custom_offset is Some {
                    custom_offset.unwrap() as int
                } else {
                    8
                };
                match spec_entry_lookup(self.entries@, tag) {
                    Some(e) => r == Ok::<u16, Error>(
                        spec_u16_at(self.buffer@, e + off, self.is_le),
                    ),
                    None => r == Err::<u16, Error>(Error::TagNotFound(tag)),
                }
            }),
    {
        let _len = self.buffer.len();
        match self.entry_of(tag) {
            Some(e) => {
                let off = match custom_offset {
                    Some(o) => o,
                    None => 8,
                };
                Ok(read_u16(self.buffer, e + off, self.is_le))
            },
            None => Err(Error::TagNotFound(tag)),
        }
    }

    /// Reads a scalar of the type of `t` at `offset` elements (of that
    /// type's size) past the current offset. A text scalar runs to the first
    /// NUL or the buffer's end, is trimmed of ASCII whitespace, and must be
    /// valid UTF-8.
    pub(crate) fn read_value_from_offset(&self, offset: usize, t: &Value) -> (r: Result<
        Value,
        Error,
    >)
        ensures
            r is Ok <==> spec_offset_read_ok(self.buffer@, self.offset as int, offset as int, *t),
            r matches Ok(v) ==> spec_offset_value_matches(
                self.buffer@,
                self.offset as int,
                offset as int,
                *t,
                self.is_le,
                v,
            ),
            r is Err ==> (r == Err::<Value, Error>(Error::Bounds) || r == Err::<Value, Error>(
                Error::RawInfoError(
                    crate::parsed_info::Error::InvalidValue(
                        crate::value::Error::ValueTypeIsNotDesired("String"),
                    ),
                ),
            )),
    {
        let size = t.size();
        let elem = match offset.checked_mul(size) {
            Some(x) => x,
            None => {
                return Err(Error::Bounds);
            },
        };
        let base = match self.offset.checked_add(elem) {
            Some(x) => x,
            None => {
                return Err(Error::Bounds);
            },
        };
        match t {
            Value::U16(_) => {
                let v = self.buf_u16(base)?;
                Ok(Value::U16(v))
            },
            Value::U32(_) => {
                let v = self.buf_u32(base)?;
                Ok(Value::U32(v))
            },
            Value::R64(_, _) => {
                if self.buffer.len() < 8 || base > self.buffer.len() - 8 {
                    return Err(Error::Bounds);
                }
                let num = self.buf_u32(base)?;
                let den = self.buf_u32(base + 4)?;
                Ok(Value::R64(num as i32, den))
            },
            Value::Str(_) => {
                if base > self.buffer.len() {
                    return Err(Error::Bounds);
                }
                let mut e: usize = base;
                while e < self.buffer.len() && self.buffer[e] != 0
                    invariant
                        base <= e <= self.buffer@.len(),
                        spec_text_end(self.buffer@, base as int) == spec_text_end(
                            self.buffer@,
                            e as int,
                        ),
                    decreases self.buffer@.len() - e,
                {
                    e = e + 1;
                }
                proof {
                    assert(spec_text_end(self.buffer@, e as int) == e);
                }
                let mut lo: usize = base;
                while lo < e && is_ascii_ws(self.buffer[lo])
                    invariant
                        base <= lo <= e <= self.buffer@.len(),
                        spec_trim_start(self.buffer@, base as int, e as int) == spec_trim_start(
                            self.buffer@,
                            lo as int,
                            e as int,
                        ),
                    decreases e - lo,
                {
                    lo = lo + 1;
                }
                proof {
                    assert(spec_trim_start(self.buffer@, lo as int, e as int) == lo);
                }
                let mut hi: usize = e;
                while hi > lo && is_ascii_ws(self.buffer[hi - 1])
                    invariant
                        lo <= hi <= e <= self.buffer@.len(),
                        spec_trim_end(self.buffer@, lo as int, e as int) == spec_trim_end(
                            self.buffer@,
                            lo as int,
                            hi as int,
                        ),
                    decreases hi,
                {
                    hi = hi - 1;
                }
                proof {
                    assert(spec_trim_end(self.buffer@, lo as int, hi as int) == hi);
                }
                let text = slice_subrange(self.buffer, lo, hi);
                match crate::ifd::str_from_utf8(text) {
                    Some(s) => {
                        proof {
                            encode_utf8_decode_utf8(s@);
                        }
                        Ok(Value::Str(s.to_owned()))
                    },
                    None => Err(
                        Error::RawInfoError(
                            crate::parsed_info::Error::InvalidValue(
                                crate::value::Error::ValueTypeIsNotDesired("String"),
                            ),
                        ),
                    ),
                }
            },
        }
    }
}

/// A run of the rules may add captured fields, never drop one.
pub open spec fn fields_extended(pre: Map<Seq<char>, Value>, post: Map<Seq<char>, Value>) -> bool {
    forall|k: Seq<char>| pre.contains_key(k) ==> #[trigger] post.contains_key(k)
}

/// Whether some rule of the group unconditionally captures a field named `n`.
pub open spec fn spec_captures_in(s: Seq<ParsingRule>, n: Seq<char>) -> bool
    decreases s,
{
    exists|j: int| 0 <= j < s.len() && spec_captures(#[trigger] s[j], n)
}

/// Whether the rule unconditionally captures a field named `n`: item rules
/// name their captures, a scan its recorded position, and block rules pass
/// their children's captures on - except a condition, whose branch is not
/// known, and optional items, which may be skipped.
pub open spec fn spec_captures(r: ParsingRule, n: Seq<char>) -> bool
    decreases r,
{
    match r {
        ParsingRule::Tiff(v) => spec_captures_in(v@, n),
        ParsingRule::Condition { cond, left, right } => false,
        ParsingRule::Offset(_, v) => spec_captures_in(v@, n),
        ParsingRule::Jump { tag, is_optional, rules } => !is_optional && spec_captures_in(
            rules@,
            n,
        ),
        ParsingRule::JumpNext(v) => spec_captures_in(v@, n),
        ParsingRule::Scan { marker, name, rules } => (name matches Some(m) && m@ == n)
            || spec_captures_in(rules@, n),
        ParsingRule::SonyDecrypt { offset_tag, len_tag, key_tag, rules } => spec_captures_in(
            rules@,
            n,
        ),
        ParsingRule::TagItem { tag, name, len, is_optional, is_value_u16 } => !is_optional && (
        name@ == n || (len matches Some(l) && l@ == n)),
        ParsingRule::OffsetItem { offset, name, t } => name@ == n,
    }
}

/// Whether some rule of the group may capture a field named `n` on any path.
pub open spec fn spec_may_capture_in(s: Seq<ParsingRule>, n: Seq<char>) -> bool
    decreases s,
{
    exists|j: int| 0 <= j < s.len() && spec_may_capture(#[trigger] s[j], n)
}

/// Whether the rule may capture a field named `n` on any path: every name
/// that it, or any rule below it, could insert.
pub open spec fn spec_may_capture(r: ParsingRule, n: Seq<char>) -> bool
    decreases r,
{
    match r {
        ParsingRule::Tiff(v) => spec_may_capture_in(v@, n),
        ParsingRule::Condition { cond, left, right } => spec_may_capture_in(left@, n)
            || spec_may_capture_in(right@, n),
        ParsingRule::Offset(_, v) => spec_may_capture_in(v@, n),
        ParsingRule::Jump { tag, is_optional, rules } => spec_may_capture_in(rules@, n),
        ParsingRule::JumpNext(v) => spec_may_capture_in(v@, n),
        ParsingRule::Scan { marker, name, rules } => (name matches Some(m) && m@ == n)
            || spec_may_capture_in(rules@, n),
        ParsingRule::SonyDecrypt { offset_tag, len_tag, key_tag, rules } => spec_may_capture_in(
            rules@,
            n,
        ),
        ParsingRule::TagItem { tag, name, len, is_optional, is_value_u16 } => name@ == n || (
        len matches Some(l) && l@ == n),
        ParsingRule::OffsetItem { offset, name, t } => name@ == n,
    }
}

/// A run of the rule binds no name it may not capture: every other name
/// keeps its presence and its value.
pub open spec fn fields_unchanged_outside_rule(
    r: ParsingRule,
    pre: Map<Seq<char>, Value>,
    post: Map<Seq<char>, Value>,
) -> bool {
    forall|n: Seq<char>|
        !(#[trigger] spec_may_capture(r, n)) ==> ((post.contains_key(n) <==> pre.contains_key(n))
            && (pre.contains_key(n) ==> post[n] == pre[n]))
}

/// A run of the group binds no name it may not capture.
pub open spec fn fields_unchanged_outside(
    s: Seq<ParsingRule>,
    pre: Map<Seq<char>, Value>,
    post: Map<Seq<char>, Value>,
) -> bool {
    forall|n: Seq<char>|
        !(#[trigger] spec_may_capture_in(s, n)) ==> ((post.contains_key(n) <==> pre.contains_key(
            n,
        )) && (pre.contains_key(n) ==> post[n] == pre[n]))
}

/// No rule of the group other than the one at `j` may capture `n`.
pub open spec fn spec_name_solo(s: Seq<ParsingRule>, j: int, n: Seq<char>) -> bool {
    forall|k: int| 0 <= k < s.len() && k != j ==> !spec_may_capture(#[trigger] s[k], n)
}

/// What the item rule at position `j` of a group run over the frame
/// `(buffer, cur)` with the cached `entries` leaves in the captured fields,
/// for every name that no other rule of the group may capture: a tag item
/// binds its name to the entry's value field (and its length name to the
/// count field), an offset item binds its name to the scalar at its offset.
pub open spec fn spec_rule_item_pinned(
    buffer: Seq<u8>,
    cur: int,
    is_le: bool,
    entries: Seq<(u16, usize)>,
    rules: Seq<ParsingRule>,
    j: int,
    post: Map<Seq<char>, Value>,
) -> bool {
    match rules[j] {
        ParsingRule::TagItem { tag, name, len, is_optional, is_value_u16 } => {
            &&& ((spec_name_solo(rules, j, name@) && (len is None || len.unwrap()@ != name@))
                ==> (spec_entry_lookup(entries, tag) matches Some(e) ==> (post.contains_key(
                name@,
            ) && post[name@] == (if is_value_u16 {
                Value::U16(spec_u16_at(buffer, e + 8, is_le))
            } else {
                Value::U32(spec_u32_at(buffer, e + 8, is_le))
            }))))
            &&& (len matches Some(l) ==> (spec_name_solo(rules, j, l@) ==> (spec_entry_lookup(
                entries,
                tag,
            ) matches Some(e) ==> (post.contains_key(l@) && post[l@] == Value::U32(
                spec_u32_at(buffer, e + 4, is_le),
            )))))
        },
        ParsingRule::OffsetItem { offset, name, t } => (spec_name_solo(rules, j, name@) ==> (
        post.contains_key(name@) && spec_offset_value_matches(
            buffer,
            cur,
            offset as int,
            t,
            is_le,
            post[name@],
        ))),
        _ => true,
    }
}

/// Every item rule of the group is pinned as `spec_rule_item_pinned` says.
pub open spec fn spec_group_items_pinned(
    buffer: Seq<u8>,
    cur: int,
    is_le: bool,
    entries: Seq<(u16, usize)>,
    rules: Seq<ParsingRule>,
    post: Map<Seq<char>, Value>,
) -> bool {
    forall|j: int|
        0 <= j < rules.len() ==> #[trigger] spec_rule_item_pinned(
            buffer,
            cur,
            is_le,
            entries,
            rules,
            j,
            post,
        )
}

/// The group ran over the frame that begins at `start` of `buffer`: when it
/// reads IFD entries, the table at `start` was cached and the cursor stands
/// past the entry count; else the cursor stands at `start` with no entries.
pub open spec fn spec_group_frame_pinned(
    buffer: Seq<u8>,
    start: int,
    is_le: bool,
    rules: Seq<ParsingRule>,
    post: Map<Seq<char>, Value>,
) -> bool {
    if spec_group_reads_ifd(rules) {
        spec_group_items_pinned(
            buffer,
            start + 2,
            is_le,
            spec_ifd_cache(buffer, start, is_le),
            rules,
            post,
        )
    } else {
        spec_group_items_pinned(buffer, start, is_le, Seq::<(u16, usize)>::empty(), rules, post)
    }
}

/// Whether any rule of the group reads the current IFD's entries.
fn is_rules_in_ifd(rules: &Vec<ParsingRule>) -> (r: bool)
    ensures
        r <==> exists|i: int| 0 <= i < rules@.len() && spec_is_ifd_rule(#[trigger] rules@[i]),
{
    let n = rules.len();
    let mut i: usize = 0;
    while i < n
        invariant
            i <= n,
            n == rules@.len(),
            forall|j: int| 0 <= j < i ==> !spec_is_ifd_rule(#[trigger] rules@[j]),
        decreases n - i,
    {
        let hit = match &rules[i] {
            ParsingRule::Jump { .. } => true,
            ParsingRule::TagItem { .. } => true,
            ParsingRule::SonyDecrypt { .. } => true,
            _ => false,
        };
        if hit {
            proof {
                assert(spec_is_ifd_rule(rules@[i as int]));
            }
            return true;
        }
        i = i + 1;
    }
    false
}

/// Whether the marker bytes stand at `p`.
fn window_eq(data: &[u8], p: usize, marker: &[u8]) -> (r: bool)
    requires
        p + marker@.len() <= data@.len(),
    ensures
        r <==> data@.subrange(p as int, p + marker@.len()) == marker@,
{
    let m = marker.len();
    let dn = data.len();
    let mut j: usize = 0;
    while j < m
        invariant
            j <= m,
            m == marker@.len(),
            p + m <= data@.len(),
            data@.len() <= usize::MAX,
            forall|t: int| 0 <= t < j ==> data@[p + t] == marker@[t],
        decreases m - j,
    {
        if data[p + j] != marker[j] {
            proof {
                assert(data@.subrange(p as int, p + marker@.len())[j as int] != marker@[
                    j as int]);
            }
            return false;
        }
        j = j + 1;
    }
    proof {
        assert(data@.subrange(p as int, p + marker@.len()) =~= marker@);
    }
    true
}

/// Scans one byte at a time from `at` for the marker.
fn find_window(data: &[u8], at: usize, marker: &[u8]) -> (r: Option<usize>)
    requires
        marker@.len() > 0,
    ensures
        r matches Some(p) ==> Some(p as int) == spec_find_window(data@, at as int, marker@) && p
            + marker@.len() <= data@.len(),
        r is None ==> spec_find_window(data@, at as int, marker@) is None,
{
    let n = data.len();
    let m = marker.len();
    if at > n || m > n - at {
        return None;
    }
    let mut p: usize = at;
    while m <= n - p
        invariant
            at <= p <= n,
            n == data@.len(),
            m == marker@.len(),
            0 < m,
            spec_find_window(data@, at as int, marker@) == spec_find_window(
                data@,
                p as int,
                marker@,
            ),
        decreases n - p,
    {
        if window_eq(data, p, marker) {
            return Some(p);
        }
        p = p + 1;
    }
    None
}

impl<'a> Parser<'a> {
    /// Caches one IFD entry; a later entry of the same tag shadows an
    /// earlier one, as the walk reads the table back to front.
    fn entries_insert(&mut self, tag: u16, off: usize)
        requires
            old(self).wf(),
            off + 12 <= old(self).buffer@.len(),
        ensures
            final(self).wf(),
            final(self).is_le == old(self).is_le,
            final(self).buffer == old(self).buffer,
            final(self).offset == old(self).offset,
            final(self).next_offset == old(self).next_offset,
            final(self).entries@ == old(self).entries@.push((tag, off)),
    {
        self.entries.push((tag, off));
    }

    /// Runs a group of rules at the current offset. When any of them reads
    /// IFD entries, the current IFD's entry table is cached first: its entry
    /// count, then one 12-byte entry per count as far as they fit, then the
    /// next-IFD offset from the trailer.
    pub(crate) fn run_remain_rules(&mut self, rules: &Vec<ParsingRule>, content: &mut ParsedInfo) -> (r:
        Result<(), Error>)
        requires
            old(self).wf(),
            spec_rules_wf(rules@),
            old(content).wf(),
        ensures
            final(self).wf(),
            final(self).is_le == old(self).is_le,
            final(self).buffer == old(self).buffer,
            final(content).wf(),
            final(content).is_le == old(content).is_le,
            fields_extended(old(content)@, final(content)@),
            fields_unchanged_outside(rules@, old(content)@, final(content)@),
            r is Ok ==> forall|n: Seq<char>|
                spec_captures_in(rules@, n) ==> final(content)@.contains_key(n),
            rules@.len() == 0 ==> (r == Ok::<(), Error>(()) && final(content)@ == old(content)@),
            !spec_group_reads_ifd(rules@) ==> (final(self).offset == old(self).offset
                && final(self).entries@ == old(self).entries@ && final(self).next_offset == old(
                self,
            ).next_offset),
            (r is Ok && spec_group_reads_ifd(rules@)) ==> ({
                let pos = old(self).offset as int;
                let count = spec_u16_at(old(self).buffer@, pos, old(self).is_le) as int;
                &&& pos + 2 <= old(self).buffer@.len()
                &&& final(self).offset == pos + 2
                &&& final(self).entries@ == old(self).entries@ + spec_ifd_cache(
                    old(self).buffer@,
                    pos,
                    old(self).is_le,
                )
                &&& pos + 2 + 12 * count + 4 <= old(self).buffer@.len()
                &&& final(self).next_offset == spec_u32_at(
                    old(self).buffer@,
                    pos + 2 + 12 * count,
                    old(self).is_le,
                )
            }),
            r is Ok ==> spec_group_items_pinned(
                old(self).buffer@,
                final(self).offset as int,
                old(self).is_le,
                final(self).entries@,
                rules@,
                final(content)@,
            ),
            (r is Ok && old(self).entries@ == Seq::<(u16, usize)>::empty())
                ==> spec_group_frame_pinned(
                old(self).buffer@,
                old(self).offset as int,
                old(self).is_le,
                rules@,
                final(content)@,
            ),
        decreases rules@, 1nat,
    {
        let ghost pos0 = self.offset as int;
        if is_rules_in_ifd(rules) {
            let n = self.buffer.len();
            let entry_count = self.buf_u16(self.offset)? as usize;
            self.offset = self.offset + 2;
            let remaining = n - self.offset;
            let mut k: usize = 0;
            while k < entry_count && 12 * k + 12 <= remaining
                invariant
                    self.wf(),
                    self.is_le == old(self).is_le,
                    self.buffer == old(self).buffer,
                    entry_count <= 0xffff,
                    entry_count == spec_u16_at(old(self).buffer@, pos0, old(self).is_le),
                    k <= entry_count,
                    n == self.buffer@.len(),
                    remaining == n - self.offset,
                    self.offset == pos0 + 2,
                    self.offset <= n,
                    self.next_offset == old(self).next_offset,
                    12 * k <= remaining,
                    self.entries@ == old(self).entries@ + Seq::new(
                        k as nat,
                        |kk: int|
                            (
                                spec_u16_at(old(self).buffer@, pos0 + 2 + 12 * kk, old(self).is_le),
                                (pos0 + 2 + 12 * kk) as usize,
                            ),
                    ),
                decreases entry_count - k,
            {
                let off = self.offset + 12 * k;
                let tag = read_u16(self.buffer, off, self.is_le);
                self.entries_insert(tag, off);
                proof {
                    assert(self.entries@ =~= old(self).entries@ + Seq::new(
                        (k + 1) as nat,
                        |kk: int|
                            (
                                spec_u16_at(old(self).buffer@, pos0 + 2 + 12 * kk, old(self).is_le),
                                (pos0 + 2 + 12 * kk) as usize,
                            ),
                    ));
                }
                k = k + 1;
            }
            proof {
                let blen = old(self).buffer@.len() as int;
                let count = entry_count as int;
                let fit = (blen - pos0 - 2) / 12;
                if k == entry_count {
                    assert(count <= fit) by (nonlinear_arith)
                        requires
                            12 * count <= blen - pos0 - 2,
                            fit == (blen - pos0 - 2) / 12,
                    ;
                } else {
                    assert(k as int == fit) by (nonlinear_arith)
                        requires
                            12 * (k as int) <= blen - pos0 - 2,
                            blen - pos0 - 2 < 12 * (k as int) + 12,
                            fit == (blen - pos0 - 2) / 12,
                    ;
                }
                assert(self.entries@ =~= old(self).entries@ + spec_ifd_cache(
                    old(self).buffer@,
                    pos0,
                    old(self).is_le,
                ));
            }
            let trailer = match 12usize.checked_mul(entry_count) {
                Some(x) => match self.offset.checked_add(x) {
                    Some(t) => t,
                    None => {
                        return Err(Error::Bounds);
                    },
                },
                None => {
                    return Err(Error::Bounds);
                },
            };
            self.next_offset = self.buf_u32(trailer)? as usize;
        }
        self.run_rules_list(rules, content)?;
        proof {
            if old(self).entries@ =~= Seq::<(u16, usize)>::empty() {
                if spec_group_reads_ifd(rules@) {
                    assert(self.entries@ =~= spec_ifd_cache(
                        old(self).buffer@,
                        pos0,
                        old(self).is_le,
                    ));
                }
            }
        }
        Ok(())
    }

    /// Runs each rule of a group in order, in the current frame and entry
    /// context.
    fn run_rules_list(&self, rules: &Vec<ParsingRule>, content: &mut ParsedInfo) -> (r: Result<
        (),
        Error,
    >)
        requires
            self.wf(),
            spec_rules_wf(rules@),
            old(content).wf(),
        ensures
            final(content).wf(),
            final(content).is_le == old(content).is_le,
            fields_extended(old(content)@, final(content)@),
            fields_unchanged_outside(rules@, old(content)@, final(content)@),
            r is Ok ==> forall|n: Seq<char>|
                spec_captures_in(rules@, n) ==> final(content)@.contains_key(n),
            r is Ok ==> spec_group_items_pinned(
                self.buffer@,
                self.offset as int,
                self.is_le,
                self.entries@,
                rules@,
                final(content)@,
            ),
            rules@.len() == 0 ==> (r == Ok::<(), Error>(()) && final(content)@ == old(content)@),
        decreases rules@, 0nat,
    {
        let n = rules.len();
        if n == 0 {
            return Ok(());
        }
        let mut i: usize = 0;
        while i < n
            invariant
                self.wf(),
                spec_rules_wf(rules@),
                content.wf(),
                content.is_le == old(content).is_le,
                fields_extended(old(content)@, content@),
                fields_unchanged_outside(rules@, old(content)@, content@),
                forall|m: Seq<char>, j: int|
                    0 <= j < i && #[trigger] spec_captures(rules@[j], m)
                        ==> content@.contains_key(m),
                forall|j: int|
                    0 <= j < i ==> #[trigger] spec_rule_item_pinned(
                        self.buffer@,
                        self.offset as int,
                        self.is_le,
                        self.entries@,
                        rules@,
                        j,
                        content@,
                    ),
                i <= n,
                n == rules@.len(),
            decreases n - i,
        {
            proof {
                assert(spec_rule_wf(rules@[i as int]));
            }
            let ghost pre = content@;
            let res = self.run_rule_body(&rules[i], content);
            proof {
                assert forall|m: Seq<char>|
                    !(#[trigger] spec_may_capture_in(rules@, m)) implies ((
                content@.contains_key(m) <==> old(content)@.contains_key(m)) && (old(
                    content,
                )@.contains_key(m) ==> content@[m] == old(content)@[m])) by {
                    assert(!spec_may_capture(rules@[i as int], m));
                }
            }
            if let Err(er) = res {
                return Err(er);
            }
            proof {
                assert forall|m: Seq<char>, j: int|
                    0 <= j < i + 1 && #[trigger] spec_captures(rules@[j], m)
                        implies content@.contains_key(m) by {
                    if j < i {
                        assert(pre.contains_key(m));
                    }
                }
                assert forall|j: int|
                    0 <= j < i + 1 implies #[trigger] spec_rule_item_pinned(
                    self.buffer@,
                    self.offset as int,
                    self.is_le,
                    self.entries@,
                    rules@,
                    j,
                    content@,
                ) by {
                    if j < i {
                        assert(spec_rule_item_pinned(
                            self.buffer@,
                            self.offset as int,
                            self.is_le,
                            self.entries@,
                            rules@,
                            j,
                            pre,
                        ));
                        match rules@[j] {
                            ParsingRule::TagItem { tag, name, len, is_optional, is_value_u16 } => {
                                if spec_name_solo(rules@, j, name@) {
                                    assert(!spec_may_capture(rules@[i as int], name@));
                                }
                                match len {
                                    Some(l) => {
                                        if spec_name_solo(rules@, j, l@) {
                                            assert(!spec_may_capture(rules@[i as int], l@));
                                        }
                                    },
                                    None => {},
                                }
                            },
                            ParsingRule::OffsetItem { offset, name, t } => {
                                if spec_name_solo(rules@, j, name@) {
                                    assert(!spec_may_capture(rules@[i as int], name@));
                                }
                            },
                            _ => {},
                        }
                    }
                }
            }
            i = i + 1;
        }
        proof {
            assert forall|m: Seq<char>| spec_captures_in(rules@, m) implies content@.contains_key(
                m,
            ) by {
                let j = choose|j: int| 0 <= j < rules@.len() && spec_captures(rules@[j], m);
                assert(spec_captures(rules@[j], m));
            }
        }
        Ok(())
    }

    /// Interprets one rule: block rules relocate a fresh frame and run their
    /// children there; item rules capture one value.
    #[verifier::rlimit(100)]
    pub(crate) fn run_rule_body(&self, rule: &ParsingRule, content: &mut ParsedInfo) -> (r: Result<
        (),
        Error,
    >)
        requires
            self.wf(),
            spec_rule_wf(*rule),
            old(content).wf(),
        ensures
            final(content).wf(),
            final(content).is_le == old(content).is_le,
            fields_extended(old(content)@, final(content)@),
            fields_unchanged_outside_rule(*rule, old(content)@, final(content)@),
            r is Ok ==> forall|n: Seq<char>|
                spec_captures(*rule, n) ==> final(content)@.contains_key(n),
            *rule matches ParsingRule::Tiff(v) ==> ({
                let off = self.offset as int;
                let sub = self.buffer@.subrange(off, self.buffer@.len() as int);
                let le = if off == 0 {
                    self.is_le
                } else {
                    (spec_u16_at(self.buffer@, off, true) == 0x4949)
                };
                &&& ((off != 0 && off + 2 <= self.buffer@.len() && spec_u16_at(
                    self.buffer@,
                    off,
                    true,
                ) != 0x4949 && spec_u16_at(self.buffer@, off, true) != 0x4d4d) ==> (
                r matches Err(err) && err matches Error::InvalidTiffHeaderByteOrder(w) && w
                    == spec_u16_at(self.buffer@, off, true) && final(content)@ == old(content)@))
                &&& (r is Ok ==> spec_group_frame_pinned(
                    sub,
                    spec_u32_at(sub, 4, le) as int,
                    le,
                    v@,
                    final(content)@,
                ))
            }),
            *rule matches ParsingRule::Jump { tag, is_optional, rules } ==> (r is Ok ==> (
            spec_entry_lookup(self.entries@, tag) matches Some(e) ==> spec_group_frame_pinned(
                self.buffer@,
                spec_u32_at(self.buffer@, e + 8, self.is_le) as int,
                self.is_le,
                rules@,
                final(content)@,
            ))),
            *rule matches ParsingRule::JumpNext(v) ==> (r is Ok ==> spec_group_frame_pinned(
                self.buffer@,
                self.next_offset as int,
                self.is_le,
                v@,
                final(content)@,
            )),
            *rule matches ParsingRule::Offset(ot, v) ==> ({
                &&& (ot matches OffsetType::PrevField(f) ==> (!old(content)@.contains_key(f@)
                    ==> (r matches Err(err) && err matches Error::RawInfoError(pe)
                    && pe matches crate::parsed_info::Error::FieldNotFound(fname) && fname@ == f@
                    && final(content)@ == old(content)@)))
                &&& (r is Ok ==> (ot matches OffsetType::Bytes(x) ==> (x == 0
                    ==> spec_group_items_pinned(
                    self.buffer@,
                    self.offset as int,
                    self.is_le,
                    self.entries@,
                    v@,
                    final(content)@,
                ))))
                &&& (r is Ok ==> (ot matches OffsetType::Bytes(x) ==> (x != 0
                    ==> spec_group_frame_pinned(
                    self.buffer@,
                    self.offset + x,
                    self.is_le,
                    v@,
                    final(content)@,
                ))))
                &&& (r is Ok ==> (ot matches OffsetType::Address ==> spec_group_frame_pinned(
                    self.buffer@,
                    spec_u32_at(self.buffer@, self.offset as int, self.is_le) as int,
                    self.is_le,
                    v@,
                    final(content)@,
                )))
                &&& (r is Ok ==> (ot matches OffsetType::PrevField(f) ==> (old(
                    content,
                )@.contains_key(f@) ==> (spec_value_u32(old(content)@[f@]) matches Ok(dv)
                    && spec_group_frame_pinned(
                    self.buffer@,
                    self.offset + dv,
                    self.is_le,
                    v@,
                    final(content)@,
                )))))
            }),
            *rule matches ParsingRule::SonyDecrypt { offset_tag, len_tag, key_tag, rules } ==> ({
                &&& (spec_entry_lookup(self.entries@, offset_tag) is None ==> (r == Err::<
                    (),
                    Error,
                >(Error::TagNotFound(offset_tag)) && final(content)@ == old(content)@))
                &&& ((spec_entry_lookup(self.entries@, offset_tag) is Some && spec_entry_lookup(
                    self.entries@,
                    len_tag,
                ) is None) ==> (r == Err::<(), Error>(Error::TagNotFound(len_tag)) && final(content)@ == old(content)@))
                &&& ((spec_entry_lookup(self.entries@, offset_tag) is Some && spec_entry_lookup(
                    self.entries@,
                    len_tag,
                ) is Some && spec_entry_lookup(self.entries@, key_tag) is None) ==> (r == Err::<
                    (),
                    Error,
                >(Error::TagNotFound(key_tag)) && final(content)@ == old(content)@))
                &&& (r is Ok ==> (spec_entry_lookup(self.entries@, offset_tag) matches Some(eo)
                    ==> (spec_entry_lookup(self.entries@, len_tag) matches Some(el) ==> (
                spec_entry_lookup(self.entries@, key_tag) matches Some(ek) ==> ({
                    let o = spec_u32_at(self.buffer@, eo + 8, self.is_le) as int;
                    let l = spec_u32_at(self.buffer@, el + 8, self.is_le) as int;
                    let kv = spec_u32_at(self.buffer@, ek + 8, self.is_le);
                    let frame = Seq::new(o as nat, |z: int| 0u8)
                        + crate::sony::spec_sony_decrypt(
                        self.buffer@.subrange(o, o + l),
                        kv,
                        self.is_le,
                    );
                    &&& o + l <= self.buffer@.len()
                    &&& spec_group_frame_pinned(frame, o, self.is_le, rules@, final(content)@)
                })))))
            }),
            *rule matches ParsingRule::Condition { cond, left, right } ==> (r is Ok ==> ({
                let sel = if cond.0 == CondType::EXIST {
                    if old(content)@.contains_key(cond.1@) {
                        left@
                    } else {
                        right@
                    }
                } else {
                    if (spec_value_u32(old(content)@[cond.1@]) matches Ok(val) && ((cond.0
                        == CondType::LT && val < cond.2) || (cond.0 == CondType::EQ && val
                        == cond.2) || (cond.0 == CondType::GT && val > cond.2))) {
                        left@
                    } else {
                        right@
                    }
                };
                &&& (forall|n: Seq<char>|
                    spec_captures_in(sel, n) ==> final(content)@.contains_key(n))
                &&& spec_group_items_pinned(
                    self.buffer@,
                    self.offset as int,
                    self.is_le,
                    self.entries@,
                    sel,
                    final(content)@,
                )
                &&& fields_unchanged_outside(sel, old(content)@, final(content)@)
            })),
            *rule matches ParsingRule::Scan { marker, name, rules } ==> (r is Ok ==> (
            spec_find_window(self.buffer@, self.offset as int, marker@) matches Some(p) && ({
                &&& (name matches Some(nm) ==> (!spec_may_capture_in(rules@, nm@) ==> (final(content)@.contains_key(nm@) && final(content)@[nm@] == Value::U32(
                    (p % 0x1_0000_0000) as u32,
                ))))
                &&& spec_group_frame_pinned(
                    self.buffer@.subrange(p, self.buffer@.len() as int),
                    0,
                    self.is_le,
                    rules@,
                    final(content)@,
                )
            }))),
            *rule matches ParsingRule::TagItem { tag, name, len, is_optional, is_value_u16 }
                ==> ({
                let looked = spec_entry_lookup(self.entries@, tag);
                &&& (looked is None && is_optional) ==> (r == Ok::<(), Error>(()) && final(content)@ == old(content)@)
                &&& (looked is None && !is_optional) ==> (r == Err::<(), Error>(
                    Error::TagNotFound(tag),
                ) && final(content)@ == old(content)@)
                &&& looked matches Some(epos) ==> (r == Ok::<(), Error>(()) && ({
                    let v = if is_value_u16 {
                        Value::U16(spec_u16_at(self.buffer@, epos + 8, self.is_le))
                    } else {
                        Value::U32(spec_u32_at(self.buffer@, epos + 8, self.is_le))
                    };
                    match len {
                        Some(l) => final(content)@ == old(content)@.insert(name@, v).insert(
                            l@,
                            Value::U32(spec_u32_at(self.buffer@, epos + 4, self.is_le)),
                        ),
                        None => final(content)@ == old(content)@.insert(name@, v),
                    }
                }))
            }),
            *rule matches ParsingRule::OffsetItem { offset, name, t } ==> ({
                &&& (r is Ok <==> spec_offset_read_ok(
                    self.buffer@,
                    self.offset as int,
                    offset as int,
                    t,
                ))
                &&& r is Ok ==> (final(content)@.contains_key(name@)
                    && spec_offset_value_matches(
                    self.buffer@,
                    self.offset as int,
                    offset as int,
                    t,
                    self.is_le,
                    final(content)@[name@],
                ) && final(content)@ == old(content)@.insert(name@, final(content)@[name@]))
            }),
            *rule matches ParsingRule::Jump { tag, is_optional, rules } ==> ({
                let looked = spec_entry_lookup(self.entries@, tag);
                &&& (looked is None && !is_optional) ==> (r == Err::<(), Error>(
                    Error::TagNotFound(tag),
                ) && final(content)@ == old(content)@)
                &&& (looked is None && is_optional) ==> (r == Ok::<(), Error>(()) && final(content)@ == old(content)@)
            }),
            *rule matches ParsingRule::Condition { cond, left, right } ==> ({
                &&& (cond.0 != CondType::EXIST && !old(content)@.contains_key(cond.1@)) ==> (
                r matches Err(err) && err matches Error::RawInfoError(pe)
                    && pe matches crate::parsed_info::Error::FieldNotFound(fname) && fname@
                    == cond.1@ && final(content)@ == old(content)@)
                &&& (cond.0 != CondType::EXIST && old(content)@.contains_key(cond.1@)
                    && spec_value_u32(old(content)@[cond.1@]) is Err) ==> (r matches Err(err)
                    && err matches Error::RawInfoError(pe)
                    && pe matches crate::parsed_info::Error::InvalidValue(ve) && final(content)@ == old(content)@)
            }),
            *rule matches ParsingRule::Scan { marker, name, rules } ==> (spec_find_window(
                self.buffer@,
                self.offset as int,
                marker@,
            ) is None ==> (r matches Err(err) && err matches Error::ScanFailed(m) && m@
                == marker@ && final(content)@ == old(content)@)),
            (*rule matches ParsingRule::Tiff(v) && v@.len() == 0 && self.offset == 0 && 8
                <= self.buffer@.len()) ==> r is Ok,
        decreases *rule, 2nat,
    {
        match rule {
            ParsingRule::Tiff(rules) => {
                let is_le = if self.offset == 0 {
                    self.is_le
                } else {
                    match Parser::is_byte_order_le(self.buffer, self.offset) {
                        Ok(b) => b,
                        Err(e) => {
                            return Err(e);
                        },
                    }
                };
                if self.offset > self.buffer.len() {
                    return Err(Error::Bounds);
                }
                let new_buffer = slice_subrange(self.buffer, self.offset, self.buffer.len());
                let mut new_parser = Parser {
                    is_le,
                    buffer: new_buffer,
                    offset: 0,
                    entries: Vec::new(),
                    next_offset: 0,
                };
                let first_ifd = new_parser.buf_u32(4)? as usize;
                new_parser.offset = first_ifd;
                proof {
                    assert(new_parser.entries@ =~= Seq::<(u16, usize)>::empty());
                    assert(new_parser.buffer@ == self.buffer@.subrange(
                        self.offset as int,
                        self.buffer@.len() as int,
                    ));
                }
                let res = new_parser.run_remain_rules(rules, content);
                proof {
                    assert forall|n2: Seq<char>|
                        !(#[trigger] spec_may_capture(*rule, n2)) implies ((
                    content@.contains_key(n2) <==> old(content)@.contains_key(n2)) && (old(
                        content,
                    )@.contains_key(n2) ==> content@[n2] == old(content)@[n2])) by {
                        assert(!spec_may_capture_in(rules@, n2));
                    }
                }
                res?;
                proof {
                    assert forall|m: Seq<char>|
                        spec_captures(*rule, m) implies content@.contains_key(m) by {
                        assert(spec_captures_in(rules@, m));
                    }
                }
            },
            ParsingRule::Condition { cond, left, right } => {
                let cond_type = cond.0;
                let field = cond.1;
                let target = cond.2;
                let holds: bool = match cond_type {
                    CondType::EXIST => content.get(field).is_some(),
                    _ => {
                        let value = match content.get(field) {
                            Some(v) => match v.u32() {
                                Ok(x) => x,
                                Err(e) => {
                                    return Err(
                                        Error::RawInfoError(
                                            crate::parsed_info::Error::InvalidValue(e),
                                        ),
                                    );
                                },
                            },
                            None => {
                                return Err(
                                    Error::RawInfoError(
                                        crate::parsed_info::Error::FieldNotFound(
                                            field.to_owned(),
                                        ),
                                    ),
                                );
                            },
                        };
                        match cond_type {
                            CondType::LT => value < target,
                            CondType::EQ => value == target,
                            CondType::GT => value > target,
                            CondType::EXIST => value == target,
                        }
                    },
                };
                let branch = if holds {
                    left
                } else {
                    right
                };
                let res = self.run_rules_list(branch, content);
                proof {
                    assert forall|n2: Seq<char>|
                        !(#[trigger] spec_may_capture(*rule, n2)) implies ((
                    content@.contains_key(n2) <==> old(content)@.contains_key(n2)) && (old(
                        content,
                    )@.contains_key(n2) ==> content@[n2] == old(content)@[n2])) by {
                        assert(!spec_may_capture_in(branch@, n2));
                    }
                }
                res?;
                proof {
                    assert forall|m: Seq<char>|
                        spec_captures(*rule, m) implies content@.contains_key(m) by {
                        assert(!spec_captures(*rule, m));
                    }
                }
            },
            ParsingRule::JumpNext(rules) => {
                let mut new_parser = Parser {
                    is_le: self.is_le,
                    buffer: self.buffer,
                    offset: self.next_offset,
                    entries: Vec::new(),
                    next_offset: 0,
                };
                proof {
                    assert(new_parser.entries@ =~= Seq::<(u16, usize)>::empty());
                }
                let res = new_parser.run_remain_rules(rules, content);
                proof {
                    assert forall|n2: Seq<char>|
                        !(#[trigger] spec_may_capture(*rule, n2)) implies ((
                    content@.contains_key(n2) <==> old(content)@.contains_key(n2)) && (old(
                        content,
                    )@.contains_key(n2) ==> content@[n2] == old(content)@[n2])) by {
                        assert(!spec_may_capture_in(rules@, n2));
                    }
                }
                res?;
                proof {
                    assert forall|m: Seq<char>|
                        spec_captures(*rule, m) implies content@.contains_key(m) by {
                        assert(spec_captures_in(rules@, m));
                    }
                }
            },
            ParsingRule::Jump { tag, is_optional, rules } => {
                match (self.read_u32value_from_entries(*tag, None), *is_optional) {
                    (Ok(offset), _) => {
                        let mut new_parser = Parser {
                            is_le: self.is_le,
                            buffer: self.buffer,
                            offset: offset as usize,
                            entries: Vec::new(),
                            next_offset: 0,
                        };
                        proof {
                            assert(new_parser.entries@ =~= Seq::<(u16, usize)>::empty());
                        }
                        let res = new_parser.run_remain_rules(rules, content);
                        proof {
                            assert forall|n2: Seq<char>|
                                !(#[trigger] spec_may_capture(*rule, n2)) implies ((
                            content@.contains_key(n2) <==> old(content)@.contains_key(n2)) && (
                            old(content)@.contains_key(n2) ==> content@[n2] == old(
                                content,
                            )@[n2])) by {
                                assert(!spec_may_capture_in(rules@, n2));
                            }
                        }
                        res?;
                        proof {
                            assert forall|m: Seq<char>|
                                spec_captures(*rule, m) implies content@.contains_key(m) by {
                                if !*is_optional {
                                    assert(spec_captures_in(rules@, m));
                                }
                            }
                        }
                    },
                    (Err(e), false) => {
                        return Err(e);
                    },
                    _ => {
                        proof {
                            assert(*is_optional);
                            assert forall|m: Seq<char>|
                                spec_captures(*rule, m) implies content@.contains_key(m) by {
                                assert(!spec_captures(*rule, m));
                            }
                        }
                    },
                }
            },
            ParsingRule::Scan { marker, name, rules } => {
                match find_window(self.buffer, self.offset, marker) {
                    Some(tiff_offset) => {
                        match name {
                            Some(n) => {
                                content.insert(
                                    n,
                                    Value::U32(((tiff_offset as u64) % 0x1_0000_0000) as u32),
                                );
                            },
                            None => {},
                        }
                        let new_buffer = slice_subrange(
                            self.buffer,
                            tiff_offset,
                            self.buffer.len(),
                        );
                        let mut new_parser = Parser {
                            is_le: self.is_le,
                            buffer: new_buffer,
                            offset: 0,
                            entries: Vec::new(),
                            next_offset: 0,
                        };
                        proof {
                            assert(new_parser.entries@ =~= Seq::<(u16, usize)>::empty());
                        }
                        let ghost mid = content@;
                        let res = new_parser.run_remain_rules(rules, content);
                        proof {
                            assert forall|n2: Seq<char>|
                                !(#[trigger] spec_may_capture(*rule, n2)) implies ((
                            content@.contains_key(n2) <==> old(content)@.contains_key(n2)) && (
                            old(content)@.contains_key(n2) ==> content@[n2] == old(
                                content,
                            )@[n2])) by {
                                assert(!spec_may_capture_in(rules@, n2));
                                assert(mid.contains_key(n2) == old(content)@.contains_key(n2));
                            }
                        }
                        res?;
                        proof {
                            match name {
                                Some(nm) => {
                                    if !spec_may_capture_in(rules@, nm@) {
                                        assert(mid.contains_key(nm@));
                                        assert(content@[nm@] == mid[nm@]);
                                    }
                                },
                                None => {},
                            }
                            assert forall|m: Seq<char>|
                                spec_captures(*rule, m) implies content@.contains_key(m) by {
                                if !(name matches Some(nm) && nm@ == m) {
                                    assert(spec_captures_in(rules@, m));
                                }
                            }
                        }
                    },
                    None => {
                        return Err(Error::ScanFailed(marker));
                    },
                }
            },
            ParsingRule::Offset(offset_type, rules) => {
                let new_offset: usize = match offset_type {
                    OffsetType::Bytes(0i64) => {
                        let res = self.run_rules_list(rules, content);
                        proof {
                            assert forall|n2: Seq<char>|
                                !(#[trigger] spec_may_capture(*rule, n2)) implies ((
                            content@.contains_key(n2) <==> old(content)@.contains_key(n2)) && (
                            old(content)@.contains_key(n2) ==> content@[n2] == old(
                                content,
                            )@[n2])) by {
                                assert(!spec_may_capture_in(rules@, n2));
                            }
                        }
                        res?;
                        proof {
                            assert forall|m: Seq<char>|
                                spec_captures(*rule, m) implies content@.contains_key(m) by {
                                assert(spec_captures_in(rules@, m));
                            }
                        }
                        return Ok(());
                    },
                    OffsetType::Bytes(x) => {
                        let target = self.offset as i128 + (*x as i128);
                        if target < 0 || target > usize::MAX as i128 {
                            return Err(Error::Bounds);
                        }
                        target as usize
                    },
                    OffsetType::Address => {
                        self.buf_u32(self.offset)? as usize
                    },
                    OffsetType::PrevField(field) => {
                        let delta = match content.get(field) {
                            Some(v) => match v.usize() {
                                Ok(x) => x,
                                Err(e) => {
                                    return Err(
                                        Error::RawInfoError(
                                            crate::parsed_info::Error::InvalidValue(e),
                                        ),
                                    );
                                },
                            },
                            None => {
                                return Err(
                                    Error::RawInfoError(
                                        crate::parsed_info::Error::FieldNotFound(
                                            (*field).to_owned(),
                                        ),
                                    ),
                                );
                            },
                        };
                        match self.offset.checked_add(delta) {
                            Some(t) => t,
                            None => {
                                return Err(Error::Bounds);
                            },
                        }
                    },
                };
                let mut new_parser = Parser {
                    is_le: self.is_le,
                    buffer: self.buffer,
                    offset: new_offset,
                    entries: Vec::new(),
                    next_offset: 0,
                };
                proof {
                    assert(new_parser.entries@ =~= Seq::<(u16, usize)>::empty());
                }
                let res = new_parser.run_remain_rules(rules, content);
                proof {
                    assert forall|n2: Seq<char>|
                        !(#[trigger] spec_may_capture(*rule, n2)) implies ((
                    content@.contains_key(n2) <==> old(content)@.contains_key(n2)) && (old(
                        content,
                    )@.contains_key(n2) ==> content@[n2] == old(content)@[n2])) by {
                        assert(!spec_may_capture_in(rules@, n2));
                    }
                }
                res?;
                proof {
                    assert forall|m: Seq<char>|
                        spec_captures(*rule, m) implies content@.contains_key(m) by {
                        assert(spec_captures_in(rules@, m));
                    }
                }
            },
            ParsingRule::SonyDecrypt { offset_tag, len_tag, key_tag, rules } => {
                let offset = self.read_u32value_from_entries(*offset_tag, None)? as usize;
                let len = self.read_u32value_from_entries(*len_tag, None)? as usize;
                let key = self.read_u32value_from_entries(*key_tag, None)?;
                if len > self.buffer.len() || offset > self.buffer.len() - len {
                    return Err(Error::Bounds);
                }
                let region = slice_subrange(self.buffer, offset, offset + len);
                let mut plain = sony_decrypt(region, key, self.is_le);
                // the plaintext sits behind `offset` zero bytes, so the
                // frame's own offsets keep resolving
                let mut decrypted: Vec<u8> = Vec::new();
                let mut z: usize = 0;
                while z < offset
                    invariant
                        z <= offset,
                        decrypted@ =~= Seq::new(z as nat, |zz: int| 0u8),
                    decreases offset - z,
                {
                    decrypted.push(0);
                    proof {
                        assert(decrypted@ =~= Seq::new((z + 1) as nat, |zz: int| 0u8));
                    }
                    z = z + 1;
                }
                decrypted.append(&mut plain);
                let mut new_parser = Parser {
                    is_le: self.is_le,
                    buffer: decrypted.as_slice(),
                    offset,
                    entries: Vec::new(),
                    next_offset: 0,
                };
                proof {
                    assert(new_parser.entries@ =~= Seq::<(u16, usize)>::empty());
                    assert(new_parser.buffer@ =~= Seq::new(offset as nat, |zz: int| 0u8)
                        + crate::sony::spec_sony_decrypt(
                        self.buffer@.subrange(offset as int, offset + len),
                        key,
                        self.is_le,
                    ));
                }
                let res = new_parser.run_remain_rules(rules, content);
                proof {
                    assert forall|n2: Seq<char>|
                        !(#[trigger] spec_may_capture(*rule, n2)) implies ((
                    content@.contains_key(n2) <==> old(content)@.contains_key(n2)) && (old(
                        content,
                    )@.contains_key(n2) ==> content@[n2] == old(content)@[n2])) by {
                        assert(!spec_may_capture_in(rules@, n2));
                    }
                }
                res?;
                proof {
                    assert forall|m: Seq<char>|
                        spec_captures(*rule, m) implies content@.contains_key(m) by {
                        assert(spec_captures_in(rules@, m));
                    }
                }
            },
            ParsingRule::TagItem { tag, name, len, is_optional, is_value_u16 } => {
                let value: Result<Value, Error> = if *is_value_u16 {
                    match self.read_u16value_from_entries(*tag, None) {
                        Ok(v) => Ok(Value::U16(v)),
                        Err(e) => Err(e),
                    }
                } else {
                    match self.read_u32value_from_entries(*tag, None) {
                        Ok(v) => Ok(Value::U32(v)),
                        Err(e) => Err(e),
                    }
                };
                match (value, *is_optional) {
                    (Ok(v), _) => {
                        content.insert(name, v);
                        match len {
                            Some(len_name) => {
                                let count = self.read_u32value_from_entries(*tag, Some(4))?;
                                content.insert(len_name, Value::U32(count));
                            },
                            None => {},
                        }
                    },
                    (Err(e), false) => {
                        return Err(e);
                    },
                    _ => {},
                }
            },
            ParsingRule::OffsetItem { offset, name, t } => {
                let v = self.read_value_from_offset(*offset, t)?;
                content.insert(name, v);
            },
        }
        proof {
            assert forall|m: Seq<char>| spec_captures(*rule, m) implies content@.contains_key(
                m,
            ) by {
            }
        }
        Ok(())
    }

    /// Determines the frame's byte order (skipping a JPEG envelope's first
    /// twelve bytes), then interprets the rule tree from the frame start.
    pub(crate) fn get_info_with_content(buffer: &[u8], rule: &ParsingRule) -> (r: Result<
        ParsedInfo,
        Error,
    >)
        requires
            buffer@.len() >= 2,
            (buffer@[0] == 0xff && buffer@[1] == 0xd8) ==> buffer@.len() >= 12,
            spec_rule_wf(*rule),
        ensures
            r matches Ok(pi) ==> ({
                let base: int = if buffer@[0] == 0xff && buffer@[1] == 0xd8 {
                    12
                } else {
                    0
                };
                &&& pi.wf()
                &&& base + 2 <= buffer@.len()
                &&& ((spec_u16_at(buffer@, base, true) == 0x4949 && pi.is_le) || (spec_u16_at(
                    buffer@,
                    base,
                    true,
                ) == 0x4d4d && !pi.is_le))
                &&& forall|n: Seq<char>| spec_captures(*rule, n) ==> #[trigger] pi@.contains_key(n)
            }),
            ({
                let base: int = if buffer@[0] == 0xff && buffer@[1] == 0xd8 {
                    12
                } else {
                    0
                };
                let v = spec_u16_at(buffer@, base, true);
                (base + 2 <= buffer@.len() && v != 0x4949 && v != 0x4d4d) ==> r == Err::<
                    ParsedInfo,
                    Error,
                >(Error::InvalidTiffHeaderByteOrder(v))
            }),
            ({
                let base: int = if buffer@[0] == 0xff && buffer@[1] == 0xd8 {
                    12
                } else {
                    0
                };
                let v16 = spec_u16_at(buffer@, base, true);
                (*rule matches ParsingRule::Tiff(v) && v@.len() == 0 && base + 8
                    <= buffer@.len() && (v16 == 0x4949 || v16 == 0x4d4d)) ==> r is Ok
            }),
            ({
                let base: int = if buffer@[0] == 0xff && buffer@[1] == 0xd8 {
                    12
                } else {
                    0
                };
                let v16 = spec_u16_at(buffer@, base, true);
                *rule matches ParsingRule::TagItem { tag, name, len, is_optional, is_value_u16 }
                    ==> ((!is_optional && base + 2 <= buffer@.len() && (v16 == 0x4949 || v16
                    == 0x4d4d)) ==> r == Err::<
                    ParsedInfo,
                    Error,
                >(Error::TagNotFound(tag)))
            }),
            ({
                // the captured values of the top-level block: its item
                // children are pinned to the frame the block establishes
                let base: int = if buffer@[0] == 0xff && buffer@[1] == 0xd8 {
                    12
                } else {
                    0
                };
                let sub = buffer@.subrange(base, buffer@.len() as int);
                let v16 = spec_u16_at(buffer@, base, true);
                let le = v16 == 0x4949;
                *rule matches ParsingRule::Tiff(v) ==> (r matches Ok(pi)
                    ==> spec_group_frame_pinned(sub, spec_u32_at(sub, 4, le) as int, le, v@, pi@))
            }),
            ({
                // a top-level relocation by a field can never have captured it
                let base: int = if buffer@[0] == 0xff && buffer@[1] == 0xd8 {
                    12
                } else {
                    0
                };
                let v16 = spec_u16_at(buffer@, base, true);
                *rule matches ParsingRule::Offset(ot, v) ==> (ot matches OffsetType::PrevField(f)
                    ==> ((base + 2 <= buffer@.len() && (v16 == 0x4949 || v16 == 0x4d4d)) ==> (
                r matches Err(err) && err matches Error::RawInfoError(pe)
                    && pe matches crate::parsed_info::Error::FieldNotFound(fname) && fname@
                    == f@)))
            }),
    {
        let frame_buf = if buffer[0] == 0xff && buffer[1] == 0xd8 {
            // a JPEG envelope: the TIFF frame begins after twelve bytes
            slice_subrange(buffer, 12, buffer.len())
        } else {
            buffer
        };
        proof {
            assert(buffer@.subrange(0, buffer@.len() as int) =~= buffer@);
        }
        let is_le = match Parser::is_byte_order_le(frame_buf, 0) {
            Ok(b) => b,
            Err(e) => {
                return Err(e);
            },
        };
        let decoder = Parser {
            is_le,
            buffer: frame_buf,
            offset: 0,
            entries: Vec::new(),
            next_offset: 0,
        };
        let mut info = ParsedInfo::new(is_le);
        decoder.run_rule_body(rule, &mut info)?;
        proof {
            assert(frame_buf@.subrange(0, frame_buf@.len() as int) =~= frame_buf@);
        }
        Ok(info)
    }
}

/// Interprets a rule tree over a buffer and returns the captured fields and
/// the detected byte order. A JPEG envelope's first twelve bytes are skipped
/// before the byte order is read.
pub fn parse(buffer: &[u8], rule: &ParsingRule) -> (r: Result<ParsedInfo, Error>)
    requires
        buffer@.len() >= 2,
        (buffer@[0] == 0xff && buffer@[1] == 0xd8) ==> buffer@.len() >= 12,
        spec_rule_wf(*rule),
    ensures
        r matches Ok(pi) ==> ({
            let base: int = if buffer@[0] == 0xff && buffer@[1] == 0xd8 {
                12
            } else {
                0
            };
            &&& pi.wf()
            &&& base + 2 <= buffer@.len()
            &&& ((spec_u16_at(buffer@, base, true) == 0x4949 && pi.is_le) || (spec_u16_at(
                buffer@,
                base,
                true,
            ) == 0x4d4d && !pi.is_le))
            &&& forall|n: Seq<char>| spec_captures(*rule, n) ==> #[trigger] pi@.contains_key(n)
        }),
        ({
            let base: int = if buffer@[0] == 0xff && buffer@[1] == 0xd8 {
                12
            } else {
                0
            };
            let v = spec_u16_at(buffer@, base, true);
            (base + 2 <= buffer@.len() && v != 0x4949 && v != 0x4d4d) ==> r == Err::<
                ParsedInfo,
                Error,
            >(Error::InvalidTiffHeaderByteOrder(v))
        }),
        ({
            let base: int = if buffer@[0] == 0xff && buffer@[1] == 0xd8 {
                12
            } else {
                0
            };
            let v16 = spec_u16_at(buffer@, base, true);
            (*rule matches ParsingRule::Tiff(v) && v@.len() == 0 && base + 8 <= buffer@.len()
                && (v16 == 0x4949 || v16 == 0x4d4d)) ==> r is Ok
        }),
        ({
            // the captured values of the top-level block: its item children
            // are pinned to the frame the block establishes
            let base: int = if buffer@[0] == 0xff && buffer@[1] == 0xd8 {
                12
            } else {
                0
            };
            let sub = buffer@.subrange(base, buffer@.len() as int);
            let v16 = spec_u16_at(buffer@, base, true);
            let le = v16 == 0x4949;
            *rule matches ParsingRule::Tiff(v) ==> (r matches Ok(pi) ==> spec_group_frame_pinned(
                sub,
                spec_u32_at(sub, 4, le) as int,
                le,
                v@,
                pi@,
            ))
        }),
        ({
            // a top-level relocation by a field can never have captured it
            let base: int = if buffer@[0] == 0xff && buffer@[1] == 0xd8 {
                12
            } else {
                0
            };
            let v16 = spec_u16_at(buffer@, base, true);
            *rule matches ParsingRule::Offset(ot, v) ==> (ot matches OffsetType::PrevField(f)
                ==> ((base + 2 <= buffer@.len() && (v16 == 0x4949 || v16 == 0x4d4d)) ==> (
            r matches Err(err) && err matches Error::RawInfoError(pe)
                && pe matches crate::parsed_info::Error::FieldNotFound(fname) && fname@ == f@)))
        }),
        ({
            let base: int = if buffer@[0] == 0xff && buffer@[1] == 0xd8 {
                12
            } else {
                0
            };
            let v16 = spec_u16_at(buffer@, base, true);
            *rule matches ParsingRule::TagItem { tag, name, len, is_optional, is_value_u16 }
                ==> ((!is_optional && base + 2 <= buffer@.len() && (v16 == 0x4949 || v16
                == 0x4d4d)) ==> r == Err::<
                ParsedInfo,
                Error,
            >(Error::TagNotFound(tag)))
        }),
{
    Parser::get_info_with_content(buffer, rule)
}

/// An ASCII whitespace byte.
fn is_ascii_ws(x: u8) -> (r: bool)
    ensures
        r == spec_is_ascii_ws(x),
{
    x == 9 || x == 10 || x == 11 || x == 12 || x == 13 || x == 32
}

} // verus!
