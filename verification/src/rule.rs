//! The declarative parsing rules.
//!
//! A rule tree drives the rule-engine front end: block rules relocate the
//! cursor and run their children there; item rules capture one value under a
//! name. The tree is built by the caller; this crate only interprets it.

use crate::value::Value;
use vstd::prelude::*;

verus! {

/// How an `Offset` rule relocates.
#[derive(Debug, Clone, PartialEq, Eq)]
pub enum OffsetType {
    /// By a signed number of bytes from the current offset.
    Bytes(i64),
    /// To the 32-bit address read at the current offset.
    Address,
    /// By the value of a previously captured field.
    PrevField(&'static str),
}

/// How a `Condition` rule compares a captured field with its target.
#[derive(Debug, Copy, Clone, PartialEq, Eq)]
pub enum CondType {
    LT,
    EQ,
    GT,
    EXIST,
}

/// One node of a rule tree.
#[derive(Debug)]
pub enum ParsingRule {
    /// Establishes a TIFF frame at the current offset and runs the children
    /// from its first IFD.
    Tiff(Vec<ParsingRule>),
    /// Runs `left` when the comparison holds of the captured field, else `right`.
    Condition { cond: (CondType, &'static str, u32), left: Vec<ParsingRule>, right: Vec<ParsingRule> },
    /// Relocates the cursor and runs the children there.
    Offset(OffsetType, Vec<ParsingRule>),
    /// Jumps to the address held by a tag of the current IFD.
    Jump { tag: u16, is_optional: bool, rules: Vec<ParsingRule> },
    /// Jumps to the next-IFD offset captured from the current IFD's trailer.
    JumpNext(Vec<ParsingRule>),
    /// Scans forward for a byte marker, optionally recording its position.
    Scan { marker: &'static [u8], name: Option<&'static str>, rules: Vec<ParsingRule> },
    /// Decrypts the SR2Private region named by three tags and runs the
    /// children over the plaintext.
    SonyDecrypt { offset_tag: u16, len_tag: u16, key_tag: u16, rules: Vec<ParsingRule> },
    /// Captures the value of an IFD entry under `name`, and optionally the
    /// entry's count under `len`.
    TagItem { tag: u16, name: &'static str, len: Option<&'static str>, is_optional: bool, is_value_u16: bool },
    /// Reads a scalar of the type of `t` at `offset` elements past the
    /// cursor and captures it under `name`.
    OffsetItem { offset: usize, name: &'static str, t: Value },
}

} // verus!
