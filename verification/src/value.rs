//! The values a rule capture can produce.
//!
//! A rational is kept exact as a (numerator, denominator) pair; forming the
//! quotient is left to the caller.

use crate::bytes::{spec_u32_to_bytes, u32_to_bytes};
use vstd::prelude::*;

verus! {

/// Why a value refused to convert.
#[derive(Debug, Clone, PartialEq, Eq)]
pub enum Error {
    /// The value's type is not the named one.
    ValueTypeIsNotDesired(&'static str),
}

/// A captured value: an unsigned 16-bit or 32-bit integer, a rational as a
/// signed numerator over an unsigned denominator, or a text string.
#[derive(Debug, Clone, PartialEq)]
pub enum Value {
    U16(u16),
    U32(u32),
    R64(i32, u32),
    Str(String),
}

/// The element size in bytes of a value's type, as stored in a container.
pub open spec fn spec_value_size(v: Value) -> usize {
    match v {
        Value::U16(_) => 2,
        Value::U32(_) => 4,
        Value::Str(_) => 1,
        Value::R64(_, _) => 8,
    }
}

/// The 16-bit reading of a numeric value; a 32-bit value is truncated.
pub open spec fn spec_value_u16(v: Value) -> Result<u16, Error> {
    match v {
        Value::U16(x) => Ok(x),
        Value::U32(x) => Ok((x % 0x10000) as u16),
        Value::R64(_, _) => Err(Error::ValueTypeIsNotDesired("u16")),
        Value::Str(_) => Err(Error::ValueTypeIsNotDesired("u16")),
    }
}

/// The 32-bit reading of a numeric value.
pub open spec fn spec_value_u32(v: Value) -> Result<u32, Error> {
    match v {
        Value::U16(x) => Ok(x as u32),
        Value::U32(x) => Ok(x),
        Value::R64(_, _) => Err(Error::ValueTypeIsNotDesired("u32")),
        Value::Str(_) => Err(Error::ValueTypeIsNotDesired("u32")),
    }
}

impl Value {
    /// The element size in bytes of this value's type.
    pub fn size(&self) -> (r: usize)
        ensures
            r == spec_value_size(*self),
    {
        match self {
            Value::U16(_) => 2,
            Value::U32(_) => 4,
            Value::Str(_) => 1,
            Value::R64(_, _) => 8,
        }
    }

    /// The value as a 16-bit integer; a 32-bit value is truncated as a
    /// stored integer would be. Rationals and strings refuse.
    pub fn u16(&self) -> (r: Result<u16, Error>)
        ensures
            r == spec_value_u16(*self),
    {
        match self {
            Value::U16(x) => Ok(*x),
            Value::U32(x) => Ok((*x % 0x10000) as u16),
            _ => Err(Error::ValueTypeIsNotDesired("u16")),
        }
    }

    /// The value as a 32-bit integer. Rationals and strings refuse.
    pub fn u32(&self) -> (r: Result<u32, Error>)
        ensures
            r == spec_value_u32(*self),
    {
        match self {
            Value::U16(x) => Ok(*x as u32),
            Value::U32(x) => Ok(*x),
            _ => Err(Error::ValueTypeIsNotDesired("u32")),
        }
    }

    /// The value as a signed 32-bit integer, by reinterpreting the unsigned
    /// reading. Rationals and strings refuse.
    pub fn i32(&self) -> (r: Result<i32, Error>)
        ensures
            r == match spec_value_u32(*self) {
                Ok(v) => Ok::<i32, Error>(v as i32),
                Err(_) => Err::<i32, Error>(Error::ValueTypeIsNotDesired("i32")),
            },
    {
        match self {
            Value::U16(x) => Ok(*x as i32),
            Value::U32(x) => Ok(*x as i32),
            _ => Err(Error::ValueTypeIsNotDesired("i32")),
        }
    }

    /// The value as an offset. Rationals and strings refuse.
    pub fn usize(&self) -> (r: Result<usize, Error>)
        ensures
            r is Ok <==> spec_value_u32(*self) is Ok,
            r matches Ok(v) ==> v == spec_value_u32(*self).unwrap(),
            r is Err ==> r == Err::<usize, Error>(Error::ValueTypeIsNotDesired("usize")),
    {
        match self {
            Value::U16(x) => Ok(*x as usize),
            Value::U32(x) => Ok(*x as usize),
            _ => Err(Error::ValueTypeIsNotDesired("usize")),
        }
    }

    /// The rational as its (numerator, denominator) pair. Others refuse.
    pub fn r64(&self) -> (r: Result<(i32, u32), Error>)
        ensures
            *self matches Value::R64(n, d) ==> r == Ok::<(i32, u32), Error>((n, d)),
            !(*self matches Value::R64(_, _)) ==> r == Err::<(i32, u32), Error>(
                Error::ValueTypeIsNotDesired("r64"),
            ),
    {
        match self {
            Value::R64(n, d) => Ok((*n, *d)),
            _ => Err(Error::ValueTypeIsNotDesired("r64")),
        }
    }

    /// The string slice of a text value. Others refuse.
    pub fn str(&self) -> (r: Result<&str, Error>)
        ensures
            *self matches Value::Str(s) ==> (r matches Ok(t) && t@ == s@),
            !(*self matches Value::Str(_)) ==> r == Err::<&str, Error>(
                Error::ValueTypeIsNotDesired("String"),
            ),
    {
        match self {
            Value::Str(x) => Ok(x.as_str()),
            _ => Err(Error::ValueTypeIsNotDesired("String")),
        }
    }

    /// The four bytes of a 32-bit value in the given byte order. Others refuse.
    pub fn u8a4(&self, is_le: bool) -> (r: Result<[u8; 4], Error>)
        ensures
            *self matches Value::U32(x) ==> (r matches Ok(b) && b@ == spec_u32_to_bytes(x, is_le)),
            !(*self matches Value::U32(_)) ==> r == Err::<[u8; 4], Error>(
                Error::ValueTypeIsNotDesired("U32"),
            ),
    {
        match self {
            Value::U32(x) => Ok(u32_to_bytes(*x, is_le)),
            _ => Err(Error::ValueTypeIsNotDesired("U32")),
        }
    }
}

} // verus!
