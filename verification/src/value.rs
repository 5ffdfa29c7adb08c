//! The tagged sample value and its coercion policy.

use vstd::prelude::*;

verus! {

/// One decoded sample value.
///
/// Floating-point payloads are held as their IEEE-754 bit patterns, a
/// timestamp as seconds since the Unix epoch.
#[derive(Debug, PartialEq)]
pub enum Value {
    Timestamp(i64),
    Byte(u8),
    Enum(u8),
    SInt8(i8),
    UInt8(u8),
    SInt16(i16),
    UInt16(u16),
    SInt32(i32),
    UInt32(u32),
    String(String),
    Float32(u32),
    Float64(u64),
    UInt8z(u8),
    UInt16z(u16),
    UInt32z(u32),
    SInt64(i64),
    UInt64(u64),
    UInt64z(u64),
    Array(Vec<Value>),
}

/// A value that takes part in arithmetic, before it is widened to a double.
///
/// `Single` and `Double` carry IEEE-754 bit patterns of 32 and 64 bits.
#[derive(Clone, Copy, Debug, PartialEq, Eq)]
pub enum Number {
    Signed(i64),
    Unsigned(u64),
    Single(u32),
    Double(u64),
}

/// The coercion policy: every integer and floating-point variant is numeric;
/// timestamps, bytes, enum codes, strings and arrays are not.
pub open spec fn number_of(v: Value) -> Option<Number> {
    match v {
        Value::SInt8(i) => Some(Number::Signed(i as i64)),
        Value::SInt16(i) => Some(Number::Signed(i as i64)),
        Value::SInt32(i) => Some(Number::Signed(i as i64)),
        Value::SInt64(i) => Some(Number::Signed(i)),
        Value::UInt8(u) => Some(Number::Unsigned(u as u64)),
        Value::UInt16(u) => Some(Number::Unsigned(u as u64)),
        Value::UInt32(u) => Some(Number::Unsigned(u as u64)),
        Value::UInt64(u) => Some(Number::Unsigned(u)),
        Value::UInt8z(u) => Some(Number::Unsigned(u as u64)),
        Value::UInt16z(u) => Some(Number::Unsigned(u as u64)),
        Value::UInt32z(u) => Some(Number::Unsigned(u as u64)),
        Value::UInt64z(u) => Some(Number::Unsigned(u)),
        Value::Float32(bits) => Some(Number::Single(bits)),
        Value::Float64(bits) => Some(Number::Double(bits)),
        Value::Timestamp(_) => None,
        Value::Byte(_) => None,
        Value::Enum(_) => None,
        Value::String(_) => None,
        Value::Array(_) => None,
    }
}

impl Value {
    /// The number this value stands for, or `None` for a variant that the
    /// coercion policy excludes.
    pub fn as_number(&self) -> (r: Option<Number>)
        ensures
            r == number_of(*self),
    {
        match self {
            Value::SInt8(i) => Some(Number::Signed(*i as i64)),
            Value::SInt16(i) => Some(Number::Signed(*i as i64)),
            Value::SInt32(i) => Some(Number::Signed(*i as i64)),
            Value::SInt64(i) => Some(Number::Signed(*i)),
            Value::UInt8(u) => Some(Number::Unsigned(*u as u64)),
            Value::UInt16(u) => Some(Number::Unsigned(*u as u64)),
            Value::UInt32(u) => Some(Number::Unsigned(*u as u64)),
            Value::UInt64(u) => Some(Number::Unsigned(*u)),
            Value::UInt8z(u) => Some(Number::Unsigned(*u as u64)),
            Value::UInt16z(u) => Some(Number::Unsigned(*u as u64)),
            Value::UInt32z(u) => Some(Number::Unsigned(*u as u64)),
            Value::UInt64z(u) => Some(Number::Unsigned(*u)),
            Value::Float32(bits) => Some(Number::Single(*bits)),
            Value::Float64(bits) => Some(Number::Double(*bits)),
            _ => None,
        }
    }

    /// The epoch seconds of a timestamp value, `None` for any other variant.
    pub fn as_timestamp(&self) -> (r: Option<i64>)
        ensures
            r == seconds_of(*self),
    {
        match self {
            Value::Timestamp(t) => Some(*t),
            _ => None,
        }
    }
}

/// Epoch seconds of a timestamp value; generic coercion never yields them.
pub open spec fn seconds_of(v: Value) -> Option<i64> {
    match v {
        Value::Timestamp(t) => Some(t),
        _ => None,
    }
}

} // verus!
