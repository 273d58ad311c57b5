//! The generic text tree that the structured-text form is made of: objects
//! with ordered string keys, arrays, strings, numbers, booleans and null.

use vstd::prelude::*;

verus! {

/// A number as the text parser gives it: sign, decimal mantissa and
/// exponent, and the nearest 32-bit float as its bit pattern.
#[derive(Clone, Copy, Debug, PartialEq, Eq, Structural)]
pub struct TextNumber {
    pub negative: bool,
    pub mantissa: u64,
    pub exponent: i16,
    pub f32_bits: u32,
}

/// A node of the text tree.
#[derive(Debug, PartialEq, Eq)]
pub enum TextValue {
    Null,
    Bool(bool),
    /// An integer, as sign and magnitude.
    Int { negative: bool, magnitude: u64 },
    /// A 32-bit float, as its bit pattern.
    Float(u32),
    /// A number read from text.
    Number(TextNumber),
    /// A number already written out as text.
    Raw(String),
    Str(String),
    Array(Vec<TextValue>),
    Object(Vec<TextMember>),
}

/// A key and its value in an object.
#[derive(Debug, PartialEq, Eq)]
pub struct TextMember {
    pub key: String,
    pub value: TextValue,
}

/// The integer that a number node stands for, where it stands for one: an
/// `Int` node, or a parsed number with exponent 0.
pub open spec fn int_value(v: TextValue) -> Option<int> {
    match v {
        TextValue::Int { negative, magnitude } => Some(
            if negative {
                -(magnitude as int)
            } else {
                magnitude as int
            },
        ),
        TextValue::Number(n) => if n.exponent == 0 {
            Some(
                if n.negative {
                    -(n.mantissa as int)
                } else {
                    n.mantissa as int
                },
            )
        } else {
            None
        },
        _ => None,
    }
}

/// The float bit pattern that a node stands for.
pub open spec fn float_value(v: TextValue) -> Option<u32> {
    match v {
        TextValue::Float(bits) => Some(bits),
        TextValue::Number(n) => Some(n.f32_bits),
        _ => None,
    }
}

/// Reads an integer node within `lo..=hi`.
pub fn as_int(v: &TextValue, lo: i128, hi: i128) -> (r: Option<i128>)
    ensures
        r == (match int_value(*v) {
            Some(x) => if lo <= x <= hi {
                Some(x as i128)
            } else {
                None::<i128>
            },
            None => None::<i128>,
        }),
{
    let x: i128 = match v {
        TextValue::Int { negative, magnitude } => if *negative {
            -(*magnitude as i128)
        } else {
            *magnitude as i128
        },
        TextValue::Number(n) => {
            if n.exponent != 0 {
                return None;
            }
            if n.negative {
                -(n.mantissa as i128)
            } else {
                n.mantissa as i128
            }
        },
        _ => {
            return None;
        },
    };
    if lo <= x && x <= hi {
        Some(x)
    } else {
        None
    }
}

/// Reads a float node's bit pattern.
pub fn as_float_bits(v: &TextValue) -> (r: Option<u32>)
    ensures
        r == float_value(*v),
{
    match v {
        TextValue::Float(bits) => Some(*bits),
        TextValue::Number(n) => Some(n.f32_bits),
        _ => None,
    }
}

} // verus!
