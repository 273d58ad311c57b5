//! What can go wrong in a conversion. Every error aborts the whole conversion.

use vstd::prelude::*;

verus! {

/// A failure of the binary reader or writer.
#[derive(Clone, Copy, Debug, PartialEq, Eq, Structural)]
pub enum BinError {
    /// The buffer starts with neither `PROP` nor `PTCH` ... `PROP`.
    BadSignature,
    /// A type byte that names no kind, and the offset it stood at.
    UnknownType { byte: u8, offset: usize },
    /// The buffer ends inside what starts at `offset`.
    Truncated { offset: usize },
    /// The string whose bytes start at `offset` is not UTF-8.
    InvalidUtf8 { offset: usize },
    /// A region's length field disagrees with the bytes that its content took;
    /// `name` is the record's or entry's hash where there is one, else 0.
    LengthMismatch { name: u32, declared: u32, actual: usize },
    /// An entry or patch whose key is not a name hash.
    KeyNotHash,
    /// An entry or patch whose value is not a named record.
    NotARecord,
    /// A patch archive without a patch map, or a patch record without its two fields.
    MalformedPatch,
    /// A value that the writer cannot lay out: a vector, matrix or color with
    /// the wrong element count, a string longer than 65535 bytes, a record with
    /// more than 65535 fields, a null record with fields, more items than a
    /// 32-bit count holds, or a nested region too long for its length field.
    BadShape,
    /// An entry or patch body too long for its 32-bit length field.
    TooLarge,
}

} // verus!
