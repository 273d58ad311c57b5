//! The kinds' one-byte wire tags and their names in the text form.

use vstd::prelude::*;
use crate::model::BinType;

verus! {

/// The position of a kind in the enumeration, 0 through 26.
pub open spec fn kind_index(t: BinType) -> u8 {
    match t {
        BinType::Null => 0,
        BinType::Bool => 1,
        BinType::SInt8 => 2,
        BinType::UInt8 => 3,
        BinType::SInt16 => 4,
        BinType::UInt16 => 5,
        BinType::SInt32 => 6,
        BinType::UInt32 => 7,
        BinType::SInt64 => 8,
        BinType::UInt64 => 9,
        BinType::Float32 => 10,
        BinType::Vector2 => 11,
        BinType::Vector3 => 12,
        BinType::Vector4 => 13,
        BinType::Matrix4x4 => 14,
        BinType::Rgba => 15,
        BinType::String => 16,
        BinType::Hash => 17,
        BinType::WadEntryLink => 18,
        BinType::Container => 19,
        BinType::Struct => 20,
        BinType::Pointer => 21,
        BinType::Embedded => 22,
        BinType::Link => 23,
        BinType::Optional => 24,
        BinType::Mapping => 25,
        BinType::Flag => 26,
    }
}

/// The kind at a position of the enumeration.
pub open spec fn kind_at(i: int) -> Option<BinType> {
    if i == 0 { Some(BinType::Null) }
    else if i == 1 { Some(BinType::Bool) }
    else if i == 2 { Some(BinType::SInt8) }
    else if i == 3 { Some(BinType::UInt8) }
    else if i == 4 { Some(BinType::SInt16) }
    else if i == 5 { Some(BinType::UInt16) }
    else if i == 6 { Some(BinType::SInt32) }
    else if i == 7 { Some(BinType::UInt32) }
    else if i == 8 { Some(BinType::SInt64) }
    else if i == 9 { Some(BinType::UInt64) }
    else if i == 10 { Some(BinType::Float32) }
    else if i == 11 { Some(BinType::Vector2) }
    else if i == 12 { Some(BinType::Vector3) }
    else if i == 13 { Some(BinType::Vector4) }
    else if i == 14 { Some(BinType::Matrix4x4) }
    else if i == 15 { Some(BinType::Rgba) }
    else if i == 16 { Some(BinType::String) }
    else if i == 17 { Some(BinType::Hash) }
    else if i == 18 { Some(BinType::WadEntryLink) }
    else if i == 19 { Some(BinType::Container) }
    else if i == 20 { Some(BinType::Struct) }
    else if i == 21 { Some(BinType::Pointer) }
    else if i == 22 { Some(BinType::Embedded) }
    else if i == 23 { Some(BinType::Link) }
    else if i == 24 { Some(BinType::Optional) }
    else if i == 25 { Some(BinType::Mapping) }
    else if i == 26 { Some(BinType::Flag) }
    else { None }
}

/// The wire byte of a kind: kinds 0..=18 as themselves, the extended kinds
/// 19..=26 as 0x80..=0x87.
pub open spec fn pack(t: BinType) -> u8 {
    let i = kind_index(t);
    if i >= 19 {
        (i - 19 + 0x80) as u8
    } else {
        i
    }
}

/// The kind that a wire byte stands for: a byte with the high bit set counts
/// from the first extended kind.
pub open spec fn unpack(b: u8) -> Option<BinType> {
    if b >= 0x80 {
        kind_at(b - 0x80 + 19)
    } else {
        kind_at(b as int)
    }
}

/// Whether a byte is one that `pack` writes.
pub open spec fn is_packed_byte(b: u8) -> bool {
    b <= 18 || (0x80 <= b && b <= 0x87)
}

/// Packs a kind into its wire byte.
pub fn type_to_u8(ftype: &BinType) -> (r: u8)
    ensures
        r == pack(*ftype),
{
    let mut unpacked_type: u8 = match ftype {
        BinType::Null => 0,
        BinType::Bool => 1,
        BinType::SInt8 => 2,
        BinType::UInt8 => 3,
        BinType::SInt16 => 4,
        BinType::UInt16 => 5,
        BinType::SInt32 => 6,
        BinType::UInt32 => 7,
        BinType::SInt64 => 8,
        BinType::UInt64 => 9,
        BinType::Float32 => 10,
        BinType::Vector2 => 11,
        BinType::Vector3 => 12,
        BinType::Vector4 => 13,
        BinType::Matrix4x4 => 14,
        BinType::Rgba => 15,
        BinType::String => 16,
        BinType::Hash => 17,
        BinType::WadEntryLink => 18,
        BinType::Container => 19,
        BinType::Struct => 20,
        BinType::Pointer => 21,
        BinType::Embedded => 22,
        BinType::Link => 23,
        BinType::Optional => 24,
        BinType::Mapping => 25,
        BinType::Flag => 26,
    };
    if unpacked_type >= 19 {
        unpacked_type = (unpacked_type - 19) + 0x80;
    }
    unpacked_type
}

/// Unpacks a wire byte; `None` for a byte that names no kind.
pub fn u8_to_type(ftype: u8) -> (r: Option<BinType>)
    ensures
        r == unpack(ftype),
{
    let mut unpacked_type = ftype;
    if ftype >= 0x80 {
        unpacked_type = (ftype - 0x80) + 19;
    }
    match unpacked_type {
        0 => Some(BinType::Null),
        1 => Some(BinType::Bool),
        2 => Some(BinType::SInt8),
        3 => Some(BinType::UInt8),
        4 => Some(BinType::SInt16),
        5 => Some(BinType::UInt16),
        6 => Some(BinType::SInt32),
        7 => Some(BinType::UInt32),
        8 => Some(BinType::SInt64),
        9 => Some(BinType::UInt64),
        10 => Some(BinType::Float32),
        11 => Some(BinType::Vector2),
        12 => Some(BinType::Vector3),
        13 => Some(BinType::Vector4),
        14 => Some(BinType::Matrix4x4),
        15 => Some(BinType::Rgba),
        16 => Some(BinType::String),
        17 => Some(BinType::Hash),
        18 => Some(BinType::WadEntryLink),
        19 => Some(BinType::Container),
        20 => Some(BinType::Struct),
        21 => Some(BinType::Pointer),
        22 => Some(BinType::Embedded),
        23 => Some(BinType::Link),
        24 => Some(BinType::Optional),
        25 => Some(BinType::Mapping),
        26 => Some(BinType::Flag),
        _ => None,
    }
}

/// Unpacking undoes packing for every kind, and packing writes only the
/// bytes 0..=18 and 0x80..=0x87; so two kinds never share a byte.
pub proof fn lemma_pack_unpack(t: BinType)
    ensures
        unpack(pack(t)) == Some(t),
        is_packed_byte(pack(t)),
{
}

/// Every byte that `pack` writes unpacks to the kind that packs to it.
pub proof fn lemma_unpack_pack(b: u8)
    requires
        is_packed_byte(b),
    ensures
        unpack(b) is Some,
        pack(unpack(b)->0) == b,
{
}

} // verus!

verus! {

/// The name of a kind in the text form.
pub open spec fn kind_name(t: BinType) -> Seq<char> {
    match t {
        BinType::Null => "None"@,
        BinType::Bool => "Bool"@,
        BinType::SInt8 => "SInt8"@,
        BinType::UInt8 => "UInt8"@,
        BinType::SInt16 => "SInt16"@,
        BinType::UInt16 => "UInt16"@,
        BinType::SInt32 => "SInt32"@,
        BinType::UInt32 => "UInt32"@,
        BinType::SInt64 => "SInt64"@,
        BinType::UInt64 => "UInt64"@,
        BinType::Float32 => "Float32"@,
        BinType::Vector2 => "Vector2"@,
        BinType::Vector3 => "Vector3"@,
        BinType::Vector4 => "Vector4"@,
        BinType::Matrix4x4 => "Matrix4x4"@,
        BinType::Rgba => "Rgba"@,
        BinType::String => "String"@,
        BinType::Hash => "Hash"@,
        BinType::WadEntryLink => "WadEntryLink"@,
        BinType::Container => "Container"@,
        BinType::Struct => "Struct"@,
        BinType::Pointer => "Pointer"@,
        BinType::Embedded => "Embedded"@,
        BinType::Link => "Link"@,
        BinType::Optional => "Optional"@,
        BinType::Mapping => "Map"@,
        BinType::Flag => "Flag"@,
    }
}

/// The name of a kind in the text form.
pub fn bintype_name(t: BinType) -> (r: &'static str)
    ensures
        r@ == kind_name(t),
{
    match t {
        BinType::Null => "None",
        BinType::Bool => "Bool",
        BinType::SInt8 => "SInt8",
        BinType::UInt8 => "UInt8",
        BinType::SInt16 => "SInt16",
        BinType::UInt16 => "UInt16",
        BinType::SInt32 => "SInt32",
        BinType::UInt32 => "UInt32",
        BinType::SInt64 => "SInt64",
        BinType::UInt64 => "UInt64",
        BinType::Float32 => "Float32",
        BinType::Vector2 => "Vector2",
        BinType::Vector3 => "Vector3",
        BinType::Vector4 => "Vector4",
        BinType::Matrix4x4 => "Matrix4x4",
        BinType::Rgba => "Rgba",
        BinType::String => "String",
        BinType::Hash => "Hash",
        BinType::WadEntryLink => "WadEntryLink",
        BinType::Container => "Container",
        BinType::Struct => "Struct",
        BinType::Pointer => "Pointer",
        BinType::Embedded => "Embedded",
        BinType::Link => "Link",
        BinType::Optional => "Optional",
        BinType::Mapping => "Map",
        BinType::Flag => "Flag",
    }
}

} // verus!
