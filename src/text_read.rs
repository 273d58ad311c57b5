//! The structured-text reader: builds a value tree from the text tree,
//! turning hash tokens into hashes by the numeral grammar or by hashing names.

use vstd::prelude::*;
use crate::model::{
    BinData, BinField, BinFile, BinMap, BinType, ContainerOrStruct, MapPair, Optional,
    PointerOrEmbedded,
};
use crate::numeral::{
    chars_of, string_to_hash_u32, string_to_hash_u64, token_hash_u32, token_hash_u64,
    MalformedNumeral,
};
use crate::tags::{bintype_name, kind_name};
use crate::text::{as_float_bits, as_int, float_value, int_value, TextMember, TextValue};

verus! {

broadcast use vstd::std_specs::vec::group_vec_axioms;

/// A failure of the text reader.
#[derive(Clone, Copy, Debug, PartialEq, Eq, Structural)]
pub enum TextError {
    /// A node that should be an object is not one, or has too few members.
    NotAnObject,
    /// A node that should be a string is not one.
    NotAString,
    /// A node that should be a boolean is not one.
    NotABool,
    /// A node that should be a number of the field's width is not one.
    NotANumber,
    /// A node that should be an array of a fixed length is not one.
    WrongLength,
    /// A string that names no kind.
    UnknownKind,
    /// The root lacks a member that it needs.
    MissingMember,
    /// A hash token that matches the numeral grammar but spells no value.
    Malformed(MalformedNumeral),
}

/// The kind that a name in the text form stands for.
pub open spec fn kind_named(s: Seq<char>) -> Option<BinType> {
    if s == kind_name(BinType::Null) { Some(BinType::Null) }
    else if s == kind_name(BinType::Bool) { Some(BinType::Bool) }
    else if s == kind_name(BinType::SInt8) { Some(BinType::SInt8) }
    else if s == kind_name(BinType::UInt8) { Some(BinType::UInt8) }
    else if s == kind_name(BinType::SInt16) { Some(BinType::SInt16) }
    else if s == kind_name(BinType::UInt16) { Some(BinType::UInt16) }
    else if s == kind_name(BinType::SInt32) { Some(BinType::SInt32) }
    else if s == kind_name(BinType::UInt32) { Some(BinType::UInt32) }
    else if s == kind_name(BinType::SInt64) { Some(BinType::SInt64) }
    else if s == kind_name(BinType::UInt64) { Some(BinType::UInt64) }
    else if s == kind_name(BinType::Float32) { Some(BinType::Float32) }
    else if s == kind_name(BinType::Vector2) { Some(BinType::Vector2) }
    else if s == kind_name(BinType::Vector3) { Some(BinType::Vector3) }
    else if s == kind_name(BinType::Vector4) { Some(BinType::Vector4) }
    else if s == kind_name(BinType::Matrix4x4) { Some(BinType::Matrix4x4) }
    else if s == kind_name(BinType::Rgba) { Some(BinType::Rgba) }
    else if s == kind_name(BinType::String) { Some(BinType::String) }
    else if s == kind_name(BinType::Hash) { Some(BinType::Hash) }
    else if s == kind_name(BinType::WadEntryLink) { Some(BinType::WadEntryLink) }
    else if s == kind_name(BinType::Container) { Some(BinType::Container) }
    else if s == kind_name(BinType::Struct) { Some(BinType::Struct) }
    else if s == kind_name(BinType::Pointer) { Some(BinType::Pointer) }
    else if s == kind_name(BinType::Embedded) { Some(BinType::Embedded) }
    else if s == kind_name(BinType::Link) { Some(BinType::Link) }
    else if s == kind_name(BinType::Optional) { Some(BinType::Optional) }
    else if s == kind_name(BinType::Mapping) { Some(BinType::Mapping) }
    else if s == kind_name(BinType::Flag) { Some(BinType::Flag) }
    else { None }
}

/// The kind that a node names: a string node holding a kind's name.
pub open spec fn node_kind(v: TextValue) -> Option<BinType> {
    match v {
        TextValue::Str(s) => kind_named(s@),
        _ => None,
    }
}

/// The members of an array node; no members for any other node.
pub open spec fn members(v: TextValue) -> Seq<TextValue> {
    match v {
        TextValue::Array(a) => a@,
        _ => seq![],
    }
}

/// The members of an object node, if it has at least `n`.
pub open spec fn entries(v: TextValue, n: nat) -> Option<Seq<TextMember>> {
    match v {
        TextValue::Object(ms) => if ms@.len() >= n {
            Some(ms@)
        } else {
            None
        },
        _ => None,
    }
}

pub open spec fn str_of(v: TextValue) -> Option<Seq<char>> {
    match v {
        TextValue::Str(s) => Some(s@),
        _ => None,
    }
}

/// An integer node within `lo..=hi` holding `x`.
pub open spec fn int_in(v: TextValue, lo: int, hi: int, x: int) -> bool {
    int_value(v) == Some(x) && lo <= x <= hi
}

/// Whether `n` fixed-width float nodes hold `xs`.
pub open spec fn floats_read(v: TextValue, n: nat, xs: Seq<u32>) -> bool {
    members(v).len() == n && v is Array && xs.len() == n && forall|i: int|
        0 <= i < n ==> float_value(#[trigger] members(v)[i]) == Some(xs[i])
}

/// Whether the text node `v`, read as kind `t`, gives `d`.
pub open spec fn text_reads(v: TextValue, t: BinType, d: BinData) -> bool
    decreases d,
{
    match d {
        BinData::Null => t == BinType::Null,
        BinData::Bool(b) => t == BinType::Bool && v == TextValue::Bool(b),
        BinData::SInt8(x) => t == BinType::SInt8 && int_in(v, -0x80, 0x7f, x as int),
        BinData::UInt8(x) => t == BinType::UInt8 && int_in(v, 0, 0xff, x as int),
        BinData::SInt16(x) => t == BinType::SInt16 && int_in(v, -0x8000, 0x7fff, x as int),
        BinData::UInt16(x) => t == BinType::UInt16 && int_in(v, 0, 0xffff, x as int),
        BinData::SInt32(x) => t == BinType::SInt32 && int_in(v, -0x8000_0000, 0x7fff_ffff, x as int),
        BinData::UInt32(x) => t == BinType::UInt32 && int_in(v, 0, 0xffff_ffff, x as int),
        BinData::SInt64(x) => t == BinType::SInt64 && int_in(
            v,
            -0x8000_0000_0000_0000,
            0x7fff_ffff_ffff_ffff,
            x as int,
        ),
        BinData::UInt64(x) => t == BinType::UInt64 && int_in(v, 0, 0xffff_ffff_ffff_ffff, x as int),
        BinData::Float32(x) => t == BinType::Float32 && float_value(v) == Some(x),
        BinData::Vector2(xs) => t == BinType::Vector2 && floats_read(v, 2, xs@),
        BinData::Vector3(xs) => t == BinType::Vector3 && floats_read(v, 3, xs@),
        BinData::Vector4(xs) => t == BinType::Vector4 && floats_read(v, 4, xs@),
        BinData::Matrix4x4(xs) => t == BinType::Matrix4x4 && floats_read(v, 16, xs@),
        BinData::Rgba(xs) => t == BinType::Rgba && v is Array && members(v).len() == 4
            && xs@.len() == 4 && forall|i: int|
            0 <= i < 4 ==> int_in(#[trigger] members(v)[i], 0, 0xff, xs@[i] as int),
        BinData::String(s) => t == BinType::String && str_of(v) == Some(s@),
        BinData::Hash(h) => t == BinType::Hash && str_of(v) is Some && token_hash_u32(
            str_of(v)->0,
        ) == Ok::<u32, MalformedNumeral>(h),
        BinData::WadEntryLink(h) => t == BinType::WadEntryLink && str_of(v) is Some
            && token_hash_u64(str_of(v)->0) == Ok::<u64, MalformedNumeral>(h),
        BinData::Link(h) => t == BinType::Link && str_of(v) is Some && token_hash_u32(
            str_of(v)->0,
        ) == Ok::<u32, MalformedNumeral>(h),
        BinData::ContainerOrStruct(cs) => (t == BinType::Container || t == BinType::Struct) && match entries(v, 2) {
            Some(ms) => node_kind(ms[0].value) == Some(cs.btype) && cs.items@.len()
                == members(ms[1].value).len() && forall|i: int|
                0 <= i < cs.items@.len() ==> text_reads(
                    members(ms[1].value)[i],
                    cs.btype,
                    #[trigger] cs.items@[i],
                ),
            None => false,
        },
        BinData::PointerOrEmbedded(pe) => (t == BinType::Pointer || t == BinType::Embedded) && match v {
            TextValue::Object(ms) => if ms@.len() == 0 {
                pe.name == 0 && pe.items@.len() == 0
            } else {
                token_hash_u32(ms@[0].key@) == Ok::<u32, MalformedNumeral>(pe.name)
                    && pe.items@.len() == members(ms@[0].value).len() && forall|i: int|
                    0 <= i < pe.items@.len() ==> text_reads_field(
                        members(ms@[0].value)[i],
                        #[trigger] pe.items@[i],
                    )
            },
            _ => false,
        },
        BinData::Optional(o) => t == BinType::Optional && match entries(v, 2) {
            Some(ms) => node_kind(ms[0].value) == Some(o.btype) && match o.data {
                Some(x) => members(ms[1].value).len() > 0 && text_reads(
                    members(ms[1].value)[0],
                    o.btype,
                    *x,
                ),
                None => members(ms[1].value).len() == 0,
            },
            None => false,
        },
        BinData::Mapping(m) => t == BinType::Mapping && match entries(v, 3) {
            Some(ms) => node_kind(ms[0].value) == Some(m.keytype) && node_kind(ms[1].value) == Some(
                m.valuetype,
            ) && m.items@.len() == members(ms[2].value).len() && forall|i: int|
                0 <= i < m.items@.len() ==> text_reads_pair(
                    members(ms[2].value)[i],
                    m.keytype,
                    m.valuetype,
                    #[trigger] m.items@[i],
                ),
            None => false,
        },
        BinData::Flag(b) => t == BinType::Flag && v == TextValue::Bool(b),
    }
}

/// Whether a field's text form gives the field `f`.
pub open spec fn text_reads_field(v: TextValue, f: BinField) -> bool
    decreases f,
{
    match entries(v, 3) {
        Some(ms) => str_of(ms[0].value) is Some && token_hash_u32(str_of(ms[0].value)->0) == Ok::<
            u32,
            MalformedNumeral,
        >(f.name) && node_kind(ms[1].value) == Some(f.btype) && text_reads(
            ms[2].value,
            f.btype,
            *f.data,
        ),
        None => false,
    }
}

pub open spec fn is_hash_kind(t: BinType) -> bool {
    t == BinType::Hash || t == BinType::Link || t == BinType::WadEntryLink
}

/// Whether a pair's text form gives the pair `p` of a map with key kind
/// `kt` and value kind `vt`.
pub open spec fn text_reads_pair(v: TextValue, kt: BinType, vt: BinType, p: MapPair) -> bool
    decreases p,
{
    if is_hash_kind(kt) {
        match entries(v, 1) {
            Some(ms) => text_reads(TextValue::Str(ms[0].key), kt, *p.keydata) && text_reads(
                ms[0].value,
                vt,
                *p.valuedata,
            ),
            None => false,
        }
    } else {
        match entries(v, 2) {
            Some(ms) => text_reads(ms[0].value, kt, *p.keydata) && text_reads(
                ms[1].value,
                vt,
                *p.valuedata,
            ),
            None => false,
        }
    }
}

/// Whether two strings hold the same characters.
pub fn str_eq(a: &str, b: &str) -> (r: bool)
    ensures
        r == (a@ == b@),
{
    let x = chars_of(a);
    let y = chars_of(b);
    if x.len() != y.len() {
        return false;
    }
    let mut i: usize = 0;
    while i < x.len()
        invariant
            x@ == a@,
            y@ == b@,
            x@.len() == y@.len(),
            i <= x@.len(),
            forall|j: int| 0 <= j < i ==> x@[j] == y@[j],
        decreases x@.len() - i,
    {
        if x[i] != y[i] {
            return false;
        }
        i = i + 1;
    }
    assert(x@ =~= y@);
    true
}

/// The kind that a name in the text form stands for.
pub fn deserialize_bintype(bin_type: &TextValue) -> (r: Result<BinType, TextError>)
    ensures
        r is Ok <==> node_kind(*bin_type) is Some,
        r is Ok ==> node_kind(*bin_type) == Some(r->Ok_0),
{
    let s = match bin_type {
        TextValue::Str(s) => s.as_str(),
        _ => {
            return Err(TextError::NotAString);
        },
    };
    if str_eq(s, bintype_name(BinType::Null)) {
        return Ok(BinType::Null);
    }
    if str_eq(s, bintype_name(BinType::Bool)) {
        return Ok(BinType::Bool);
    }
    if str_eq(s, bintype_name(BinType::SInt8)) {
        return Ok(BinType::SInt8);
    }
    if str_eq(s, bintype_name(BinType::UInt8)) {
        return Ok(BinType::UInt8);
    }
    if str_eq(s, bintype_name(BinType::SInt16)) {
        return Ok(BinType::SInt16);
    }
    if str_eq(s, bintype_name(BinType::UInt16)) {
        return Ok(BinType::UInt16);
    }
    if str_eq(s, bintype_name(BinType::SInt32)) {
        return Ok(BinType::SInt32);
    }
    if str_eq(s, bintype_name(BinType::UInt32)) {
        return Ok(BinType::UInt32);
    }
    if str_eq(s, bintype_name(BinType::SInt64)) {
        return Ok(BinType::SInt64);
    }
    if str_eq(s, bintype_name(BinType::UInt64)) {
        return Ok(BinType::UInt64);
    }
    if str_eq(s, bintype_name(BinType::Float32)) {
        return Ok(BinType::Float32);
    }
    if str_eq(s, bintype_name(BinType::Vector2)) {
        return Ok(BinType::Vector2);
    }
    if str_eq(s, bintype_name(BinType::Vector3)) {
        return Ok(BinType::Vector3);
    }
    if str_eq(s, bintype_name(BinType::Vector4)) {
        return Ok(BinType::Vector4);
    }
    if str_eq(s, bintype_name(BinType::Matrix4x4)) {
        return Ok(BinType::Matrix4x4);
    }
    if str_eq(s, bintype_name(BinType::Rgba)) {
        return Ok(BinType::Rgba);
    }
    if str_eq(s, bintype_name(BinType::String)) {
        return Ok(BinType::String);
    }
    if str_eq(s, bintype_name(BinType::Hash)) {
        return Ok(BinType::Hash);
    }
    if str_eq(s, bintype_name(BinType::WadEntryLink)) {
        return Ok(BinType::WadEntryLink);
    }
    if str_eq(s, bintype_name(BinType::Container)) {
        return Ok(BinType::Container);
    }
    if str_eq(s, bintype_name(BinType::Struct)) {
        return Ok(BinType::Struct);
    }
    if str_eq(s, bintype_name(BinType::Pointer)) {
        return Ok(BinType::Pointer);
    }
    if str_eq(s, bintype_name(BinType::Embedded)) {
        return Ok(BinType::Embedded);
    }
    if str_eq(s, bintype_name(BinType::Link)) {
        return Ok(BinType::Link);
    }
    if str_eq(s, bintype_name(BinType::Optional)) {
        return Ok(BinType::Optional);
    }
    if str_eq(s, bintype_name(BinType::Mapping)) {
        return Ok(BinType::Mapping);
    }
    if str_eq(s, bintype_name(BinType::Flag)) {
        return Ok(BinType::Flag);
    }
    Err(TextError::UnknownKind)
}

fn hash32_of(s: &String) -> (r: Result<u32, TextError>)
    ensures
        r is Ok ==> token_hash_u32(s@) == Ok::<u32, MalformedNumeral>(r->Ok_0),
        token_hash_u32(s@) is Ok ==> r is Ok,
{
    match string_to_hash_u32(s.as_str()) {
        Ok(h) => Ok(h),
        Err(e) => Err(TextError::Malformed(e)),
    }
}

fn hash64_of(s: &String) -> (r: Result<u64, TextError>)
    ensures
        r is Ok ==> token_hash_u64(s@) == Ok::<u64, MalformedNumeral>(r->Ok_0),
        token_hash_u64(s@) is Ok ==> r is Ok,
{
    match string_to_hash_u64(s.as_str()) {
        Ok(h) => Ok(h),
        Err(e) => Err(TextError::Malformed(e)),
    }
}

fn read_int(v: &TextValue, lo: i128, hi: i128) -> (r: Result<i128, TextError>)
    ensures
        r is Ok ==> int_in(*v, lo as int, hi as int, r->Ok_0 as int),
        (exists|x: int| #[trigger] int_in(*v, lo as int, hi as int, x)) ==> r is Ok,
{
    match as_int(v, lo, hi) {
        Some(x) => Ok(x),
        None => Err(TextError::NotANumber),
    }
}

fn read_floats(v: &TextValue, n: usize) -> (r: Result<Vec<u32>, TextError>)
    ensures
        r is Ok ==> floats_read(*v, n as nat, r->Ok_0@),
        (exists|xs: Seq<u32>| #[trigger] floats_read(*v, n as nat, xs)) ==> r is Ok,
{
    let ghost rd = exists|xs: Seq<u32>| #[trigger] floats_read(*v, n as nat, xs);
    let ghost w = choose|xs: Seq<u32>| #[trigger] floats_read(*v, n as nat, xs);
    proof {
        if rd {
            assert(floats_read(*v, n as nat, w));
        }
    }
    let a = match v {
        TextValue::Array(a) => a,
        _ => {
            return Err(TextError::WrongLength);
        },
    };
    if a.len() != n {
        return Err(TextError::WrongLength);
    }
    let mut xs: Vec<u32> = Vec::new();
    let mut i: usize = 0;
    while i < n
        invariant
            a@.len() == n,
            *v == TextValue::Array(*a),
            i <= n,
            xs@.len() == i,
            forall|j: int| 0 <= j < i ==> float_value(#[trigger] members(*v)[j]) == Some(xs@[j]),
            rd ==> floats_read(*v, n as nat, w),
        decreases n - i,
    {
        proof {
            if rd {
                assert(float_value(members(*v)[i as int]) == Some(w[i as int]));
            }
        }
        match as_float_bits(&a[i]) {
            Some(bits) => {
                xs.push(bits);
            },
            None => {
                return Err(TextError::NotANumber);
            },
        }
        i = i + 1;
    }
    Ok(xs)
}

fn read_rgba(v: &TextValue) -> (r: Result<Vec<u8>, TextError>)
    ensures
        r is Ok ==> v is Array && members(*v).len() == 4 && r->Ok_0@.len() == 4 && forall|i: int|
            0 <= i < 4 ==> int_in(#[trigger] members(*v)[i], 0, 0xff, r->Ok_0@[i] as int),
        (exists|xs: Seq<u8>|
            v is Array && members(*v).len() == 4 && #[trigger] xs.len() == 4 && forall|i: int|
                0 <= i < 4 ==> int_in(#[trigger] members(*v)[i], 0, 0xff, xs[i] as int)) ==> r is Ok,
{
    let ghost rd = exists|xs: Seq<u8>|
        v is Array && members(*v).len() == 4 && #[trigger] xs.len() == 4 && forall|i: int|
            0 <= i < 4 ==> int_in(#[trigger] members(*v)[i], 0, 0xff, xs[i] as int);
    let ghost w = choose|xs: Seq<u8>|
        v is Array && members(*v).len() == 4 && #[trigger] xs.len() == 4 && forall|i: int|
            0 <= i < 4 ==> int_in(#[trigger] members(*v)[i], 0, 0xff, xs[i] as int);
    let a = match v {
        TextValue::Array(a) => a,
        _ => {
            return Err(TextError::WrongLength);
        },
    };
    if a.len() != 4 {
        return Err(TextError::WrongLength);
    }
    let mut xs: Vec<u8> = Vec::new();
    let mut i: usize = 0;
    while i < 4
        invariant
            a@.len() == 4,
            *v == TextValue::Array(*a),
            i <= 4,
            xs@.len() == i,
            forall|j: int| 0 <= j < i ==> int_in(#[trigger] members(*v)[j], 0, 0xff, xs@[j] as int),
            rd ==> w.len() == 4 && forall|j: int|
                0 <= j < 4 ==> int_in(#[trigger] members(*v)[j], 0, 0xff, w[j] as int),
        decreases 4 - i,
    {
        proof {
            if rd {
                assert(int_in(members(*v)[i as int], 0, 0xff, w[i as int] as int));
            }
        }
        let x = read_int(&a[i], 0, 0xff)?;
        xs.push(x as u8);
        i = i + 1;
    }
    Ok(xs)
}

fn object_of(v: &TextValue, n: usize) -> (r: Result<&Vec<TextMember>, TextError>)
    ensures
        r is Ok ==> entries(*v, n as nat) == Some(r->Ok_0@) && *v == TextValue::Object(*r->Ok_0),
        entries(*v, n as nat) is Some ==> r is Ok,
{
    match v {
        TextValue::Object(ms) => {
            if ms.len() >= n {
                Ok(ms)
            } else {
                Err(TextError::NotAnObject)
            }
        },
        _ => Err(TextError::NotAnObject),
    }
}

/// Reads a text node as a value of kind `bin_type`.
pub fn deserialize_bindata(value: &TextValue, bin_type: BinType) -> (r: Result<BinData, TextError>)
    ensures
        r is Ok ==> text_reads(*value, bin_type, r->Ok_0),
        (exists|d: BinData| #[trigger] text_reads(*value, bin_type, d)) ==> r is Ok,
    decreases value, 1nat,
{
    let ghost rd = exists|d: BinData| #[trigger] text_reads(*value, bin_type, d);
    let ghost w = choose|d: BinData| #[trigger] text_reads(*value, bin_type, d);
    proof {
        if rd {
            assert(text_reads(*value, bin_type, w));
        }
    }
    match bin_type {
        BinType::Null => Ok(BinData::Null),
        BinType::Bool => match value {
            TextValue::Bool(b) => Ok(BinData::Bool(*b)),
            _ => Err(TextError::NotABool),
        },
        BinType::SInt8 => Ok(BinData::SInt8(read_int(value, -0x80, 0x7f)? as i8)),
        BinType::UInt8 => Ok(BinData::UInt8(read_int(value, 0, 0xff)? as u8)),
        BinType::SInt16 => Ok(BinData::SInt16(read_int(value, -0x8000, 0x7fff)? as i16)),
        BinType::UInt16 => Ok(BinData::UInt16(read_int(value, 0, 0xffff)? as u16)),
        BinType::SInt32 => Ok(BinData::SInt32(read_int(value, -0x8000_0000, 0x7fff_ffff)? as i32)),
        BinType::UInt32 => Ok(BinData::UInt32(read_int(value, 0, 0xffff_ffff)? as u32)),
        BinType::SInt64 => Ok(
            BinData::SInt64(
                read_int(value, -0x8000_0000_0000_0000, 0x7fff_ffff_ffff_ffff)? as i64,
            ),
        ),
        BinType::UInt64 => Ok(BinData::UInt64(read_int(value, 0, 0xffff_ffff_ffff_ffff)? as u64)),
        BinType::Float32 => match as_float_bits(value) {
            Some(bits) => Ok(BinData::Float32(bits)),
            None => Err(TextError::NotANumber),
        },
        BinType::Vector2 => Ok(BinData::Vector2(read_floats(value, 2)?)),
        BinType::Vector3 => Ok(BinData::Vector3(read_floats(value, 3)?)),
        BinType::Vector4 => Ok(BinData::Vector4(read_floats(value, 4)?)),
        BinType::Matrix4x4 => Ok(BinData::Matrix4x4(read_floats(value, 16)?)),
        BinType::Rgba => Ok(BinData::Rgba(read_rgba(value)?)),
        BinType::String => match value {
            TextValue::Str(s) => Ok(BinData::String(s.clone())),
            _ => Err(TextError::NotAString),
        },
        BinType::Hash => match value {
            TextValue::Str(s) => Ok(BinData::Hash(hash32_of(s)?)),
            _ => Err(TextError::NotAString),
        },
        BinType::WadEntryLink => match value {
            TextValue::Str(s) => Ok(BinData::WadEntryLink(hash64_of(s)?)),
            _ => Err(TextError::NotAString),
        },
        BinType::Link => match value {
            TextValue::Str(s) => Ok(BinData::Link(hash32_of(s)?)),
            _ => Err(TextError::NotAString),
        },
        BinType::Container | BinType::Struct => deserialize_containerorstruct(value, bin_type),
        BinType::Pointer | BinType::Embedded => deserialize_pointerorembedded(value, bin_type),
        BinType::Optional => deserialize_optional(value),
        BinType::Mapping => deserialize_map(value),
        BinType::Flag => match value {
            TextValue::Bool(b) => Ok(BinData::Flag(*b)),
            _ => Err(TextError::NotABool),
        },
    }
}

fn deserialize_containerorstruct(object: &TextValue, bin_type: BinType) -> (r: Result<
    BinData,
    TextError,
>)
    requires
        bin_type == BinType::Container || bin_type == BinType::Struct,
    ensures
        r is Ok ==> text_reads(*object, bin_type, r->Ok_0),
        (exists|d: BinData| #[trigger] text_reads(*object, bin_type, d)) ==> r is Ok,
    decreases object, 0nat,
{
    let ghost rd = exists|d: BinData| #[trigger] text_reads(*object, bin_type, d);
    let ghost w = choose|d: BinData| #[trigger] text_reads(*object, bin_type, d);
    proof {
        if rd {
            assert(text_reads(*object, bin_type, w));
        }
    }
    let ms = object_of(object, 2)?;
    let btype = deserialize_bintype(&ms[0].value)?;
    let mut items: Vec<BinData> = Vec::new();
    match &ms[1].value {
        TextValue::Array(a) => {
            proof {
                assert(decreases_to!(*object => *ms));
                assert(decreases_to!(*ms => ms[1]));
                assert(decreases_to!(ms[1] => ms[1].value));
                assert(decreases_to!(*object => *a));
            }
            let mut i: usize = 0;
            while i < a.len()
                invariant
                    decreases_to!(*object => *a),
                    ms[1].value == TextValue::Array(*a),
                    i <= a@.len(),
                    items@.len() == i,
                    forall|j: int|
                        0 <= j < i ==> text_reads(a@[j], btype, #[trigger] items@[j]),
                    rd == exists|d: BinData| #[trigger] text_reads(*object, bin_type, d),
                    rd ==> text_reads(*object, bin_type, w) && entries(*object, 2) == Some(ms@)
                        && node_kind(ms@[0].value) == Some(btype),
                    bin_type == BinType::Container || bin_type == BinType::Struct,
                decreases a@.len() - i,
            {
                proof {
                    assert(decreases_to!(*a => a[i as int]));
                    if rd {
                        assert(w is ContainerOrStruct);
                        let wc = w->ContainerOrStruct_0;
                        assert(wc.btype == btype);
                        assert(wc.items@.len() == members(ms@[1].value).len());
                        assert(text_reads(members(ms@[1].value)[i as int], btype, wc.items@[i as int]));
                    }
                }
                let d = deserialize_bindata(&a[i], btype)?;
                items.push(d);
                i = i + 1;
            }
        },
        _ => {},
    }
    Ok(BinData::ContainerOrStruct(ContainerOrStruct::new(btype, items)))
}

fn deserialize_binfield(object: &TextValue) -> (r: Result<BinField, TextError>)
    ensures
        r is Ok ==> text_reads_field(*object, r->Ok_0),
        (exists|f: BinField| #[trigger] text_reads_field(*object, f)) ==> r is Ok,
    decreases object, 1nat,
{
    let ghost rd = exists|f: BinField| #[trigger] text_reads_field(*object, f);
    let ghost w = choose|f: BinField| #[trigger] text_reads_field(*object, f);
    proof {
        if rd {
            assert(text_reads_field(*object, w));
        }
    }
    let ms = object_of(object, 3)?;
    let name = match &ms[0].value {
        TextValue::Str(s) => hash32_of(s)?,
        _ => {
            return Err(TextError::NotAString);
        },
    };
    let btype = deserialize_bintype(&ms[1].value)?;
    proof {
        assert(decreases_to!(*object => *ms));
        assert(decreases_to!(*ms => ms[2]));
        assert(decreases_to!(ms[2] => ms[2].value));
        if rd {
            assert(w.btype == btype);
            assert(text_reads(ms@[2].value, btype, *w.data));
        }
    }
    let data = deserialize_bindata(&ms[2].value, btype)?;
    Ok(BinField::new(name, btype, data))
}

fn deserialize_pointerorembedded(object: &TextValue, bin_type: BinType) -> (r: Result<
    BinData,
    TextError,
>)
    requires
        bin_type == BinType::Pointer || bin_type == BinType::Embedded,
    ensures
        r is Ok ==> text_reads(*object, bin_type, r->Ok_0),
        (exists|d: BinData| #[trigger] text_reads(*object, bin_type, d)) ==> r is Ok,
    decreases object, 0nat,
{
    let ghost rd = exists|d: BinData| #[trigger] text_reads(*object, bin_type, d);
    let ghost w = choose|d: BinData| #[trigger] text_reads(*object, bin_type, d);
    proof {
        if rd {
            assert(text_reads(*object, bin_type, w));
        }
    }
    let ms = object_of(object, 0)?;
    if ms.len() == 0 {
        return Ok(BinData::PointerOrEmbedded(PointerOrEmbedded::new(0, Vec::new())));
    }
    let name = hash32_of(&ms[0].key)?;
    let mut fields: Vec<BinField> = Vec::new();
    match &ms[0].value {
        TextValue::Array(a) => {
            proof {
                assert(decreases_to!(*object => *ms));
                assert(decreases_to!(*ms => ms[0]));
                assert(decreases_to!(ms[0] => ms[0].value));
                assert(decreases_to!(*object => *a));
            }
            let mut i: usize = 0;
            while i < a.len()
                invariant
                    decreases_to!(*object => *a),
                    ms[0].value == TextValue::Array(*a),
                    i <= a@.len(),
                    fields@.len() == i,
                    forall|j: int| 0 <= j < i ==> text_reads_field(a@[j], #[trigger] fields@[j]),
                    rd == exists|d: BinData| #[trigger] text_reads(*object, bin_type, d),
                    rd ==> text_reads(*object, bin_type, w) && *object == TextValue::Object(*ms)
                        && ms@.len() > 0,
                    bin_type == BinType::Pointer || bin_type == BinType::Embedded,
                decreases a@.len() - i,
            {
                proof {
                    assert(decreases_to!(*a => a[i as int]));
                    if rd {
                        assert(w is PointerOrEmbedded);
                        let wp = w->PointerOrEmbedded_0;
                        assert(wp.items@.len() == members(ms@[0].value).len());
                        assert(text_reads_field(members(ms@[0].value)[i as int], wp.items@[i as int]));
                    }
                }
                let f = deserialize_binfield(&a[i])?;
                fields.push(f);
                i = i + 1;
            }
        },
        _ => {},
    }
    Ok(BinData::PointerOrEmbedded(PointerOrEmbedded::new(name, fields)))
}

fn deserialize_optional(object: &TextValue) -> (r: Result<BinData, TextError>)
    ensures
        r is Ok ==> text_reads(*object, BinType::Optional, r->Ok_0),
        (exists|d: BinData| #[trigger] text_reads(*object, BinType::Optional, d)) ==> r is Ok,
    decreases object, 0nat,
{
    let ghost rd = exists|d: BinData| #[trigger] text_reads(*object, BinType::Optional, d);
    let ghost w = choose|d: BinData| #[trigger] text_reads(*object, BinType::Optional, d);
    proof {
        if rd {
            assert(text_reads(*object, BinType::Optional, w));
        }
    }
    let ms = object_of(object, 2)?;
    let btype = deserialize_bintype(&ms[0].value)?;
    let item = match &ms[1].value {
        TextValue::Array(a) => {
            if a.len() > 0 {
                proof {
                    assert(decreases_to!(*object => *ms));
                    assert(decreases_to!(*ms => ms[1]));
                    assert(decreases_to!(ms[1] => ms[1].value));
                    assert(decreases_to!(*object => *a));
                    assert(decreases_to!(*a => a[0]));
                    if rd {
                        let wo = w->Optional_0;
                        assert(wo.btype == btype);
                        assert(wo.data is Some);
                        assert(text_reads(a@[0], btype, *wo.data->0));
                    }
                }
                Some(deserialize_bindata(&a[0], btype)?)
            } else {
                None
            }
        },
        _ => None,
    };
    Ok(BinData::Optional(Optional::new(btype, item)))
}

/// Reads a pair of a map with key kind `keytype` and value kind `valuetype`.
fn deserialize_mappair(object: &TextValue, keytype: BinType, valuetype: BinType) -> (r: Result<
    MapPair,
    TextError,
>)
    ensures
        r is Ok ==> text_reads_pair(*object, keytype, valuetype, r->Ok_0),
        (exists|p: MapPair| #[trigger] text_reads_pair(*object, keytype, valuetype, p)) ==> r is Ok,
    decreases object, 1nat,
{
    let ghost rd = exists|p: MapPair| #[trigger] text_reads_pair(*object, keytype, valuetype, p);
    let ghost w = choose|p: MapPair| #[trigger] text_reads_pair(*object, keytype, valuetype, p);
    proof {
        if rd {
            assert(text_reads_pair(*object, keytype, valuetype, w));
        }
    }
    match keytype {
        BinType::WadEntryLink | BinType::Hash | BinType::Link => {
            let ms = object_of(object, 1)?;
            let keydata = match keytype {
                BinType::WadEntryLink => BinData::WadEntryLink(hash64_of(&ms[0].key)?),
                BinType::Hash => BinData::Hash(hash32_of(&ms[0].key)?),
                _ => BinData::Link(hash32_of(&ms[0].key)?),
            };
            proof {
                assert(decreases_to!(*object => *ms));
                assert(decreases_to!(*ms => ms[0]));
                assert(decreases_to!(ms[0] => ms[0].value));
                if rd {
                    assert(text_reads(ms@[0].value, valuetype, *w.valuedata));
                }
            }
            let valuedata = deserialize_bindata(&ms[0].value, valuetype)?;
            Ok(MapPair::new(keydata, valuedata))
        },
        _ => {
            let ms = object_of(object, 2)?;
            proof {
                assert(decreases_to!(*object => *ms));
                assert(decreases_to!(*ms => ms[0]));
                assert(decreases_to!(ms[0] => ms[0].value));
                assert(decreases_to!(*ms => ms[1]));
                assert(decreases_to!(ms[1] => ms[1].value));
                if rd {
                    assert(text_reads(ms@[0].value, keytype, *w.keydata));
                    assert(text_reads(ms@[1].value, valuetype, *w.valuedata));
                }
            }
            let keydata = deserialize_bindata(&ms[0].value, keytype)?;
            let valuedata = deserialize_bindata(&ms[1].value, valuetype)?;
            Ok(MapPair::new(keydata, valuedata))
        },
    }
}

fn deserialize_map(object: &TextValue) -> (r: Result<BinData, TextError>)
    ensures
        r is Ok ==> text_reads(*object, BinType::Mapping, r->Ok_0),
        (exists|d: BinData| #[trigger] text_reads(*object, BinType::Mapping, d)) ==> r is Ok,
    decreases object, 0nat,
{
    let ghost rd = exists|d: BinData| #[trigger] text_reads(*object, BinType::Mapping, d);
    let ghost w = choose|d: BinData| #[trigger] text_reads(*object, BinType::Mapping, d);
    proof {
        if rd {
            assert(text_reads(*object, BinType::Mapping, w));
        }
    }
    let ms = object_of(object, 3)?;
    let keytype = deserialize_bintype(&ms[0].value)?;
    let valuetype = deserialize_bintype(&ms[1].value)?;
    let mut pairs: Vec<MapPair> = Vec::new();
    match &ms[2].value {
        TextValue::Array(a) => {
            proof {
                assert(decreases_to!(*object => *ms));
                assert(decreases_to!(*ms => ms[2]));
                assert(decreases_to!(ms[2] => ms[2].value));
                assert(decreases_to!(*object => *a));
            }
            let mut i: usize = 0;
            while i < a.len()
                invariant
                    decreases_to!(*object => *a),
                    ms[2].value == TextValue::Array(*a),
                    i <= a@.len(),
                    pairs@.len() == i,
                    forall|j: int|
                        0 <= j < i ==> text_reads_pair(a@[j], keytype, valuetype, #[trigger] pairs@[j]),
                    rd == exists|d: BinData| #[trigger] text_reads(*object, BinType::Mapping, d),
                    rd ==> text_reads(*object, BinType::Mapping, w) && entries(*object, 3) == Some(ms@)
                        && node_kind(ms@[0].value) == Some(keytype) && node_kind(ms@[1].value) == Some(
                        valuetype,
                    ),
                decreases a@.len() - i,
            {
                proof {
                    assert(decreases_to!(*a => a[i as int]));
                    if rd {
                        let wm = w->Mapping_0;
                        assert(text_reads_pair(
                            members(ms@[2].value)[i as int],
                            keytype,
                            valuetype,
                            wm.items@[i as int],
                        ));
                    }
                }
                let p = deserialize_mappair(&a[i], keytype, valuetype)?;
                pairs.push(p);
                i = i + 1;
            }
        },
        _ => {},
    }
    Ok(BinData::Mapping(BinMap::new(keytype, valuetype, pairs)))
}

/// Whether member `i` is the first keyed `k`.
pub open spec fn first_key(ms: Seq<TextMember>, k: Seq<char>, i: int) -> bool {
    0 <= i < ms.len() && ms[i].key@ == k && forall|j: int| 0 <= j < i ==> (#[trigger] ms[j]).key@ != k
}

/// The value of the first member keyed `k`.
pub open spec fn value_at(ms: Seq<TextMember>, k: Seq<char>) -> Option<TextValue> {
    if exists|i: int| first_key(ms, k, i) {
        Some(ms[choose|i: int| first_key(ms, k, i)].value)
    } else {
        None
    }
}

/// The members of the array at key `k`; none if there is no such array.
pub open spec fn array_at(ms: Seq<TextMember>, k: Seq<char>) -> Seq<TextValue> {
    match value_at(ms, k) {
        Some(v) => members(v),
        None => seq![],
    }
}

/// Whether the pairs of an entries or patches array give the pairs `s`.
pub open spec fn pairs_read(a: Seq<TextValue>, s: Seq<MapPair>) -> bool {
    a.len() == s.len() && forall|i: int|
        0 <= i < s.len() ==> text_reads_pair(a[i], BinType::Hash, BinType::Embedded, #[trigger] s[i])
}

/// Whether the text root gives the archive `f`: its members are looked up by
/// key, the first of equal keys counting.
pub open spec fn text_reads_file(v: TextValue, f: BinFile) -> bool {
    match v {
        TextValue::Object(o) => {
            let ms = o@;
            &&& value_at(ms, "IsPatch"@) == Some(TextValue::Bool(f.is_patch))
            &&& if f.is_patch {
                value_at(ms, "Unknown"@) is Some && f.unknown is Some && int_in(
                    value_at(ms, "Unknown"@)->0,
                    0,
                    0xffff_ffff_ffff_ffff,
                    f.unknown->0 as int,
                )
            } else {
                f.unknown is None
            }
            &&& value_at(ms, "Version"@) is Some && int_in(
                value_at(ms, "Version"@)->0,
                0,
                0xffff_ffff,
                f.version as int,
            )
            &&& array_at(ms, "LinkedList"@).len() == f.linked_list@.len() && forall|i: int|
                0 <= i < f.linked_list@.len() ==> str_of(array_at(ms, "LinkedList"@)[i]) == Some(
                    (#[trigger] f.linked_list@[i])@,
                )
            &&& f.entries.keytype == BinType::Hash && f.entries.valuetype == BinType::Embedded
            &&& pairs_read(array_at(ms, "Entries"@), f.entries.items@)
            &&& if f.is_patch {
                f.patches is Some && f.patches->0.keytype == BinType::Hash && f.patches->0.valuetype
                    == BinType::Embedded && pairs_read(array_at(ms, "Patches"@), f.patches->0.items@)
            } else {
                f.patches is None
            }
        },
        _ => false,
    }
}

/// The first member keyed `key`.
fn find_member<'a>(ms: &'a Vec<TextMember>, key: &str) -> (r: Option<&'a TextValue>)
    ensures
        r is Some <==> value_at(ms@, key@) is Some,
        r is Some ==> value_at(ms@, key@) == Some(*r->0),
{
    let mut i: usize = 0;
    while i < ms.len()
        invariant
            i <= ms@.len(),
            forall|j: int| 0 <= j < i ==> (#[trigger] ms@[j]).key@ != key@,
        decreases ms@.len() - i,
    {
        if str_eq(ms[i].key.as_str(), key) {
            proof {
                assert(first_key(ms@, key@, i as int));
                let c = choose|c: int| first_key(ms@, key@, c);
                assert(c == i) by {
                    if c < i {
                        assert(ms@[c].key@ != key@);
                    } else if c > i {
                        assert(ms@[i as int].key@ != key@);
                    }
                }
            }
            return Some(&ms[i].value);
        }
        i = i + 1;
    }
    proof {
        if exists|c: int| first_key(ms@, key@, c) {
            let c = choose|c: int| first_key(ms@, key@, c);
            assert(ms@[c].key@ != key@);
        }
    }
    None
}

fn read_pairs(a: &Vec<TextValue>) -> (r: Result<Vec<MapPair>, TextError>)
    ensures
        r is Ok ==> pairs_read(a@, r->Ok_0@),
        (exists|s: Seq<MapPair>| #[trigger] pairs_read(a@, s)) ==> r is Ok,
{
    let ghost rd = exists|s: Seq<MapPair>| #[trigger] pairs_read(a@, s);
    let ghost w = choose|s: Seq<MapPair>| #[trigger] pairs_read(a@, s);
    let mut items: Vec<MapPair> = Vec::new();
    let mut i: usize = 0;
    while i < a.len()
        invariant
            i <= a@.len(),
            items@.len() == i,
            forall|j: int|
                0 <= j < i ==> text_reads_pair(
                    a@[j],
                    BinType::Hash,
                    BinType::Embedded,
                    #[trigger] items@[j],
                ),
            rd == exists|s: Seq<MapPair>| #[trigger] pairs_read(a@, s),
            rd ==> pairs_read(a@, w),
        decreases a@.len() - i,
    {
        proof {
            if rd {
                assert(text_reads_pair(a@[i as int], BinType::Hash, BinType::Embedded, w[i as int]));
            }
        }
        let p = deserialize_mappair(&a[i], BinType::Hash, BinType::Embedded)?;
        items.push(p);
        i = i + 1;
    }
    Ok(items)
}

fn array_members(v: Option<&TextValue>) -> (r: Option<&Vec<TextValue>>)
    ensures
        r is Some ==> v is Some && *v->0 == TextValue::Array(*r->0),
        r is None ==> v is None || !(*v->0 is Array),
{
    match v {
        Some(TextValue::Array(a)) => Some(a),
        _ => None,
    }
}

/// Builds an archive from the text root.
pub fn convert_json_to_bin(root: &TextValue) -> (r: Result<BinFile, TextError>)
    ensures
        r is Ok ==> text_reads_file(*root, r->Ok_0),
        (exists|f: BinFile| #[trigger] text_reads_file(*root, f)) ==> r is Ok,
{
    let ghost rd = exists|f: BinFile| #[trigger] text_reads_file(*root, f);
    let ghost w = choose|f: BinFile| #[trigger] text_reads_file(*root, f);
    proof {
        if rd {
            assert(text_reads_file(*root, w));
        }
    }
    let ms = match root {
        TextValue::Object(ms) => ms,
        _ => {
            return Err(TextError::NotAnObject);
        },
    };
    let is_patch = match find_member(ms, "IsPatch") {
        Some(TextValue::Bool(b)) => *b,
        Some(_) => {
            return Err(TextError::NotABool);
        },
        None => {
            return Err(TextError::MissingMember);
        },
    };
    let unknown = if is_patch {
        match find_member(ms, "Unknown") {
            Some(v) => Some(read_int(v, 0, 0xffff_ffff_ffff_ffff)? as u64),
            None => {
                return Err(TextError::MissingMember);
            },
        }
    } else {
        None
    };
    let version = match find_member(ms, "Version") {
        Some(v) => read_int(v, 0, 0xffff_ffff)? as u32,
        None => {
            return Err(TextError::MissingMember);
        },
    };
    proof {
        if rd {
            assert(is_patch == w.is_patch);
            if is_patch {
                assert(int_in(value_at(ms@, "Unknown"@)->0, 0, 0xffff_ffff_ffff_ffff, w.unknown->0 as int));
            }
            assert(int_in(value_at(ms@, "Version"@)->0, 0, 0xffff_ffff, w.version as int));
        }
    }
    let mut linked_list: Vec<String> = Vec::new();
    match array_members(find_member(ms, "LinkedList")) {
        Some(a) => {
            let mut i: usize = 0;
            while i < a.len()
                invariant
                    i <= a@.len(),
                    linked_list@.len() == i,
                    forall|j: int|
                        0 <= j < i ==> str_of(a@[j]) == Some((#[trigger] linked_list@[j])@),
                    rd == exists|f: BinFile| #[trigger] text_reads_file(*root, f),
                    rd ==> text_reads_file(*root, w) && a@ == array_at(ms@, "LinkedList"@),
                    *root == TextValue::Object(*ms),
                decreases a@.len() - i,
            {
                proof {
                    if rd {
                        assert(str_of(a@[i as int]) == Some(w.linked_list@[i as int]@));
                    }
                }
                match &a[i] {
                    TextValue::Str(s) => {
                        linked_list.push(s.clone());
                    },
                    _ => {
                        return Err(TextError::NotAString);
                    },
                }
                i = i + 1;
            }
        },
        None => {},
    }
    let entry_items = match array_members(find_member(ms, "Entries")) {
        Some(a) => {
            proof {
                if rd {
                    assert(pairs_read(a@, w.entries.items@));
                }
            }
            read_pairs(a)?
        },
        None => Vec::new(),
    };
    let entries = BinMap::new(BinType::Hash, BinType::Embedded, entry_items);
    let patches = if is_patch {
        let patch_items = match array_members(find_member(ms, "Patches")) {
            Some(a) => {
                proof {
                    if rd {
                        assert(pairs_read(a@, w.patches->0.items@));
                    }
                }
                read_pairs(a)?
            },
            None => Vec::new(),
        };
        Some(BinMap::new(BinType::Hash, BinType::Embedded, patch_items))
    } else {
        None
    };
    Ok(BinFile::new(is_patch, unknown, version, linked_list, entries, patches))
}

} // verus!
