//! The typed value tree shared by the binary and the structured-text forms.
//!
//! Floating-point payloads are held as their IEEE-754 bit patterns (`u32`), so
//! that every value in the tree compares and round-trips exactly.

use vstd::prelude::*;

verus! {

/// The logical kind of a value.
#[derive(Clone, Copy, Debug, PartialEq, Eq, Structural)]
pub enum BinType {
    Null,
    Bool,
    SInt8,
    UInt8,
    SInt16,
    UInt16,
    SInt32,
    UInt32,
    SInt64,
    UInt64,
    Float32,
    Vector2,
    Vector3,
    Vector4,
    Matrix4x4,
    Rgba,
    String,
    Hash,
    WadEntryLink,
    Container,
    Struct,
    Pointer,
    Embedded,
    Link,
    Optional,
    Mapping,
    Flag,
}

/// A value of one of the logical kinds.
#[derive(Debug, PartialEq, Eq)]
pub enum BinData {
    Null,
    Bool(bool),
    SInt8(i8),
    UInt8(u8),
    SInt16(i16),
    UInt16(u16),
    SInt32(i32),
    UInt32(u32),
    SInt64(i64),
    UInt64(u64),
    /// The bit pattern of a 32-bit float.
    Float32(u32),
    /// The bit patterns of two floats.
    Vector2(Vec<u32>),
    /// The bit patterns of three floats.
    Vector3(Vec<u32>),
    /// The bit patterns of four floats.
    Vector4(Vec<u32>),
    /// The bit patterns of sixteen floats, row by row.
    Matrix4x4(Vec<u32>),
    Rgba(Vec<u8>),
    String(String),
    Hash(u32),
    WadEntryLink(u64),
    ContainerOrStruct(ContainerOrStruct),
    PointerOrEmbedded(PointerOrEmbedded),
    Optional(Optional),
    Link(u32),
    Mapping(BinMap),
    Flag(bool),
}

/// A named, typed field of a record.
#[derive(Debug, PartialEq, Eq)]
pub struct BinField {
    pub name: u32,
    pub btype: BinType,
    pub data: Box<BinData>,
}

/// A homogeneous sequence of values of one element type.
#[derive(Debug, PartialEq, Eq)]
pub struct ContainerOrStruct {
    pub btype: BinType,
    pub items: Vec<BinData>,
}

/// A record named by the hash of its type; name 0 is the null record.
#[derive(Debug, PartialEq, Eq)]
pub struct PointerOrEmbedded {
    pub name: u32,
    pub items: Vec<BinField>,
}

/// Zero or one value of a declared type.
#[derive(Debug, PartialEq, Eq)]
pub struct Optional {
    pub btype: BinType,
    pub data: Option<Box<BinData>>,
}

/// One key/value pair of a map.
#[derive(Debug, PartialEq, Eq)]
pub struct MapPair {
    pub keydata: Box<BinData>,
    pub valuedata: Box<BinData>,
}

/// A map with declared key and value types, in insertion order.
#[derive(Debug, PartialEq, Eq)]
pub struct BinMap {
    pub keytype: BinType,
    pub valuetype: BinType,
    pub items: Vec<MapPair>,
}

/// A whole archive.
#[derive(Debug, PartialEq, Eq)]
pub struct BinFile {
    pub is_patch: bool,
    pub unknown: Option<u64>,
    pub version: u32,
    pub linked_list: Vec<String>,
    pub entries: BinMap,
    pub patches: Option<BinMap>,
}

impl BinFile {
    pub fn new(
        is_patch: bool,
        unknown: Option<u64>,
        version: u32,
        linked_list: Vec<String>,
        entries: BinMap,
        patches: Option<BinMap>,
    ) -> (r: BinFile)
        ensures
            r == (BinFile { is_patch, unknown, version, linked_list, entries, patches }),
    {
        BinFile { is_patch, unknown, version, linked_list, entries, patches }
    }
}

impl BinField {
    pub fn new(name: u32, btype: BinType, data: BinData) -> (r: BinField)
        ensures
            r.name == name,
            r.btype == btype,
            *r.data == data,
    {
        BinField { name, btype, data: Box::new(data) }
    }
}

impl ContainerOrStruct {
    pub fn new(btype: BinType, items: Vec<BinData>) -> (r: ContainerOrStruct)
        ensures
            r == (ContainerOrStruct { btype, items }),
    {
        ContainerOrStruct { btype, items }
    }
}

impl PointerOrEmbedded {
    pub fn new(name: u32, items: Vec<BinField>) -> (r: PointerOrEmbedded)
        ensures
            r == (PointerOrEmbedded { name, items }),
    {
        PointerOrEmbedded { name, items }
    }
}

impl Optional {
    pub fn new(btype: BinType, data: Option<BinData>) -> (r: Optional)
        ensures
            r.btype == btype,
            r.data is Some <==> data is Some,
            data is Some ==> *r.data->0 == data->0,
    {
        let boxed = match data {
            Some(d) => Some(Box::new(d)),
            None => None,
        };
        Optional { btype, data: boxed }
    }
}

impl MapPair {
    pub fn new(keydata: BinData, valuedata: BinData) -> (r: MapPair)
        ensures
            *r.keydata == keydata,
            *r.valuedata == valuedata,
    {
        MapPair { keydata: Box::new(keydata), valuedata: Box::new(valuedata) }
    }
}

impl BinMap {
    pub fn new(keytype: BinType, valuetype: BinType, items: Vec<MapPair>) -> (r: BinMap)
        ensures
            r == (BinMap { keytype, valuetype, items }),
    {
        BinMap { keytype, valuetype, items }
    }
}

} // verus!

verus! {

/// The name hash of the record type that the reader gives each patch
/// (the hash of "patch").
pub const PATCH_HASH: u32 = 0xF9100AA9;

/// The name hash of a patch's path field (the hash of "path").
pub const PATH_HASH: u32 = 0x84874D36;

/// The name hash of a patch's replacement value field (the hash of "value").
pub const VALUE_HASH: u32 = 0x425ED3CA;

} // verus!
