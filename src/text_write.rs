//! The structured-text writer: maps a value tree onto the text tree,
//! writing hash-bearing values as names where the name table knows them.

use vstd::prelude::*;
use crate::bin_read::string_from_utf8;
use std::collections::HashMap;
use crate::model::{BinData, BinField, BinFile, BinMap, MapPair};
use crate::tags::{bintype_name, kind_name};
use crate::text::{TextMember, TextValue};

verus! {

broadcast use vstd::std_specs::vec::group_vec_axioms, vstd::std_specs::hash::group_hash_axioms;

/// The characters of ASCII bytes.
pub open spec fn ascii(b: Seq<u8>) -> Seq<char> {
    b.map_values(|x: u8| x as char)
}

/// The uppercase hexadecimal digit of `d`.
pub open spec fn hex_byte(d: nat) -> u8 {
    if d < 10 {
        (0x30 + d) as u8
    } else {
        (0x41 + d - 10) as u8
    }
}

pub open spec fn pow16(j: nat) -> nat
    decreases j,
{
    if j == 0 {
        1
    } else {
        16 * pow16((j - 1) as nat)
    }
}

/// The last `n` hexadecimal digits of `v`, most significant first.
pub open spec fn hex_digits(v: nat, n: nat) -> Seq<u8>
    decreases n,
{
    if n == 0 {
        seq![]
    } else {
        seq![hex_byte((v / pow16((n - 1) as nat)) % 16)] + hex_digits(v, (n - 1) as nat)
    }
}

/// `0x` and `n` uppercase hexadecimal digits of `v`.
pub open spec fn hex_text(v: nat, n: nat) -> Seq<char> {
    ascii(seq![0x30u8, 0x78u8] + hex_digits(v, n))
}

/// How a 32-bit hash is written: its name, or its eight hex digits.
pub open spec fn hash_text32(tbl: Map<u64, String>, h: u32) -> Seq<char> {
    if tbl.contains_key(h as u64) {
        tbl[h as u64]@
    } else {
        hex_text(h as nat, 8)
    }
}

/// How a 64-bit hash is written: its name, or its sixteen hex digits.
pub open spec fn hash_text64(tbl: Map<u64, String>, h: u64) -> Seq<char> {
    if tbl.contains_key(h) {
        tbl[h]@
    } else {
        hex_text(h as nat, 16)
    }
}

pub open spec fn is_str(v: TextValue, s: Seq<char>) -> bool {
    match v {
        TextValue::Str(x) => x@ == s,
        _ => false,
    }
}

pub open spec fn is_int(v: TextValue, x: int) -> bool {
    match v {
        TextValue::Int { negative, magnitude } => negative == (x < 0) && magnitude as int == if x
            < 0 {
            -x
        } else {
            x
        },
        _ => false,
    }
}

/// An array of float nodes holding `xs`.
pub open spec fn is_floats(v: TextValue, xs: Seq<u32>) -> bool {
    match v {
        TextValue::Array(a) => a@.len() == xs.len() && forall|i: int|
            0 <= i < xs.len() ==> a@[i] == TextValue::Float(#[trigger] xs[i]),
        _ => false,
    }
}

/// An array of integer nodes holding `xs`.
pub open spec fn is_bytes(v: TextValue, xs: Seq<u8>) -> bool {
    match v {
        TextValue::Array(a) => a@.len() == xs.len() && forall|i: int|
            0 <= i < xs.len() ==> is_int(a@[i], #[trigger] xs[i] as int),
        _ => false,
    }
}

/// Whether member `i` of an object is keyed `k`.
pub open spec fn key_at(ms: Seq<TextMember>, i: int, k: Seq<char>) -> bool {
    0 <= i < ms.len() && ms[i].key@ == k
}

/// Whether `v` is the text form of `d` under the name table `tbl`.
pub open spec fn writes(tbl: Map<u64, String>, d: BinData, v: TextValue) -> bool
    decreases d,
{
    match d {
        BinData::Null => v == TextValue::Null,
        BinData::Bool(b) => v == TextValue::Bool(b),
        BinData::SInt8(x) => is_int(v, x as int),
        BinData::UInt8(x) => is_int(v, x as int),
        BinData::SInt16(x) => is_int(v, x as int),
        BinData::UInt16(x) => is_int(v, x as int),
        BinData::SInt32(x) => is_int(v, x as int),
        BinData::UInt32(x) => is_int(v, x as int),
        BinData::SInt64(x) => is_int(v, x as int),
        BinData::UInt64(x) => is_int(v, x as int),
        BinData::Float32(x) => v == TextValue::Float(x),
        BinData::Vector2(xs) => is_floats(v, xs@),
        BinData::Vector3(xs) => is_floats(v, xs@),
        BinData::Vector4(xs) => is_floats(v, xs@),
        BinData::Matrix4x4(xs) => is_floats(v, xs@),
        BinData::Rgba(xs) => is_bytes(v, xs@),
        BinData::String(s) => is_str(v, s@),
        BinData::Hash(h) => is_str(v, hash_text32(tbl, h)),
        BinData::WadEntryLink(h) => is_str(v, hash_text64(tbl, h)),
        BinData::Link(h) => is_str(v, hash_text32(tbl, h)),
        BinData::ContainerOrStruct(cs) => match v {
            TextValue::Object(ms) => ms@.len() == 2 && key_at(ms@, 0, "type"@) && is_str(
                ms@[0].value,
                kind_name(cs.btype),
            ) && key_at(ms@, 1, "data"@) && match ms@[1].value {
                TextValue::Array(a) => a@.len() == cs.items@.len() && forall|i: int|
                    0 <= i < a@.len() ==> writes(tbl, #[trigger] cs.items@[i], a@[i]),
                _ => false,
            },
            _ => false,
        },
        BinData::PointerOrEmbedded(pe) => match v {
            TextValue::Object(ms) => ms@.len() == 1 && key_at(ms@, 0, hash_text32(tbl, pe.name))
                && match ms@[0].value {
                TextValue::Array(a) => a@.len() == pe.items@.len() && forall|i: int|
                    0 <= i < a@.len() ==> writes_field(tbl, #[trigger] pe.items@[i], a@[i]),
                _ => false,
            },
            _ => false,
        },
        BinData::Optional(o) => match v {
            TextValue::Object(ms) => ms@.len() == 2 && key_at(ms@, 0, "type"@) && is_str(
                ms@[0].value,
                kind_name(o.btype),
            ) && key_at(ms@, 1, "data"@) && match ms@[1].value {
                TextValue::Array(a) => match o.data {
                    Some(x) => a@.len() == 1 && writes(tbl, *x, a@[0]),
                    None => a@.len() == 0,
                },
                _ => false,
            },
            _ => false,
        },
        BinData::Mapping(m) => match v {
            TextValue::Object(ms) => ms@.len() == 3 && key_at(ms@, 0, "keytype"@) && is_str(
                ms@[0].value,
                kind_name(m.keytype),
            ) && key_at(ms@, 1, "valuetype"@) && is_str(ms@[1].value, kind_name(m.valuetype))
                && key_at(ms@, 2, "data"@) && match ms@[2].value {
                TextValue::Array(a) => a@.len() == m.items@.len() && forall|i: int|
                    0 <= i < a@.len() ==> writes_pair(tbl, #[trigger] m.items@[i], a@[i]),
                _ => false,
            },
            _ => false,
        },
        BinData::Flag(b) => v == TextValue::Bool(b),
    }
}

/// A field's text form: an object of its name, its kind and its value.
pub open spec fn writes_field(tbl: Map<u64, String>, f: BinField, v: TextValue) -> bool
    decreases f,
{
    match v {
        TextValue::Object(ms) => ms@.len() == 3 && key_at(ms@, 0, "name"@) && is_str(
            ms@[0].value,
            hash_text32(tbl, f.name),
        ) && key_at(ms@, 1, "type"@) && is_str(ms@[1].value, kind_name(f.btype)) && key_at(
            ms@,
            2,
            "data"@,
        ) && writes(tbl, *f.data, ms@[2].value),
        _ => false,
    }
}

/// A pair's text form: an object keyed by the written hash where the key is
/// a hash, else an object of the key and the value.
pub open spec fn writes_pair(tbl: Map<u64, String>, p: MapPair, v: TextValue) -> bool
    decreases p,
{
    match v {
        TextValue::Object(ms) => match *p.keydata {
            BinData::Hash(k) => ms@.len() == 1 && key_at(ms@, 0, hash_text32(tbl, k)) && writes(
                tbl,
                *p.valuedata,
                ms@[0].value,
            ),
            BinData::Link(k) => ms@.len() == 1 && key_at(ms@, 0, hash_text32(tbl, k)) && writes(
                tbl,
                *p.valuedata,
                ms@[0].value,
            ),
            BinData::WadEntryLink(k) => ms@.len() == 1 && key_at(ms@, 0, hash_text64(tbl, k))
                && writes(tbl, *p.valuedata, ms@[0].value),
            _ => ms@.len() == 2 && key_at(ms@, 0, "keydata"@) && writes(
                tbl,
                *p.keydata,
                ms@[0].value,
            ) && key_at(ms@, 1, "valuedata"@) && writes(tbl, *p.valuedata, ms@[1].value),
        },
        _ => false,
    }
}

fn ascii_string(bytes: Vec<u8>) -> (r: String)
    requires
        forall|i: int| 0 <= i < bytes@.len() ==> #[trigger] bytes@[i] < 128,
    ensures
        r@ == ascii(bytes@),
{
    let ghost chars = ascii(bytes@);
    proof {
        assert(vstd::utf8::is_ascii_chars(chars));
        vstd::utf8::is_ascii_chars_encode_utf8(chars);
        vstd::utf8::encode_utf8_valid_utf8(chars);
        assert(vstd::utf8::encode_utf8(chars) =~= bytes@);
        vstd::utf8::encode_utf8_decode_utf8(chars);
    }
    match string_from_utf8(bytes) {
        Some(s) => s,
        None => String::new(),
    }
}

/// `0x` and `n` uppercase hexadecimal digits of `v`.
pub fn hex_string(v: u64, n: usize) -> (r: String)
    requires
        1 <= n <= 16,
    ensures
        r@ == hex_text(v as nat, n as nat),
{
    let mut pow: u64 = 1;
    let mut j: usize = 1;
    proof {
        lemma_pow16_grows(0, 15);
    }
    while j < n
        invariant
            1 <= j <= n <= 16,
            pow as nat == pow16((j - 1) as nat),
            pow16((j - 1) as nat) <= pow16(15),
        decreases n - j,
    {
        proof {
            lemma_pow16_grows((j - 1) as nat, 14);
            lemma_pow16_grows(j as nat, 15);
        }
        assert(pow16(15) == 0x1000_0000_0000_0000) by {
            reveal_with_fuel(pow16, 16);
        }
        pow = pow * 16;
        j = j + 1;
    }
    proof {
        lemma_pow16_grows(0, (n - 1) as nat);
    }
    let mut out: Vec<u8> = Vec::new();
    out.push(0x30);
    out.push(0x78);
    let mut k: usize = n;
    while k > 0
        invariant
            k <= n <= 16,
            k > 0 ==> pow as nat == pow16((k - 1) as nat),
            pow >= 1,
            out@.len() >= 2,
            out@.subrange(0, 2) == seq![0x30u8, 0x78u8],
            out@.subrange(2, out@.len() as int) + hex_digits(v as nat, k as nat) == hex_digits(
                v as nat,
                n as nat,
            ),
            forall|i: int| 0 <= i < out@.len() ==> #[trigger] out@[i] < 128,
        decreases k,
    {
        let d = (v / pow) % 16;
        let b: u8 = if d < 10 {
            0x30 + d as u8
        } else {
            0x41 + (d - 10) as u8
        };
        let ghost before = out@;
        out.push(b);
        proof {
            assert(out@.subrange(2, out@.len() as int) =~= before.subrange(2, before.len() as int)
                + seq![b]);
            assert(out@.subrange(0, 2) =~= before.subrange(0, 2));
        }
        k = k - 1;
        if k > 0 {
            proof {
                lemma_pow16_grows(0, (k - 1) as nat);
                assert(pow16(k as nat) == 16 * pow16((k - 1) as nat));
            }
            pow = pow / 16;
        }
    }
    proof {
        assert(out@ =~= seq![0x30u8, 0x78u8] + hex_digits(v as nat, n as nat));
    }
    ascii_string(out)
}

proof fn lemma_pow16_grows(a: nat, b: nat)
    requires
        a <= b,
    ensures
        pow16(a) <= pow16(b),
        pow16(a) >= 1,
    decreases b,
{
    if a < b {
        lemma_pow16_grows(a, (b - 1) as nat);
    } else if a > 0 {
        lemma_pow16_grows((a - 1) as nat, (a - 1) as nat);
    }
}

fn text_str(s: &str) -> (r: TextValue)
    ensures
        is_str(r, s@),
{
    TextValue::Str(s.to_owned())
}

fn member(key: String, value: TextValue) -> (r: TextMember)
    ensures
        r.key == key,
        r.value == value,
{
    TextMember { key, value }
}

fn int_node(negative: bool, magnitude: u64) -> (r: TextValue)
    ensures
        r == (TextValue::Int { negative, magnitude }),
{
    TextValue::Int { negative, magnitude }
}

fn signed_node(x: i64) -> (r: TextValue)
    ensures
        is_int(r, x as int),
{
    if x < 0 {
        int_node(true, (-(x as i128)) as u64)
    } else {
        int_node(false, x as u64)
    }
}

/// A 32-bit hash as text: its name from the table, or `0x` and eight hex digits.
pub fn hash_u32_to_string(value: u32, hash_map: &HashMap<u64, String>) -> (r: String)
    ensures
        r@ == hash_text32(hash_map@, value),
{
    match hash_map.get(&(value as u64)) {
        Some(name) => name.clone(),
        None => hex_string(value as u64, 8),
    }
}

/// A 64-bit hash as text: its name from the table, or `0x` and sixteen hex digits.
pub fn hash_u64_to_string(value: u64, hash_map: &HashMap<u64, String>) -> (r: String)
    ensures
        r@ == hash_text64(hash_map@, value),
{
    match hash_map.get(&value) {
        Some(name) => name.clone(),
        None => hex_string(value, 16),
    }
}

fn floats_node(xs: &Vec<u32>) -> (r: TextValue)
    ensures
        is_floats(r, xs@),
{
    let mut a: Vec<TextValue> = Vec::new();
    let mut i: usize = 0;
    while i < xs.len()
        invariant
            i <= xs@.len(),
            a@.len() == i,
            forall|j: int| 0 <= j < i ==> a@[j] == TextValue::Float(#[trigger] xs@[j]),
        decreases xs@.len() - i,
    {
        a.push(TextValue::Float(xs[i]));
        i = i + 1;
    }
    TextValue::Array(a)
}

fn bytes_node(xs: &Vec<u8>) -> (r: TextValue)
    ensures
        is_bytes(r, xs@),
{
    let mut a: Vec<TextValue> = Vec::new();
    let mut i: usize = 0;
    while i < xs.len()
        invariant
            i <= xs@.len(),
            a@.len() == i,
            forall|j: int| 0 <= j < i ==> is_int(a@[j], #[trigger] xs@[j] as int),
        decreases xs@.len() - i,
    {
        a.push(int_node(false, xs[i] as u64));
        i = i + 1;
    }
    TextValue::Array(a)
}

/// The text form of a value.
pub fn serialize_bindata(bindata: &BinData, hash_map: &HashMap<u64, String>) -> (r: TextValue)
    ensures
        writes(hash_map@, *bindata, r),
    decreases bindata, 1nat,
{
    match bindata {
        BinData::Null => TextValue::Null,
        BinData::Bool(b) => TextValue::Bool(*b),
        BinData::SInt8(x) => signed_node(*x as i64),
        BinData::UInt8(x) => int_node(false, *x as u64),
        BinData::SInt16(x) => signed_node(*x as i64),
        BinData::UInt16(x) => int_node(false, *x as u64),
        BinData::SInt32(x) => signed_node(*x as i64),
        BinData::UInt32(x) => int_node(false, *x as u64),
        BinData::SInt64(x) => signed_node(*x),
        BinData::UInt64(x) => int_node(false, *x),
        BinData::Float32(x) => TextValue::Float(*x),
        BinData::Vector2(xs) => floats_node(xs),
        BinData::Vector3(xs) => floats_node(xs),
        BinData::Vector4(xs) => floats_node(xs),
        BinData::Matrix4x4(xs) => floats_node(xs),
        BinData::Rgba(xs) => bytes_node(xs),
        BinData::String(s) => TextValue::Str(s.clone()),
        BinData::Hash(h) => TextValue::Str(hash_u32_to_string(*h, hash_map)),
        BinData::WadEntryLink(h) => TextValue::Str(hash_u64_to_string(*h, hash_map)),
        BinData::ContainerOrStruct(cs) => serialize_containerorstruct(bindata, hash_map),
        BinData::PointerOrEmbedded(pe) => serialize_pointerorembedded(bindata, hash_map),
        BinData::Optional(o) => serialize_optional(bindata, hash_map),
        BinData::Link(h) => TextValue::Str(hash_u32_to_string(*h, hash_map)),
        BinData::Mapping(m) => serialize_map(bindata, hash_map),
        BinData::Flag(b) => TextValue::Bool(*b),
    }
}

fn serialize_containerorstruct(bindata: &BinData, hash_map: &HashMap<u64, String>) -> (r: TextValue)
    requires
        bindata is ContainerOrStruct,
    ensures
        writes(hash_map@, *bindata, r),
    decreases bindata, 0nat,
{
    match bindata {
        BinData::ContainerOrStruct(cs) => {
            let mut a: Vec<TextValue> = Vec::new();
            let mut i: usize = 0;
            while i < cs.items.len()
                invariant
                    *bindata == BinData::ContainerOrStruct(*cs),
                    decreases_to!(*bindata => cs.items),
                    i <= cs.items@.len(),
                    a@.len() == i,
                    forall|j: int| 0 <= j < i ==> writes(hash_map@, #[trigger] cs.items@[j], a@[j]),
                decreases cs.items@.len() - i,
            {
                proof {
                    assert(decreases_to!(cs.items => cs.items[i as int]));
                }
                let v = serialize_bindata(&cs.items[i], hash_map);
                a.push(v);
                i = i + 1;
            }
            let mut ms: Vec<TextMember> = Vec::new();
            ms.push(member("type".to_owned(), text_str(bintype_name(cs.btype))));
            ms.push(member("data".to_owned(), TextValue::Array(a)));
            TextValue::Object(ms)
        },
        _ => TextValue::Null,
    }
}

fn serialize_binfield(binfield: &BinField, hash_map: &HashMap<u64, String>) -> (r: TextValue)
    ensures
        writes_field(hash_map@, *binfield, r),
    decreases binfield, 1nat,
{
    let mut ms: Vec<TextMember> = Vec::new();
    ms.push(member("name".to_owned(), TextValue::Str(hash_u32_to_string(binfield.name, hash_map))));
    ms.push(member("type".to_owned(), text_str(bintype_name(binfield.btype))));
    ms.push(member("data".to_owned(), serialize_bindata(&binfield.data, hash_map)));
    TextValue::Object(ms)
}

fn serialize_pointerorembedded(bindata: &BinData, hash_map: &HashMap<u64, String>) -> (r: TextValue)
    requires
        bindata is PointerOrEmbedded,
    ensures
        writes(hash_map@, *bindata, r),
    decreases bindata, 0nat,
{
    match bindata {
        BinData::PointerOrEmbedded(pe) => {
            let mut a: Vec<TextValue> = Vec::new();
            let mut i: usize = 0;
            while i < pe.items.len()
                invariant
                    *bindata == BinData::PointerOrEmbedded(*pe),
                    decreases_to!(*bindata => pe.items),
                    i <= pe.items@.len(),
                    a@.len() == i,
                    forall|j: int|
                        0 <= j < i ==> writes_field(hash_map@, #[trigger] pe.items@[j], a@[j]),
                decreases pe.items@.len() - i,
            {
                proof {
                    assert(decreases_to!(pe.items => pe.items[i as int]));
                }
                let v = serialize_binfield(&pe.items[i], hash_map);
                a.push(v);
                i = i + 1;
            }
            let mut ms: Vec<TextMember> = Vec::new();
            ms.push(member(hash_u32_to_string(pe.name, hash_map), TextValue::Array(a)));
            TextValue::Object(ms)
        },
        _ => TextValue::Null,
    }
}

fn serialize_optional(bindata: &BinData, hash_map: &HashMap<u64, String>) -> (r: TextValue)
    requires
        bindata is Optional,
    ensures
        writes(hash_map@, *bindata, r),
    decreases bindata, 0nat,
{
    match bindata {
        BinData::Optional(o) => {
            let mut a: Vec<TextValue> = Vec::new();
            match &o.data {
                Some(x) => {
                    a.push(serialize_bindata(x, hash_map));
                },
                None => {},
            }
            let mut ms: Vec<TextMember> = Vec::new();
            ms.push(member("type".to_owned(), text_str(bintype_name(o.btype))));
            ms.push(member("data".to_owned(), TextValue::Array(a)));
            TextValue::Object(ms)
        },
        _ => TextValue::Null,
    }
}

/// The text form of a map pair.
fn serialize_mappair(mappair: &MapPair, hash_map: &HashMap<u64, String>) -> (r: TextValue)
    ensures
        writes_pair(hash_map@, *mappair, r),
    decreases mappair, 1nat,
{
    let mut ms: Vec<TextMember> = Vec::new();
    match &*mappair.keydata {
        BinData::Hash(k) => {
            ms.push(member(hash_u32_to_string(*k, hash_map), serialize_bindata(&mappair.valuedata, hash_map)));
        },
        BinData::Link(k) => {
            ms.push(member(hash_u32_to_string(*k, hash_map), serialize_bindata(&mappair.valuedata, hash_map)));
        },
        BinData::WadEntryLink(k) => {
            ms.push(member(hash_u64_to_string(*k, hash_map), serialize_bindata(&mappair.valuedata, hash_map)));
        },
        _ => {
            ms.push(member("keydata".to_owned(), serialize_bindata(&mappair.keydata, hash_map)));
            ms.push(member("valuedata".to_owned(), serialize_bindata(&mappair.valuedata, hash_map)));
        },
    }
    TextValue::Object(ms)
}

fn serialize_map(bindata: &BinData, hash_map: &HashMap<u64, String>) -> (r: TextValue)
    requires
        bindata is Mapping,
    ensures
        writes(hash_map@, *bindata, r),
    decreases bindata, 0nat,
{
    match bindata {
        BinData::Mapping(m) => {
            let mut a: Vec<TextValue> = Vec::new();
            let mut i: usize = 0;
            while i < m.items.len()
                invariant
                    *bindata == BinData::Mapping(*m),
                    decreases_to!(*bindata => m.items),
                    i <= m.items@.len(),
                    a@.len() == i,
                    forall|j: int|
                        0 <= j < i ==> writes_pair(hash_map@, #[trigger] m.items@[j], a@[j]),
                decreases m.items@.len() - i,
            {
                proof {
                    assert(decreases_to!(m.items => m.items[i as int]));
                }
                let v = serialize_mappair(&m.items[i], hash_map);
                a.push(v);
                i = i + 1;
            }
            let mut ms: Vec<TextMember> = Vec::new();
            ms.push(member("keytype".to_owned(), text_str(bintype_name(m.keytype))));
            ms.push(member("valuetype".to_owned(), text_str(bintype_name(m.valuetype))));
            ms.push(member("data".to_owned(), TextValue::Array(a)));
            TextValue::Object(ms)
        },
        _ => TextValue::Null,
    }
}

/// An array of pair forms of the pairs `s`.
pub open spec fn writes_pairs(tbl: Map<u64, String>, s: Seq<MapPair>, v: TextValue) -> bool {
    match v {
        TextValue::Array(a) => a@.len() == s.len() && forall|i: int|
            0 <= i < s.len() ==> writes_pair(tbl, #[trigger] s[i], a@[i]),
        _ => false,
    }
}

/// The text form of an archive: an object of `IsPatch`, `Unknown` where
/// there is one, `Version`, `LinkedList`, `Entries` and, where there are
/// patches, `Patches`, in that order.
pub open spec fn writes_file(tbl: Map<u64, String>, f: BinFile, v: TextValue) -> bool {
    let u: int = if f.unknown is Some {
        1
    } else {
        0
    };
    let p: int = if f.patches is Some {
        1
    } else {
        0
    };
    match v {
        TextValue::Object(ms) => {
            &&& ms@.len() == 4 + u + p
            &&& key_at(ms@, 0, "IsPatch"@) && ms@[0].value == TextValue::Bool(f.is_patch)
            &&& f.unknown is Some ==> key_at(ms@, 1, "Unknown"@) && is_int(
                ms@[1].value,
                f.unknown->0 as int,
            )
            &&& key_at(ms@, 1 + u, "Version"@) && is_int(ms@[1 + u].value, f.version as int)
            &&& key_at(ms@, 2 + u, "LinkedList"@) && match ms@[2 + u].value {
                TextValue::Array(a) => a@.len() == f.linked_list@.len() && forall|i: int|
                    0 <= i < a@.len() ==> is_str(a@[i], (#[trigger] f.linked_list@[i])@),
                _ => false,
            }
            &&& key_at(ms@, 3 + u, "Entries"@) && writes_pairs(
                tbl,
                f.entries.items@,
                ms@[3 + u].value,
            )
            &&& f.patches is Some ==> key_at(ms@, 4 + u, "Patches"@) && writes_pairs(
                tbl,
                f.patches->0.items@,
                ms@[4 + u].value,
            )
        },
        _ => false,
    }
}

fn serialize_pairs(items: &Vec<MapPair>, hash_map: &HashMap<u64, String>) -> (r: TextValue)
    ensures
        writes_pairs(hash_map@, items@, r),
{
    let mut a: Vec<TextValue> = Vec::new();
    let mut i: usize = 0;
    while i < items.len()
        invariant
            i <= items@.len(),
            a@.len() == i,
            forall|j: int| 0 <= j < i ==> writes_pair(hash_map@, #[trigger] items@[j], a@[j]),
        decreases items@.len() - i,
    {
        a.push(serialize_mappair(&items[i], hash_map));
        i = i + 1;
    }
    TextValue::Array(a)
}

/// The text form of an archive, with hashes written as names where the name
/// table knows them.
pub fn convert_bin_to_json(bin_file: &BinFile, hash_map: &HashMap<u64, String>) -> (r: TextValue)
    ensures
        writes_file(hash_map@, *bin_file, r),
{
    let mut root: Vec<TextMember> = Vec::new();
    root.push(member("IsPatch".to_owned(), TextValue::Bool(bin_file.is_patch)));
    match bin_file.unknown {
        Some(u) => {
            root.push(member("Unknown".to_owned(), int_node(false, u)));
        },
        None => {},
    }
    root.push(member("Version".to_owned(), int_node(false, bin_file.version as u64)));
    let mut list: Vec<TextValue> = Vec::new();
    let mut i: usize = 0;
    while i < bin_file.linked_list.len()
        invariant
            i <= bin_file.linked_list@.len(),
            list@.len() == i,
            forall|j: int| 0 <= j < i ==> is_str(list@[j], (#[trigger] bin_file.linked_list@[j])@),
        decreases bin_file.linked_list@.len() - i,
    {
        list.push(TextValue::Str(bin_file.linked_list[i].clone()));
        i = i + 1;
    }
    root.push(member("LinkedList".to_owned(), TextValue::Array(list)));
    root.push(member("Entries".to_owned(), serialize_pairs(&bin_file.entries.items, hash_map)));
    match &bin_file.patches {
        Some(m) => {
            root.push(member("Patches".to_owned(), serialize_pairs(&m.items, hash_map)));
        },
        None => {},
    }
    TextValue::Object(root)
}

} // verus!

verus! {

/// The name table after registering the first `n` names of `names`, each
/// under its 32-bit and its 64-bit hash, later names replacing earlier ones.
pub open spec fn with_names(tbl: Map<u64, String>, names: Seq<&str>, n: nat) -> Map<u64, String>
    decreases n,
{
    if n == 0 || n > names.len() {
        tbl
    } else {
        let prev = with_names(tbl, names, (n - 1) as nat);
        let name = names[n - 1];
        let by32 = prev.insert(crate::hashes::fnv_hash(name@) as u64, choose|s: String| s@ == name@);
        by32.insert(crate::hashes::xxh_hash(name@), choose|s: String| s@ == name@)
    }
}

/// Registers names in a name table under both of their hashes.
pub fn add_to_hash_map(hashes_to_insert: &[&str], hash_map: &mut HashMap<u64, String>)
    ensures
        forall|h: u64|
            #[trigger] final(hash_map)@.contains_key(h) <==> with_names(
                old(hash_map)@,
                hashes_to_insert@,
                hashes_to_insert@.len(),
            ).contains_key(h),
        forall|h: u64|
            final(hash_map)@.contains_key(h) ==> (#[trigger] final(hash_map)@[h])@ == with_names(
                old(hash_map)@,
                hashes_to_insert@,
                hashes_to_insert@.len(),
            )[h]@,
{
    let ghost start = hash_map@;
    let mut i: usize = 0;
    while i < hashes_to_insert.len()
        invariant
            i <= hashes_to_insert@.len(),
            forall|h: u64|
                #[trigger] hash_map@.contains_key(h) <==> with_names(
                    start,
                    hashes_to_insert@,
                    i as nat,
                ).contains_key(h),
            forall|h: u64|
                hash_map@.contains_key(h) ==> (#[trigger] hash_map@[h])@ == with_names(
                    start,
                    hashes_to_insert@,
                    i as nat,
                )[h]@,
        decreases hashes_to_insert@.len() - i,
    {
        let hash_name = hashes_to_insert[i];
        let a = hash_name.to_owned();
        let b = hash_name.to_owned();
        hash_map.insert(crate::hashes::fnv1a(hash_name) as u64, a);
        hash_map.insert(crate::hashes::xxhash(hash_name), b);
        i = i + 1;
    }
}

} // verus!
