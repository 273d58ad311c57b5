//! The binary writer: lays a value tree out as bytes, each length field
//! computed ahead of its region by the size function.

use vstd::prelude::*;
use crate::bin_format::{
    entry_error, patch_error, write_error, entries_write_error, patches_write_error,
    lemma_entries_write_error_stays, lemma_patches_write_error_stays, enc, enc_entries, enc_entry_types, enc_field, enc_fields, enc_file, enc_items, enc_pairs,
    enc_entry, enc_patch, enc_patches, enc_str, enc_strs, entry_fields, entry_ok, file_writable, le16, le32, le64,
    lemma_fields_len, lemma_items_len, lemma_pairs_len, lemma_words_len, patch_ok, shape_ok, utf8,
    words, writable,
};
use crate::error::BinError;
use crate::model::{BinData, BinField, BinFile, BinType, MapPair};
use crate::tags::{pack, type_to_u8};

verus! {

broadcast use vstd::std_specs::vec::group_vec_axioms;

pub(crate) fn put_u8(w: &mut Vec<u8>, v: u8)
    ensures
        final(w)@ == old(w)@ + seq![v],
{
    w.push(v);
}

pub(crate) fn put_u16(w: &mut Vec<u8>, v: u16)
    ensures
        final(w)@ == old(w)@ + le16(v),
{
    w.push((v & 0xff) as u8);
    w.push((v >> 8u16) as u8);
}

pub(crate) fn put_u32(w: &mut Vec<u8>, v: u32)
    ensures
        final(w)@ == old(w)@ + le32(v),
{
    w.push((v & 0xff) as u8);
    w.push(((v >> 8u32) & 0xff) as u8);
    w.push(((v >> 16u32) & 0xff) as u8);
    w.push((v >> 24u32) as u8);
}

pub(crate) fn put_u64(w: &mut Vec<u8>, v: u64)
    ensures
        final(w)@ == old(w)@ + le64(v),
{
    put_u32(w, (v & 0xffff_ffff) as u32);
    put_u32(w, (v >> 32u64) as u32);
}

pub(crate) fn put_bytes(w: &mut Vec<u8>, b: &[u8])
    ensures
        final(w)@ == old(w)@ + b@,
{
    let ghost start = w@;
    let mut i: usize = 0;
    while i < b.len()
        invariant
            i <= b@.len(),
            w@ == start + b@.subrange(0, i as int),
        decreases b@.len() - i,
    {
        w.push(b[i]);
        i = i + 1;
        assert(b@.subrange(0, i as int) =~= b@.subrange(0, i - 1) + seq![b@[i - 1]]);
    }
    assert(b@.subrange(0, i as int) =~= b@);
}

fn put_words(w: &mut Vec<u8>, v: &Vec<u32>)
    ensures
        final(w)@ == old(w)@ + words(v@),
{
    let ghost start = w@;
    let mut i: usize = 0;
    while i < v.len()
        invariant
            i <= v@.len(),
            w@ == start + words(v@.subrange(0, i as int)),
        decreases v@.len() - i,
    {
        put_u32(w, v[i]);
        i = i + 1;
        assert(v@.subrange(0, i as int).drop_last() =~= v@.subrange(0, i - 1));
    }
    assert(v@.subrange(0, i as int) =~= v@);
}

/// Writes a string as its byte length in two bytes, then its UTF-8 bytes.
pub(crate) fn write_string(writer: &mut Vec<u8>, string: &str)
    requires
        utf8(string@).len() <= 0xffff,
    ensures
        final(writer)@ == old(writer)@ + enc_str(string@),
{
    let b = string.as_bytes();
    put_u16(writer, b.len() as u16);
    put_bytes(writer, b);
}

/// The number of bytes that the writer emits for a value.
pub fn get_total_bin_data_size(bin_data: &BinData) -> (r: u32)
    requires
        writable(*bin_data),
    ensures
        r as nat == enc(*bin_data).len(),
    decreases bin_data,
{
    match bin_data {
        BinData::Null => 0,
        BinData::Bool(_) => 1,
        BinData::SInt8(_) => 1,
        BinData::UInt8(_) => 1,
        BinData::SInt16(_) => 2,
        BinData::UInt16(_) => 2,
        BinData::SInt32(_) => 4,
        BinData::UInt32(_) => 4,
        BinData::SInt64(_) => 8,
        BinData::UInt64(_) => 8,
        BinData::Float32(_) => 4,
        BinData::Vector2(v) => {
            proof { lemma_words_len(v@); }
            8
        },
        BinData::Vector3(v) => {
            proof { lemma_words_len(v@); }
            12
        },
        BinData::Vector4(v) => {
            proof { lemma_words_len(v@); }
            16
        },
        BinData::Matrix4x4(v) => {
            proof { lemma_words_len(v@); }
            64
        },
        BinData::Rgba(_) => 4,
        BinData::String(string) => 2 + string.as_str().len() as u32,
        BinData::Hash(_) => 4,
        BinData::WadEntryLink(_) => 8,
        BinData::ContainerOrStruct(cs) => {
            let ghost s = cs.items@;
            let mut size: u32 = 1 + 4 + 4;
            let mut i: usize = 0;
            while i < cs.items.len()
                invariant
                    s == cs.items@,
                    i <= s.len(),
                    writable(*bin_data),
                    *bin_data == BinData::ContainerOrStruct(*cs),
                    size == 9 + enc_items(s, i as nat).len(),
                decreases s.len() - i,
            {
                proof {
                    lemma_items_len(s, i as nat, s.len());
                    assert(shape_ok(BinData::ContainerOrStruct(*cs)));
                    assert(shape_ok(cs.items@[i as int]));
                }
                size = size + get_total_bin_data_size(&cs.items[i]);
                i = i + 1;
            }
            size
        },
        BinData::PointerOrEmbedded(pe) => {
            let mut size: u32 = 4;
            if pe.name != 0 {
                let ghost s = pe.items@;
                size = size + 4 + 2;
                let mut i: usize = 0;
                while i < pe.items.len()
                    invariant
                        s == pe.items@,
                        i <= s.len(),
                        pe.name != 0,
                        writable(*bin_data),
                        *bin_data == BinData::PointerOrEmbedded(*pe),
                        size == 10 + enc_fields(s, i as nat).len(),
                    decreases s.len() - i,
                {
                    proof {
                        lemma_fields_len(s, i as nat, s.len());
                        assert(shape_ok(BinData::PointerOrEmbedded(*pe)));
                        assert(shape_ok(*pe.items@[i as int].data));
                    }
                    size = size + get_total_bin_data_size(&pe.items[i].data) + 4 + 1;
                    i = i + 1;
                }
            }
            size
        },
        BinData::Link(_) => 4,
        BinData::Optional(option) => {
            let mut size: u32 = 2;
            match &option.data {
                Some(data) => {
                    size = size + get_total_bin_data_size(data);
                },
                None => {},
            }
            size
        },
        BinData::Mapping(map) => {
            let ghost s = map.items@;
            let mut size: u32 = 1 + 1 + 4 + 4;
            let mut i: usize = 0;
            while i < map.items.len()
                invariant
                    s == map.items@,
                    i <= s.len(),
                    writable(*bin_data),
                    *bin_data == BinData::Mapping(*map),
                    size == 10 + enc_pairs(s, i as nat).len(),
                decreases s.len() - i,
            {
                proof {
                    lemma_pairs_len(s, i as nat, s.len());
                    assert(shape_ok(BinData::Mapping(*map)));
                    assert(shape_ok(*map.items@[i as int].keydata));
                    assert(shape_ok(*map.items@[i as int].valuedata));
                }
                size = size + get_total_bin_data_size(&map.items[i].keydata)
                    + get_total_bin_data_size(&map.items[i].valuedata);
                i = i + 1;
            }
            size
        },
        BinData::Flag(_) => 1,
    }
}

/// Appends the bytes of a value.
pub(crate) fn write_value_by_bin_data(writer: &mut Vec<u8>, bin_data: &BinData)
    requires
        writable(*bin_data),
    ensures
        final(writer)@ == old(writer)@ + enc(*bin_data),
    decreases bin_data,
{
    let ghost start = writer@;
    match bin_data {
        BinData::Null => {},
        BinData::Bool(b) => put_u8(writer, if *b { 1 } else { 0 }),
        BinData::SInt8(v) => put_u8(writer, *v as u8),
        BinData::UInt8(v) => put_u8(writer, *v),
        BinData::SInt16(v) => put_u16(writer, *v as u16),
        BinData::UInt16(v) => put_u16(writer, *v),
        BinData::SInt32(v) => put_u32(writer, *v as u32),
        BinData::UInt32(v) => put_u32(writer, *v),
        BinData::SInt64(v) => put_u64(writer, *v as u64),
        BinData::UInt64(v) => put_u64(writer, *v),
        BinData::Float32(v) => put_u32(writer, *v),
        BinData::Vector2(v) => put_words(writer, v),
        BinData::Vector3(v) => put_words(writer, v),
        BinData::Vector4(v) => put_words(writer, v),
        BinData::Matrix4x4(v) => put_words(writer, v),
        BinData::Rgba(v) => put_bytes(writer, v.as_slice()),
        BinData::String(string) => write_string(writer, string.as_str()),
        BinData::Hash(v) => put_u32(writer, *v),
        BinData::WadEntryLink(v) => put_u64(writer, *v),
        BinData::ContainerOrStruct(cs) => {
            let ghost s = cs.items@;
            let total = get_total_bin_data_size(bin_data);
            put_u8(writer, type_to_u8(&cs.btype));
            put_u32(writer, total - 5);
            put_u32(writer, cs.items.len() as u32);
            let ghost head = writer@;
            let mut i: usize = 0;
            while i < cs.items.len()
                invariant
                    s == cs.items@,
                    i <= s.len(),
                    writable(*bin_data),
                    *bin_data == BinData::ContainerOrStruct(*cs),
                    writer@ == head + enc_items(s, i as nat),
                decreases s.len() - i,
            {
                proof {
                    lemma_items_len(s, i as nat, s.len());
                    assert(shape_ok(cs.items@[i as int]));
                }
                write_value_by_bin_data(writer, &cs.items[i]);
                i = i + 1;
            }
        },
        BinData::PointerOrEmbedded(pe) => {
            put_u32(writer, pe.name);
            if pe.name != 0 {
                let ghost s = pe.items@;
                let total = get_total_bin_data_size(bin_data);
                put_u32(writer, total - 8);
                put_u16(writer, pe.items.len() as u16);
                let ghost head = writer@;
                let mut i: usize = 0;
                while i < pe.items.len()
                    invariant
                        s == pe.items@,
                        i <= s.len(),
                        pe.name != 0,
                        writable(*bin_data),
                        *bin_data == BinData::PointerOrEmbedded(*pe),
                        writer@ == head + enc_fields(s, i as nat),
                    decreases s.len() - i,
                {
                    proof {
                        lemma_fields_len(s, i as nat, s.len());
                        assert(shape_ok(*pe.items@[i as int].data));
                    }
                    let field = &pe.items[i];
                    put_u32(writer, field.name);
                    put_u8(writer, type_to_u8(&field.btype));
                    write_value_by_bin_data(writer, &field.data);
                    i = i + 1;
                }
            }
        },
        BinData::Link(v) => put_u32(writer, *v),
        BinData::Optional(option) => {
            put_u8(writer, type_to_u8(&option.btype));
            match &option.data {
                Some(data) => {
                    put_u8(writer, 1);
                    write_value_by_bin_data(writer, data);
                },
                None => put_u8(writer, 0),
            }
        },
        BinData::Mapping(map) => {
            let ghost s = map.items@;
            let total = get_total_bin_data_size(bin_data);
            put_u8(writer, type_to_u8(&map.keytype));
            put_u8(writer, type_to_u8(&map.valuetype));
            put_u32(writer, total - 6);
            put_u32(writer, map.items.len() as u32);
            let ghost head = writer@;
            let mut i: usize = 0;
            while i < map.items.len()
                invariant
                    s == map.items@,
                    i <= s.len(),
                    writable(*bin_data),
                    *bin_data == BinData::Mapping(*map),
                    writer@ == head + enc_pairs(s, i as nat),
                decreases s.len() - i,
            {
                proof {
                    lemma_pairs_len(s, i as nat, s.len());
                    assert(shape_ok(*map.items@[i as int].keydata));
                    assert(shape_ok(*map.items@[i as int].valuedata));
                }
                write_value_by_bin_data(writer, &map.items[i].keydata);
                write_value_by_bin_data(writer, &map.items[i].valuedata);
                i = i + 1;
            }
        },
        BinData::Flag(b) => put_u8(writer, if *b { 1 } else { 0 }),
    }
}

/// The number of bytes that the writer emits for a value, or `None` where it
/// cannot lay the value out.
pub fn checked_size(bin_data: &BinData) -> (r: Option<u32>)
    ensures
        r is Some <==> writable(*bin_data),
        r is Some ==> r->0 as nat == enc(*bin_data).len(),
    decreases bin_data,
{
    match bin_data {
        BinData::Vector2(v) => {
            proof {
                lemma_words_len(v@);
            }
            if v.len() == 2 {
                Some(8)
            } else {
                None
            }
        },
        BinData::Vector3(v) => {
            proof {
                lemma_words_len(v@);
            }
            if v.len() == 3 {
                Some(12)
            } else {
                None
            }
        },
        BinData::Vector4(v) => {
            proof {
                lemma_words_len(v@);
            }
            if v.len() == 4 {
                Some(16)
            } else {
                None
            }
        },
        BinData::Matrix4x4(v) => {
            proof {
                lemma_words_len(v@);
            }
            if v.len() == 16 {
                Some(64)
            } else {
                None
            }
        },
        BinData::Rgba(v) => {
            if v.len() == 4 {
                Some(4)
            } else {
                None
            }
        },
        BinData::String(string) => {
            let n = string.as_str().as_bytes().len();
            if n <= 0xffff {
                Some(2 + n as u32)
            } else {
                None
            }
        },
        BinData::ContainerOrStruct(cs) => {
            let ghost s = cs.items@;
            let mut ok = cs.items.len() <= 0xffff_ffff;
            let mut size: u32 = 9;
            let mut i: usize = 0;
            while i < cs.items.len()
                invariant
                    s == cs.items@,
                    i <= s.len(),
                    ok ==> s.len() <= 0xffff_ffff,
                    *bin_data == BinData::ContainerOrStruct(*cs),
                    decreases_to!(*bin_data => cs.items),
                    ok ==> forall|j: int| 0 <= j < i ==> shape_ok(#[trigger] s[j]),
                    ok ==> size == 9 + enc_items(s, i as nat).len(),
                    !ok ==> !writable(*bin_data),
                decreases s.len() - i,
            {
                proof {
                    lemma_items_len(s, i as nat, s.len());
                }
                if ok {
                    proof {
                        assert(decreases_to!(cs.items => cs.items[i as int]));
                    }
                    match checked_size(&cs.items[i]) {
                        None => {
                            ok = false;
                        },
                        Some(n) => {
                            if n > 0xffff_ffff - size {
                                ok = false;
                            } else {
                                size = size + n;
                            }
                        },
                    }
                }
                i = i + 1;
            }
            if ok {
                Some(size)
            } else {
                None
            }
        },
        BinData::PointerOrEmbedded(pe) => {
            if pe.name == 0 {
                return if pe.items.len() == 0 {
                    Some(4)
                } else {
                    None
                };
            }
            let ghost s = pe.items@;
            let mut ok = pe.items.len() <= 0xffff;
            let mut size: u32 = 10;
            let mut i: usize = 0;
            while i < pe.items.len()
                invariant
                    s == pe.items@,
                    i <= s.len(),
                    pe.name != 0,
                    ok ==> s.len() <= 0xffff,
                    *bin_data == BinData::PointerOrEmbedded(*pe),
                    decreases_to!(*bin_data => pe.items),
                    ok ==> forall|j: int| 0 <= j < i ==> shape_ok(*(#[trigger] s[j]).data),
                    ok ==> size == 10 + enc_fields(s, i as nat).len(),
                    !ok ==> !writable(*bin_data),
                decreases s.len() - i,
            {
                proof {
                    lemma_fields_len(s, i as nat, s.len());
                }
                if ok {
                    proof {
                        assert(decreases_to!(pe.items => pe.items[i as int]));
                    }
                    match checked_size(&pe.items[i].data) {
                        None => {
                            ok = false;
                        },
                        Some(n) => {
                            if size <= 0xffff_ffff - 5 && n <= 0xffff_ffff - 5 - size {
                                size = size + n + 5;
                            } else {
                                ok = false;
                            }
                        },
                    }
                }
                i = i + 1;
            }
            if ok {
                Some(size)
            } else {
                None
            }
        },
        BinData::Optional(option) => {
            match &option.data {
                Some(data) => match checked_size(data) {
                    Some(n) => {
                        if n <= 0xffff_ffff - 2 {
                            Some(n + 2)
                        } else {
                            None
                        }
                    },
                    None => None,
                },
                None => Some(2),
            }
        },
        BinData::Mapping(map) => {
            let ghost s = map.items@;
            let mut ok = map.items.len() <= 0xffff_ffff;
            let mut size: u32 = 10;
            let mut i: usize = 0;
            while i < map.items.len()
                invariant
                    s == map.items@,
                    i <= s.len(),
                    ok ==> s.len() <= 0xffff_ffff,
                    *bin_data == BinData::Mapping(*map),
                    decreases_to!(*bin_data => map.items),
                    ok ==> forall|j: int|
                        0 <= j < i ==> shape_ok(*(#[trigger] s[j]).keydata) && shape_ok(
                            *s[j].valuedata,
                        ),
                    ok ==> size == 10 + enc_pairs(s, i as nat).len(),
                    !ok ==> !writable(*bin_data),
                decreases s.len() - i,
            {
                proof {
                    lemma_pairs_len(s, i as nat, s.len());
                }
                if ok {
                    proof {
                        assert(decreases_to!(map.items => map.items[i as int]));
                    }
                    let k = checked_size(&map.items[i].keydata);
                    let v = checked_size(&map.items[i].valuedata);
                    match (k, v) {
                        (Some(a), Some(b)) => {
                            if a > 0xffff_ffff - size || b > 0xffff_ffff - size - a {
                                ok = false;
                            } else {
                                size = size + a + b;
                            }
                        },
                        _ => {
                            ok = false;
                        },
                    }
                }
                i = i + 1;
            }
            if ok {
                Some(size)
            } else {
                None
            }
        },
        _ => {
            proof {
                assert(shape_ok(*bin_data));
            }
            Some(get_total_bin_data_size(bin_data))
        },
    }
}

/// The length field of an entry body: 6 plus the bytes of its fields.
fn entry_length(p: &MapPair) -> (r: Result<u32, BinError>)
    ensures
        r is Ok <==> entry_ok(*p),
        r is Ok ==> r->Ok_0 as nat == 6 + enc_fields(entry_fields(*p), entry_fields(*p).len()).len(),
        match entry_error(*p) {
            Some(e) => r == Err::<u32, BinError>(e),
            None => r is Ok,
        },
{
    match &*p.keydata {
        BinData::Hash(_) => {},
        _ => {
            return Err(BinError::KeyNotHash);
        },
    }
    let pe = match &*p.valuedata {
        BinData::PointerOrEmbedded(pe) => pe,
        _ => {
            return Err(BinError::NotARecord);
        },
    };
    let ghost s = pe.items@;
    if pe.items.len() > 0xffff {
        return Err(BinError::BadShape);
    }
    let cap: u64 = 0x1_0000_0000;
    let mut length: u64 = 6;
    let mut i: usize = 0;
    while i < pe.items.len()
        invariant
            s == pe.items@,
            s == entry_fields(*p),
            *p.keydata is Hash,
            *p.valuedata is PointerOrEmbedded,
            i <= s.len() <= 0xffff,
            cap == 0x1_0000_0000,
            forall|j: int| 0 <= j < i ==> writable(*(#[trigger] s[j]).data),
            length as int == if 6 + enc_fields(s, i as nat).len() < cap {
                6 + enc_fields(s, i as nat).len() as int
            } else {
                cap as int
            },
        decreases s.len() - i,
    {
        proof {
            lemma_fields_len(s, i as nat, s.len());
            lemma_fields_len(s, i as nat, (i + 1) as nat);
        }
        match checked_size(&pe.items[i].data) {
            None => {
                proof {
                    assert(!writable(*s[i as int].data));
                    assert(0 <= i < s.len() && !writable(*(s[i as int]).data));
                }
                return Err(BinError::BadShape);
            },
            Some(n) => {
                if length + n as u64 + 5 >= cap {
                    length = cap;
                } else {
                    length = length + n as u64 + 5;
                }
            },
        }
        i = i + 1;
    }
    proof {
        assert(!exists|j: int| 0 <= j < s.len() && !writable(*(#[trigger] s[j]).data));
    }
    if length > 0xffff_ffff {
        return Err(BinError::TooLarge);
    }
    Ok(length as u32)
}

/// The length field of a patch: the kind byte plus the bytes of the path and
/// of the replacement value.
fn patch_length(p: &MapPair) -> (r: Result<u32, BinError>)
    ensures
        match patch_error(*p) {
            Some(e) => r == Err::<u32, BinError>(e),
            None => r is Ok,
        },
        r is Ok <==> patch_ok(*p),
        r is Ok ==> r->Ok_0 as nat == 1 + enc(*entry_fields(*p)[0].data).len() + enc(
            *entry_fields(*p)[1].data,
        ).len(),
{
    match &*p.keydata {
        BinData::Hash(_) => {},
        _ => {
            return Err(BinError::KeyNotHash);
        },
    }
    let pe = match &*p.valuedata {
        BinData::PointerOrEmbedded(pe) => pe,
        _ => {
            return Err(BinError::NotARecord);
        },
    };
    if pe.items.len() < 2 {
        return Err(BinError::MalformedPatch);
    }
    let a = match checked_size(&pe.items[0].data) {
        Some(n) => n,
        None => {
            return Err(BinError::BadShape);
        },
    };
    let b = match checked_size(&pe.items[1].data) {
        Some(n) => n,
        None => {
            return Err(BinError::BadShape);
        },
    };
    if a > 0xffff_ffff - 1 || b > 0xffff_ffff - 1 - a {
        return Err(BinError::TooLarge);
    }
    Ok(1 + a + b)
}

/// Checks everything that the writer needs of an archive.
fn check_file(bin_file: &BinFile) -> (r: Result<(), BinError>)
    ensures
        r is Ok <==> file_writable(*bin_file),
        match write_error(*bin_file) {
            Some(e) => r == Err::<(), BinError>(e),
            None => r is Ok,
        },
{
    if bin_file.version >= 2 {
        if bin_file.linked_list.len() > 0xffff_ffff {
            return Err(BinError::BadShape);
        }
        let mut i: usize = 0;
        while i < bin_file.linked_list.len()
            invariant
                i <= bin_file.linked_list@.len(),
                bin_file.version >= 2,
                forall|j: int|
                    0 <= j < i ==> utf8((#[trigger] bin_file.linked_list@[j])@).len() <= 0xffff,
            decreases bin_file.linked_list@.len() - i,
        {
            if bin_file.linked_list[i].as_str().as_bytes().len() > 0xffff {
                proof {
                    assert(!(utf8(bin_file.linked_list@[i as int]@).len() <= 0xffff));
                }
                return Err(BinError::BadShape);
            }
            i = i + 1;
        }
    }
    let ghost l = bin_file.linked_list@;
    assert(!(bin_file.version >= 2 && (l.len() > 0xffff_ffff || exists|i: int|
        0 <= i < l.len() && utf8((#[trigger] l[i])@).len() > 0xffff)));
    let ents = &bin_file.entries.items;
    if ents.len() > 0xffff_ffff {
        return Err(BinError::BadShape);
    }
    let mut i: usize = 0;
    while i < ents.len()
        invariant
            i <= ents@.len(),
            ents == bin_file.entries.items,
            forall|j: int| 0 <= j < i ==> entry_ok(#[trigger] ents@[j]),
            ents@.len() <= 0xffff_ffff,
            l == bin_file.linked_list@,
            !(bin_file.version >= 2 && (l.len() > 0xffff_ffff || exists|i: int|
                0 <= i < l.len() && utf8((#[trigger] l[i])@).len() > 0xffff)),
            entries_write_error(ents@, i as nat) is None,
        decreases ents@.len() - i,
    {
        match entry_length(&ents[i]) {
            Ok(_) => {},
            Err(e) => {
                proof {
                    assert(!entry_ok(ents@[i as int]));
                    assert(entries_write_error(ents@, (i + 1) as nat) == Some(e));
                    lemma_entries_write_error_stays(ents@, (i + 1) as nat, ents@.len());
                }
                return Err(e);
            },
        }
        i = i + 1;
    }
    assert(entries_write_error(ents@, ents@.len()) is None);
    if bin_file.is_patch {
        match &bin_file.patches {
            None => {
                return Err(BinError::MalformedPatch);
            },
            Some(m) => {
                if m.items.len() > 0xffff_ffff {
                    return Err(BinError::BadShape);
                }
                let mut i: usize = 0;
                while i < m.items.len()
                    invariant
                        i <= m.items@.len(),
                        bin_file.is_patch,
                        bin_file.patches == Some(*m),
                        forall|j: int| 0 <= j < i ==> patch_ok(#[trigger] m.items@[j]),
                        m.items@.len() <= 0xffff_ffff,
                        write_error(*bin_file) == patches_write_error(m.items@, m.items@.len()),
                        patches_write_error(m.items@, i as nat) is None,
                    decreases m.items@.len() - i,
                {
                    match patch_length(&m.items[i]) {
                        Ok(_) => {},
                        Err(e) => {
                            proof {
                                assert(!patch_ok(m.items@[i as int]));
                                assert(patches_write_error(m.items@, (i + 1) as nat) == Some(e));
                                lemma_patches_write_error_stays(
                                    m.items@,
                                    (i + 1) as nat,
                                    m.items@.len(),
                                );
                            }
                            return Err(e);
                        },
                    }
                    i = i + 1;
                }
            },
        }
    }
    Ok(())
}

fn write_fields(writer: &mut Vec<u8>, fields: &Vec<BinField>)
    requires
        forall|j: int| 0 <= j < fields@.len() ==> shape_ok(*(#[trigger] fields@[j]).data),
        enc_fields(fields@, fields@.len()).len() <= 0xffff_ffff,
    ensures
        final(writer)@ == old(writer)@ + enc_fields(fields@, fields@.len()),
{
    let ghost s = fields@;
    let ghost head = writer@;
    let mut i: usize = 0;
    while i < fields.len()
        invariant
            s == fields@,
            i <= s.len(),
            forall|j: int| 0 <= j < s.len() ==> shape_ok(*(#[trigger] s[j]).data),
            enc_fields(s, s.len()).len() <= 0xffff_ffff,
            writer@ == head + enc_fields(s, i as nat),
        decreases s.len() - i,
    {
        proof {
            lemma_fields_len(s, i as nat, s.len());
        }
        let field = &fields[i];
        put_u32(writer, field.name);
        put_u8(writer, type_to_u8(&field.btype));
        write_value_by_bin_data(writer, &field.data);
        i = i + 1;
    }
}

fn write_deps(writer: &mut Vec<u8>, list: &Vec<String>)
    requires
        forall|j: int| 0 <= j < list@.len() ==> utf8((#[trigger] list@[j])@).len() <= 0xffff,
    ensures
        final(writer)@ == old(writer)@ + enc_strs(list@, list@.len()),
{
    let ghost head = writer@;
    let mut i: usize = 0;
    while i < list.len()
        invariant
            i <= list@.len(),
            forall|j: int| 0 <= j < list@.len() ==> utf8((#[trigger] list@[j])@).len() <= 0xffff,
            writer@ == head + enc_strs(list@, i as nat),
        decreases list@.len() - i,
    {
        write_string(writer, list[i].as_str());
        i = i + 1;
    }
}

fn write_entry_types(writer: &mut Vec<u8>, ents: &Vec<MapPair>)
    ensures
        final(writer)@ == old(writer)@ + enc_entry_types(ents@, ents@.len()),
{
    let ghost head = writer@;
    let mut i: usize = 0;
    while i < ents.len()
        invariant
            i <= ents@.len(),
            writer@ == head + enc_entry_types(ents@, i as nat),
        decreases ents@.len() - i,
    {
        let name = match &*ents[i].valuedata {
            BinData::PointerOrEmbedded(pe) => pe.name,
            _ => 0,
        };
        put_u32(writer, name);
        i = i + 1;
    }
}

fn write_entry(writer: &mut Vec<u8>, entry: &MapPair)
    requires
        entry_ok(*entry),
    ensures
        final(writer)@ == old(writer)@ + enc_entry(*entry),
{
    let length = match entry_length(entry) {
        Ok(n) => n,
        Err(_) => 0,
    };
    let name = match &*entry.keydata {
        BinData::Hash(h) => *h,
        _ => 0,
    };
    match &*entry.valuedata {
        BinData::PointerOrEmbedded(pe) => {
            put_u32(writer, length);
            put_u32(writer, name);
            put_u16(writer, pe.items.len() as u16);
            write_fields(writer, &pe.items);
        },
        _ => {},
    }
}

fn write_entries(writer: &mut Vec<u8>, ents: &Vec<MapPair>)
    requires
        forall|j: int| 0 <= j < ents@.len() ==> entry_ok(#[trigger] ents@[j]),
    ensures
        final(writer)@ == old(writer)@ + enc_entries(ents@, ents@.len()),
{
    let ghost head = writer@;
    let mut i: usize = 0;
    while i < ents.len()
        invariant
            i <= ents@.len(),
            forall|j: int| 0 <= j < ents@.len() ==> entry_ok(#[trigger] ents@[j]),
            writer@ == head + enc_entries(ents@, i as nat),
        decreases ents@.len() - i,
    {
        write_entry(writer, &ents[i]);
        i = i + 1;
    }
}

fn write_patch(writer: &mut Vec<u8>, patch: &MapPair)
    requires
        patch_ok(*patch),
    ensures
        final(writer)@ == old(writer)@ + enc_patch(*patch),
{
    let length = match patch_length(patch) {
        Ok(n) => n,
        Err(_) => 0,
    };
    let name = match &*patch.keydata {
        BinData::Hash(h) => *h,
        _ => 0,
    };
    match &*patch.valuedata {
        BinData::PointerOrEmbedded(pe) => {
            put_u32(writer, name);
            put_u32(writer, length);
            put_u8(writer, type_to_u8(&pe.items[1].btype));
            write_value_by_bin_data(writer, &pe.items[0].data);
            write_value_by_bin_data(writer, &pe.items[1].data);
        },
        _ => {},
    }
}

fn write_patches(writer: &mut Vec<u8>, ps: &Vec<MapPair>)
    requires
        forall|j: int| 0 <= j < ps@.len() ==> patch_ok(#[trigger] ps@[j]),
    ensures
        final(writer)@ == old(writer)@ + enc_patches(ps@, ps@.len()),
{
    let ghost head = writer@;
    let mut i: usize = 0;
    while i < ps.len()
        invariant
            i <= ps@.len(),
            forall|j: int| 0 <= j < ps@.len() ==> patch_ok(#[trigger] ps@[j]),
            writer@ == head + enc_patches(ps@, i as nat),
        decreases ps@.len() - i,
    {
        write_patch(writer, &ps[i]);
        i = i + 1;
    }
}

/// Lays an archive out as bytes: the signatures, the version, the dependency
/// names where the version has them, every entry's record type before any
/// entry body, then each body, and for a patch archive the patches. An
/// archive it cannot lay out gets the error that `write_error` names.
pub fn write_bin(bin_file: &BinFile) -> (r: Result<Vec<u8>, BinError>)
    ensures
        r is Ok <==> file_writable(*bin_file),
        r is Ok ==> r->Ok_0@ == enc_file(*bin_file),
        match write_error(*bin_file) {
            Some(e) => r == Err::<Vec<u8>, BinError>(e),
            None => r is Ok,
        },
{
    match check_file(bin_file) {
        Ok(()) => {},
        Err(e) => {
            return Err(e);
        },
    }
    let mut writer: Vec<u8> = Vec::new();
    if bin_file.is_patch {
        put_bytes(&mut writer, &[0x50u8, 0x54u8, 0x43u8, 0x48u8]);
        match bin_file.unknown {
            Some(u) => put_u64(&mut writer, u),
            None => {},
        }
    }
    let ghost w0 = writer@;
    put_bytes(&mut writer, &[0x50u8, 0x52u8, 0x4Fu8, 0x50u8]);
    put_u32(&mut writer, bin_file.version);
    let ghost w1 = writer@;
    if bin_file.version >= 2 {
        put_u32(&mut writer, bin_file.linked_list.len() as u32);
        write_deps(&mut writer, &bin_file.linked_list);
    }
    let ghost w2 = writer@;
    put_u32(&mut writer, bin_file.entries.items.len() as u32);
    write_entry_types(&mut writer, &bin_file.entries.items);
    write_entries(&mut writer, &bin_file.entries.items);
    let ghost w3 = writer@;
    if bin_file.is_patch {
        match &bin_file.patches {
            Some(m) => {
                put_u32(&mut writer, m.items.len() as u32);
                write_patches(&mut writer, &m.items);
            },
            None => {},
        }
    }
    proof {
        let f = *bin_file;
        assert(w0 =~= (if f.is_patch {
            seq![0x50u8, 0x54u8, 0x43u8, 0x48u8] + match f.unknown {
                Some(u) => le64(u),
                None => seq![],
            }
        } else {
            seq![]
        }));
        assert(writer@ =~= enc_file(f));
    }
    Ok(writer)
}

} // verus!
