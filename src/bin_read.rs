//! The binary reader: decodes bytes into a value tree, checking every length
//! field against the bytes that its region took.

use vstd::prelude::*;
use crate::determinism::{
    lemma_items_determined, lemma_pairs_determined, lemma_entries_determined, lemma_fields_determined, lemma_reads_determined,
    lemma_strs_determined,
};
use crate::bin_format::{
    head_readable, lemma_fields_prefix_some, lemma_items_prefix_some, lemma_pairs_prefix_some,
    lemma_strs_prefix_some, lemma_entries_prefix_some, lemma_patches_prefix_some, entries_end,
    length_mismatch, nested_kind_error, entry_contents, entry_mismatch, patch_contents,
    patch_mismatch, entries_error, entry_wrong_at, patches_error, patch_wrong_at, file_length_error, region_contents, field_kind_error, field_kind_unknown_at, get16, get32, get64, head_end, lemma_reads_entries_prefix,
    lemma_reads_fields_prefix, lemma_reads_items_prefix, lemma_reads_pairs_prefix,
    lemma_reads_patches_prefix, lemma_reads_strs_prefix, patches_end, reads, reads_entries,
    reads_entry, reads_field, reads_fields, reads_items, reads_pairs, reads_patch, reads_patches,
    reads_str, reads_strs, file_reads, readable, sig_prop, sig_ptch, words_at,
};
use crate::error::BinError;
use crate::model::{
    BinData, BinField, BinFile, BinMap, BinType, ContainerOrStruct, MapPair, Optional,
    PointerOrEmbedded, PATCH_HASH, PATH_HASH, VALUE_HASH,
};
use crate::tags::{u8_to_type, unpack};

verus! {

broadcast use vstd::std_specs::vec::group_vec_axioms;

/// Relies on `String::from_utf8`: it accepts exactly the valid UTF-8 byte
/// sequences, and the string it returns holds the characters they encode.
#[verifier::external_body]
pub(crate) fn string_from_utf8(bytes: Vec<u8>) -> (r: Option<String>)
    ensures
        r is Some <==> vstd::utf8::valid_utf8(bytes@),
        r is Some ==> r->0@ == vstd::utf8::decode_utf8(bytes@),
{
    String::from_utf8(bytes).ok()
}

pub(crate) fn get_u8(b: &Vec<u8>, pos: usize) -> (r: Result<u8, BinError>)
    ensures
        r is Ok <==> pos + 1 <= b@.len(),
        r is Ok ==> r->Ok_0 == b@[pos as int],
        r is Err ==> r->Err_0 == (BinError::Truncated { offset: pos }),
{
    if pos < b.len() {
        Ok(b[pos])
    } else {
        Err(BinError::Truncated { offset: pos })
    }
}

pub(crate) fn get_u16(b: &Vec<u8>, pos: usize) -> (r: Result<u16, BinError>)
    ensures
        r is Ok <==> pos + 2 <= b@.len(),
        r is Ok ==> r->Ok_0 == get16(b@, pos as int),
        r is Err ==> r->Err_0 == (BinError::Truncated { offset: pos }),
{
    if pos < b.len() && b.len() - pos >= 2 {
        Ok((b[pos] as u16) | ((b[pos + 1] as u16) << 8u16))
    } else {
        Err(BinError::Truncated { offset: pos })
    }
}

pub(crate) fn get_u32(b: &Vec<u8>, pos: usize) -> (r: Result<u32, BinError>)
    ensures
        r is Ok <==> pos + 4 <= b@.len(),
        r is Ok ==> r->Ok_0 == get32(b@, pos as int),
        r is Err ==> r->Err_0 == (BinError::Truncated { offset: pos }),
{
    if pos < b.len() && b.len() - pos >= 4 {
        Ok((b[pos] as u32) | ((b[pos + 1] as u32) << 8u32) | ((b[pos + 2] as u32) << 16u32) | ((
        b[pos + 3] as u32) << 24u32))
    } else {
        Err(BinError::Truncated { offset: pos })
    }
}

pub(crate) fn get_u64(b: &Vec<u8>, pos: usize) -> (r: Result<u64, BinError>)
    ensures
        r is Ok <==> pos + 8 <= b@.len(),
        r is Ok ==> r->Ok_0 == get64(b@, pos as int),
        r is Err ==> r->Err_0 == (BinError::Truncated { offset: pos }),
{
    if pos < b.len() && b.len() - pos >= 8 {
        let lo = get_u32(b, pos);
        let hi = get_u32(b, pos + 4);
        match (lo, hi) {
            (Ok(lo), Ok(hi)) => Ok((lo as u64) | ((hi as u64) << 32u64)),
            _ => Err(BinError::Truncated { offset: pos }),
        }
    } else {
        Err(BinError::Truncated { offset: pos })
    }
}

/// Reads a string: a 16-bit byte length, then that many bytes of UTF-8.
pub(crate) fn read_string(b: &Vec<u8>, pos: usize) -> (r: Result<(String, usize), BinError>)
    ensures
        r is Ok ==> reads_str(b@, pos as int, r->Ok_0.0@) == Some(r->Ok_0.1 as int),
        r is Ok ==> r->Ok_0.1 <= b@.len(),
        (exists|s: Seq<char>| #[trigger] reads_str(b@, pos as int, s) is Some) ==> r is Ok,
{
    let blen = b.len();
    let n = match get_u16(b, pos) {
        Ok(n) => n as usize,
        Err(e) => {
            return Err(e);
        },
    };
    let start = pos + 2;
    if b.len() - start < n {
        return Err(BinError::Truncated { offset: pos });
    }
    let mut bytes: Vec<u8> = Vec::new();
    let mut i: usize = 0;
    while i < n
        invariant
            blen == b@.len(),
            start + n <= b@.len(),
            i <= n,
            bytes@ == b@.subrange(start as int, start + i),
        decreases n - i,
    {
        bytes.push(b[start + i]);
        i = i + 1;
        assert(bytes@ =~= b@.subrange(start as int, start + i));
    }
    let ghost raw = bytes@;
    proof {
        if exists|s: Seq<char>| #[trigger] reads_str(b@, pos as int, s) is Some {
            let s = choose|s: Seq<char>| #[trigger] reads_str(b@, pos as int, s) is Some;
            vstd::utf8::encode_utf8_valid_utf8(s);
        }
    }
    match string_from_utf8(bytes) {
        Some(s) => {
            proof {
                vstd::utf8::decode_utf8_encode_utf8(raw);
            }
            Ok((s, start + n))
        },
        None => Err(BinError::InvalidUtf8 { offset: start }),
    }
}

fn read_words(b: &Vec<u8>, pos: usize, count: usize) -> (r: Result<(Vec<u32>, usize), BinError>)
    requires
        count <= 16,
    ensures
        r is Ok ==> r->Ok_0.0@.len() == count && words_at(b@, pos as int, r->Ok_0.0@) && r->Ok_0.1
            == pos + 4 * count,
        pos + 4 * count <= b@.len() ==> r is Ok,
{
    let blen = b.len();
    if pos > b.len() || b.len() - pos < 4 * count {
        return Err(BinError::Truncated { offset: pos });
    }
    let mut v: Vec<u32> = Vec::new();
    let mut i: usize = 0;
    while i < count
        invariant
            blen == b@.len(),
            pos + 4 * count <= b@.len(),
            i <= count <= 16,
            v@.len() == i,
            forall|k: int| 0 <= k < i ==> #[trigger] v@[k] == get32(b@, pos + 4 * k),
        decreases count - i,
    {
        assert(pos + 4 * i + 4 <= pos + 4 * count);
        let w = get_u32(b, pos + 4 * i)?;
        v.push(w);
        i = i + 1;
    }
    Ok((v, pos + 4 * count))
}

fn read_container(b: &Vec<u8>, pos: usize, ftype: u8, bin_type: BinType) -> (r: Result<
    (BinData, usize),
    BinError,
>)
    requires
        pos <= b@.len(),
        unpack(ftype) == Some(bin_type),
        bin_type == BinType::Container || bin_type == BinType::Struct,
    ensures
        r is Ok ==> unpack(ftype) is Some && reads(b@, pos as int, unpack(ftype)->0, r->Ok_0.0)
            == Some(r->Ok_0.1 as int) && pos <= r->Ok_0.1 <= b@.len(),
        unpack(ftype) is Some && readable(b@, pos as int, unpack(ftype)->0) ==> r is Ok,
        length_mismatch(b@, pos as int, bin_type) is Some ==> r == Err::<(BinData, usize), BinError>(
            length_mismatch(b@, pos as int, bin_type)->0,
        ),
        nested_kind_error(b@, pos as int, bin_type) is Some ==> r == Err::<(BinData, usize), BinError>(
            nested_kind_error(b@, pos as int, bin_type)->0,
        ),
    decreases b@.len() - pos, 0nat,
{
    let blen = b.len();
    let ghost rd = readable(b@, pos as int, bin_type);
    let ghost rc = exists|d: BinData| #[trigger] region_contents(b@, pos as int, bin_type, d) is Some;
    let ghost wd = choose|d: BinData| #[trigger] region_contents(b@, pos as int, bin_type, d) is Some;
    let ghost w = wd->ContainerOrStruct_0;
    proof {
        if rd {
            let x = choose|d: BinData| #[trigger] reads(b@, pos as int, bin_type, d) is Some;
            assert(reads(b@, pos as int, bin_type, x) is Some);
            assert(region_contents(b@, pos as int, bin_type, x) is Some);
        }
        if rc {
            assert(region_contents(b@, pos as int, bin_type, wd) is Some);
            assert(wd is ContainerOrStruct);
            assert(reads_items(b@, pos + 9, w.btype, w.items@, w.items@.len()) is Some);
        }
    }
    let cs_type = get_u8(b, pos)?;
    let cs_length = get_u32(b, pos + 1)?;
    let field_count = get_u32(b, pos + 5)?;
    let element = match u8_to_type(cs_type) {
        Some(t) => t,
        None => {
            return Err(BinError::UnknownType { byte: cs_type, offset: pos });
        },
    };
    let start = pos + 9;
    let mut items: Vec<BinData> = Vec::new();
    let mut cur: usize = start;
    let mut k: u32 = 0;
    while k < field_count
        invariant
            blen == b@.len(),
            pos + 9 <= b@.len(),
            start == pos + 9,
            start <= cur <= b@.len(),
            k <= field_count,
            items@.len() == k,
            unpack(cs_type) == Some(element),
            unpack(ftype) == Some(bin_type),
            cs_type == b@[pos as int],
            bin_type == BinType::Container || bin_type == BinType::Struct,
            rd == readable(b@, pos as int, bin_type),
            rc == exists|d: BinData| #[trigger] region_contents(b@, pos as int, bin_type, d) is Some,
            wd == choose|d: BinData| #[trigger] region_contents(b@, pos as int, bin_type, d) is Some,
            w == wd->ContainerOrStruct_0,
            rd ==> rc,
            reads_items(b@, start as int, element, items@, items@.len()) == Some(cur as int),
            rc ==> element == w.btype && field_count == w.items@.len() && reads_items(
                b@,
                start as int,
                element,
                w.items@,
                k as nat,
            ) == Some(cur as int) && reads_items(b@, start as int, element, w.items@, w.items@.len())
                is Some,
        decreases field_count - k,
    {
        proof {
            if rc {
                lemma_items_prefix_some(
                    b@,
                    start as int,
                    element,
                    w.items@,
                    (k + 1) as nat,
                    w.items@.len(),
                );
                assert(reads(b@, cur as int, element, w.items@[k as int]) is Some);
                assert(readable(b@, cur as int, unpack(cs_type)->0));
            }
        }
        let (d, e) = match read_value_by_type(b, cur, cs_type) {
            Ok(x) => x,
            Err(err) => {
                return Err(err);
            },
        };
        proof {
            if rc {
                lemma_reads_determined(b@, cur as int, element, d, w.items@[k as int]);
            }
            assert(items@.push(d).take(items@.len() as int) =~= items@.take(items@.len() as int));
            lemma_reads_items_prefix(b@, start as int, element, items@.push(d), items@, items@.len());
        }
        items.push(d);
        cur = e;
        k = k + 1;
    }
    proof {
        if rd {
            let x = choose|d: BinData| #[trigger] reads(b@, pos as int, bin_type, d) is Some;
            assert(reads(b@, pos as int, bin_type, x) is Some);
            let xc = x->ContainerOrStruct_0;
            lemma_items_determined(b@, start as int, element, xc.items@, w.items@, w.items@.len());
        }
    }
    if cur - (pos + 5) != cs_length as usize {
        return Err(
            BinError::LengthMismatch { name: 0, declared: cs_length, actual: cur - (pos + 5) },
        );
    }
    let cs = ContainerOrStruct::new(element, items);
    Ok((BinData::ContainerOrStruct(cs), cur))
}

fn read_record(b: &Vec<u8>, pos: usize, ftype: u8, bin_type: BinType) -> (r: Result<
    (BinData, usize),
    BinError,
>)
    requires
        pos <= b@.len(),
        unpack(ftype) == Some(bin_type),
        bin_type == BinType::Pointer || bin_type == BinType::Embedded,
    ensures
        r is Ok ==> unpack(ftype) is Some && reads(b@, pos as int, unpack(ftype)->0, r->Ok_0.0)
            == Some(r->Ok_0.1 as int) && pos <= r->Ok_0.1 <= b@.len(),
        unpack(ftype) is Some && readable(b@, pos as int, unpack(ftype)->0) ==> r is Ok,
        length_mismatch(b@, pos as int, bin_type) is Some ==> r == Err::<(BinData, usize), BinError>(
            length_mismatch(b@, pos as int, bin_type)->0,
        ),
        nested_kind_error(b@, pos as int, bin_type) is Some ==> r == Err::<(BinData, usize), BinError>(
            nested_kind_error(b@, pos as int, bin_type)->0,
        ),
    decreases b@.len() - pos, 0nat,
{
    let blen = b.len();
    let ghost rd = readable(b@, pos as int, bin_type);
    let ghost rc = exists|d: BinData| #[trigger] region_contents(b@, pos as int, bin_type, d) is Some;
    let ghost wd = choose|d: BinData| #[trigger] region_contents(b@, pos as int, bin_type, d) is Some;
    let ghost w = wd->PointerOrEmbedded_0;
    let ghost fk = exists|x: (Seq<BinField>, nat)| #[trigger] field_kind_unknown_at(
        b@,
        pos as int,
        x.0,
        x.1,
    );
    let ghost wk = choose|x: (Seq<BinField>, nat)| #[trigger] field_kind_unknown_at(
        b@,
        pos as int,
        x.0,
        x.1,
    );
    proof {
        if rc {
            assert(region_contents(b@, pos as int, bin_type, wd) is Some);
            assert(wd is PointerOrEmbedded);
            assert(reads_fields(b@, pos + 10, w.items@, w.items@.len()) is Some);
        }
        if fk {
            assert(field_kind_unknown_at(b@, pos as int, wk.0, wk.1));
        }
    }
    let name = get_u32(b, pos)?;
    if name == 0 {
        proof {
            if rd {
                let x = choose|d: BinData| #[trigger] reads(b@, pos as int, bin_type, d) is Some;
                assert(reads(b@, pos as int, bin_type, x) is Some);
            }
        }
        return Ok((BinData::PointerOrEmbedded(PointerOrEmbedded::new(0, Vec::new())), pos + 4));
    }
    proof {
        if rd {
            let x = choose|d: BinData| #[trigger] reads(b@, pos as int, bin_type, d) is Some;
            assert(reads(b@, pos as int, bin_type, x) is Some);
            assert(region_contents(b@, pos as int, bin_type, x) is Some);
        }
    }
    let pe_length = get_u32(b, pos + 4)?;
    let field_count = get_u16(b, pos + 8)?;
    let start = pos + 10;
    let mut fields: Vec<BinField> = Vec::new();
    let mut cur: usize = start;
    let mut k: u16 = 0;
    while k < field_count
        invariant
            blen == b@.len(),
            pos + 10 <= b@.len(),
            start == pos + 10,
            start <= cur <= b@.len(),
            k <= field_count,
            fields@.len() == k,
            name == get32(b@, pos as int),
            name != 0,
            field_count == get16(b@, pos + 8),
            unpack(ftype) == Some(bin_type),
            bin_type == BinType::Pointer || bin_type == BinType::Embedded,
            rd == readable(b@, pos as int, bin_type),
            rc == exists|d: BinData| #[trigger] region_contents(b@, pos as int, bin_type, d) is Some,
            wd == choose|d: BinData| #[trigger] region_contents(b@, pos as int, bin_type, d) is Some,
            w == wd->PointerOrEmbedded_0,
            rd ==> rc,
            fk == exists|x: (Seq<BinField>, nat)| #[trigger] field_kind_unknown_at(
                b@,
                pos as int,
                x.0,
                x.1,
            ),
            wk == choose|x: (Seq<BinField>, nat)| #[trigger] field_kind_unknown_at(
                b@,
                pos as int,
                x.0,
                x.1,
            ),
            fk ==> field_kind_unknown_at(b@, pos as int, wk.0, wk.1) && k <= wk.1 && reads_fields(
                b@,
                start as int,
                wk.0,
                k as nat,
            ) == Some(cur as int),
            reads_fields(b@, start as int, fields@, fields@.len()) == Some(cur as int),
            rc ==> w.name == name && field_count == w.items@.len() && reads_fields(
                b@,
                start as int,
                w.items@,
                k as nat,
            ) == Some(cur as int) && reads_fields(b@, start as int, w.items@, w.items@.len())
                is Some,
        decreases field_count - k,
    {
        proof {
            if rc {
                lemma_fields_prefix_some(b@, start as int, w.items@, (k + 1) as nat, w.items@.len());
                assert(reads_field(b@, cur as int, w.items@[k as int]) is Some);
                assert(exists|f: BinField| #[trigger] reads_field(b@, cur as int, f) is Some);
            }
            if fk && k < wk.1 {
                lemma_fields_prefix_some(b@, start as int, wk.0, (k + 1) as nat, wk.1);
                assert(reads_field(b@, cur as int, wk.0[k as int]) is Some);
                assert(exists|f: BinField| #[trigger] reads_field(b@, cur as int, f) is Some);
            }
        }
        let (field, e) = match read_field(b, cur) {
            Ok(x) => x,
            Err(err) => {
                return Err(err);
            },
        };
        proof {
            if rc {
                let wf = w.items@[k as int];
                assert(reads_field(b@, cur as int, field) is Some);
                assert(field.btype == wf.btype);
                lemma_reads_determined(b@, cur + 5, field.btype, *field.data, *wf.data);
            }
            if fk {
                let wf = wk.0[k as int];
                assert(reads_field(b@, cur as int, field) is Some);
                assert(reads_field(b@, cur as int, wf) is Some);
                assert(field.btype == wf.btype);
                lemma_reads_determined(b@, cur + 5, field.btype, *field.data, *wf.data);
            }
            assert(fields@.push(field).take(fields@.len() as int) =~= fields@.take(
                fields@.len() as int,
            ));
            lemma_reads_fields_prefix(
                b@,
                start as int,
                fields@.push(field),
                fields@,
                fields@.len(),
            );
        }
        fields.push(field);
        cur = e;
        k = k + 1;
    }
    proof {
        if rd {
            let x = choose|d: BinData| #[trigger] reads(b@, pos as int, bin_type, d) is Some;
            assert(reads(b@, pos as int, bin_type, x) is Some);
            let xp = x->PointerOrEmbedded_0;
            lemma_fields_determined(b@, start as int, xp.items@, w.items@, w.items@.len());
        }
    }
    if cur - (pos + 8) != pe_length as usize {
        return Err(
            BinError::LengthMismatch { name: name, declared: pe_length, actual: cur - (pos + 8) },
        );
    }
    Ok((BinData::PointerOrEmbedded(PointerOrEmbedded::new(name, fields)), cur))
}

fn read_optional(b: &Vec<u8>, pos: usize, ftype: u8) -> (r: Result<(BinData, usize), BinError>)
    requires
        pos <= b@.len(),
        unpack(ftype) == Some(BinType::Optional),
    ensures
        r is Ok ==> unpack(ftype) is Some && reads(b@, pos as int, unpack(ftype)->0, r->Ok_0.0)
            == Some(r->Ok_0.1 as int) && pos <= r->Ok_0.1 <= b@.len(),
        unpack(ftype) is Some && readable(b@, pos as int, unpack(ftype)->0) ==> r is Ok,
        nested_kind_error(b@, pos as int, BinType::Optional) is Some ==> r == Err::<
            (BinData, usize),
            BinError,
        >(nested_kind_error(b@, pos as int, BinType::Optional)->0),
    decreases b@.len() - pos, 0nat,
{
    let blen = b.len();
    let ghost rd = readable(b@, pos as int, BinType::Optional);
    let ghost wd = choose|d: BinData| #[trigger] reads(b@, pos as int, BinType::Optional, d) is Some;
    let ghost w = wd->Optional_0;
    proof {
        if rd {
            assert(wd is Optional);
            if w.data is Some {
                assert(reads(b@, pos + 2, w.btype, *w.data->0) is Some);
            }
        }
    }
    let op_type = get_u8(b, pos)?;
    let is_some = get_u8(b, pos + 1)?;
    let element = match u8_to_type(op_type) {
        Some(t) => t,
        None => {
            return Err(BinError::UnknownType { byte: op_type, offset: pos });
        },
    };
    if is_some != 0 {
        let (d, e) = read_value_by_type(b, pos + 2, op_type)?;
        Ok((BinData::Optional(Optional::new(element, Some(d))), e))
    } else {
        Ok((BinData::Optional(Optional::new(element, None)), pos + 2))
    }
}

fn read_map(b: &Vec<u8>, pos: usize, ftype: u8) -> (r: Result<(BinData, usize), BinError>)
    requires
        pos <= b@.len(),
        unpack(ftype) == Some(BinType::Mapping),
    ensures
        r is Ok ==> unpack(ftype) is Some && reads(b@, pos as int, unpack(ftype)->0, r->Ok_0.0)
            == Some(r->Ok_0.1 as int) && pos <= r->Ok_0.1 <= b@.len(),
        unpack(ftype) is Some && readable(b@, pos as int, unpack(ftype)->0) ==> r is Ok,
        length_mismatch(b@, pos as int, BinType::Mapping) is Some ==> r == Err::<(BinData, usize), BinError>(
            length_mismatch(b@, pos as int, BinType::Mapping)->0,
        ),
        nested_kind_error(b@, pos as int, BinType::Mapping) is Some ==> r == Err::<(BinData, usize), BinError>(
            nested_kind_error(b@, pos as int, BinType::Mapping)->0,
        ),
    decreases b@.len() - pos, 0nat,
{
    let blen = b.len();
    let ghost rd = readable(b@, pos as int, BinType::Mapping);
    let ghost rc = exists|d: BinData| #[trigger] region_contents(b@, pos as int, BinType::Mapping, d) is Some;
    let ghost wd = choose|d: BinData| #[trigger] region_contents(b@, pos as int, BinType::Mapping, d) is Some;
    let ghost w = wd->Mapping_0;
    proof {
        if rd {
            let x = choose|d: BinData| #[trigger] reads(b@, pos as int, BinType::Mapping, d) is Some;
            assert(reads(b@, pos as int, BinType::Mapping, x) is Some);
            assert(region_contents(b@, pos as int, BinType::Mapping, x) is Some);
        }
        if rc {
            assert(region_contents(b@, pos as int, BinType::Mapping, wd) is Some);
            assert(wd is Mapping);
            assert(reads_pairs(b@, pos + 10, w.keytype, w.valuetype, w.items@, w.items@.len()) is Some);
        }
    }
    let key_type = get_u8(b, pos)?;
    let value_type = get_u8(b, pos + 1)?;
    let map_length = get_u32(b, pos + 2)?;
    let field_count = get_u32(b, pos + 6)?;
    let kt = match u8_to_type(key_type) {
        Some(t) => t,
        None => {
            return Err(BinError::UnknownType { byte: key_type, offset: pos });
        },
    };
    let vt = match u8_to_type(value_type) {
        Some(t) => t,
        None => {
            return Err(BinError::UnknownType { byte: value_type, offset: pos + 1 });
        },
    };
    let start = pos + 10;
    let mut pairs: Vec<MapPair> = Vec::new();
    let mut cur: usize = start;
    let mut k: u32 = 0;
    while k < field_count
        invariant
            blen == b@.len(),
            pos + 10 <= b@.len(),
            start == pos + 10,
            start <= cur <= b@.len(),
            k <= field_count,
            pairs@.len() == k,
            unpack(key_type) == Some(kt),
            unpack(value_type) == Some(vt),
            unpack(ftype) == Some(BinType::Mapping),
            rd == readable(b@, pos as int, BinType::Mapping),
            rc == exists|d: BinData| #[trigger] region_contents(b@, pos as int, BinType::Mapping, d) is Some,
            wd == choose|d: BinData| #[trigger] region_contents(b@, pos as int, BinType::Mapping, d) is Some,
            rd ==> rc,
            key_type == b@[pos as int],
            value_type == b@[pos + 1],
            w == wd->Mapping_0,
            reads_pairs(b@, start as int, kt, vt, pairs@, pairs@.len()) == Some(cur as int),
            rc ==> kt == w.keytype && vt == w.valuetype && field_count == w.items@.len()
                && reads_pairs(b@, start as int, kt, vt, w.items@, k as nat) == Some(cur as int)
                && reads_pairs(b@, start as int, kt, vt, w.items@, w.items@.len()) is Some,
        decreases field_count - k,
    {
        let ghost wp = w.items@[k as int];
        proof {
            if rc {
                lemma_pairs_prefix_some(
                    b@,
                    start as int,
                    kt,
                    vt,
                    w.items@,
                    (k + 1) as nat,
                    w.items@.len(),
                );
                assert(reads(b@, cur as int, kt, *wp.keydata) is Some);
                assert(readable(b@, cur as int, unpack(key_type)->0));
            }
        }
        let (kd, e1) = match read_value_by_type(b, cur, key_type) {
            Ok(x) => x,
            Err(err) => {
                return Err(err);
            },
        };
        proof {
            if rc {
                lemma_reads_determined(b@, cur as int, kt, kd, *wp.keydata);
                assert(reads(b@, e1 as int, vt, *wp.valuedata) is Some);
                assert(readable(b@, e1 as int, unpack(value_type)->0));
            }
        }
        let (vd, e2) = match read_value_by_type(b, e1, value_type) {
            Ok(x) => x,
            Err(err) => {
                return Err(err);
            },
        };
        let pair = MapPair::new(kd, vd);
        proof {
            if rc {
                lemma_reads_determined(b@, e1 as int, vt, vd, *wp.valuedata);
            }
            assert(pairs@.push(pair).take(pairs@.len() as int) =~= pairs@.take(pairs@.len() as int));
            lemma_reads_pairs_prefix(
                b@,
                start as int,
                kt,
                vt,
                pairs@.push(pair),
                pairs@,
                pairs@.len(),
            );
        }
        pairs.push(pair);
        cur = e2;
        k = k + 1;
    }
    proof {
        if rd {
            let x = choose|d: BinData| #[trigger] reads(b@, pos as int, BinType::Mapping, d) is Some;
            assert(reads(b@, pos as int, BinType::Mapping, x) is Some);
            let xm = x->Mapping_0;
            lemma_pairs_determined(b@, start as int, kt, vt, xm.items@, w.items@, w.items@.len());
        }
    }
    if cur - (pos + 6) != map_length as usize {
        return Err(
            BinError::LengthMismatch { name: 0, declared: map_length, actual: cur - (pos + 6) },
        );
    }
    Ok((BinData::Mapping(BinMap::new(kt, vt, pairs)), cur))
}

fn read_field(b: &Vec<u8>, pos: usize) -> (r: Result<(BinField, usize), BinError>)
    requires
        pos <= b@.len(),
    ensures
        r is Ok ==> reads_field(b@, pos as int, r->Ok_0.0) == Some(r->Ok_0.1 as int) && pos
            <= r->Ok_0.1 <= b@.len(),
        (exists|f: BinField| #[trigger] reads_field(b@, pos as int, f) is Some) ==> r is Ok,
        pos + 5 <= b@.len() && unpack(b@[pos + 4]) is None ==> r == Err::<(BinField, usize), BinError>(
            BinError::UnknownType { byte: b@[pos + 4], offset: (pos + 4) as usize },
        ),
    decreases b@.len() - pos, 0nat,
{
    let blen = b.len();
    let fname = get_u32(b, pos)?;
    let ftype = get_u8(b, pos + 4)?;
    let t = match u8_to_type(ftype) {
        Some(t) => t,
        None => {
            return Err(BinError::UnknownType { byte: ftype, offset: pos + 4 });
        },
    };
    proof {
        if exists|f: BinField| #[trigger] reads_field(b@, pos as int, f) is Some {
            let f = choose|f: BinField| #[trigger] reads_field(b@, pos as int, f) is Some;
            assert(reads(b@, pos + 5, f.btype, *f.data) is Some);
            assert(readable(b@, pos + 5, unpack(ftype)->0));
        }
    }
    let (d, e) = read_value_by_type(b, pos + 5, ftype)?;
    Ok((BinField::new(fname, t, d), e))
}

pub(crate) fn read_value_by_type(b: &Vec<u8>, pos: usize, ftype: u8) -> (r: Result<
    (BinData, usize),
    BinError,
>)
    requires
        pos <= b@.len(),
    ensures
        r is Ok ==> unpack(ftype) is Some && reads(b@, pos as int, unpack(ftype)->0, r->Ok_0.0)
            == Some(r->Ok_0.1 as int) && pos <= r->Ok_0.1 <= b@.len(),
        unpack(ftype) is Some && readable(b@, pos as int, unpack(ftype)->0) ==> r is Ok,
        unpack(ftype) is None ==> r == Err::<(BinData, usize), BinError>(
            BinError::UnknownType { byte: ftype, offset: pos },
        ),
        unpack(ftype) is Some && length_mismatch(b@, pos as int, unpack(ftype)->0) is Some ==> r
            == Err::<(BinData, usize), BinError>(length_mismatch(b@, pos as int, unpack(ftype)->0)->0),
        unpack(ftype) is Some && nested_kind_error(b@, pos as int, unpack(ftype)->0) is Some ==> r
            == Err::<(BinData, usize), BinError>(
            nested_kind_error(b@, pos as int, unpack(ftype)->0)->0,
        ),
    decreases b@.len() - pos, 1nat,
{
    let blen = b.len();
    let bin_type = match u8_to_type(ftype) {
        Some(t) => t,
        None => {
            return Err(BinError::UnknownType { byte: ftype, offset: pos });
        },
    };
    proof {
        if !(bin_type == BinType::Container || bin_type == BinType::Struct || bin_type
            == BinType::Pointer || bin_type == BinType::Embedded || bin_type == BinType::Mapping) {
            assert forall|d: BinData| #[trigger]
                region_contents(b@, pos as int, bin_type, d) is None by {}
        }
    }
    match bin_type {
        BinType::Null => Ok((BinData::Null, pos)),
        BinType::Bool => Ok((BinData::Bool(get_u8(b, pos)? != 0), pos + 1)),
        BinType::SInt8 => Ok((BinData::SInt8(get_u8(b, pos)? as i8), pos + 1)),
        BinType::UInt8 => Ok((BinData::UInt8(get_u8(b, pos)?), pos + 1)),
        BinType::SInt16 => Ok((BinData::SInt16(get_u16(b, pos)? as i16), pos + 2)),
        BinType::UInt16 => Ok((BinData::UInt16(get_u16(b, pos)?), pos + 2)),
        BinType::SInt32 => Ok((BinData::SInt32(get_u32(b, pos)? as i32), pos + 4)),
        BinType::UInt32 => Ok((BinData::UInt32(get_u32(b, pos)?), pos + 4)),
        BinType::SInt64 => Ok((BinData::SInt64(get_u64(b, pos)? as i64), pos + 8)),
        BinType::UInt64 => Ok((BinData::UInt64(get_u64(b, pos)?), pos + 8)),
        BinType::Float32 => Ok((BinData::Float32(get_u32(b, pos)?), pos + 4)),
        BinType::Vector2 => {
            let (v, e) = read_words(b, pos, 2)?;
            Ok((BinData::Vector2(v), e))
        },
        BinType::Vector3 => {
            let (v, e) = read_words(b, pos, 3)?;
            Ok((BinData::Vector3(v), e))
        },
        BinType::Vector4 => {
            let (v, e) = read_words(b, pos, 4)?;
            Ok((BinData::Vector4(v), e))
        },
        BinType::Matrix4x4 => {
            let (v, e) = read_words(b, pos, 16)?;
            Ok((BinData::Matrix4x4(v), e))
        },
        BinType::Rgba => {
            if b.len() - pos < 4 {
                return Err(BinError::Truncated { offset: pos });
            }
            let mut rgba: Vec<u8> = Vec::new();
            let mut i: usize = 0;
            while i < 4
                invariant
                    blen == b@.len(),
                    pos + 4 <= b@.len(),
                    i <= 4,
                    rgba@ == b@.subrange(pos as int, pos + i),
                decreases 4 - i,
            {
                rgba.push(b[pos + i]);
                i = i + 1;
                assert(rgba@ =~= b@.subrange(pos as int, pos + i));
            }
            Ok((BinData::Rgba(rgba), pos + 4))
        },
        BinType::String => {
            let (s, e) = read_string(b, pos)?;
            Ok((BinData::String(s), e))
        },
        BinType::Hash => Ok((BinData::Hash(get_u32(b, pos)?), pos + 4)),
        BinType::WadEntryLink => Ok((BinData::WadEntryLink(get_u64(b, pos)?), pos + 8)),
        BinType::Container | BinType::Struct => read_container(b, pos, ftype, bin_type),
        BinType::Pointer | BinType::Embedded => read_record(b, pos, ftype, bin_type),
        BinType::Optional => read_optional(b, pos, ftype),
        BinType::Mapping => read_map(b, pos, ftype),
        BinType::Link => Ok((BinData::Link(get_u32(b, pos)?), pos + 4)),
        BinType::Flag => Ok((BinData::Flag(get_u8(b, pos)? != 0), pos + 1)),
    }
}

} // verus!

verus! {

proof fn lemma_utf8_same(b: Seq<u8>, pos: int, s1: Seq<char>, s2: Seq<char>)
    requires
        reads_str(b, pos, s1) is Some,
        reads_str(b, pos, s2) is Some,
    ensures
        s1 == s2,
        reads_str(b, pos, s1) == reads_str(b, pos, s2),
{
    vstd::utf8::encode_utf8_decode_utf8(s1);
    vstd::utf8::encode_utf8_decode_utf8(s2);
}

fn has_signature(b: &Vec<u8>, pos: usize, sig: [u8; 4]) -> (r: bool)
    ensures
        r == (pos + 4 <= b@.len() && b@.subrange(pos as int, pos + 4) == sig@),
{
    let blen = b.len();
    if pos > blen || blen - pos < 4 {
        return false;
    }
    let r = b[pos] == sig[0] && b[pos + 1] == sig[1] && b[pos + 2] == sig[2] && b[pos + 3] == sig[3];
    proof {
        if r {
            assert(b@.subrange(pos as int, pos + 4) =~= sig@);
        } else {
            let sub = b@.subrange(pos as int, pos + 4);
            if sub == sig@ {
                assert(sub[0] == sig@[0] && sub[1] == sig@[1] && sub[2] == sig@[2] && sub[3]
                    == sig@[3]);
            }
        }
    }
    r
}

/// Reads the signatures, the version and, where the version has them, the
/// dependency names.
fn read_head(b: &Vec<u8>) -> (r: Result<(bool, Option<u64>, u32, Vec<String>, usize), BinError>)
    ensures
        r is Ok ==> head_end(b@, r->Ok_0.0, r->Ok_0.1, r->Ok_0.2, r->Ok_0.3@) == Some(
            r->Ok_0.4 as int,
        ) && r->Ok_0.4 <= b@.len(),
        b@.len() >= 4 && b@.subrange(0, 4) != sig_ptch() && b@.subrange(0, 4) != sig_prop() ==> r
            == Err::<(bool, Option<u64>, u32, Vec<String>, usize), BinError>(BinError::BadSignature),
        head_readable(b@) ==> r is Ok,
        b@.len() < 4 ==> r == Err::<(bool, Option<u64>, u32, Vec<String>, usize), BinError>(
            BinError::Truncated { offset: 0 },
        ),
        4 <= b@.len() < 12 && b@.subrange(0, 4) == sig_ptch() ==> r == Err::<
            (bool, Option<u64>, u32, Vec<String>, usize),
            BinError,
        >(BinError::Truncated { offset: 4 }),
        b@.len() >= 12 && b@.subrange(0, 4) == sig_ptch() && !(b@.len() >= 16 && b@.subrange(12, 16)
            == sig_prop()) ==> r == Err::<(bool, Option<u64>, u32, Vec<String>, usize), BinError>(
            BinError::BadSignature,
        ),
{
    let blen = b.len();
    let ghost rd = head_readable(b@);
    let ghost h = choose|h: (bool, Option<u64>, u32, Seq<String>)| #[trigger] head_end(
        b@,
        h.0,
        h.1,
        h.2,
        h.3,
    ) is Some;
    let ptch: [u8; 4] = [0x50u8, 0x54u8, 0x43u8, 0x48u8];
    let prop: [u8; 4] = [0x50u8, 0x52u8, 0x4Fu8, 0x50u8];
    assert(ptch@ =~= sig_ptch());
    assert(prop@ =~= sig_prop());
    let is_patch = has_signature(b, 0, ptch);
    let mut pos: usize = 0;
    let mut unknown: Option<u64> = None;
    if is_patch {
        unknown = Some(get_u64(b, 4)?);
        pos = 12;
    } else if blen < 4 {
        return Err(BinError::Truncated { offset: 0 });
    }
    if !has_signature(b, pos, prop) {
        return Err(BinError::BadSignature);
    }
    proof {
        if rd {
            assert(head_end(b@, h.0, h.1, h.2, h.3) is Some);
            assert(h.0 == is_patch);
        }
    }
    let version = get_u32(b, pos + 4)?;
    let mut list: Vec<String> = Vec::new();
    let mut cur: usize = pos + 8;
    if version >= 2 {
        let count = get_u32(b, pos + 8)?;
        cur = pos + 12;
        let start = cur;
        let mut k: u32 = 0;
        proof {
            if rd {
                assert(h.2 == version);
                assert(reads_strs(b@, start as int, h.3, h.3.len()) is Some);
            }
        }
        while k < count
            invariant
                blen == b@.len(),
                start <= cur <= b@.len(),
                k <= count,
                list@.len() == k,
                reads_strs(b@, start as int, list@, list@.len()) == Some(cur as int),
                b@.len() >= 4,
                b@.subrange(0, 4) == sig_ptch() || b@.subrange(0, 4) == sig_prop(),
                b@.subrange(0, 4) == sig_ptch() ==> b@.len() >= 16 && b@.subrange(12, 16)
                    == sig_prop(),
                rd == head_readable(b@),
                rd ==> count == h.3.len() && reads_strs(b@, start as int, h.3, h.3.len()) is Some
                    && reads_strs(b@, start as int, h.3, k as nat) == Some(cur as int),
            decreases count - k,
        {
            proof {
                if rd {
                    lemma_strs_prefix_some(b@, start as int, h.3, (k + 1) as nat, h.3.len());
                    assert(reads_str(b@, cur as int, h.3[k as int]@) is Some);
                }
            }
            let (s, e) = read_string(b, cur)?;
            proof {
                if rd {
                    lemma_utf8_same(b@, cur as int, s@, h.3[k as int]@);
                }
                assert(list@.push(s).take(list@.len() as int) =~= list@.take(list@.len() as int));
                lemma_reads_strs_prefix(b@, start as int, list@.push(s), list@, list@.len());
            }
            list.push(s);
            cur = e;
            k = k + 1;
        }
    }
    Ok((is_patch, unknown, version, list, cur))
}

proof fn lemma_entry_determined(b: Seq<u8>, pos: int, ty: u32, pa: MapPair, pb: MapPair)
    requires
        reads_entry(b, pos, ty, pa) is Some,
        reads_entry(b, pos, ty, pb) is Some,
    ensures
        reads_entry(b, pos, ty, pa) == reads_entry(b, pos, ty, pb),
{
    let x = pa.valuedata->PointerOrEmbedded_0;
    let y = pb.valuedata->PointerOrEmbedded_0;
    lemma_fields_determined(b, pos + 10, x.items@, y.items@, x.items@.len());
}

/// Reads one entry body of the declared record type `entry_type`.
fn read_entry(b: &Vec<u8>, cur: usize, entry_type: u32) -> (r: Result<(MapPair, usize), BinError>)
    requires
        cur <= b@.len(),
    ensures
        r is Ok ==> reads_entry(b@, cur as int, entry_type, r->Ok_0.0) == Some(r->Ok_0.1 as int)
            && cur <= r->Ok_0.1 <= b@.len(),
        (exists|p: MapPair| #[trigger] reads_entry(b@, cur as int, entry_type, p) is Some) ==> r is Ok,
        entry_mismatch(b@, cur as int, entry_type) is Some ==> r == Err::<(MapPair, usize), BinError>(
            entry_mismatch(b@, cur as int, entry_type)->0,
        ),
{
    let blen = b.len();
    let ghost rd = exists|p: MapPair| #[trigger] reads_entry(b@, cur as int, entry_type, p) is Some;
    let ghost rc = exists|p: MapPair| #[trigger] entry_contents(b@, cur as int, entry_type, p) is Some;
    let ghost wp = choose|p: MapPair| #[trigger] entry_contents(b@, cur as int, entry_type, p) is Some;
    let ghost w = wp.valuedata->PointerOrEmbedded_0;
    proof {
        if rd {
            let x = choose|p: MapPair| #[trigger] reads_entry(b@, cur as int, entry_type, p) is Some;
            assert(reads_entry(b@, cur as int, entry_type, x) is Some);
            assert(entry_contents(b@, cur as int, entry_type, x) is Some);
        }
        if rc {
            assert(entry_contents(b@, cur as int, entry_type, wp) is Some);
            assert(reads_fields(b@, cur + 10, w.items@, w.items@.len()) is Some);
        }
    }
    let entry_length = get_u32(b, cur)?;
    let entry_name = get_u32(b, cur + 4)?;
    let field_count = get_u16(b, cur + 8)?;
    let body = cur + 10;
    let mut fields: Vec<BinField> = Vec::new();
    let mut fcur: usize = body;
    let mut j: u16 = 0;
    while j < field_count
        invariant
            blen == b@.len(),
            body == cur + 10,
            body <= fcur <= b@.len(),
            j <= field_count,
            fields@.len() == j,
            reads_fields(b@, body as int, fields@, fields@.len()) == Some(fcur as int),
            rd == exists|p: MapPair| #[trigger] reads_entry(b@, cur as int, entry_type, p) is Some,
            rc == exists|p: MapPair| #[trigger] entry_contents(b@, cur as int, entry_type, p) is Some,
            wp == choose|p: MapPair| #[trigger] entry_contents(b@, cur as int, entry_type, p) is Some,
            w == wp.valuedata->PointerOrEmbedded_0,
            rd ==> rc,
            entry_length == get32(b@, cur as int),
            entry_name == get32(b@, cur + 4),
            rc ==> field_count == w.items@.len() && reads_fields(b@, body as int, w.items@, j as nat)
                == Some(fcur as int) && reads_fields(b@, body as int, w.items@, w.items@.len())
                is Some,
        decreases field_count - j,
    {
        proof {
            if rc {
                lemma_fields_prefix_some(b@, body as int, w.items@, (j + 1) as nat, w.items@.len());
                assert(reads_field(b@, fcur as int, w.items@[j as int]) is Some);
            }
        }
        let (field, e) = match read_field(b, fcur) {
            Ok(x) => x,
            Err(err) => {
                return Err(err);
            },
        };
        proof {
            if rc {
                let wf = w.items@[j as int];
                assert(reads_field(b@, fcur as int, field) is Some);
                assert(field.btype == wf.btype);
                lemma_reads_determined(b@, fcur + 5, field.btype, *field.data, *wf.data);
            }
            assert(fields@.push(field).take(fields@.len() as int) =~= fields@.take(
                fields@.len() as int,
            ));
            lemma_reads_fields_prefix(b@, body as int, fields@.push(field), fields@, fields@.len());
        }
        fields.push(field);
        fcur = e;
        j = j + 1;
    }
    proof {
        if rd {
            let x = choose|p: MapPair| #[trigger] reads_entry(b@, cur as int, entry_type, p) is Some;
            assert(reads_entry(b@, cur as int, entry_type, x) is Some);
            let xp = x.valuedata->PointerOrEmbedded_0;
            lemma_fields_determined(b@, cur + 10, xp.items@, w.items@, w.items@.len());
        }
    }
    if fcur - (cur + 4) != entry_length as usize {
        return Err(
            BinError::LengthMismatch {
                name: entry_name,
                declared: entry_length,
                actual: fcur - (cur + 4),
            },
        );
    }
    let pair = MapPair::new(
        BinData::Hash(entry_name),
        BinData::PointerOrEmbedded(PointerOrEmbedded::new(entry_type, fields)),
    );
    Ok((pair, fcur))
}

/// Reads the entry count, every entry's declared record type, then each
/// entry body, checking each body's length field.
fn read_entries(b: &Vec<u8>, pos: usize) -> (r: Result<(BinMap, usize), BinError>)
    requires
        pos <= b@.len(),
    ensures
        r is Ok ==> entries_end(b@, pos as int, r->Ok_0.0) == Some(r->Ok_0.1 as int) && r->Ok_0.1
            <= b@.len(),
        (exists|m: BinMap| #[trigger] entries_end(b@, pos as int, m) is Some) ==> r is Ok,
        entries_error(b@, pos as int) is Some ==> r == Err::<(BinMap, usize), BinError>(
            entries_error(b@, pos as int)->0,
        ),
{
    let blen = b.len();
    let ghost rd = exists|m: BinMap| #[trigger] entries_end(b@, pos as int, m) is Some;
    let ghost w = choose|m: BinMap| #[trigger] entries_end(b@, pos as int, m) is Some;
    let ghost ew = exists|x: (Seq<MapPair>, nat)| #[trigger] entry_wrong_at(b@, pos as int, x.0, x.1);
    let ghost wx = choose|x: (Seq<MapPair>, nat)| #[trigger] entry_wrong_at(b@, pos as int, x.0, x.1);
    proof {
        if ew {
            assert(entry_wrong_at(b@, pos as int, wx.0, wx.1));
        }
    }
    let entries_count = get_u32(b, pos)?;
    let types = pos + 4;
    proof {
        if ew {
            assert(types + 4 * entries_count <= blen);
            assert((blen - types) as int / 4 >= entries_count) by (nonlinear_arith)
                requires
                    types + 4 * entries_count <= blen,
                    types <= blen,
            ;
        }
        if rd {
            assert(entries_end(b@, pos as int, w) is Some);
            assert(types + 4 * entries_count <= blen);
            assert((blen - types) as int / 4 >= entries_count) by (nonlinear_arith)
                requires
                    types + 4 * entries_count <= blen,
                    types <= blen,
            ;
        }
    }
    if (blen - types) / 4 < entries_count as usize {
        return Err(BinError::Truncated { offset: types });
    }
    assert(types + 4 * entries_count <= blen) by (nonlinear_arith)
        requires
            (blen - types) as int / 4 >= entries_count,
            types <= blen,
    ;
    let start = types + 4 * entries_count as usize;
    let mut items: Vec<MapPair> = Vec::new();
    let mut cur: usize = start;
    let mut k: u32 = 0;
    while k < entries_count
        invariant
            blen == b@.len(),
            types == pos + 4,
            start == types + 4 * entries_count,
            start <= cur <= b@.len(),
            k <= entries_count,
            items@.len() == k,
            reads_entries(b@, start as int, types as int, items@, items@.len()) == Some(cur as int),
            rd == exists|m: BinMap| #[trigger] entries_end(b@, pos as int, m) is Some,
            entries_count == get32(b@, pos as int),
            ew == exists|x: (Seq<MapPair>, nat)| #[trigger] entry_wrong_at(b@, pos as int, x.0, x.1),
            wx == choose|x: (Seq<MapPair>, nat)| #[trigger] entry_wrong_at(b@, pos as int, x.0, x.1),
            ew ==> entry_wrong_at(b@, pos as int, wx.0, wx.1) && k <= wx.1 && reads_entries(
                b@,
                start as int,
                types as int,
                wx.0,
                k as nat,
            ) == Some(cur as int),
            rd ==> entries_count == w.items@.len() && reads_entries(
                b@,
                start as int,
                types as int,
                w.items@,
                k as nat,
            ) == Some(cur as int) && reads_entries(
                b@,
                start as int,
                types as int,
                w.items@,
                w.items@.len(),
            ) is Some,
        decreases entries_count - k,
    {
        let entry_type = get_u32(b, types + 4 * k as usize)?;
        proof {
            if rd {
                lemma_entries_prefix_some(
                    b@,
                    start as int,
                    types as int,
                    w.items@,
                    (k + 1) as nat,
                    w.items@.len(),
                );
                assert(reads_entry(b@, cur as int, entry_type, w.items@[k as int]) is Some);
            }
        }
        proof {
            if ew && k < wx.1 {
                lemma_entries_prefix_some(b@, start as int, types as int, wx.0, (k + 1) as nat, wx.1);
                assert(reads_entry(b@, cur as int, entry_type, wx.0[k as int]) is Some);
            }
        }
        let (pair, e) = match read_entry(b, cur, entry_type) {
            Ok(x) => x,
            Err(err) => {
                return Err(err);
            },
        };
        proof {
            if ew {
                lemma_entry_determined(b@, cur as int, entry_type, pair, wx.0[k as int]);
            }
            if rd {
                lemma_entry_determined(b@, cur as int, entry_type, pair, w.items@[k as int]);
            }
            assert(items@.push(pair).take(items@.len() as int) =~= items@.take(items@.len() as int));
            lemma_reads_entries_prefix(
                b@,
                start as int,
                types as int,
                items@.push(pair),
                items@,
                items@.len(),
            );
        }
        items.push(pair);
        cur = e;
        k = k + 1;
    }
    Ok((BinMap::new(BinType::Hash, BinType::Embedded, items), cur))
}

proof fn lemma_patch_determined(b: Seq<u8>, pos: int, pa: MapPair, pb: MapPair)
    requires
        reads_patch(b, pos, pa) is Some,
        reads_patch(b, pos, pb) is Some,
    ensures
        reads_patch(b, pos, pa) == reads_patch(b, pos, pb),
{
    let x = pa.valuedata->PointerOrEmbedded_0;
    let y = pb.valuedata->PointerOrEmbedded_0;
    let a1 = x.items@[0].data->String_0;
    let a2 = y.items@[0].data->String_0;
    lemma_utf8_same(b, pos + 9, a1@, a2@);
    let e1 = reads_str(b, pos + 9, a1@)->0;
    lemma_reads_determined(b, e1, x.items@[1].btype, *x.items@[1].data, *y.items@[1].data);
}

/// Reads one patch as the synthetic record of a path field and a value field.
fn read_patch(b: &Vec<u8>, cur: usize) -> (r: Result<(MapPair, usize), BinError>)
    requires
        cur <= b@.len(),
    ensures
        r is Ok ==> reads_patch(b@, cur as int, r->Ok_0.0) == Some(r->Ok_0.1 as int) && cur
            <= r->Ok_0.1 <= b@.len(),
        (exists|p: MapPair| #[trigger] reads_patch(b@, cur as int, p) is Some) ==> r is Ok,
        patch_mismatch(b@, cur as int) is Some ==> r == Err::<(MapPair, usize), BinError>(
            patch_mismatch(b@, cur as int)->0,
        ),
{
    let blen = b.len();
    let ghost rd = exists|p: MapPair| #[trigger] reads_patch(b@, cur as int, p) is Some;
    let ghost rc = exists|p: MapPair| #[trigger] patch_contents(b@, cur as int, p) is Some;
    let ghost wp = choose|p: MapPair| #[trigger] patch_contents(b@, cur as int, p) is Some;
    let ghost w = wp.valuedata->PointerOrEmbedded_0;
    let ghost wpath = w.items@[0].data->String_0;
    proof {
        if rd {
            let x = choose|p: MapPair| #[trigger] reads_patch(b@, cur as int, p) is Some;
            assert(reads_patch(b@, cur as int, x) is Some);
            assert(patch_contents(b@, cur as int, x) is Some);
        }
        if rc {
            assert(patch_contents(b@, cur as int, wp) is Some);
            assert(reads_str(b@, cur + 9, wpath@) is Some);
        }
    }
    let patch_name = get_u32(b, cur)?;
    let patch_length = get_u32(b, cur + 4)?;
    let ftype = get_u8(b, cur + 8)?;
    let (path, e1) = read_string(b, cur + 9)?;
    let t = match u8_to_type(ftype) {
        Some(t) => t,
        None => {
            return Err(BinError::UnknownType { byte: ftype, offset: cur + 8 });
        },
    };
    proof {
        if rc {
            lemma_utf8_same(b@, cur + 9, path@, wpath@);
            assert(reads(b@, e1 as int, w.items@[1].btype, *w.items@[1].data) is Some);
            assert(readable(b@, e1 as int, unpack(ftype)->0));
        }
    }
    let (value, e2) = match read_value_by_type(b, e1, ftype) {
        Ok(x) => x,
        Err(err) => {
            return Err(err);
        },
    };
    proof {
        if rc {
            lemma_reads_determined(b@, e1 as int, t, value, *w.items@[1].data);
        }
        if rd {
            let x = choose|p: MapPair| #[trigger] reads_patch(b@, cur as int, p) is Some;
            assert(reads_patch(b@, cur as int, x) is Some);
            let xp = x.valuedata->PointerOrEmbedded_0;
            let xpath = xp.items@[0].data->String_0;
            lemma_utf8_same(b@, cur + 9, path@, xpath@);
            lemma_reads_determined(b@, e1 as int, t, value, *xp.items@[1].data);
        }
    }
    if e2 - (cur + 8) != patch_length as usize {
        return Err(
            BinError::LengthMismatch {
                name: patch_name,
                declared: patch_length,
                actual: e2 - (cur + 8),
            },
        );
    }
    let mut fields: Vec<BinField> = Vec::new();
    fields.push(BinField::new(PATH_HASH, BinType::String, BinData::String(path)));
    fields.push(BinField::new(VALUE_HASH, t, value));
    let pair = MapPair::new(
        BinData::Hash(patch_name),
        BinData::PointerOrEmbedded(PointerOrEmbedded::new(PATCH_HASH, fields)),
    );
    proof {
        assert(reads_patch(b@, cur as int, pair) == Some(e2 as int));
    }
    Ok((pair, e2))
}

/// Reads the patch count, then each patch as the synthetic record of a path
/// field and a value field, checking each patch's length field.
fn read_patches(b: &Vec<u8>, pos: usize) -> (r: Result<(BinMap, usize), BinError>)
    requires
        pos <= b@.len(),
    ensures
        r is Ok ==> patches_end(b@, pos as int, r->Ok_0.0) == Some(r->Ok_0.1 as int) && r->Ok_0.1
            <= b@.len(),
        (exists|m: BinMap| #[trigger] patches_end(b@, pos as int, m) is Some) ==> r is Ok,
        patches_error(b@, pos as int) is Some ==> r == Err::<(BinMap, usize), BinError>(
            patches_error(b@, pos as int)->0,
        ),
{
    let blen = b.len();
    let ghost rd = exists|m: BinMap| #[trigger] patches_end(b@, pos as int, m) is Some;
    let ghost w = choose|m: BinMap| #[trigger] patches_end(b@, pos as int, m) is Some;
    proof {
        if rd {
            assert(patches_end(b@, pos as int, w) is Some);
        }
    }
    let ghost ew = exists|x: (Seq<MapPair>, nat)| #[trigger] patch_wrong_at(b@, pos as int, x.0, x.1);
    let ghost wx = choose|x: (Seq<MapPair>, nat)| #[trigger] patch_wrong_at(b@, pos as int, x.0, x.1);
    proof {
        if ew {
            assert(patch_wrong_at(b@, pos as int, wx.0, wx.1));
        }
    }
    let patches_count = get_u32(b, pos)?;
    let start = pos + 4;
    let mut items: Vec<MapPair> = Vec::new();
    let mut cur: usize = start;
    let mut k: u32 = 0;
    while k < patches_count
        invariant
            blen == b@.len(),
            start == pos + 4,
            start <= cur <= b@.len(),
            k <= patches_count,
            items@.len() == k,
            reads_patches(b@, start as int, items@, items@.len()) == Some(cur as int),
            rd == exists|m: BinMap| #[trigger] patches_end(b@, pos as int, m) is Some,
            patches_count == get32(b@, pos as int),
            ew == exists|x: (Seq<MapPair>, nat)| #[trigger] patch_wrong_at(b@, pos as int, x.0, x.1),
            wx == choose|x: (Seq<MapPair>, nat)| #[trigger] patch_wrong_at(b@, pos as int, x.0, x.1),
            ew ==> patch_wrong_at(b@, pos as int, wx.0, wx.1) && k <= wx.1 && reads_patches(
                b@,
                start as int,
                wx.0,
                k as nat,
            ) == Some(cur as int),
            rd ==> patches_count == w.items@.len() && reads_patches(
                b@,
                start as int,
                w.items@,
                k as nat,
            ) == Some(cur as int) && reads_patches(b@, start as int, w.items@, w.items@.len())
                is Some,
        decreases patches_count - k,
    {
        proof {
            if rd {
                lemma_patches_prefix_some(b@, start as int, w.items@, (k + 1) as nat, w.items@.len());
                assert(reads_patch(b@, cur as int, w.items@[k as int]) is Some);
            }
        }
        proof {
            if ew && k < wx.1 {
                lemma_patches_prefix_some(b@, start as int, wx.0, (k + 1) as nat, wx.1);
                assert(reads_patch(b@, cur as int, wx.0[k as int]) is Some);
            }
        }
        let (pair, e) = match read_patch(b, cur) {
            Ok(x) => x,
            Err(err) => {
                return Err(err);
            },
        };
        proof {
            if ew {
                lemma_patch_determined(b@, cur as int, pair, wx.0[k as int]);
            }
            if rd {
                lemma_patch_determined(b@, cur as int, pair, w.items@[k as int]);
            }
            assert(items@.push(pair).take(items@.len() as int) =~= items@.take(items@.len() as int));
            lemma_reads_patches_prefix(b@, start as int, items@.push(pair), items@, items@.len());
        }
        items.push(pair);
        cur = e;
        k = k + 1;
    }
    Ok((BinMap::new(BinType::Hash, BinType::Embedded, items), cur))
}

proof fn lemma_head_determined(
    b: Seq<u8>,
    h1: (bool, Option<u64>, u32, Seq<String>),
    h2: (bool, Option<u64>, u32, Seq<String>),
)
    requires
        head_end(b, h1.0, h1.1, h1.2, h1.3) is Some,
        head_end(b, h2.0, h2.1, h2.2, h2.3) is Some,
    ensures
        head_end(b, h1.0, h1.1, h1.2, h1.3) == head_end(b, h2.0, h2.1, h2.2, h2.3),
{
    assert(h1.0 == h2.0);
    let base: int = if h1.0 {
        12
    } else {
        0
    };
    if h1.2 >= 2 {
        lemma_strs_determined(b, base + 12, h1.3, h2.3, h1.3.len());
    }
}

proof fn lemma_entries_end_determined(b: Seq<u8>, pos: int, m1: BinMap, m2: BinMap)
    requires
        entries_end(b, pos, m1) is Some,
        entries_end(b, pos, m2) is Some,
    ensures
        entries_end(b, pos, m1) == entries_end(b, pos, m2),
{
    let n = m1.items@.len();
    lemma_entries_determined(b, pos + 4 + 4 * n, pos + 4, m1.items@, m2.items@, n);
}

/// Decodes an archive. Each length field is checked against the bytes that
/// its region took; bytes after the last region are not looked at. It
/// succeeds exactly on the bytes that read as some archive.
pub fn read_bin(contents: &Vec<u8>) -> (r: Result<BinFile, BinError>)
    ensures
        r is Ok ==> file_reads(contents@, r->Ok_0),
        (exists|f: BinFile| #[trigger] file_reads(contents@, f)) ==> r is Ok,
        contents@.len() >= 4 && contents@.subrange(0, 4) != sig_ptch() && contents@.subrange(0, 4)
            != sig_prop() ==> r == Err::<BinFile, BinError>(BinError::BadSignature),
        contents@.len() >= 12 && contents@.subrange(0, 4) == sig_ptch() && !(contents@.len() >= 16
            && contents@.subrange(12, 16) == sig_prop()) ==> r == Err::<BinFile, BinError>(
            BinError::BadSignature,
        ),
        contents@.len() < 4 ==> r == Err::<BinFile, BinError>(BinError::Truncated { offset: 0 }),
        4 <= contents@.len() < 12 && contents@.subrange(0, 4) == sig_ptch() ==> r == Err::<
            BinFile,
            BinError,
        >(BinError::Truncated { offset: 4 }),
        file_length_error(contents@) is Some ==> r == Err::<BinFile, BinError>(
            file_length_error(contents@)->0,
        ),
{
    let ghost rd = exists|f: BinFile| #[trigger] file_reads(contents@, f);
    let ghost w = choose|f: BinFile| #[trigger] file_reads(contents@, f);
    let ghost wh = (w.is_patch, w.unknown, w.version, w.linked_list@);
    let ghost hd = head_readable(contents@);
    let ghost ch = choose|h: (bool, Option<u64>, u32, Seq<String>)| #[trigger] head_end(
        contents@,
        h.0,
        h.1,
        h.2,
        h.3,
    ) is Some;
    proof {
        if rd {
            assert(file_reads(contents@, w));
            assert(head_end(contents@, wh.0, wh.1, wh.2, wh.3) is Some);
        }
        if hd {
            assert(head_end(contents@, ch.0, ch.1, ch.2, ch.3) is Some);
        }
    }
    let (is_patch, unknown, version, linked_list, p_head) = match read_head(contents) {
        Ok(x) => x,
        Err(err) => {
            return Err(err);
        },
    };
    proof {
        if hd {
            lemma_head_determined(contents@, (is_patch, unknown, version, linked_list@), ch);
        }
        if rd {
            lemma_head_determined(contents@, (is_patch, unknown, version, linked_list@), wh);
            assert(entries_end(contents@, p_head as int, w.entries) is Some);
        }
    }
    let (entries, p_entries) = match read_entries(contents, p_head) {
        Ok(x) => x,
        Err(err) => {
            return Err(err);
        },
    };
    proof {
        if rd {
            lemma_entries_end_determined(contents@, p_head as int, entries, w.entries);
            if is_patch {
                assert(patches_end(contents@, p_entries as int, w.patches->0) is Some);
            }
        }
        if hd && exists|m: BinMap| #[trigger] entries_end(contents@, p_head as int, m) is Some {
            let m = choose|m: BinMap| #[trigger] entries_end(contents@, p_head as int, m) is Some;
            lemma_entries_end_determined(contents@, p_head as int, entries, m);
        }
    }
    let patches = if is_patch {
        match read_patches(contents, p_entries) {
            Ok((m, _)) => Some(m),
            Err(err) => {
                return Err(err);
            },
        }
    } else {
        None
    };
    Ok(BinFile::new(is_patch, unknown, version, linked_list, entries, patches))
}

} // verus!
