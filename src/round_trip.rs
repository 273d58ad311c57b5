//! The binary round trip: the bytes that the writer emits for a well-typed
//! value read back, under the reader's rules, as that same value.

use vstd::prelude::*;
use crate::bin_format::{
    bool_byte, enc, enc_entries, enc_entry, enc_entry_types, enc_field, enc_fields, enc_file,
    enc_items, enc_pairs, enc_patch, enc_patches, enc_str, enc_strs, entries_end, entry_fields,
    entry_key, entry_ok, entry_type, file_reads, file_writable, get16, get32, get64, head_end, le16,
    le32, le64, lemma_fields_len, lemma_get16_at, lemma_get32_at, lemma_get64_at, lemma_items_len,
    lemma_pairs_len, lemma_words_len, patch_ok, patches_end, reads, reads_entries, reads_entry,
    reads_field, reads_fields, reads_items, reads_pairs, reads_patch, reads_patches, reads_str,
    reads_strs, shape_ok, sig_prop, sig_ptch, utf8, words, words_at, writable,
};
use crate::model::{
    BinData, BinField, BinFile, BinMap, BinType, MapPair, PATCH_HASH, PATH_HASH, VALUE_HASH,
};
use crate::tags::{lemma_pack_unpack, pack, unpack};

verus! {

/// Whether a value agrees with the kind it is declared as, all the way down:
/// a container's items with its element kind, a field's value with the
/// field's kind, a map's keys and values with its key and value kinds.
pub open spec fn well_typed(d: BinData, t: BinType) -> bool
    decreases d,
{
    match d {
        BinData::Null => t == BinType::Null,
        BinData::Bool(_) => t == BinType::Bool,
        BinData::SInt8(_) => t == BinType::SInt8,
        BinData::UInt8(_) => t == BinType::UInt8,
        BinData::SInt16(_) => t == BinType::SInt16,
        BinData::UInt16(_) => t == BinType::UInt16,
        BinData::SInt32(_) => t == BinType::SInt32,
        BinData::UInt32(_) => t == BinType::UInt32,
        BinData::SInt64(_) => t == BinType::SInt64,
        BinData::UInt64(_) => t == BinType::UInt64,
        BinData::Float32(_) => t == BinType::Float32,
        BinData::Vector2(_) => t == BinType::Vector2,
        BinData::Vector3(_) => t == BinType::Vector3,
        BinData::Vector4(_) => t == BinType::Vector4,
        BinData::Matrix4x4(_) => t == BinType::Matrix4x4,
        BinData::Rgba(_) => t == BinType::Rgba,
        BinData::String(_) => t == BinType::String,
        BinData::Hash(_) => t == BinType::Hash,
        BinData::WadEntryLink(_) => t == BinType::WadEntryLink,
        BinData::Link(_) => t == BinType::Link,
        BinData::Flag(_) => t == BinType::Flag,
        BinData::ContainerOrStruct(cs) => (t == BinType::Container || t == BinType::Struct)
            && forall|i: int|
            0 <= i < cs.items@.len() ==> well_typed(#[trigger] cs.items@[i], cs.btype),
        BinData::PointerOrEmbedded(pe) => (t == BinType::Pointer || t == BinType::Embedded)
            && forall|i: int|
            0 <= i < pe.items@.len() ==> well_typed(
                *(#[trigger] pe.items@[i]).data,
                pe.items@[i].btype,
            ),
        BinData::Optional(o) => t == BinType::Optional && match o.data {
            Some(x) => well_typed(*x, o.btype),
            None => true,
        },
        BinData::Mapping(m) => t == BinType::Mapping && forall|i: int|
            0 <= i < m.items@.len() ==> well_typed(*(#[trigger] m.items@[i]).keydata, m.keytype)
                && well_typed(*m.items@[i].valuedata, m.valuetype),
    }
}

proof fn lemma_words_at(v: Seq<u32>, k: int)
    requires
        0 <= k < v.len(),
    ensures
        words(v).len() == 4 * v.len(),
        words(v).subrange(4 * k, 4 * k + 4) == le32(v[k]),
    decreases v.len(),
{
    lemma_words_len(v);
    lemma_words_len(v.drop_last());
    if k < v.len() - 1 {
        lemma_words_at(v.drop_last(), k);
        assert(words(v).subrange(4 * k, 4 * k + 4) =~= words(v.drop_last()).subrange(
            4 * k,
            4 * k + 4,
        ));
    } else {
        assert(words(v).subrange(4 * k, 4 * k + 4) =~= le32(v.last()));
    }
}

proof fn lemma_words_read(b: Seq<u8>, pos: int, v: Seq<u32>)
    requires
        0 <= pos,
        pos + words(v).len() <= b.len(),
        b.subrange(pos, pos + words(v).len()) == words(v),
    ensures
        words_at(b, pos, v),
{
    lemma_words_len(v);
    assert forall|k: int| 0 <= k < v.len() implies #[trigger] v[k] == get32(b, pos + 4 * k) by {
        lemma_words_at(v, k);
        assert(b.subrange(pos + 4 * k, pos + 4 * k + 4) =~= b.subrange(
            pos,
            pos + words(v).len(),
        ).subrange(4 * k, 4 * k + 4));
        lemma_get32_at(b, pos + 4 * k, v[k]);
    }
}

pub proof fn lemma_sub(b: Seq<u8>, pos: int, e: Seq<u8>, i: int, j: int)
    requires
        0 <= pos,
        pos + e.len() <= b.len(),
        b.subrange(pos, pos + e.len()) == e,
        0 <= i <= j <= e.len(),
    ensures
        b.subrange(pos + i, pos + j) == e.subrange(i, j),
{
    assert forall|k: int| 0 <= k < j - i implies b.subrange(pos + i, pos + j)[k] == e.subrange(
        i,
        j,
    )[k] by {
        assert(b.subrange(pos, pos + e.len())[i + k] == b[pos + i + k]);
    }
    assert(b.subrange(pos + i, pos + j) =~= e.subrange(i, j));
}

/// The bytes that the writer emits for a writable, well-typed value read
/// back as that value, wherever they stand.
pub proof fn lemma_value_round_trip(b: Seq<u8>, pos: int, t: BinType, d: BinData)
    requires
        writable(d),
        well_typed(d, t),
        0 <= pos,
        pos + enc(d).len() <= b.len(),
        b.subrange(pos, pos + enc(d).len()) == enc(d),
    ensures
        reads(b, pos, t, d) == Some(pos + enc(d).len()),
    decreases d, 2nat,
{
    match d {
        BinData::ContainerOrStruct(_) => lemma_container_round_trip(b, pos, t, d),
        BinData::PointerOrEmbedded(_) => lemma_record_round_trip(b, pos, t, d),
        BinData::Optional(_) => lemma_optional_round_trip(b, pos, t, d),
        BinData::Mapping(_) => lemma_map_round_trip(b, pos, t, d),
        _ => lemma_scalar_round_trip(b, pos, t, d),
    }
}

proof fn lemma_scalar_round_trip(b: Seq<u8>, pos: int, t: BinType, d: BinData)
    requires
        !(d is ContainerOrStruct || d is PointerOrEmbedded || d is Optional || d is Mapping),
        writable(d),
        well_typed(d, t),
        0 <= pos,
        pos + enc(d).len() <= b.len(),
        b.subrange(pos, pos + enc(d).len()) == enc(d),
    ensures
        reads(b, pos, t, d) == Some(pos + enc(d).len()),
    decreases d, 0nat,
{
    let e = enc(d);
    let w = b.subrange(pos, pos + e.len());
    match d {
        BinData::Null => {},
        BinData::Bool(v) => {
            assert(b[pos] == w[0]);
        },
        BinData::SInt8(v) => {
            let x = b[pos];
            assert(x == w[0]);
            assert(x as i8 == v) by (bit_vector)
                requires
                    x == v as u8,
            ;
        },
        BinData::UInt8(v) => {
            assert(b[pos] == w[0]);
        },
        BinData::SInt16(v) => {
            lemma_get16_at(b, pos, v as u16);
            let x = get16(b, pos);
            assert(x as i16 == v) by (bit_vector)
                requires
                    x == v as u16,
            ;
        },
        BinData::UInt16(v) => {
            lemma_get16_at(b, pos, v);
        },
        BinData::SInt32(v) => {
            lemma_get32_at(b, pos, v as u32);
            let x = get32(b, pos);
            assert(x as i32 == v) by (bit_vector)
                requires
                    x == v as u32,
            ;
        },
        BinData::UInt32(v) => {
            lemma_get32_at(b, pos, v);
        },
        BinData::SInt64(v) => {
            lemma_get64_at(b, pos, v as u64);
            let x = get64(b, pos);
            assert(x as i64 == v) by (bit_vector)
                requires
                    x == v as u64,
            ;
        },
        BinData::UInt64(v) => {
            lemma_get64_at(b, pos, v);
        },
        BinData::Float32(v) => {
            lemma_get32_at(b, pos, v);
        },
        BinData::Vector2(v) => {
            lemma_words_read(b, pos, v@);
            lemma_words_len(v@);
        },
        BinData::Vector3(v) => {
            lemma_words_read(b, pos, v@);
            lemma_words_len(v@);
        },
        BinData::Vector4(v) => {
            lemma_words_read(b, pos, v@);
            lemma_words_len(v@);
        },
        BinData::Matrix4x4(v) => {
            lemma_words_read(b, pos, v@);
            lemma_words_len(v@);
        },
        BinData::Rgba(v) => {
            lemma_sub(b, pos, e, 0, 4);

            assert(e.subrange(0, 4) =~= v@);
        },
        BinData::String(s) => {
            let n = utf8(s@).len();
            lemma_sub(b, pos, e, 0, 2);

            assert(e.subrange(0, 2) =~= le16(n as u16));
            lemma_get16_at(b, pos, n as u16);
            lemma_sub(b, pos, e, 2, (2 + n) as int);

            assert(e.subrange(2, (2 + n) as int) =~= utf8(s@));
        },
        BinData::Hash(v) => {
            lemma_get32_at(b, pos, v);
        },
        BinData::WadEntryLink(v) => {
            lemma_get64_at(b, pos, v);
        },
        BinData::Link(v) => {
            lemma_get32_at(b, pos, v);
        },
        BinData::Flag(v) => {
            assert(b[pos] == w[0]);
        },
        _ => {},
    }
}

proof fn lemma_container_round_trip(b: Seq<u8>, pos: int, t: BinType, d: BinData)
    requires
        writable(d),
        well_typed(d, t),
        0 <= pos,
        pos + enc(d).len() <= b.len(),
        b.subrange(pos, pos + enc(d).len()) == enc(d),
        d is ContainerOrStruct,
    ensures
        reads(b, pos, t, d) == Some(pos + enc(d).len()),
    decreases d, 1nat,
{
    let e = enc(d);
    let w = b.subrange(pos, pos + e.len());
    match d {
        BinData::ContainerOrStruct(cs) => {
            let s = cs.items@;
            let body = enc_items(s, s.len());
            lemma_pack_unpack(cs.btype);
            assert(b[pos] == w[0]);
            lemma_sub(b, pos, e, 1, 5);

            assert(e.subrange(1, 5) =~= le32((4 + body.len()) as u32));
            lemma_get32_at(b, pos + 1, (4 + body.len()) as u32);
            lemma_sub(b, pos, e, 5, 9);

            assert(e.subrange(5, 9) =~= le32(s.len() as u32));
            lemma_get32_at(b, pos + 5, s.len() as u32);
            lemma_sub(b, pos, e, 9, (9 + body.len()) as int);

            assert(e.subrange(9, (9 + body.len()) as int) =~= body);
            lemma_items_round_trip(b, pos + 9, cs.btype, s, s.len());
        },
        _ => {},
    }
}

proof fn lemma_record_round_trip(b: Seq<u8>, pos: int, t: BinType, d: BinData)
    requires
        writable(d),
        well_typed(d, t),
        0 <= pos,
        pos + enc(d).len() <= b.len(),
        b.subrange(pos, pos + enc(d).len()) == enc(d),
        d is PointerOrEmbedded,
    ensures
        reads(b, pos, t, d) == Some(pos + enc(d).len()),
    decreases d, 1nat,
{
    let e = enc(d);
    let w = b.subrange(pos, pos + e.len());
    match d {
        BinData::PointerOrEmbedded(pe) => {
            let s = pe.items@;
            if pe.name == 0 {
                lemma_sub(b, pos, e, 0, 4);

                assert(e.subrange(0, 4) =~= le32(0));
                lemma_get32_at(b, pos, 0);
            } else {
                let body = enc_fields(s, s.len());
                lemma_sub(b, pos, e, 0, 4);

                assert(e.subrange(0, 4) =~= le32(pe.name));
                lemma_get32_at(b, pos, pe.name);
                lemma_sub(b, pos, e, 4, 8);

                assert(e.subrange(4, 8) =~= le32((2 + body.len()) as u32));
                lemma_get32_at(b, pos + 4, (2 + body.len()) as u32);
                lemma_sub(b, pos, e, 8, 10);

                assert(e.subrange(8, 10) =~= le16(s.len() as u16));
                lemma_get16_at(b, pos + 8, s.len() as u16);
                lemma_sub(b, pos, e, 10, (10 + body.len()) as int);

                assert(e.subrange(10, (10 + body.len()) as int) =~= body);
                lemma_fields_round_trip(b, pos + 10, s, s.len());
            }
        },
        _ => {},
    }
}

proof fn lemma_optional_round_trip(b: Seq<u8>, pos: int, t: BinType, d: BinData)
    requires
        writable(d),
        well_typed(d, t),
        0 <= pos,
        pos + enc(d).len() <= b.len(),
        b.subrange(pos, pos + enc(d).len()) == enc(d),
        d is Optional,
    ensures
        reads(b, pos, t, d) == Some(pos + enc(d).len()),
    decreases d, 1nat,
{
    let e = enc(d);
    let w = b.subrange(pos, pos + e.len());
    match d {
        BinData::Optional(o) => {
            lemma_pack_unpack(o.btype);
            assert(b[pos] == w[0]);
            assert(b[pos + 1] == w[1]);
            match o.data {
                Some(x) => {
                    assert(b[pos + 1] == 1u8);
                    lemma_sub(b, pos, e, 2, (2 + enc(*x).len()) as int);
                    assert(e.subrange(2, (2 + enc(*x).len()) as int) =~= enc(*x));
                    lemma_value_round_trip(b, pos + 2, o.btype, *x);
                },
                None => {
                    assert(b[pos + 1] == 0u8);
                },
            }
        },
        _ => {},
    }
}

proof fn lemma_map_round_trip(b: Seq<u8>, pos: int, t: BinType, d: BinData)
    requires
        writable(d),
        well_typed(d, t),
        0 <= pos,
        pos + enc(d).len() <= b.len(),
        b.subrange(pos, pos + enc(d).len()) == enc(d),
        d is Mapping,
    ensures
        reads(b, pos, t, d) == Some(pos + enc(d).len()),
    decreases d, 1nat,
{
    let e = enc(d);
    let w = b.subrange(pos, pos + e.len());
    match d {
        BinData::Mapping(m) => {
            let s = m.items@;
            let body = enc_pairs(s, s.len());
            lemma_pack_unpack(m.keytype);
            lemma_pack_unpack(m.valuetype);
            assert(b[pos] == w[0]);
            assert(b[pos + 1] == w[1]);
            lemma_sub(b, pos, e, 2, 6);

            assert(e.subrange(2, 6) =~= le32((4 + body.len()) as u32));
            lemma_get32_at(b, pos + 2, (4 + body.len()) as u32);
            lemma_sub(b, pos, e, 6, 10);

            assert(e.subrange(6, 10) =~= le32(s.len() as u32));
            lemma_get32_at(b, pos + 6, s.len() as u32);
            lemma_sub(b, pos, e, 10, (10 + body.len()) as int);

            assert(e.subrange(10, (10 + body.len()) as int) =~= body);
            lemma_pairs_round_trip(b, pos + 10, m.keytype, m.valuetype, s, s.len());
        },

        _ => {},
    }
}

proof fn lemma_items_round_trip(b: Seq<u8>, pos: int, t: BinType, s: Seq<BinData>, n: nat)
    requires
        n <= s.len(),
        forall|i: int| 0 <= i < n ==> shape_ok(#[trigger] s[i]),
        forall|i: int| 0 <= i < n ==> well_typed(#[trigger] s[i], t),
        enc_items(s, n).len() <= 0xffff_ffff,
        0 <= pos,
        pos + enc_items(s, n).len() <= b.len(),
        b.subrange(pos, pos + enc_items(s, n).len()) == enc_items(s, n),
    ensures
        reads_items(b, pos, t, s, n) == Some(pos + enc_items(s, n).len()),
    decreases s, n,
{
    if n > 0 {
        let prev = enc_items(s, (n - 1) as nat);
        let last = enc(s[n - 1]);
        lemma_items_len(s, (n - 1) as nat, n);
        let whole = b.subrange(pos, pos + enc_items(s, n).len());
        assert(whole == prev + last);
        assert(b.subrange(pos, pos + prev.len()) =~= prev) by {
            assert forall|i: int| 0 <= i < prev.len() implies b.subrange(pos, pos + prev.len())[i]
                == prev[i] by {
                assert(whole[i] == b[pos + i]);
                assert((prev + last)[i] == prev[i]);
            }
        }
        lemma_items_round_trip(b, pos, t, s, (n - 1) as nat);
        assert(b.subrange(pos + prev.len(), pos + prev.len() + last.len()) =~= last) by {
            assert forall|i: int| 0 <= i < last.len() implies b.subrange(
                pos + prev.len(),
                pos + prev.len() + last.len(),
            )[i] == last[i] by {
                assert(whole[prev.len() + i] == b[pos + prev.len() + i]);
                assert((prev + last)[prev.len() + i] == last[i]);
            }
        }
        lemma_value_round_trip(b, pos + prev.len(), t, s[n - 1]);
    }
}

pub proof fn lemma_fields_round_trip(b: Seq<u8>, pos: int, s: Seq<BinField>, n: nat)
    requires
        n <= s.len(),
        forall|i: int| 0 <= i < n ==> shape_ok(*(#[trigger] s[i]).data),
        forall|i: int| 0 <= i < n ==> well_typed(*(#[trigger] s[i]).data, s[i].btype),
        enc_fields(s, n).len() <= 0xffff_ffff,
        0 <= pos,
        pos + enc_fields(s, n).len() <= b.len(),
        b.subrange(pos, pos + enc_fields(s, n).len()) == enc_fields(s, n),
    ensures
        reads_fields(b, pos, s, n) == Some(pos + enc_fields(s, n).len()),
    decreases s, n,
{
    if n > 0 {
        let prev = enc_fields(s, (n - 1) as nat);
        let f = s[n - 1];
        let last = enc_field(f);
        lemma_fields_len(s, (n - 1) as nat, n);
        let whole = b.subrange(pos, pos + enc_fields(s, n).len());
        assert(whole == prev + last);
        assert(b.subrange(pos, pos + prev.len()) =~= prev) by {
            assert forall|i: int| 0 <= i < prev.len() implies b.subrange(pos, pos + prev.len())[i]
                == prev[i] by {
                assert(whole[i] == b[pos + i]);
                assert((prev + last)[i] == prev[i]);
            }
        }
        lemma_fields_round_trip(b, pos, s, (n - 1) as nat);
        let at = pos + prev.len();
        assert(b.subrange(at, at + last.len()) =~= last) by {
            assert forall|i: int| 0 <= i < last.len() implies b.subrange(at, at + last.len())[i]
                == last[i] by {
                assert(whole[prev.len() + i] == b[at + i]);
                assert((prev + last)[prev.len() + i] == last[i]);
            }
        }
        lemma_sub(b, at, last, 0, 4);
        assert(last.subrange(0, 4) =~= le32(f.name));
        lemma_get32_at(b, at, f.name);
        lemma_pack_unpack(f.btype);
        assert(b[at + 4] == b.subrange(at, at + last.len())[4]);
        assert(last[4] == pack(f.btype));
        lemma_sub(b, at, last, 5, (5 + enc(*f.data).len()) as int);
        assert(last.subrange(5, (5 + enc(*f.data).len()) as int) =~= enc(*f.data));
        lemma_value_round_trip(b, at + 5, f.btype, *f.data);
        assert(reads_field(b, at, f) == Some(at + last.len()));
    }
}

proof fn lemma_pairs_round_trip(
    b: Seq<u8>,
    pos: int,
    kt: BinType,
    vt: BinType,
    s: Seq<MapPair>,
    n: nat,
)
    requires
        n <= s.len(),
        forall|i: int|
            0 <= i < n ==> shape_ok(*(#[trigger] s[i]).keydata) && shape_ok(*s[i].valuedata),
        forall|i: int|
            0 <= i < n ==> well_typed(*(#[trigger] s[i]).keydata, kt) && well_typed(
                *s[i].valuedata,
                vt,
            ),
        enc_pairs(s, n).len() <= 0xffff_ffff,
        0 <= pos,
        pos + enc_pairs(s, n).len() <= b.len(),
        b.subrange(pos, pos + enc_pairs(s, n).len()) == enc_pairs(s, n),
    ensures
        reads_pairs(b, pos, kt, vt, s, n) == Some(pos + enc_pairs(s, n).len()),
    decreases s, n,
{
    if n > 0 {
        let prev = enc_pairs(s, (n - 1) as nat);
        let p = s[n - 1];
        let k = enc(*p.keydata);
        let v = enc(*p.valuedata);
        lemma_pairs_len(s, (n - 1) as nat, n);
        let whole = b.subrange(pos, pos + enc_pairs(s, n).len());
        assert(whole == prev + k + v);
        assert(b.subrange(pos, pos + prev.len()) =~= prev) by {
            assert forall|i: int| 0 <= i < prev.len() implies b.subrange(pos, pos + prev.len())[i]
                == prev[i] by {
                assert(whole[i] == b[pos + i]);
                assert((prev + k + v)[i] == prev[i]);
            }
        }
        lemma_pairs_round_trip(b, pos, kt, vt, s, (n - 1) as nat);
        let at = pos + prev.len();
        assert(b.subrange(at, at + k.len()) =~= k) by {
            assert forall|i: int| 0 <= i < k.len() implies b.subrange(at, at + k.len())[i]
                == k[i] by {
                assert(whole[prev.len() + i] == b[at + i]);
                assert((prev + k + v)[prev.len() + i] == k[i]);
            }
        }
        lemma_value_round_trip(b, at, kt, *p.keydata);
        assert(b.subrange(at + k.len(), at + k.len() + v.len()) =~= v) by {
            assert forall|i: int| 0 <= i < v.len() implies b.subrange(
                at + k.len(),
                at + k.len() + v.len(),
            )[i] == v[i] by {
                assert(whole[prev.len() + k.len() + i] == b[at + k.len() + i]);
                assert((prev + k + v)[prev.len() + k.len() + i] == v[i]);
            }
        }
        lemma_value_round_trip(b, at + k.len(), vt, *p.valuedata);
    }
}

} // verus!

verus! {

/// Bytes that hold `x + y` hold `x`, then `y`.
pub proof fn lemma_split(b: Seq<u8>, pos: int, x: Seq<u8>, y: Seq<u8>)
    requires
        0 <= pos,
        pos + x.len() + y.len() <= b.len(),
        b.subrange(pos, pos + x.len() + y.len()) == x + y,
    ensures
        b.subrange(pos, pos + x.len()) == x,
        b.subrange(pos + x.len(), pos + x.len() + y.len()) == y,
{
    let e = x + y;
    lemma_sub(b, pos, e, 0, x.len() as int);
    assert(e.subrange(0, x.len() as int) =~= x);
    lemma_sub(b, pos, e, x.len() as int, e.len() as int);
    assert(e.subrange(x.len() as int, e.len() as int) =~= y);
}

} // verus!

verus! {

/// A patch record in the shape that the reader gives patches: the fixed
/// record type, a path string field, and a well-typed value field.
pub open spec fn patch_shaped(p: MapPair) -> bool {
    match *p.valuedata {
        BinData::PointerOrEmbedded(pe) => {
            &&& pe.name == PATCH_HASH
            &&& pe.items@.len() == 2
            &&& pe.items@[0].name == PATH_HASH
            &&& pe.items@[0].btype == BinType::String
            &&& *pe.items@[0].data is String
            &&& pe.items@[1].name == VALUE_HASH
            &&& well_typed(*pe.items@[1].data, pe.items@[1].btype)
        },
        _ => false,
    }
}

/// An archive that the writer lays out and that reads back as itself: the
/// unknown value and the patch map are there exactly for a patch archive,
/// dependency names only from version 2 on, both maps keyed by name hashes
/// and valued by well-typed records, patches in the reader's shape.
pub open spec fn file_valid(f: BinFile) -> bool {
    &&& file_writable(f)
    &&& f.is_patch <==> f.unknown is Some
    &&& f.is_patch <==> f.patches is Some
    &&& f.version < 2 ==> f.linked_list@.len() == 0
    &&& f.entries.keytype == BinType::Hash && f.entries.valuetype == BinType::Embedded
    &&& forall|i: int|
        0 <= i < f.entries.items@.len() ==> well_typed(
            *(#[trigger] f.entries.items@[i]).valuedata,
            BinType::Embedded,
        )
    &&& f.patches is Some ==> f.patches->0.keytype == BinType::Hash && f.patches->0.valuetype
        == BinType::Embedded && forall|i: int|
        0 <= i < f.patches->0.items@.len() ==> patch_shaped(#[trigger] f.patches->0.items@[i])
}

proof fn lemma_strs_read(b: Seq<u8>, pos: int, list: Seq<String>, n: nat)
    requires
        n <= list.len(),
        forall|i: int| 0 <= i < n ==> utf8((#[trigger] list[i])@).len() <= 0xffff,
        0 <= pos,
        pos + enc_strs(list, n).len() <= b.len(),
        b.subrange(pos, pos + enc_strs(list, n).len()) == enc_strs(list, n),
    ensures
        reads_strs(b, pos, list, n) == Some(pos + enc_strs(list, n).len()),
    decreases n,
{
    if n > 0 {
        let prev = enc_strs(list, (n - 1) as nat);
        let last = enc_str(list[n - 1]@);
        lemma_split(b, pos, prev, last);
        lemma_strs_read(b, pos, list, (n - 1) as nat);
        let at = pos + prev.len();
        let u = utf8(list[n - 1]@);
        lemma_split(b, at, le16(u.len() as u16), u);
        lemma_get16_at(b, at, u.len() as u16);
    }
}

proof fn lemma_types_at(s: Seq<MapPair>, n: nat, i: int)
    requires
        0 <= i < n <= s.len(),
    ensures
        enc_entry_types(s, n).len() == 4 * n,
        enc_entry_types(s, n).subrange(4 * i, 4 * i + 4) == le32(entry_type(s[i])),
    decreases n,
{
    if i < n - 1 {
        lemma_types_at(s, (n - 1) as nat, i);
        assert(enc_entry_types(s, n).subrange(4 * i, 4 * i + 4) =~= enc_entry_types(
            s,
            (n - 1) as nat,
        ).subrange(4 * i, 4 * i + 4));
    } else {
        lemma_types_len(s, (n - 1) as nat);
        assert(enc_entry_types(s, n).subrange(4 * i, 4 * i + 4) =~= le32(entry_type(s[i])));
    }
}

proof fn lemma_types_len(s: Seq<MapPair>, n: nat)
    requires
        n <= s.len(),
    ensures
        enc_entry_types(s, n).len() == 4 * n,
    decreases n,
{
    if n > 0 {
        lemma_types_len(s, (n - 1) as nat);
    }
}

proof fn lemma_entry_read(b: Seq<u8>, pos: int, p: MapPair)
    requires
        entry_ok(p),
        well_typed(*p.valuedata, BinType::Embedded),
        0 <= pos,
        pos + enc_entry(p).len() <= b.len(),
        b.subrange(pos, pos + enc_entry(p).len()) == enc_entry(p),
    ensures
        reads_entry(b, pos, entry_type(p), p) == Some(pos + enc_entry(p).len()),
{
    let f = entry_fields(p);
    let body = enc_fields(f, f.len());
    let e = enc_entry(p);
    lemma_sub(b, pos, e, 0, 4);
    assert(e.subrange(0, 4) =~= le32((6 + body.len()) as u32));
    lemma_get32_at(b, pos, (6 + body.len()) as u32);
    lemma_sub(b, pos, e, 4, 8);
    assert(e.subrange(4, 8) =~= le32(entry_key(p)));
    lemma_get32_at(b, pos + 4, entry_key(p));
    lemma_sub(b, pos, e, 8, 10);
    assert(e.subrange(8, 10) =~= le16(f.len() as u16));
    lemma_get16_at(b, pos + 8, f.len() as u16);
    lemma_sub(b, pos, e, 10, (10 + body.len()) as int);
    assert(e.subrange(10, (10 + body.len()) as int) =~= body);
    lemma_fields_round_trip(b, pos + 10, f, f.len());
}

proof fn lemma_entries_read(b: Seq<u8>, pos: int, types: int, s: Seq<MapPair>, n: nat)
    requires
        n <= s.len(),
        forall|i: int|
            0 <= i < n ==> entry_ok(#[trigger] s[i]) && well_typed(
                *s[i].valuedata,
                BinType::Embedded,
            ),
        forall|i: int|
            0 <= i < n ==> types + 4 * i + 4 <= b.len() && #[trigger] get32(b, types + 4 * i)
                == entry_type(s[i]),
        0 <= pos,
        0 <= types,
        pos + enc_entries(s, n).len() <= b.len(),
        b.subrange(pos, pos + enc_entries(s, n).len()) == enc_entries(s, n),
    ensures
        reads_entries(b, pos, types, s, n) == Some(pos + enc_entries(s, n).len()),
    decreases n,
{
    if n > 0 {
        let prev = enc_entries(s, (n - 1) as nat);
        let last = enc_entry(s[n - 1]);
        lemma_split(b, pos, prev, last);
        lemma_entries_read(b, pos, types, s, (n - 1) as nat);
        assert(get32(b, types + 4 * (n - 1)) == entry_type(s[n - 1]));
        lemma_entry_read(b, pos + prev.len(), s[n - 1]);
    }
}

proof fn lemma_patch_read(b: Seq<u8>, pos: int, p: MapPair)
    requires
        patch_ok(p),
        patch_shaped(p),
        0 <= pos,
        pos + enc_patch(p).len() <= b.len(),
        b.subrange(pos, pos + enc_patch(p).len()) == enc_patch(p),
    ensures
        reads_patch(b, pos, p) == Some(pos + enc_patch(p).len()),
{
    let f = entry_fields(p);
    let d0 = *f[0].data;
    let d1 = *f[1].data;
    let body = seq![pack(f[1].btype)] + enc(d0) + enc(d1);
    let e = enc_patch(p);
    lemma_sub(b, pos, e, 0, 4);
    assert(e.subrange(0, 4) =~= le32(entry_key(p)));
    lemma_get32_at(b, pos, entry_key(p));
    lemma_sub(b, pos, e, 4, 8);
    assert(e.subrange(4, 8) =~= le32(body.len() as u32));
    lemma_get32_at(b, pos + 4, body.len() as u32);
    assert(b[pos + 8] == b.subrange(pos, pos + e.len())[8]);
    lemma_pack_unpack(f[1].btype);
    lemma_sub(b, pos, e, 9, (9 + enc(d0).len()) as int);
    assert(e.subrange(9, (9 + enc(d0).len()) as int) =~= enc(d0));
    lemma_value_round_trip(b, pos + 9, BinType::String, d0);
    lemma_sub(b, pos, e, (9 + enc(d0).len()) as int, e.len() as int);
    assert(e.subrange((9 + enc(d0).len()) as int, e.len() as int) =~= enc(d1));
    lemma_value_round_trip(b, pos + 9 + enc(d0).len(), f[1].btype, d1);
}

proof fn lemma_patches_read(b: Seq<u8>, pos: int, s: Seq<MapPair>, n: nat)
    requires
        n <= s.len(),
        forall|i: int| 0 <= i < n ==> patch_ok(#[trigger] s[i]) && patch_shaped(s[i]),
        0 <= pos,
        pos + enc_patches(s, n).len() <= b.len(),
        b.subrange(pos, pos + enc_patches(s, n).len()) == enc_patches(s, n),
    ensures
        reads_patches(b, pos, s, n) == Some(pos + enc_patches(s, n).len()),
    decreases n,
{
    if n > 0 {
        let prev = enc_patches(s, (n - 1) as nat);
        let last = enc_patch(s[n - 1]);
        lemma_split(b, pos, prev, last);
        lemma_patches_read(b, pos, s, (n - 1) as nat);
        lemma_patch_read(b, pos + prev.len(), s[n - 1]);
    }
}

} // verus!

verus! {

/// The signatures, the version and the dependency names.
pub open spec fn head_bytes(f: BinFile) -> Seq<u8> {
    let head = if f.is_patch {
        sig_ptch() + match f.unknown {
            Some(u) => le64(u),
            None => seq![],
        }
    } else {
        seq![]
    };
    let deps = if f.version >= 2 {
        le32(f.linked_list@.len() as u32) + enc_strs(f.linked_list@, f.linked_list@.len())
    } else {
        seq![]
    };
    head + sig_prop() + le32(f.version) + deps
}

/// The entry count, the declared types and the entry bodies.
pub open spec fn main_bytes(m: BinMap) -> Seq<u8> {
    let ents = m.items@;
    le32(ents.len() as u32) + enc_entry_types(ents, ents.len()) + enc_entries(ents, ents.len())
}

/// The patch count and the patches.
pub open spec fn patch_bytes(m: BinMap) -> Seq<u8> {
    le32(m.items@.len() as u32) + enc_patches(m.items@, m.items@.len())
}

#[verifier::rlimit(40)]
proof fn lemma_head_read(b: Seq<u8>, f: BinFile)
    requires
        file_valid(f),
        head_bytes(f).len() <= b.len(),
        b.subrange(0, head_bytes(f).len() as int) == head_bytes(f),
    ensures
        head_end(b, f.is_patch, f.unknown, f.version, f.linked_list@) == Some(
            head_bytes(f).len() as int,
        ),
{
    let list = f.linked_list@;
    let n = list.len();
    let head = if f.is_patch {
        sig_ptch() + le64(f.unknown->0)
    } else {
        seq![]
    };
    let strs = enc_strs(list, n);
    let deps = if f.version >= 2 {
        le32(n as u32) + strs
    } else {
        seq![]
    };
    let a2 = head + sig_prop();
    let a3 = a2 + le32(f.version);
    assert(head_bytes(f) == a3 + deps);
    lemma_split(b, 0, a3, deps);
    lemma_split(b, 0, a2, le32(f.version));
    lemma_split(b, 0, head, sig_prop());
    let base = head.len() as int;
    if f.is_patch {
        lemma_split(b, 0, sig_ptch(), le64(f.unknown->0));
        lemma_get64_at(b, 4, f.unknown->0);
    } else {
        assert(b.subrange(0, 4)[1] != sig_ptch()[1]);
    }
    lemma_get32_at(b, base + 4, f.version);
    let pa = base + 8;
    if f.version >= 2 {
        lemma_split(b, pa, le32(n as u32), strs);
        lemma_get32_at(b, pa, n as u32);
        lemma_strs_read(b, pa + 4, list, n);
    }
}

proof fn lemma_main_read(b: Seq<u8>, pb: int, m: BinMap)
    requires
        m.keytype == BinType::Hash && m.valuetype == BinType::Embedded,
        m.items@.len() <= 0xffff_ffff,
        forall|i: int|
            0 <= i < m.items@.len() ==> entry_ok(#[trigger] m.items@[i]) && well_typed(
                *m.items@[i].valuedata,
                BinType::Embedded,
            ),
        0 <= pb,
        pb + main_bytes(m).len() <= b.len(),
        b.subrange(pb, pb + main_bytes(m).len()) == main_bytes(m),
    ensures
        entries_end(b, pb, m) == Some(pb + main_bytes(m).len()),
{
    let ents = m.items@;
    let ne = ents.len();
    let types = enc_entry_types(ents, ne);
    let bodies = enc_entries(ents, ne);
    lemma_split(b, pb, le32(ne as u32) + types, bodies);
    lemma_split(b, pb, le32(ne as u32), types);
    lemma_get32_at(b, pb, ne as u32);
    lemma_types_len(ents, ne);
    assert forall|i: int| 0 <= i < ne implies pb + 4 + 4 * i + 4 <= b.len() && #[trigger] get32(
        b,
        pb + 4 + 4 * i,
    ) == entry_type(ents[i]) by {
        lemma_types_at(ents, ne, i);
        lemma_sub(b, pb + 4, types, 4 * i, 4 * i + 4);
        lemma_get32_at(b, pb + 4 + 4 * i, entry_type(ents[i]));
    }
    lemma_entries_read(b, pb + 4 + 4 * ne, pb + 4, ents, ne);
}

proof fn lemma_patch_section_read(b: Seq<u8>, pc: int, m: BinMap)
    requires
        m.keytype == BinType::Hash && m.valuetype == BinType::Embedded,
        m.items@.len() <= 0xffff_ffff,
        forall|i: int| 0 <= i < m.items@.len() ==> patch_ok(#[trigger] m.items@[i]) && patch_shaped(
            m.items@[i],
        ),
        0 <= pc,
        pc + patch_bytes(m).len() <= b.len(),
        b.subrange(pc, pc + patch_bytes(m).len()) == patch_bytes(m),
    ensures
        patches_end(b, pc, m) is Some,
{
    let ps = m.items@;
    lemma_split(b, pc, le32(ps.len() as u32), enc_patches(ps, ps.len()));
    lemma_get32_at(b, pc, ps.len() as u32);
    lemma_patches_read(b, pc + 4, ps, ps.len());
}

/// The bytes that the writer emits for a valid archive read back as that
/// archive: signatures, version, dependency names, every entry with its
/// declared record type, and the patches, each length field checking out.
pub proof fn lemma_file_round_trip(f: BinFile)
    requires
        file_valid(f),
    ensures
        file_reads(enc_file(f), f),
{
    let b = enc_file(f);
    let h = head_bytes(f);
    let mb = main_bytes(f.entries);
    let tail = if f.is_patch {
        patch_bytes(f.patches->0)
    } else {
        seq![]
    };
    assert(b =~= h + mb + tail);
    assert(b.subrange(0, b.len() as int) =~= b);
    lemma_split(b, 0, h + mb, tail);
    lemma_split(b, 0, h, mb);
    lemma_head_read(b, f);
    lemma_main_read(b, h.len() as int, f.entries);
    if f.is_patch {
        lemma_patch_section_read(b, (h.len() + mb.len()) as int, f.patches->0);
    }
}

} // verus!
