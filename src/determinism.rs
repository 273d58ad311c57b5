//! The reader's rules determine the value: bytes that read as two values of
//! one kind read as structurally equal values, ending at the same place.

use vstd::prelude::*;
use crate::bin_format::{
    enc, enc_entries, enc_entry, enc_entry_types, enc_field, enc_fields, enc_file, enc_items,
    enc_pairs, enc_patch, enc_patches, enc_strs, entries_end, entry_key, entry_ok, entry_type,
    file_reads, file_writable, get32, head_end, patch_ok, reads, reads_entries, reads_entry,
    reads_field, reads_fields, reads_items, reads_pairs, reads_patch, reads_patches, reads_str,
    reads_strs, shape_ok, utf8,
};
use crate::model::{BinData, BinField, BinFile, BinMap, BinType, MapPair};
use crate::round_trip::{file_valid, lemma_file_round_trip};

verus! {

/// Structural equality of values: equal kinds and payloads, with the
/// contents of vectors, strings and children compared element by element.
pub open spec fn same(a: BinData, b: BinData) -> bool
    decreases a,
{
    match a {
        BinData::Vector2(x) => b is Vector2 && x@ == b->Vector2_0@,
        BinData::Vector3(x) => b is Vector3 && x@ == b->Vector3_0@,
        BinData::Vector4(x) => b is Vector4 && x@ == b->Vector4_0@,
        BinData::Matrix4x4(x) => b is Matrix4x4 && x@ == b->Matrix4x4_0@,
        BinData::Rgba(x) => b is Rgba && x@ == b->Rgba_0@,
        BinData::String(x) => b is String && x@ == b->String_0@,
        BinData::ContainerOrStruct(x) => match b {
            BinData::ContainerOrStruct(y) => x.btype == y.btype && x.items@.len() == y.items@.len()
                && forall|i: int|
                0 <= i < x.items@.len() ==> same(#[trigger] x.items@[i], y.items@[i]),
            _ => false,
        },
        BinData::PointerOrEmbedded(x) => match b {
            BinData::PointerOrEmbedded(y) => x.name == y.name && x.items@.len() == y.items@.len()
                && forall|i: int|
                0 <= i < x.items@.len() ==> same_field(#[trigger] x.items@[i], y.items@[i]),
            _ => false,
        },
        BinData::Optional(x) => match b {
            BinData::Optional(y) => x.btype == y.btype && match (x.data, y.data) {
                (Some(p), Some(q)) => same(*p, *q),
                (None, None) => true,
                _ => false,
            },
            _ => false,
        },
        BinData::Mapping(x) => match b {
            BinData::Mapping(y) => x.keytype == y.keytype && x.valuetype == y.valuetype
                && x.items@.len() == y.items@.len() && forall|i: int|
                0 <= i < x.items@.len() ==> same_pair(#[trigger] x.items@[i], y.items@[i]),
            _ => false,
        },
        _ => a == b,
    }
}

pub open spec fn same_field(a: BinField, b: BinField) -> bool
    decreases a,
{
    a.name == b.name && a.btype == b.btype && same(*a.data, *b.data)
}

pub open spec fn same_pair(a: MapPair, b: MapPair) -> bool
    decreases a,
{
    same(*a.keydata, *b.keydata) && same(*a.valuedata, *b.valuedata)
}

pub open spec fn same_map(a: BinMap, b: BinMap) -> bool {
    a.keytype == b.keytype && a.valuetype == b.valuetype && a.items@.len() == b.items@.len()
        && forall|i: int| 0 <= i < a.items@.len() ==> same_pair(#[trigger] a.items@[i], b.items@[i])
}

/// Structural equality of archives.
pub open spec fn same_file(a: BinFile, b: BinFile) -> bool {
    &&& a.is_patch == b.is_patch
    &&& a.unknown == b.unknown
    &&& a.version == b.version
    &&& a.linked_list@.len() == b.linked_list@.len()
    &&& forall|i: int|
        0 <= i < a.linked_list@.len() ==> (#[trigger] a.linked_list@[i])@ == b.linked_list@[i]@
    &&& same_map(a.entries, b.entries)
    &&& match (a.patches, b.patches) {
        (Some(p), Some(q)) => same_map(p, q),
        (None, None) => true,
        _ => false,
    }
}

proof fn lemma_utf8_injective(a: Seq<char>, b: Seq<char>)
    requires
        utf8(a) == utf8(b),
    ensures
        a == b,
{
    vstd::utf8::encode_utf8_decode_utf8(a);
    vstd::utf8::encode_utf8_decode_utf8(b);
}

/// Bytes that read as two values of one kind read as the same value, and
/// the two readings end at the same place.
pub proof fn lemma_reads_determined(b: Seq<u8>, pos: int, t: BinType, d1: BinData, d2: BinData)
    requires
        reads(b, pos, t, d1) is Some,
        reads(b, pos, t, d2) is Some,
    ensures
        reads(b, pos, t, d1) == reads(b, pos, t, d2),
        same(d1, d2),
    decreases d1,
{
    match d1 {
        BinData::Vector2(x) => {
            let y = d2->Vector2_0;
            assert(x@ =~= y@);
        },
        BinData::Vector3(x) => {
            let y = d2->Vector3_0;
            assert(x@ =~= y@);
        },
        BinData::Vector4(x) => {
            let y = d2->Vector4_0;
            assert(x@ =~= y@);
        },
        BinData::Matrix4x4(x) => {
            let y = d2->Matrix4x4_0;
            assert(x@ =~= y@);
        },
        BinData::String(x) => {
            lemma_utf8_injective(x@, d2->String_0@);
        },
        BinData::ContainerOrStruct(x) => {
            let y = d2->ContainerOrStruct_0;
            lemma_items_determined(b, pos + 9, x.btype, x.items@, y.items@, x.items@.len());
        },
        BinData::PointerOrEmbedded(x) => {
            let y = d2->PointerOrEmbedded_0;
            if x.name != 0 {
                lemma_fields_determined(b, pos + 10, x.items@, y.items@, x.items@.len());
            }
        },
        BinData::Optional(x) => {
            let y = d2->Optional_0;
            match (x.data, y.data) {
                (Some(p), Some(q)) => {
                    lemma_reads_determined(b, pos + 2, x.btype, *p, *q);
                },
                _ => {},
            }
        },
        BinData::Mapping(x) => {
            let y = d2->Mapping_0;
            lemma_pairs_determined(
                b,
                pos + 10,
                x.keytype,
                x.valuetype,
                x.items@,
                y.items@,
                x.items@.len(),
            );
        },
        _ => {},
    }
}

pub proof fn lemma_items_determined(
    b: Seq<u8>,
    pos: int,
    t: BinType,
    s1: Seq<BinData>,
    s2: Seq<BinData>,
    n: nat,
)
    requires
        reads_items(b, pos, t, s1, n) is Some,
        reads_items(b, pos, t, s2, n) is Some,
    ensures
        reads_items(b, pos, t, s1, n) == reads_items(b, pos, t, s2, n),
        forall|i: int| 0 <= i < n ==> same(#[trigger] s1[i], s2[i]),
    decreases s1, n,
{
    if n > 0 {
        lemma_items_determined(b, pos, t, s1, s2, (n - 1) as nat);
        let e = reads_items(b, pos, t, s1, (n - 1) as nat)->0;
        lemma_reads_determined(b, e, t, s1[n - 1], s2[n - 1]);
    }
}

pub proof fn lemma_fields_determined(b: Seq<u8>, pos: int, s1: Seq<BinField>, s2: Seq<BinField>, n: nat)
    requires
        reads_fields(b, pos, s1, n) is Some,
        reads_fields(b, pos, s2, n) is Some,
    ensures
        reads_fields(b, pos, s1, n) == reads_fields(b, pos, s2, n),
        forall|i: int| 0 <= i < n ==> same_field(#[trigger] s1[i], s2[i]),
    decreases s1, n,
{
    if n > 0 {
        lemma_fields_determined(b, pos, s1, s2, (n - 1) as nat);
        let e = reads_fields(b, pos, s1, (n - 1) as nat)->0;
        let f1 = s1[n - 1];
        let f2 = s2[n - 1];
        assert(reads_field(b, e, f1) is Some);
        assert(reads_field(b, e, f2) is Some);
        assert(f1.btype == f2.btype && f1.name == f2.name);
        lemma_reads_determined(b, e + 5, f1.btype, *f1.data, *f2.data);
    }
}

pub proof fn lemma_pairs_determined(
    b: Seq<u8>,
    pos: int,
    kt: BinType,
    vt: BinType,
    s1: Seq<MapPair>,
    s2: Seq<MapPair>,
    n: nat,
)
    requires
        reads_pairs(b, pos, kt, vt, s1, n) is Some,
        reads_pairs(b, pos, kt, vt, s2, n) is Some,
    ensures
        reads_pairs(b, pos, kt, vt, s1, n) == reads_pairs(b, pos, kt, vt, s2, n),
        forall|i: int| 0 <= i < n ==> same_pair(#[trigger] s1[i], s2[i]),
    decreases s1, n,
{
    if n > 0 {
        lemma_pairs_determined(b, pos, kt, vt, s1, s2, (n - 1) as nat);
        let e = reads_pairs(b, pos, kt, vt, s1, (n - 1) as nat)->0;
        let pa = s1[n - 1];
        let pb = s2[n - 1];
        lemma_reads_determined(b, e, kt, *pa.keydata, *pb.keydata);
        let e2 = reads(b, e, kt, *pa.keydata)->0;
        lemma_reads_determined(b, e2, vt, *pa.valuedata, *pb.valuedata);
    }
}

} // verus!

verus! {

pub proof fn lemma_strs_determined(b: Seq<u8>, pos: int, s1: Seq<String>, s2: Seq<String>, n: nat)
    requires
        reads_strs(b, pos, s1, n) is Some,
        reads_strs(b, pos, s2, n) is Some,
    ensures
        reads_strs(b, pos, s1, n) == reads_strs(b, pos, s2, n),
        forall|i: int| 0 <= i < n ==> (#[trigger] s1[i])@ == s2[i]@,
    decreases n,
{
    if n > 0 {
        lemma_strs_determined(b, pos, s1, s2, (n - 1) as nat);
        let e = reads_strs(b, pos, s1, (n - 1) as nat)->0;
        assert(reads_str(b, e, s1[n - 1]@) is Some);
        lemma_utf8_injective(s1[n - 1]@, s2[n - 1]@);
    }
}

pub proof fn lemma_entries_determined(
    b: Seq<u8>,
    pos: int,
    types: int,
    s1: Seq<MapPair>,
    s2: Seq<MapPair>,
    n: nat,
)
    requires
        reads_entries(b, pos, types, s1, n) is Some,
        reads_entries(b, pos, types, s2, n) is Some,
    ensures
        reads_entries(b, pos, types, s1, n) == reads_entries(b, pos, types, s2, n),
        forall|i: int| 0 <= i < n ==> same_pair(#[trigger] s1[i], s2[i]),
    decreases n,
{
    if n > 0 {
        lemma_entries_determined(b, pos, types, s1, s2, (n - 1) as nat);
        let e = reads_entries(b, pos, types, s1, (n - 1) as nat)->0;
        let ty = get32(b, types + 4 * (n - 1));
        let pa = s1[n - 1];
        let pb = s2[n - 1];
        assert(reads_entry(b, e, ty, pa) is Some);
        assert(reads_entry(b, e, ty, pb) is Some);
        let x = pa.valuedata->PointerOrEmbedded_0;
        let y = pb.valuedata->PointerOrEmbedded_0;
        lemma_fields_determined(b, e + 10, x.items@, y.items@, x.items@.len());
    }
}

pub proof fn lemma_patches_determined(b: Seq<u8>, pos: int, s1: Seq<MapPair>, s2: Seq<MapPair>, n: nat)
    requires
        reads_patches(b, pos, s1, n) is Some,
        reads_patches(b, pos, s2, n) is Some,
    ensures
        reads_patches(b, pos, s1, n) == reads_patches(b, pos, s2, n),
        forall|i: int| 0 <= i < n ==> same_pair(#[trigger] s1[i], s2[i]),
    decreases n,
{
    if n > 0 {
        lemma_patches_determined(b, pos, s1, s2, (n - 1) as nat);
        let e = reads_patches(b, pos, s1, (n - 1) as nat)->0;
        let pa = s1[n - 1];
        let pb = s2[n - 1];
        assert(reads_patch(b, e, pa) is Some);
        assert(reads_patch(b, e, pb) is Some);
        let x = pa.valuedata->PointerOrEmbedded_0;
        let y = pb.valuedata->PointerOrEmbedded_0;
        let a1 = x.items@[0].data->String_0;
        let a2 = y.items@[0].data->String_0;
        lemma_utf8_injective(a1@, a2@);
        let e1 = reads_str(b, e + 9, a1@)->0;
        lemma_reads_determined(b, e1, x.items@[1].btype, *x.items@[1].data, *y.items@[1].data);
        assert(same_field(x.items@[0], y.items@[0]));
        assert(same_field(x.items@[1], y.items@[1]));
        assert forall|i: int| 0 <= i < x.items@.len() implies same_field(
            #[trigger] x.items@[i],
            y.items@[i],
        ) by {}
    }
}

/// Bytes read as at most one archive, up to structural equality.
pub proof fn lemma_file_determined(b: Seq<u8>, f1: BinFile, f2: BinFile)
    requires
        file_reads(b, f1),
        file_reads(b, f2),
    ensures
        same_file(f1, f2),
{
    let h1 = head_end(b, f1.is_patch, f1.unknown, f1.version, f1.linked_list@);
    let h2 = head_end(b, f2.is_patch, f2.unknown, f2.version, f2.linked_list@);
    assert(f1.is_patch == f2.is_patch);
    let base: int = if f1.is_patch {
        12
    } else {
        0
    };
    if f1.version >= 2 {
        lemma_strs_determined(b, base + 12, f1.linked_list@, f2.linked_list@, f1.linked_list@.len());
    }
    assert(h1 == h2);
    let pb = h1->0;
    let n = f1.entries.items@.len();
    lemma_entries_determined(
        b,
        pb + 4 + 4 * n,
        pb + 4,
        f1.entries.items@,
        f2.entries.items@,
        n,
    );
    if f1.is_patch {
        let m1 = f1.patches->0;
        let m2 = f2.patches->0;
        let pc = entries_end(b, pb, f1.entries)->0;
        lemma_patches_determined(b, pc + 4, m1.items@, m2.items@, m1.items@.len());
    }
}

} // verus!

verus! {

/// Structurally equal values lay out alike, and the writer takes both or neither.
pub proof fn lemma_same_enc(d1: BinData, d2: BinData)
    requires
        same(d1, d2),
    ensures
        enc(d1) == enc(d2),
        shape_ok(d1) == shape_ok(d2),
    decreases d1,
{
    match d1 {
        BinData::ContainerOrStruct(x) => {
            let y = d2->ContainerOrStruct_0;
            lemma_same_items(x.items@, y.items@, x.items@.len());
            if shape_ok(d1) {
                assert forall|i: int| 0 <= i < y.items@.len() implies shape_ok(
                    #[trigger] y.items@[i],
                ) by {
                    assert(shape_ok(x.items@[i]));
                }
            }
            if shape_ok(d2) {
                assert forall|i: int| 0 <= i < x.items@.len() implies shape_ok(
                    #[trigger] x.items@[i],
                ) by {
                    assert(shape_ok(y.items@[i]));
                }
            }
        },
        BinData::PointerOrEmbedded(x) => {
            let y = d2->PointerOrEmbedded_0;
            lemma_same_fields(x.items@, y.items@, x.items@.len());
            if shape_ok(d1) {
                assert forall|i: int| 0 <= i < y.items@.len() implies shape_ok(
                    *(#[trigger] y.items@[i]).data,
                ) by {
                    assert(shape_ok(*x.items@[i].data));
                }
            }
            if shape_ok(d2) {
                assert forall|i: int| 0 <= i < x.items@.len() implies shape_ok(
                    *(#[trigger] x.items@[i]).data,
                ) by {
                    assert(shape_ok(*y.items@[i].data));
                }
            }
        },
        BinData::Optional(x) => {
            let y = d2->Optional_0;
            match (x.data, y.data) {
                (Some(p), Some(q)) => {
                    lemma_same_enc(*p, *q);
                },
                _ => {},
            }
        },
        BinData::Mapping(x) => {
            let y = d2->Mapping_0;
            lemma_same_pairs(x.items@, y.items@, x.items@.len());
            if shape_ok(d1) {
                assert forall|i: int| 0 <= i < y.items@.len() implies shape_ok(
                    *(#[trigger] y.items@[i]).keydata,
                ) && shape_ok(*y.items@[i].valuedata) by {
                    assert(shape_ok(*x.items@[i].keydata));
                    assert(shape_ok(*x.items@[i].valuedata));
                }
            }
            if shape_ok(d2) {
                assert forall|i: int| 0 <= i < x.items@.len() implies shape_ok(
                    *(#[trigger] x.items@[i]).keydata,
                ) && shape_ok(*x.items@[i].valuedata) by {
                    assert(shape_ok(*y.items@[i].keydata));
                    assert(shape_ok(*y.items@[i].valuedata));
                }
            }
        },
        _ => {},
    }
}

proof fn lemma_same_items(s1: Seq<BinData>, s2: Seq<BinData>, n: nat)
    requires
        n <= s1.len(),
        s1.len() == s2.len(),
        forall|i: int| 0 <= i < s1.len() ==> same(#[trigger] s1[i], s2[i]),
    ensures
        enc_items(s1, n) == enc_items(s2, n),
        forall|i: int| 0 <= i < s1.len() ==> shape_ok(#[trigger] s1[i]) == shape_ok(s2[i]),
    decreases s1, n,
{
    assert forall|i: int| 0 <= i < s1.len() implies shape_ok(#[trigger] s1[i]) == shape_ok(s2[i]) by {
        lemma_same_enc(s1[i], s2[i]);
    }
    if n > 0 {
        lemma_same_items(s1, s2, (n - 1) as nat);
        assert(same(s1[n - 1], s2[n - 1]));
        lemma_same_enc(s1[n - 1], s2[n - 1]);
    }
}

proof fn lemma_same_fields(s1: Seq<BinField>, s2: Seq<BinField>, n: nat)
    requires
        n <= s1.len(),
        s1.len() == s2.len(),
        forall|i: int| 0 <= i < s1.len() ==> same_field(#[trigger] s1[i], s2[i]),
    ensures
        enc_fields(s1, n) == enc_fields(s2, n),
        forall|i: int| 0 <= i < s1.len() ==> shape_ok(*(#[trigger] s1[i]).data) == shape_ok(*s2[i].data),
    decreases s1, n,
{
    assert forall|i: int| 0 <= i < s1.len() implies shape_ok(*(#[trigger] s1[i]).data) == shape_ok(
        *s2[i].data,
    ) by {
        lemma_same_enc(*s1[i].data, *s2[i].data);
    }
    if n > 0 {
        lemma_same_fields(s1, s2, (n - 1) as nat);
        assert(same_field(s1[n - 1], s2[n - 1]));
        lemma_same_enc(*s1[n - 1].data, *s2[n - 1].data);
        assert(enc_field(s1[n - 1]) == enc_field(s2[n - 1]));
    }
}

proof fn lemma_same_pairs(s1: Seq<MapPair>, s2: Seq<MapPair>, n: nat)
    requires
        n <= s1.len(),
        s1.len() == s2.len(),
        forall|i: int| 0 <= i < s1.len() ==> same_pair(#[trigger] s1[i], s2[i]),
    ensures
        enc_pairs(s1, n) == enc_pairs(s2, n),
        forall|i: int|
            0 <= i < s1.len() ==> shape_ok(*(#[trigger] s1[i]).keydata) == shape_ok(*s2[i].keydata)
                && shape_ok(*s1[i].valuedata) == shape_ok(*s2[i].valuedata),
    decreases s1, n,
{
    assert forall|i: int| 0 <= i < s1.len() implies shape_ok(*(#[trigger] s1[i]).keydata) == shape_ok(
        *s2[i].keydata,
    ) && shape_ok(*s1[i].valuedata) == shape_ok(*s2[i].valuedata) by {
        lemma_same_enc(*s1[i].keydata, *s2[i].keydata);
        lemma_same_enc(*s1[i].valuedata, *s2[i].valuedata);
    }
    if n > 0 {
        lemma_same_pairs(s1, s2, (n - 1) as nat);
        assert(same_pair(s1[n - 1], s2[n - 1]));
        lemma_same_enc(*s1[n - 1].keydata, *s2[n - 1].keydata);
        lemma_same_enc(*s1[n - 1].valuedata, *s2[n - 1].valuedata);
    }
}

} // verus!

verus! {

proof fn lemma_same_strs(s1: Seq<String>, s2: Seq<String>, n: nat)
    requires
        n <= s1.len(),
        s1.len() == s2.len(),
        forall|i: int| 0 <= i < s1.len() ==> (#[trigger] s1[i])@ == s2[i]@,
    ensures
        enc_strs(s1, n) == enc_strs(s2, n),
    decreases n,
{
    if n > 0 {
        lemma_same_strs(s1, s2, (n - 1) as nat);
        assert(s1[n - 1]@ == s2[n - 1]@);
    }
}

/// Structurally equal entries or patches agree on everything the writer
/// emits and checks for them.
proof fn lemma_same_pair_layout(pa: MapPair, pb: MapPair)
    requires
        same_pair(pa, pb),
    ensures
        entry_key(pa) == entry_key(pb),
        entry_type(pa) == entry_type(pb),
        enc_entry(pa) == enc_entry(pb),
        entry_ok(pa) == entry_ok(pb),
        patch_ok(pa) == patch_ok(pb),
        patch_ok(pa) ==> enc_patch(pa) == enc_patch(pb),
{
    lemma_same_enc(*pa.keydata, *pb.keydata);
    lemma_same_enc(*pa.valuedata, *pb.valuedata);
    match *pa.valuedata {
        BinData::PointerOrEmbedded(x) => {
            let y = pb.valuedata->PointerOrEmbedded_0;
            lemma_same_fields(x.items@, y.items@, x.items@.len());
            if x.items@.len() >= 2 {
                assert(same_field(x.items@[0], y.items@[0]));
                assert(same_field(x.items@[1], y.items@[1]));
                lemma_same_enc(*x.items@[0].data, *y.items@[0].data);
                lemma_same_enc(*x.items@[1].data, *y.items@[1].data);
            }
            if entry_ok(pa) {
                assert forall|i: int| 0 <= i < y.items@.len() implies shape_ok(
                    *(#[trigger] y.items@[i]).data,
                ) by {
                    assert(shape_ok(*x.items@[i].data));
                }
            }
            if entry_ok(pb) {
                assert forall|i: int| 0 <= i < x.items@.len() implies shape_ok(
                    *(#[trigger] x.items@[i]).data,
                ) by {
                    assert(shape_ok(*y.items@[i].data));
                }
            }
        },
        _ => {},
    }
}

proof fn lemma_same_pairs_layout(s1: Seq<MapPair>, s2: Seq<MapPair>, n: nat)
    requires
        n <= s1.len(),
        s1.len() == s2.len(),
        forall|i: int| 0 <= i < s1.len() ==> same_pair(#[trigger] s1[i], s2[i]),
    ensures
        enc_entry_types(s1, n) == enc_entry_types(s2, n),
        enc_entries(s1, n) == enc_entries(s2, n),
        (forall|i: int| 0 <= i < n ==> patch_ok(#[trigger] s1[i])) ==> enc_patches(s1, n)
            == enc_patches(s2, n),
    decreases n,
{
    if n > 0 {
        lemma_same_pairs_layout(s1, s2, (n - 1) as nat);
        assert(same_pair(s1[n - 1], s2[n - 1]));
        lemma_same_pair_layout(s1[n - 1], s2[n - 1]);
    }
}

/// Structurally equal archives lay out alike, and the writer takes both or
/// neither.
pub proof fn lemma_same_file_layout(f1: BinFile, f2: BinFile)
    requires
        same_file(f1, f2),
    ensures
        file_writable(f1) == file_writable(f2),
        file_writable(f1) ==> enc_file(f1) == enc_file(f2),
{
    let l1 = f1.linked_list@;
    let l2 = f2.linked_list@;
    lemma_same_strs(l1, l2, l1.len());
    let e1 = f1.entries.items@;
    let e2 = f2.entries.items@;
    lemma_same_pairs_layout(e1, e2, e1.len());
    assert forall|i: int| 0 <= i < e1.len() implies entry_ok(#[trigger] e1[i]) == entry_ok(e2[i]) by {
        lemma_same_pair_layout(e1[i], e2[i]);
    }
    assert forall|i: int| 0 <= i < e2.len() implies entry_ok(#[trigger] e2[i]) == entry_ok(e1[i]) by {
        lemma_same_pair_layout(e1[i], e2[i]);
    }
    assert forall|i: int| 0 <= i < l2.len() implies utf8((#[trigger] l2[i])@) == utf8(l1[i]@) by {
        assert(l1[i]@ == l2[i]@);
    }
    if f1.patches is Some {
        let pa = f1.patches->0.items@;
        let pb = f2.patches->0.items@;
        assert forall|i: int| 0 <= i < pa.len() implies patch_ok(#[trigger] pa[i]) == patch_ok(pb[i]) by {
            lemma_same_pair_layout(pa[i], pb[i]);
        }
        assert forall|i: int| 0 <= i < pb.len() implies patch_ok(#[trigger] pb[i]) == patch_ok(pa[i]) by {
            lemma_same_pair_layout(pa[i], pb[i]);
        }
        lemma_same_pairs_layout(pa, pb, pa.len());
    }
    if file_writable(f1) {
        assert(enc_file(f1) =~= enc_file(f2));
    }
}

} // verus!

verus! {

/// The binary round trip. For a valid archive `f`, every archive that the
/// writer's bytes for `f` read as is structurally `f`, and the writer lays
/// it out as exactly those bytes again.
pub proof fn lemma_binary_round_trip(f: BinFile, g: BinFile)
    requires
        file_valid(f),
        file_reads(enc_file(f), g),
    ensures
        same_file(g, f),
        file_writable(g),
        enc_file(g) == enc_file(f),
{
    lemma_file_round_trip(f);
    lemma_file_determined(enc_file(f), g, f);
    lemma_same_file_layout(g, f);
}

} // verus!
