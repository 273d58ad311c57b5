//! The text round trip: the text form that the writer gives a well-typed
//! value reads back, under the reader's rules, as that same value.

use vstd::prelude::*;
use crate::bin_format::shape_ok;
use crate::model::{BinData, BinField, BinFile, BinType, MapPair};
use crate::numeral::{
    digit_value, digits_start, digits_value, has_hex_prefix, is_hex_digit, is_negative, is_numeral,
    numeral_magnitude, numeral_reading, radix, sign_len, token_hash_u32, token_hash_u64,
    MalformedNumeral,
};
use crate::round_trip::well_typed;
use crate::tags::kind_name;
use crate::text::{float_value, TextMember, TextValue};
use crate::determinism::{same, same_field, same_file, same_pair};
use crate::text_read::{
    array_at, entries, int_in, str_of, first_key, is_hash_kind, kind_named, members, pairs_read, text_reads, text_reads_field,
    text_reads_file, text_reads_pair, value_at,
};
use crate::text_write::{
    hash_text32, hash_text64, hex_byte, hex_digits, hex_text, pow16, writes, writes_field, writes_file, writes_pair, writes_pairs,
};

verus! {

/// Whether the name table writes each hash of a value so that the text
/// reader gets the hash back: by a name that hashes to it, or by its digits.
pub open spec fn names_ok(tbl: Map<u64, String>, d: BinData) -> bool
    decreases d,
{
    match d {
        BinData::Hash(h) => token_hash_u32(hash_text32(tbl, h)) == Ok::<u32, MalformedNumeral>(h),
        BinData::Link(h) => token_hash_u32(hash_text32(tbl, h)) == Ok::<u32, MalformedNumeral>(h),
        BinData::WadEntryLink(h) => token_hash_u64(hash_text64(tbl, h)) == Ok::<
            u64,
            MalformedNumeral,
        >(h),
        BinData::ContainerOrStruct(cs) => forall|i: int|
            0 <= i < cs.items@.len() ==> names_ok(tbl, #[trigger] cs.items@[i]),
        BinData::PointerOrEmbedded(pe) => token_hash_u32(hash_text32(tbl, pe.name)) == Ok::<
            u32,
            MalformedNumeral,
        >(pe.name) && forall|i: int|
            0 <= i < pe.items@.len() ==> token_hash_u32(
                hash_text32(tbl, (#[trigger] pe.items@[i]).name),
            ) == Ok::<u32, MalformedNumeral>(pe.items@[i].name) && names_ok(tbl, *pe.items@[i].data),
        BinData::Optional(o) => match o.data {
            Some(x) => names_ok(tbl, *x),
            None => true,
        },
        BinData::Mapping(m) => forall|i: int|
            0 <= i < m.items@.len() ==> names_ok(tbl, *(#[trigger] m.items@[i]).keydata) && names_ok(
                tbl,
                *m.items@[i].valuedata,
            ),
        _ => true,
    }
}

/// Two kinds have different names: the names differ in length, first
/// character or last character.
proof fn lemma_names_distinct(a: BinType, b: BinType)
    requires
        a != b,
    ensures
        kind_name(a) != kind_name(b),
{
    reveal_strlit("None");
    reveal_strlit("Bool");
    reveal_strlit("SInt8");
    reveal_strlit("UInt8");
    reveal_strlit("SInt16");
    reveal_strlit("UInt16");
    reveal_strlit("SInt32");
    reveal_strlit("UInt32");
    reveal_strlit("SInt64");
    reveal_strlit("UInt64");
    reveal_strlit("Float32");
    reveal_strlit("Vector2");
    reveal_strlit("Vector3");
    reveal_strlit("Vector4");
    reveal_strlit("Matrix4x4");
    reveal_strlit("Rgba");
    reveal_strlit("String");
    reveal_strlit("Hash");
    reveal_strlit("WadEntryLink");
    reveal_strlit("Container");
    reveal_strlit("Struct");
    reveal_strlit("Pointer");
    reveal_strlit("Embedded");
    reveal_strlit("Link");
    reveal_strlit("Optional");
    reveal_strlit("Map");
    reveal_strlit("Flag");
    let x = kind_name(a);
    let y = kind_name(b);
    assert(x.len() != y.len() || x[0] != y[0] || x[x.len() - 1] != y[y.len() - 1]);
}

/// Every kind's name in the text form reads back as that kind.
pub proof fn lemma_kind_names(t: BinType)
    ensures
        kind_named(kind_name(t)) == Some(t),
{
    assert forall|k: BinType| k != t implies kind_name(k) != kind_name(t) by {
        lemma_names_distinct(k, t);
    }
}

/// The text form of a writable, well-typed value reads back as that value,
/// where the name table writes each of its hashes so that it reads back.
pub proof fn lemma_text_round_trip(tbl: Map<u64, String>, d: BinData, t: BinType, v: TextValue)
    requires
        writes(tbl, d, v),
        well_typed(d, t),
        shape_ok(d),
        names_ok(tbl, d),
    ensures
        text_reads(v, t, d),
    decreases d,
{
    match d {
        BinData::ContainerOrStruct(cs) => {
            lemma_kind_names(cs.btype);
            match v {
                TextValue::Object(ms) => {
                    match ms@[1].value {
                        TextValue::Array(a) => {
                            assert forall|i: int| 0 <= i < cs.items@.len() implies text_reads(
                                members(ms@[1].value)[i],
                                cs.btype,
                                #[trigger] cs.items@[i],
                            ) by {
                                lemma_text_round_trip(tbl, cs.items@[i], cs.btype, a@[i]);
                            }
                        },
                        _ => {},
                    }
                },
                _ => {},
            }
        },
        BinData::PointerOrEmbedded(pe) => {
            match v {
                TextValue::Object(ms) => {
                    match ms@[0].value {
                        TextValue::Array(a) => {
                            assert forall|i: int| 0 <= i < pe.items@.len() implies text_reads_field(
                                members(ms@[0].value)[i],
                                #[trigger] pe.items@[i],
                            ) by {
                                lemma_field_round_trip(tbl, pe.items@[i], a@[i]);
                            }
                        },
                        _ => {},
                    }
                },
                _ => {},
            }
        },
        BinData::Optional(o) => {
            lemma_kind_names(o.btype);
            match o.data {
                Some(x) => {
                    match v {
                        TextValue::Object(ms) => {
                            match ms@[1].value {
                                TextValue::Array(a) => {
                                    lemma_text_round_trip(tbl, *x, o.btype, a@[0]);
                                },
                                _ => {},
                            }
                        },
                        _ => {},
                    }
                },
                None => {},
            }
        },
        BinData::Mapping(m) => {
            lemma_kind_names(m.keytype);
            lemma_kind_names(m.valuetype);
            match v {
                TextValue::Object(ms) => {
                    match ms@[2].value {
                        TextValue::Array(a) => {
                            assert forall|i: int| 0 <= i < m.items@.len() implies text_reads_pair(
                                members(ms@[2].value)[i],
                                m.keytype,
                                m.valuetype,
                                #[trigger] m.items@[i],
                            ) by {
                                lemma_pair_round_trip(tbl, m.items@[i], m.keytype, m.valuetype, a@[i]);
                            }
                        },
                        _ => {},
                    }
                },
                _ => {},
            }
        },
        _ => {},
    }
}

proof fn lemma_field_round_trip(tbl: Map<u64, String>, f: BinField, v: TextValue)
    requires
        writes_field(tbl, f, v),
        well_typed(*f.data, f.btype),
        shape_ok(*f.data),
        names_ok(tbl, *f.data),
        token_hash_u32(hash_text32(tbl, f.name)) == Ok::<u32, MalformedNumeral>(f.name),
    ensures
        text_reads_field(v, f),
    decreases f,
{
    lemma_kind_names(f.btype);
    match v {
        TextValue::Object(ms) => {
            lemma_text_round_trip(tbl, *f.data, f.btype, ms@[2].value);
        },
        _ => {},
    }
}

proof fn lemma_pair_round_trip(
    tbl: Map<u64, String>,
    p: MapPair,
    kt: BinType,
    vt: BinType,
    v: TextValue,
)
    requires
        writes_pair(tbl, p, v),
        well_typed(*p.keydata, kt),
        well_typed(*p.valuedata, vt),
        shape_ok(*p.keydata),
        shape_ok(*p.valuedata),
        names_ok(tbl, *p.keydata),
        names_ok(tbl, *p.valuedata),
    ensures
        text_reads_pair(v, kt, vt, p),
    decreases p,
{
    match v {
        TextValue::Object(ms) => {
            if is_hash_kind(kt) {
                lemma_text_round_trip(tbl, *p.valuedata, vt, ms@[0].value);
            } else {
                lemma_text_round_trip(tbl, *p.keydata, kt, ms@[0].value);
                lemma_text_round_trip(tbl, *p.valuedata, vt, ms@[1].value);
            }
        },
        _ => {},
    }
}

/// Whether the pairs of an entries or patches map are records keyed by
/// name hashes, in shape, with every hash written so that it reads back.
pub open spec fn pairs_ok(tbl: Map<u64, String>, s: Seq<MapPair>) -> bool {
    forall|i: int|
        0 <= i < s.len() ==> {
            let p = #[trigger] s[i];
            &&& well_typed(*p.keydata, BinType::Hash)
            &&& well_typed(*p.valuedata, BinType::Embedded)
            &&& shape_ok(*p.keydata)
            &&& shape_ok(*p.valuedata)
            &&& names_ok(tbl, *p.keydata)
            &&& names_ok(tbl, *p.valuedata)
        }
}

/// An archive whose text form reads back: the unknown value and the patch
/// map are there exactly for a patch archive, both maps are keyed by name
/// hashes and valued by records, and every hash is written so that it reads
/// back.
pub open spec fn text_valid(tbl: Map<u64, String>, f: BinFile) -> bool {
    &&& f.is_patch <==> f.unknown is Some
    &&& f.is_patch <==> f.patches is Some
    &&& f.entries.keytype == BinType::Hash && f.entries.valuetype == BinType::Embedded
    &&& pairs_ok(tbl, f.entries.items@)
    &&& f.patches is Some ==> f.patches->0.keytype == BinType::Hash && f.patches->0.valuetype
        == BinType::Embedded && pairs_ok(tbl, f.patches->0.items@)
}

proof fn lemma_value_at(ms: Seq<TextMember>, k: Seq<char>, i: int)
    requires
        first_key(ms, k, i),
    ensures
        value_at(ms, k) == Some(ms[i].value),
{
    let c = choose|c: int| first_key(ms, k, c);
    assert(c == i) by {
        if c < i {
            assert(ms[c].key@ != k);
        } else if c > i {
            assert(ms[i].key@ != k);
        }
    }
}

proof fn lemma_pairs_round_trip(tbl: Map<u64, String>, s: Seq<MapPair>, v: TextValue)
    requires
        writes_pairs(tbl, s, v),
        pairs_ok(tbl, s),
    ensures
        pairs_read(members(v), s),
{
    match v {
        TextValue::Array(a) => {
            assert forall|i: int| 0 <= i < s.len() implies text_reads_pair(
                a@[i],
                BinType::Hash,
                BinType::Embedded,
                #[trigger] s[i],
            ) by {
                lemma_pair_round_trip(tbl, s[i], BinType::Hash, BinType::Embedded, a@[i]);
            }
        },
        _ => {},
    }
}

/// The text form of an archive reads back as that archive, where the name
/// table writes each of its hashes so that it reads back.
pub proof fn lemma_text_file_round_trip(tbl: Map<u64, String>, f: BinFile, v: TextValue)
    requires
        writes_file(tbl, f, v),
        text_valid(tbl, f),
    ensures
        text_reads_file(v, f),
{
    reveal_strlit("IsPatch");
    reveal_strlit("Unknown");
    reveal_strlit("Version");
    reveal_strlit("LinkedList");
    reveal_strlit("Entries");
    reveal_strlit("Patches");
    assert("IsPatch"@[0] == 'I');
    assert("Unknown"@[0] == 'U');
    assert("Version"@[0] == 'V');
    assert("LinkedList"@[0] == 'L');
    assert("Entries"@[0] == 'E');
    assert("Patches"@[0] == 'P');
    assert("IsPatch"@ != "Unknown"@);
    assert("IsPatch"@ != "Version"@);
    assert("IsPatch"@ != "LinkedList"@);
    assert("IsPatch"@ != "Entries"@);
    assert("IsPatch"@ != "Patches"@);
    assert("Unknown"@ != "Version"@);
    assert("Unknown"@ != "LinkedList"@);
    assert("Unknown"@ != "Entries"@);
    assert("Unknown"@ != "Patches"@);
    assert("Version"@ != "LinkedList"@);
    assert("Version"@ != "Entries"@);
    assert("Version"@ != "Patches"@);
    assert("LinkedList"@ != "Entries"@);
    assert("LinkedList"@ != "Patches"@);
    assert("Entries"@ != "Patches"@);
    let u: int = if f.unknown is Some {
        1
    } else {
        0
    };
    match v {
        TextValue::Object(o) => {
            let ms = o@;
            assert(ms[0].key@ == "IsPatch"@);
            lemma_value_at(ms, "IsPatch"@, 0);
            if f.is_patch {
                assert(ms[0].key@ != "Unknown"@);
                lemma_value_at(ms, "Unknown"@, 1);
            }
            assert forall|j: int| 0 <= j < 1 + u implies (#[trigger] ms[j]).key@ != "Version"@ by {
                if j == 1 {
                    assert(ms[1].key@ == "Unknown"@);
                }
            }
            lemma_value_at(ms, "Version"@, 1 + u);
            assert forall|j: int| 0 <= j < 2 + u implies (#[trigger] ms[j]).key@ != "LinkedList"@ by {
                if j == 1 && u == 1 {
                    assert(ms[1].key@ == "Unknown"@);
                }
            }
            lemma_value_at(ms, "LinkedList"@, 2 + u);
            assert forall|j: int| 0 <= j < 3 + u implies (#[trigger] ms[j]).key@ != "Entries"@ by {
                if j == 1 && u == 1 {
                    assert(ms[1].key@ == "Unknown"@);
                }
            }
            lemma_value_at(ms, "Entries"@, 3 + u);
            lemma_pairs_round_trip(tbl, f.entries.items@, ms[3 + u].value);
            if f.is_patch {
                assert forall|j: int| 0 <= j < 4 + u implies (#[trigger] ms[j]).key@ != "Patches"@ by {
                    if j == 1 && u == 1 {
                        assert(ms[1].key@ == "Unknown"@);
                    }
                }
                lemma_value_at(ms, "Patches"@, 4 + u);
                lemma_pairs_round_trip(tbl, f.patches->0.items@, ms[4 + u].value);
            }
        },
        _ => {},
    }
}

} // verus!

verus! {

proof fn lemma_div_step(v: nat, p: nat)
    requires
        p > 0,
    ensures
        (v / (16 * p)) * 16 + (v / p) % 16 == v / p,
{
    let x = (v / p) as int;
    vstd::arithmetic::div_mod::lemma_div_denominator(v as int, p as int, 16);
    assert(p * 16 == 16 * p) by (nonlinear_arith);
    vstd::arithmetic::div_mod::lemma_fundamental_div_mod(x, 16);
    assert(16 * (x / 16) == (x / 16) * 16) by (nonlinear_arith);
}

proof fn lemma_pow16_pos(j: nat)
    ensures
        pow16(j) > 0,
    decreases j,
{
    if j > 0 {
        lemma_pow16_pos((j - 1) as nat);
    }
}

proof fn lemma_hex_byte(d: nat)
    requires
        d < 16,
    ensures
        is_hex_digit(hex_byte(d) as char),
        digit_value(hex_byte(d) as char) == d,
{
}

proof fn lemma_hex_digits_len(v: nat, n: nat)
    ensures
        hex_digits(v, n).len() == n,
        hex_text(v, n).len() == n + 2,
    decreases n,
{
    if n > 0 {
        lemma_hex_digits_len(v, (n - 1) as nat);
    }
}

/// Digit `j` of the `n` hexadecimal digits of `v` is worth
/// `(v / 16^(n-1-j)) % 16`.
proof fn lemma_hex_digit_at(v: nat, n: nat, j: int)
    requires
        0 <= j < n,
    ensures
        hex_digits(v, n)[j] == hex_byte((v / pow16((n - 1 - j) as nat)) % 16),
        hex_text(v, n)[2 + j] == (hex_digits(v, n)[j] as char),
        is_hex_digit(hex_text(v, n)[2 + j]),
        digit_value(hex_text(v, n)[2 + j]) == (v / pow16((n - 1 - j) as nat)) % 16,
    decreases n,
{
    lemma_hex_digits_len(v, n);
    if j > 0 {
        lemma_hex_digit_at(v, (n - 1) as nat, j - 1);
        lemma_hex_digits_len(v, (n - 1) as nat);
        assert(hex_digits(v, n)[j] == hex_digits(v, (n - 1) as nat)[j - 1]);
    }
    lemma_pow16_pos((n - 1 - j) as nat);
    lemma_hex_byte((v / pow16((n - 1 - j) as nat)) % 16);
}

/// The first `k` of the `n` hexadecimal digits of `v` spell `v / 16^(n-k)`.
proof fn lemma_hex_digits_value(v: nat, n: nat, k: nat)
    requires
        k <= n,
        v < pow16(n),
    ensures
        digits_value(hex_text(v, n), 2, 2 + k as int, 16) == v / pow16((n - k) as nat),
    decreases k,
{
    lemma_hex_digits_len(v, n);
    lemma_pow16_pos(n);
    if k == 0 {
        let p = pow16(n);
        assert(v / p == 0) by (nonlinear_arith)
            requires
                v < p,
                p > 0,
        ;
    } else {
        lemma_hex_digits_value(v, n, (k - 1) as nat);
        let j = (k - 1) as int;
        lemma_hex_digit_at(v, n, j);
        lemma_pow16_pos((n - k) as nat);
        let p = pow16((n - k) as nat);
        assert(pow16((n - k + 1) as nat) == 16 * p);
        lemma_div_step(v, p);
    }
}

/// A 32-bit hash written as `0x` and eight hex digits reads back as itself.
pub proof fn lemma_hex_reads_back32(h: u32)
    ensures
        token_hash_u32(hex_text(h as nat, 8)) == Ok::<u32, MalformedNumeral>(h),
{
    let s = hex_text(h as nat, 8);
    lemma_hex_digits_len(h as nat, 8);
    assert(s[0] == '0' && s[1] == 'x');
    assert forall|i: int| digits_start(s) <= i < s.len() implies is_hex_digit(#[trigger] s[i]) by {
        lemma_hex_digit_at(h as nat, 8, i - 2);
    }
    assert(pow16(8) == 0x1_0000_0000) by {
        reveal_with_fuel(pow16, 9);
    }
    lemma_hex_digits_value(h as nat, 8, 8);
    assert(pow16(0) == 1);
    assert(digits_value(s, 2, 10, 16) == (h as nat) / pow16(0));
    assert((h as nat) / 1 == h as nat);
    assert(sign_len(s) == 0);
    assert(has_hex_prefix(s));
    assert(digits_start(s) == 2);
    assert(radix(s) == 16);
    assert(is_numeral(s));
    assert(numeral_magnitude(s) == h as nat);
    assert(!is_negative(s));
    assert(numeral_reading(s, u32::MAX as nat) == Ok::<Option<nat>, MalformedNumeral>(Some(h as nat)));
}

/// A 64-bit hash written as `0x` and sixteen hex digits reads back as itself.
pub proof fn lemma_hex_reads_back64(h: u64)
    ensures
        token_hash_u64(hex_text(h as nat, 16)) == Ok::<u64, MalformedNumeral>(h),
{
    let s = hex_text(h as nat, 16);
    lemma_hex_digits_len(h as nat, 16);
    assert(s[0] == '0' && s[1] == 'x');
    assert forall|i: int| digits_start(s) <= i < s.len() implies is_hex_digit(#[trigger] s[i]) by {
        lemma_hex_digit_at(h as nat, 16, i - 2);
    }
    assert(pow16(16) == 0x1_0000_0000_0000_0000) by {
        reveal_with_fuel(pow16, 17);
    }
    lemma_hex_digits_value(h as nat, 16, 16);
    assert(pow16(0) == 1);
    assert(digits_value(s, 2, 18, 16) == (h as nat) / pow16(0));
    assert((h as nat) / 1 == h as nat);
    assert(sign_len(s) == 0);
    assert(has_hex_prefix(s));
    assert(digits_start(s) == 2);
    assert(radix(s) == 16);
    assert(is_numeral(s));
    assert(numeral_magnitude(s) == h as nat);
    assert(!is_negative(s));
    assert(numeral_reading(s, u64::MAX as nat) == Ok::<Option<nat>, MalformedNumeral>(Some(h as nat)));
}

} // verus!

verus! {

/// A 32-bit hash that the name table leaves out is written as hex digits,
/// which read back as the hash.
pub proof fn lemma_unnamed_hash_reads_back32(tbl: Map<u64, String>, h: u32)
    requires
        !tbl.contains_key(h as u64),
    ensures
        token_hash_u32(hash_text32(tbl, h)) == Ok::<u32, MalformedNumeral>(h),
{
    lemma_hex_reads_back32(h);
}

/// A 64-bit hash that the name table leaves out is written as hex digits,
/// which read back as the hash.
pub proof fn lemma_unnamed_hash_reads_back64(tbl: Map<u64, String>, h: u64)
    requires
        !tbl.contains_key(h),
    ensures
        token_hash_u64(hash_text64(tbl, h)) == Ok::<u64, MalformedNumeral>(h),
{
    lemma_hex_reads_back64(h);
}

} // verus!

verus! {

/// A text node read as a kind gives at most one value, up to structural
/// equality.
pub proof fn lemma_text_determined(v: TextValue, t: BinType, d1: BinData, d2: BinData)
    requires
        text_reads(v, t, d1),
        text_reads(v, t, d2),
    ensures
        same(d1, d2),
    decreases d1,
{
    match d1 {
        BinData::Vector2(x) => {
            let y = d2->Vector2_0;
            assert forall|i: int| 0 <= i < x@.len() implies x@[i] == y@[i] by {
                assert(float_value(members(v)[i]) == Some(x@[i]));
                assert(float_value(members(v)[i]) == Some(y@[i]));
            }
            assert(x@ =~= y@);
        },
        BinData::Vector3(x) => {
            let y = d2->Vector3_0;
            assert forall|i: int| 0 <= i < x@.len() implies x@[i] == y@[i] by {
                assert(float_value(members(v)[i]) == Some(x@[i]));
                assert(float_value(members(v)[i]) == Some(y@[i]));
            }
            assert(x@ =~= y@);
        },
        BinData::Vector4(x) => {
            let y = d2->Vector4_0;
            assert forall|i: int| 0 <= i < x@.len() implies x@[i] == y@[i] by {
                assert(float_value(members(v)[i]) == Some(x@[i]));
                assert(float_value(members(v)[i]) == Some(y@[i]));
            }
            assert(x@ =~= y@);
        },
        BinData::Matrix4x4(x) => {
            let y = d2->Matrix4x4_0;
            assert forall|i: int| 0 <= i < x@.len() implies x@[i] == y@[i] by {
                assert(float_value(members(v)[i]) == Some(x@[i]));
                assert(float_value(members(v)[i]) == Some(y@[i]));
            }
            assert(x@ =~= y@);
        },
        BinData::Rgba(x) => {
            let y = d2->Rgba_0;
            assert forall|i: int| 0 <= i < 4 implies x@[i] == y@[i] by {
                assert(int_in(members(v)[i], 0, 0xff, x@[i] as int));
                assert(int_in(members(v)[i], 0, 0xff, y@[i] as int));
            }
            assert(x@ =~= y@);
        },
        BinData::ContainerOrStruct(x) => {
            let y = d2->ContainerOrStruct_0;
            let ms = entries(v, 2)->0;
            assert forall|i: int| 0 <= i < x.items@.len() implies same(
                #[trigger] x.items@[i],
                y.items@[i],
            ) by {
                lemma_text_determined(members(ms[1].value)[i], x.btype, x.items@[i], y.items@[i]);
            }
        },
        BinData::PointerOrEmbedded(x) => {
            let y = d2->PointerOrEmbedded_0;
            match v {
                TextValue::Object(ms) => {
                    if ms@.len() > 0 {
                        assert forall|i: int| 0 <= i < x.items@.len() implies same_field(
                            #[trigger] x.items@[i],
                            y.items@[i],
                        ) by {
                            let a = members(ms@[0].value)[i];
                            let f1 = x.items@[i];
                            let f2 = y.items@[i];
                            assert(text_reads_field(a, f1));
                            assert(text_reads_field(a, f2));
                            let fs = entries(a, 3)->0;
                            lemma_text_determined(fs[2].value, f1.btype, *f1.data, *f2.data);
                        }
                    }
                },
                _ => {},
            }
        },
        BinData::Optional(x) => {
            let y = d2->Optional_0;
            match (x.data, y.data) {
                (Some(p), Some(q)) => {
                    let ms = entries(v, 2)->0;
                    lemma_text_determined(members(ms[1].value)[0], x.btype, *p, *q);
                },
                _ => {},
            }
        },
        BinData::Mapping(x) => {
            let y = d2->Mapping_0;
            let ms = entries(v, 3)->0;
            assert forall|i: int| 0 <= i < x.items@.len() implies same_pair(
                #[trigger] x.items@[i],
                y.items@[i],
            ) by {
                lemma_pair_determined(members(ms[2].value)[i], x.keytype, x.valuetype, x.items@[i], y.items@[i]);
            }
        },
        _ => {},
    }
}

proof fn lemma_pair_determined(v: TextValue, kt: BinType, vt: BinType, p1: MapPair, p2: MapPair)
    requires
        text_reads_pair(v, kt, vt, p1),
        text_reads_pair(v, kt, vt, p2),
    ensures
        same_pair(p1, p2),
    decreases p1,
{
    if is_hash_kind(kt) {
        let ms = entries(v, 1)->0;
        lemma_text_determined(TextValue::Str(ms[0].key), kt, *p1.keydata, *p2.keydata);
        lemma_text_determined(ms[0].value, vt, *p1.valuedata, *p2.valuedata);
    } else {
        let ms = entries(v, 2)->0;
        lemma_text_determined(ms[0].value, kt, *p1.keydata, *p2.keydata);
        lemma_text_determined(ms[1].value, vt, *p1.valuedata, *p2.valuedata);
    }
}

proof fn lemma_pairs_text_determined(a: Seq<TextValue>, s1: Seq<MapPair>, s2: Seq<MapPair>)
    requires
        pairs_read(a, s1),
        pairs_read(a, s2),
    ensures
        s1.len() == s2.len(),
        forall|i: int| 0 <= i < s1.len() ==> same_pair(#[trigger] s1[i], s2[i]),
{
    assert forall|i: int| 0 <= i < s1.len() implies same_pair(#[trigger] s1[i], s2[i]) by {
        lemma_pair_determined(a[i], BinType::Hash, BinType::Embedded, s1[i], s2[i]);
    }
}

/// A text root gives at most one archive, up to structural equality.
pub proof fn lemma_text_file_determined(v: TextValue, f1: BinFile, f2: BinFile)
    requires
        text_reads_file(v, f1),
        text_reads_file(v, f2),
    ensures
        same_file(f1, f2),
{
    match v {
        TextValue::Object(o) => {
            let ms = o@;
            lemma_pairs_text_determined(array_at(ms, "Entries"@), f1.entries.items@, f2.entries.items@);
            if f1.is_patch {
                lemma_pairs_text_determined(
                    array_at(ms, "Patches"@),
                    f1.patches->0.items@,
                    f2.patches->0.items@,
                );
            }
            assert forall|i: int| 0 <= i < f1.linked_list@.len() implies (
            #[trigger] f1.linked_list@[i])@ == f2.linked_list@[i]@ by {
                assert(str_of(array_at(ms, "LinkedList"@)[i]) == Some(f1.linked_list@[i]@));
                assert(str_of(array_at(ms, "LinkedList"@)[i]) == Some(f2.linked_list@[i]@));
            }
        },
        _ => {},
    }
}

/// The text round trip: for an archive whose text form reads back, every
/// archive that the reader gets from that text is structurally the archive.
pub proof fn lemma_text_round_trip_unique(tbl: Map<u64, String>, f: BinFile, v: TextValue, g: BinFile)
    requires
        writes_file(tbl, f, v),
        text_valid(tbl, f),
        text_reads_file(v, g),
    ensures
        same_file(g, f),
{
    lemma_text_file_round_trip(tbl, f, v);
    lemma_text_file_determined(v, g, f);
}

} // verus!
