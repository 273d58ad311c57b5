//! The wire format as spec functions: what the writer emits for a value
//! (`enc`) and what the reader accepts as a value (`reads`).

use vstd::prelude::*;
use crate::error::BinError;
use crate::model::{
    BinData, BinField, BinFile, BinMap, BinType, MapPair, PATCH_HASH, PATH_HASH, VALUE_HASH,
};
use crate::tags::{pack, unpack};

verus! {

broadcast use vstd::std_specs::vec::group_vec_axioms;

pub open spec fn le16(v: u16) -> Seq<u8> {
    seq![(v & 0xff) as u8, (v >> 8u16) as u8]
}

pub open spec fn le32(v: u32) -> Seq<u8> {
    seq![(v & 0xff) as u8, ((v >> 8u32) & 0xff) as u8, ((v >> 16u32) & 0xff) as u8, (v >> 24u32) as u8]
}

pub open spec fn le64(v: u64) -> Seq<u8> {
    le32((v & 0xffff_ffff) as u32) + le32((v >> 32u64) as u32)
}

/// The little-endian 16-bit word at `i`.
pub open spec fn get16(b: Seq<u8>, i: int) -> u16 {
    (b[i] as u16) | ((b[i + 1] as u16) << 8u16)
}

/// The little-endian 32-bit word at `i`.
pub open spec fn get32(b: Seq<u8>, i: int) -> u32 {
    (b[i] as u32) | ((b[i + 1] as u32) << 8u32) | ((b[i + 2] as u32) << 16u32) | ((b[i + 3] as u32)
        << 24u32)
}

/// The little-endian 64-bit word at `i`.
pub open spec fn get64(b: Seq<u8>, i: int) -> u64 {
    (get32(b, i) as u64) | ((get32(b, i + 4) as u64) << 32u64)
}

/// The 32-bit words of a float vector, each little-endian.
pub open spec fn words(v: Seq<u32>) -> Seq<u8>
    decreases v.len(),
{
    if v.len() == 0 {
        seq![]
    } else {
        words(v.drop_last()) + le32(v.last())
    }
}

/// The UTF-8 bytes of a string.
pub open spec fn utf8(s: Seq<char>) -> Seq<u8> {
    vstd::utf8::encode_utf8(s)
}

/// A string: its byte length in two bytes, then its UTF-8 bytes.
pub open spec fn enc_str(s: Seq<char>) -> Seq<u8> {
    le16(utf8(s).len() as u16) + utf8(s)
}

pub open spec fn bool_byte(b: bool) -> u8 {
    if b {
        1
    } else {
        0
    }
}

/// The bytes that the writer emits for a value.
pub open spec fn enc(d: BinData) -> Seq<u8>
    decreases d, 0nat,
{
    match d {
        BinData::Null => seq![],
        BinData::Bool(b) => seq![bool_byte(b)],
        BinData::SInt8(v) => seq![v as u8],
        BinData::UInt8(v) => seq![v],
        BinData::SInt16(v) => le16(v as u16),
        BinData::UInt16(v) => le16(v),
        BinData::SInt32(v) => le32(v as u32),
        BinData::UInt32(v) => le32(v),
        BinData::SInt64(v) => le64(v as u64),
        BinData::UInt64(v) => le64(v),
        BinData::Float32(v) => le32(v),
        BinData::Vector2(v) => words(v@),
        BinData::Vector3(v) => words(v@),
        BinData::Vector4(v) => words(v@),
        BinData::Matrix4x4(v) => words(v@),
        BinData::Rgba(v) => v@,
        BinData::String(s) => enc_str(s@),
        BinData::Hash(v) => le32(v),
        BinData::WadEntryLink(v) => le64(v),
        BinData::ContainerOrStruct(cs) => {
            let body = enc_items(cs.items@, cs.items@.len());
            seq![pack(cs.btype)] + le32((4 + body.len()) as u32) + le32(cs.items@.len() as u32)
                + body
        },
        BinData::PointerOrEmbedded(pe) => {
            if pe.name == 0 {
                le32(0)
            } else {
                let body = enc_fields(pe.items@, pe.items@.len());
                le32(pe.name) + le32((2 + body.len()) as u32) + le16(pe.items@.len() as u16) + body
            }
        },
        BinData::Optional(o) => match o.data {
            Some(x) => seq![pack(o.btype), 1u8] + enc(*x),
            None => seq![pack(o.btype), 0u8],
        },
        BinData::Link(v) => le32(v),
        BinData::Mapping(m) => {
            let body = enc_pairs(m.items@, m.items@.len());
            seq![pack(m.keytype), pack(m.valuetype)] + le32((4 + body.len()) as u32) + le32(
                m.items@.len() as u32,
            ) + body
        },
        BinData::Flag(b) => seq![bool_byte(b)],
    }
}

/// The first `n` values of `s`, one after another.
pub open spec fn enc_items(s: Seq<BinData>, n: nat) -> Seq<u8>
    decreases s, n,
{
    if n == 0 || n > s.len() {
        seq![]
    } else {
        enc_items(s, (n - 1) as nat) + enc(s[n - 1])
    }
}

/// A field: its name, its packed kind, its value.
pub open spec fn enc_field(f: BinField) -> Seq<u8>
    decreases f, 0nat,
{
    le32(f.name) + seq![pack(f.btype)] + enc(*f.data)
}

/// The first `n` fields of `s`, one after another.
pub open spec fn enc_fields(s: Seq<BinField>, n: nat) -> Seq<u8>
    decreases s, n,
{
    if n == 0 || n > s.len() {
        seq![]
    } else {
        enc_fields(s, (n - 1) as nat) + enc_field(s[n - 1])
    }
}

/// The first `n` pairs of `s`, each key then value.
pub open spec fn enc_pairs(s: Seq<MapPair>, n: nat) -> Seq<u8>
    decreases s, n,
{
    if n == 0 || n > s.len() {
        seq![]
    } else {
        enc_pairs(s, (n - 1) as nat) + enc(*s[n - 1].keydata) + enc(*s[n - 1].valuedata)
    }
}

} // verus!

verus! {

/// Whether the writer can lay a value out: fixed-width vectors have their
/// widths, the null record has no fields, a string's bytes and a record's
/// field count fit in 16 bits, and item counts in 32.
pub open spec fn shape_ok(d: BinData) -> bool
    decreases d,
{
    match d {
        BinData::Vector2(v) => v@.len() == 2,
        BinData::Vector3(v) => v@.len() == 3,
        BinData::Vector4(v) => v@.len() == 4,
        BinData::Matrix4x4(v) => v@.len() == 16,
        BinData::Rgba(v) => v@.len() == 4,
        BinData::String(s) => utf8(s@).len() <= 0xffff,
        BinData::ContainerOrStruct(cs) => cs.items@.len() <= 0xffff_ffff && forall|i: int|
            0 <= i < cs.items@.len() ==> shape_ok(#[trigger] cs.items@[i]),
        BinData::PointerOrEmbedded(pe) => (pe.name == 0 ==> pe.items@.len() == 0)
            && pe.items@.len() <= 0xffff && forall|i: int|
            0 <= i < pe.items@.len() ==> shape_ok(*(#[trigger] pe.items@[i]).data),
        BinData::Optional(o) => match o.data {
            Some(x) => shape_ok(*x),
            None => true,
        },
        BinData::Mapping(m) => m.items@.len() <= 0xffff_ffff && forall|i: int|
            0 <= i < m.items@.len() ==> shape_ok(*(#[trigger] m.items@[i]).keydata) && shape_ok(
                *m.items@[i].valuedata,
            ),
        _ => true,
    }
}

/// A value that the writer lays out, with every length field in range.
pub open spec fn writable(d: BinData) -> bool {
    shape_ok(d) && enc(d).len() <= 0xffff_ffff
}

pub proof fn lemma_words_len(v: Seq<u32>)
    ensures
        words(v).len() == 4 * v.len(),
    decreases v.len(),
{
    if v.len() > 0 {
        lemma_words_len(v.drop_last());
    }
}

/// A prefix of the items is no longer than the whole, and an item together
/// with what precedes it no longer than the whole.
pub proof fn lemma_items_len(s: Seq<BinData>, i: nat, n: nat)
    requires
        i <= n <= s.len(),
    ensures
        enc_items(s, i).len() <= enc_items(s, n).len(),
        i < n ==> enc_items(s, i).len() + enc(s[i as int]).len() <= enc_items(s, n).len(),
    decreases n - i,
{
    if i < n {
        lemma_items_len(s, i + 1, n);
    }
}

pub proof fn lemma_fields_len(s: Seq<BinField>, i: nat, n: nat)
    requires
        i <= n <= s.len(),
    ensures
        enc_fields(s, i).len() <= enc_fields(s, n).len(),
        i < n ==> enc_fields(s, i).len() + enc_field(s[i as int]).len() <= enc_fields(s, n).len(),
    decreases n - i,
{
    if i < n {
        lemma_fields_len(s, i + 1, n);
    }
}

pub proof fn lemma_pairs_len(s: Seq<MapPair>, i: nat, n: nat)
    requires
        i <= n <= s.len(),
    ensures
        enc_pairs(s, i).len() <= enc_pairs(s, n).len(),
        i < n ==> enc_pairs(s, i).len() + enc(*s[i as int].keydata).len() + enc(
            *s[i as int].valuedata,
        ).len() <= enc_pairs(s, n).len(),
    decreases n - i,
{
    if i < n {
        lemma_pairs_len(s, i + 1, n);
    }
}

} // verus!

verus! {

pub open spec fn sig_ptch() -> Seq<u8> {
    seq![0x50u8, 0x54u8, 0x43u8, 0x48u8]
}

pub open spec fn sig_prop() -> Seq<u8> {
    seq![0x50u8, 0x52u8, 0x4Fu8, 0x50u8]
}

/// The first `n` dependency names, each as a string.
pub open spec fn enc_strs(s: Seq<String>, n: nat) -> Seq<u8>
    decreases n,
{
    if n == 0 || n > s.len() {
        seq![]
    } else {
        enc_strs(s, (n - 1) as nat) + enc_str(s[n - 1]@)
    }
}

/// The name hash that keys an entry or patch.
pub open spec fn entry_key(p: MapPair) -> u32 {
    match *p.keydata {
        BinData::Hash(h) => h,
        _ => 0,
    }
}

/// The declared record type of an entry.
pub open spec fn entry_type(p: MapPair) -> u32 {
    match *p.valuedata {
        BinData::PointerOrEmbedded(pe) => pe.name,
        _ => 0,
    }
}

/// The fields of an entry's or patch's record.
pub open spec fn entry_fields(p: MapPair) -> Seq<BinField> {
    match *p.valuedata {
        BinData::PointerOrEmbedded(pe) => pe.items@,
        _ => seq![],
    }
}

/// An entry body: its length, its key, its field count, its fields.
pub open spec fn enc_entry(p: MapPair) -> Seq<u8> {
    let f = entry_fields(p);
    let body = enc_fields(f, f.len());
    le32((6 + body.len()) as u32) + le32(entry_key(p)) + le16(f.len() as u16) + body
}

/// The declared record types of the first `n` entries.
pub open spec fn enc_entry_types(s: Seq<MapPair>, n: nat) -> Seq<u8>
    decreases n,
{
    if n == 0 || n > s.len() {
        seq![]
    } else {
        enc_entry_types(s, (n - 1) as nat) + le32(entry_type(s[n - 1]))
    }
}

/// The bodies of the first `n` entries.
pub open spec fn enc_entries(s: Seq<MapPair>, n: nat) -> Seq<u8>
    decreases n,
{
    if n == 0 || n > s.len() {
        seq![]
    } else {
        enc_entries(s, (n - 1) as nat) + enc_entry(s[n - 1])
    }
}

/// A patch: its key, its length, the kind of the replacement value, the path
/// string and the replacement value.
pub open spec fn enc_patch(p: MapPair) -> Seq<u8> {
    let f = entry_fields(p);
    let body = seq![pack(f[1].btype)] + enc(*f[0].data) + enc(*f[1].data);
    le32(entry_key(p)) + le32(body.len() as u32) + body
}

pub open spec fn enc_patches(s: Seq<MapPair>, n: nat) -> Seq<u8>
    decreases n,
{
    if n == 0 || n > s.len() {
        seq![]
    } else {
        enc_patches(s, (n - 1) as nat) + enc_patch(s[n - 1])
    }
}

/// The bytes of a whole archive.
pub open spec fn enc_file(f: BinFile) -> Seq<u8> {
    let head = if f.is_patch {
        sig_ptch() + match f.unknown {
            Some(u) => le64(u),
            None => seq![],
        }
    } else {
        seq![]
    };
    let deps = if f.version >= 2 {
        le32(f.linked_list@.len() as u32) + enc_strs(f.linked_list@, f.linked_list@.len())
    } else {
        seq![]
    };
    let ents = f.entries.items@;
    let main = le32(ents.len() as u32) + enc_entry_types(ents, ents.len()) + enc_entries(
        ents,
        ents.len(),
    );
    let tail = if f.is_patch {
        match f.patches {
            Some(m) => le32(m.items@.len() as u32) + enc_patches(m.items@, m.items@.len()),
            None => seq![],
        }
    } else {
        seq![]
    };
    head + sig_prop() + le32(f.version) + deps + main + tail
}

/// An entry that the writer lays out: keyed by a name hash, valued by a
/// record whose fields it can lay out, within the length field's range.
pub open spec fn entry_ok(p: MapPair) -> bool {
    &&& *p.keydata is Hash
    &&& *p.valuedata is PointerOrEmbedded
    &&& entry_fields(p).len() <= 0xffff
    &&& forall|i: int|
        0 <= i < entry_fields(p).len() ==> shape_ok(*(#[trigger] entry_fields(p)[i]).data)
    &&& 6 + enc_fields(entry_fields(p), entry_fields(p).len()).len() <= 0xffff_ffff
}

/// A patch that the writer lays out: keyed by a name hash, valued by a record
/// with at least a path field and a value field, within range.
pub open spec fn patch_ok(p: MapPair) -> bool {
    &&& *p.keydata is Hash
    &&& *p.valuedata is PointerOrEmbedded
    &&& entry_fields(p).len() >= 2
    &&& shape_ok(*entry_fields(p)[0].data)
    &&& shape_ok(*entry_fields(p)[1].data)
    &&& 1 + enc(*entry_fields(p)[0].data).len() + enc(*entry_fields(p)[1].data).len()
        <= 0xffff_ffff
}

/// An archive that the writer lays out.
pub open spec fn file_writable(f: BinFile) -> bool {
    &&& f.version >= 2 ==> f.linked_list@.len() <= 0xffff_ffff && forall|i: int|
        0 <= i < f.linked_list@.len() ==> utf8((#[trigger] f.linked_list@[i])@).len() <= 0xffff
    &&& f.entries.items@.len() <= 0xffff_ffff
    &&& forall|i: int| 0 <= i < f.entries.items@.len() ==> entry_ok(#[trigger] f.entries.items@[i])
    &&& f.is_patch ==> match f.patches {
        Some(m) => m.items@.len() <= 0xffff_ffff && forall|i: int|
            0 <= i < m.items@.len() ==> patch_ok(#[trigger] m.items@[i]),
        None => false,
    }
}

} // verus!

verus! {

/// Whether the `k`-th 32-bit word of `v` is the one at `pos + 4k`, for all `k`.
pub open spec fn words_at(b: Seq<u8>, pos: int, v: Seq<u32>) -> bool {
    &&& pos + 4 * v.len() <= b.len()
    &&& forall|k: int| 0 <= k < v.len() ==> #[trigger] v[k] == get32(b, pos + 4 * k)
}

/// Where a value `d` of kind `t` that starts at `pos` ends, if the bytes
/// there read as `d`; `None` if they do not.
pub open spec fn reads(b: Seq<u8>, pos: int, t: BinType, d: BinData) -> Option<int>
    decreases d, 0nat,
{
    if !(0 <= pos <= b.len()) {
        None
    } else {
        match d {
            BinData::Null => if t == BinType::Null { Some(pos) } else { None },
            BinData::Bool(v) => if t == BinType::Bool && pos + 1 <= b.len() && (b[pos] != 0) == v {
                Some(pos + 1)
            } else {
                None
            },
            BinData::SInt8(v) => if t == BinType::SInt8 && pos + 1 <= b.len() && b[pos] as i8 == v {
                Some(pos + 1)
            } else {
                None
            },
            BinData::UInt8(v) => if t == BinType::UInt8 && pos + 1 <= b.len() && b[pos] == v {
                Some(pos + 1)
            } else {
                None
            },
            BinData::SInt16(v) => if t == BinType::SInt16 && pos + 2 <= b.len() && get16(b, pos)
                as i16 == v {
                Some(pos + 2)
            } else {
                None
            },
            BinData::UInt16(v) => if t == BinType::UInt16 && pos + 2 <= b.len() && get16(b, pos)
                == v {
                Some(pos + 2)
            } else {
                None
            },
            BinData::SInt32(v) => if t == BinType::SInt32 && pos + 4 <= b.len() && get32(b, pos)
                as i32 == v {
                Some(pos + 4)
            } else {
                None
            },
            BinData::UInt32(v) => if t == BinType::UInt32 && pos + 4 <= b.len() && get32(b, pos)
                == v {
                Some(pos + 4)
            } else {
                None
            },
            BinData::SInt64(v) => if t == BinType::SInt64 && pos + 8 <= b.len() && get64(b, pos)
                as i64 == v {
                Some(pos + 8)
            } else {
                None
            },
            BinData::UInt64(v) => if t == BinType::UInt64 && pos + 8 <= b.len() && get64(b, pos)
                == v {
                Some(pos + 8)
            } else {
                None
            },
            BinData::Float32(v) => if t == BinType::Float32 && pos + 4 <= b.len() && get32(b, pos)
                == v {
                Some(pos + 4)
            } else {
                None
            },
            BinData::Vector2(v) => if t == BinType::Vector2 && v@.len() == 2 && words_at(
                b,
                pos,
                v@,
            ) {
                Some(pos + 8)
            } else {
                None
            },
            BinData::Vector3(v) => if t == BinType::Vector3 && v@.len() == 3 && words_at(
                b,
                pos,
                v@,
            ) {
                Some(pos + 12)
            } else {
                None
            },
            BinData::Vector4(v) => if t == BinType::Vector4 && v@.len() == 4 && words_at(
                b,
                pos,
                v@,
            ) {
                Some(pos + 16)
            } else {
                None
            },
            BinData::Matrix4x4(v) => if t == BinType::Matrix4x4 && v@.len() == 16 && words_at(
                b,
                pos,
                v@,
            ) {
                Some(pos + 64)
            } else {
                None
            },
            BinData::Rgba(v) => if t == BinType::Rgba && pos + 4 <= b.len() && v@ == b.subrange(
                pos,
                pos + 4,
            ) {
                Some(pos + 4)
            } else {
                None
            },
            BinData::String(s) => if t == BinType::String {
                reads_str(b, pos, s@)
            } else {
                None
            },
            BinData::Hash(v) => if t == BinType::Hash && pos + 4 <= b.len() && get32(b, pos) == v {
                Some(pos + 4)
            } else {
                None
            },
            BinData::WadEntryLink(v) => if t == BinType::WadEntryLink && pos + 8 <= b.len() && get64(
                b,
                pos,
            ) == v {
                Some(pos + 8)
            } else {
                None
            },
            BinData::ContainerOrStruct(cs) => {
                if (t == BinType::Container || t == BinType::Struct) && pos + 9 <= b.len() && unpack(
                    b[pos],
                ) == Some(cs.btype) && get32(b, pos + 5) as int == cs.items@.len() {
                    match reads_items(b, pos + 9, cs.btype, cs.items@, cs.items@.len()) {
                        Some(e) => if e - (pos + 5) == get32(b, pos + 1) as int {
                            Some(e)
                        } else {
                            None
                        },
                        None => None,
                    }
                } else {
                    None
                }
            },
            BinData::PointerOrEmbedded(pe) => {
                if (t == BinType::Pointer || t == BinType::Embedded) && pos + 4 <= b.len() && get32(
                    b,
                    pos,
                ) == pe.name {
                    if pe.name == 0 {
                        if pe.items@.len() == 0 {
                            Some(pos + 4)
                        } else {
                            None
                        }
                    } else if pos + 10 <= b.len() && get16(b, pos + 8) as int == pe.items@.len() {
                        match reads_fields(b, pos + 10, pe.items@, pe.items@.len()) {
                            Some(e) => if e - (pos + 8) == get32(b, pos + 4) as int {
                                Some(e)
                            } else {
                                None
                            },
                            None => None,
                        }
                    } else {
                        None
                    }
                } else {
                    None
                }
            },
            BinData::Optional(o) => {
                if t == BinType::Optional && pos + 2 <= b.len() && unpack(b[pos]) == Some(o.btype) {
                    match o.data {
                        Some(x) => if b[pos + 1] != 0 {
                            reads(b, pos + 2, o.btype, *x)
                        } else {
                            None
                        },
                        None => if b[pos + 1] == 0 {
                            Some(pos + 2)
                        } else {
                            None
                        },
                    }
                } else {
                    None
                }
            },
            BinData::Link(v) => if t == BinType::Link && pos + 4 <= b.len() && get32(b, pos) == v {
                Some(pos + 4)
            } else {
                None
            },
            BinData::Mapping(m) => {
                if t == BinType::Mapping && pos + 10 <= b.len() && unpack(b[pos]) == Some(m.keytype)
                    && unpack(b[pos + 1]) == Some(m.valuetype) && get32(b, pos + 6) as int
                    == m.items@.len() {
                    match reads_pairs(b, pos + 10, m.keytype, m.valuetype, m.items@, m.items@.len()) {
                        Some(e) => if e - (pos + 6) == get32(b, pos + 2) as int {
                            Some(e)
                        } else {
                            None
                        },
                        None => None,
                    }
                } else {
                    None
                }
            },
            BinData::Flag(v) => if t == BinType::Flag && pos + 1 <= b.len() && (b[pos] != 0) == v {
                Some(pos + 1)
            } else {
                None
            },
        }
    }
}

/// Where a string `s` that starts at `pos` ends: a 16-bit byte length, then
/// exactly the UTF-8 bytes of `s`.
pub open spec fn reads_str(b: Seq<u8>, pos: int, s: Seq<char>) -> Option<int> {
    if 0 <= pos && pos + 2 <= b.len() && pos + 2 + get16(b, pos) <= b.len() && b.subrange(
        pos + 2,
        pos + 2 + get16(b, pos),
    ) == utf8(s) {
        Some(pos + 2 + get16(b, pos))
    } else {
        None
    }
}

/// Where the first `n` items of `s`, each of kind `t`, end when read from `pos`.
pub open spec fn reads_items(b: Seq<u8>, pos: int, t: BinType, s: Seq<BinData>, n: nat) -> Option<
    int,
>
    decreases s, n,
{
    if n > s.len() {
        None
    } else if n == 0 {
        Some(pos)
    } else {
        match reads_items(b, pos, t, s, (n - 1) as nat) {
            Some(e) => reads(b, e, t, s[n - 1]),
            None => None,
        }
    }
}

/// Where a field `f` that starts at `pos` ends: its name, its packed kind, its value.
pub open spec fn reads_field(b: Seq<u8>, pos: int, f: BinField) -> Option<int>
    decreases f, 0nat,
{
    if 0 <= pos && pos + 5 <= b.len() && get32(b, pos) == f.name && unpack(b[pos + 4]) == Some(
        f.btype,
    ) {
        reads(b, pos + 5, f.btype, *f.data)
    } else {
        None
    }
}

pub open spec fn reads_fields(b: Seq<u8>, pos: int, s: Seq<BinField>, n: nat) -> Option<int>
    decreases s, n,
{
    if n > s.len() {
        None
    } else if n == 0 {
        Some(pos)
    } else {
        match reads_fields(b, pos, s, (n - 1) as nat) {
            Some(e) => reads_field(b, e, s[n - 1]),
            None => None,
        }
    }
}

pub open spec fn reads_pairs(
    b: Seq<u8>,
    pos: int,
    kt: BinType,
    vt: BinType,
    s: Seq<MapPair>,
    n: nat,
) -> Option<int>
    decreases s, n,
{
    if n > s.len() {
        None
    } else if n == 0 {
        Some(pos)
    } else {
        match reads_pairs(b, pos, kt, vt, s, (n - 1) as nat) {
            Some(e) => match reads(b, e, kt, *s[n - 1].keydata) {
                Some(e2) => reads(b, e2, vt, *s[n - 1].valuedata),
                None => None,
            },
            None => None,
        }
    }
}

} // verus!

verus! {

/// Reading the first `n` items looks only at those items.
pub proof fn lemma_reads_items_prefix(
    b: Seq<u8>,
    pos: int,
    t: BinType,
    s1: Seq<BinData>,
    s2: Seq<BinData>,
    n: nat,
)
    requires
        n <= s1.len(),
        n <= s2.len(),
        s1.take(n as int) == s2.take(n as int),
    ensures
        reads_items(b, pos, t, s1, n) == reads_items(b, pos, t, s2, n),
    decreases n,
{
    if n > 0 {
        assert(s1.take(n - 1) =~= s1.take(n as int).take(n - 1));
        assert(s2.take(n - 1) =~= s2.take(n as int).take(n - 1));
        assert(s1[n - 1] == s1.take(n as int)[n - 1]);
        assert(s2[n - 1] == s2.take(n as int)[n - 1]);
        lemma_reads_items_prefix(b, pos, t, s1, s2, (n - 1) as nat);
    }
}

pub proof fn lemma_reads_fields_prefix(
    b: Seq<u8>,
    pos: int,
    s1: Seq<BinField>,
    s2: Seq<BinField>,
    n: nat,
)
    requires
        n <= s1.len(),
        n <= s2.len(),
        s1.take(n as int) == s2.take(n as int),
    ensures
        reads_fields(b, pos, s1, n) == reads_fields(b, pos, s2, n),
    decreases n,
{
    if n > 0 {
        assert(s1.take(n - 1) =~= s1.take(n as int).take(n - 1));
        assert(s2.take(n - 1) =~= s2.take(n as int).take(n - 1));
        assert(s1[n - 1] == s1.take(n as int)[n - 1]);
        assert(s2[n - 1] == s2.take(n as int)[n - 1]);
        lemma_reads_fields_prefix(b, pos, s1, s2, (n - 1) as nat);
    }
}

pub proof fn lemma_reads_pairs_prefix(
    b: Seq<u8>,
    pos: int,
    kt: BinType,
    vt: BinType,
    s1: Seq<MapPair>,
    s2: Seq<MapPair>,
    n: nat,
)
    requires
        n <= s1.len(),
        n <= s2.len(),
        s1.take(n as int) == s2.take(n as int),
    ensures
        reads_pairs(b, pos, kt, vt, s1, n) == reads_pairs(b, pos, kt, vt, s2, n),
    decreases n,
{
    if n > 0 {
        assert(s1.take(n - 1) =~= s1.take(n as int).take(n - 1));
        assert(s2.take(n - 1) =~= s2.take(n as int).take(n - 1));
        assert(s1[n - 1] == s1.take(n as int)[n - 1]);
        assert(s2[n - 1] == s2.take(n as int)[n - 1]);
        lemma_reads_pairs_prefix(b, pos, kt, vt, s1, s2, (n - 1) as nat);
    }
}

} // verus!

verus! {

/// Where `n` dependency names read from `pos` end.
pub open spec fn reads_strs(b: Seq<u8>, pos: int, s: Seq<String>, n: nat) -> Option<int>
    decreases n,
{
    if n > s.len() {
        None
    } else if n == 0 {
        Some(pos)
    } else {
        match reads_strs(b, pos, s, (n - 1) as nat) {
            Some(e) => reads_str(b, e, s[n - 1]@),
            None => None,
        }
    }
}

/// Where an entry body read from `pos` ends: the entry is keyed by the name
/// hash there, its record has the declared type `ty`, and the length field
/// counts exactly the key, the field count and the fields.
pub open spec fn reads_entry(b: Seq<u8>, pos: int, ty: u32, p: MapPair) -> Option<int> {
    match (*p.keydata, *p.valuedata) {
        (BinData::Hash(h), BinData::PointerOrEmbedded(pe)) => {
            if 0 <= pos && pos + 10 <= b.len() && get32(b, pos + 4) == h && pe.name == ty && get16(
                b,
                pos + 8,
            ) as int == pe.items@.len() {
                match reads_fields(b, pos + 10, pe.items@, pe.items@.len()) {
                    Some(e) => if e - (pos + 4) == get32(b, pos) as int {
                        Some(e)
                    } else {
                        None
                    },
                    None => None,
                }
            } else {
                None
            }
        },
        _ => None,
    }
}

/// Where the first `n` entry bodies read from `pos` end, entry `i` having
/// the record type declared at `types + 4i`.
pub open spec fn reads_entries(b: Seq<u8>, pos: int, types: int, s: Seq<MapPair>, n: nat) -> Option<
    int,
>
    decreases n,
{
    if n > s.len() {
        None
    } else if n == 0 {
        Some(pos)
    } else {
        match reads_entries(b, pos, types, s, (n - 1) as nat) {
            Some(e) => if types + 4 * n <= b.len() {
                reads_entry(b, e, get32(b, types + 4 * (n - 1)), s[n - 1])
            } else {
                None
            },
            None => None,
        }
    }
}

/// Where a patch read from `pos` ends. Its record is the synthetic two-field
/// one: a path string and a replacement value of the kind given in the patch.
pub open spec fn reads_patch(b: Seq<u8>, pos: int, p: MapPair) -> Option<int> {
    match (*p.keydata, *p.valuedata) {
        (BinData::Hash(h), BinData::PointerOrEmbedded(pe)) => {
            if 0 <= pos && pos + 9 <= b.len() && get32(b, pos) == h && pe.name == PATCH_HASH
                && pe.items@.len() == 2 && pe.items@[0].name == PATH_HASH && pe.items@[0].btype
                == BinType::String && pe.items@[1].name == VALUE_HASH && unpack(b[pos + 8]) == Some(
                pe.items@[1].btype,
            ) {
                match *pe.items@[0].data {
                    BinData::String(path) => match reads_str(b, pos + 9, path@) {
                        Some(e1) => match reads(b, e1, pe.items@[1].btype, *pe.items@[1].data) {
                            Some(e2) => if e2 - (pos + 8) == get32(b, pos + 4) as int {
                                Some(e2)
                            } else {
                                None
                            },
                            None => None,
                        },
                        None => None,
                    },
                    _ => None,
                }
            } else {
                None
            }
        },
        _ => None,
    }
}

pub open spec fn reads_patches(b: Seq<u8>, pos: int, s: Seq<MapPair>, n: nat) -> Option<int>
    decreases n,
{
    if n > s.len() {
        None
    } else if n == 0 {
        Some(pos)
    } else {
        match reads_patches(b, pos, s, (n - 1) as nat) {
            Some(e) => reads_patch(b, e, s[n - 1]),
            None => None,
        }
    }
}

/// Where the signatures, version and dependency names end.
pub open spec fn head_end(
    b: Seq<u8>,
    is_patch: bool,
    unknown: Option<u64>,
    version: u32,
    list: Seq<String>,
) -> Option<int> {
    let base: int = if is_patch {
        12
    } else {
        0
    };
    if (is_patch <==> (b.len() >= 4 && b.subrange(0, 4) == sig_ptch())) && (is_patch ==> b.len()
        >= 12 && unknown == Some(get64(b, 4))) && (!is_patch ==> unknown is None) && b.len()
        >= base + 8 && b.subrange(base, base + 4) == sig_prop() && version == get32(b, base + 4) {
        if version >= 2 {
            if base + 12 <= b.len() && get32(b, base + 8) as int == list.len() {
                reads_strs(b, base + 12, list, list.len())
            } else {
                None
            }
        } else if list.len() == 0 {
            Some(base + 8)
        } else {
            None
        }
    } else {
        None
    }
}

/// Where the entry count, the declared types and the entry bodies that start
/// at `pos` end.
pub open spec fn entries_end(b: Seq<u8>, pos: int, m: BinMap) -> Option<int> {
    let n = m.items@.len();
    if m.keytype == BinType::Hash && m.valuetype == BinType::Embedded && 0 <= pos && pos + 4
        <= b.len() && get32(b, pos) as int == n && pos + 4 + 4 * n <= b.len() {
        reads_entries(b, pos + 4 + 4 * n, pos + 4, m.items@, n)
    } else {
        None
    }
}

/// Where the patch count and patches that start at `pos` end.
pub open spec fn patches_end(b: Seq<u8>, pos: int, m: BinMap) -> Option<int> {
    let n = m.items@.len();
    if m.keytype == BinType::Hash && m.valuetype == BinType::Embedded && 0 <= pos && pos + 4
        <= b.len() && get32(b, pos) as int == n {
        reads_patches(b, pos + 4, m.items@, n)
    } else {
        None
    }
}

/// Whether the bytes read as the archive `f`: signatures, version,
/// dependency names, entries, and for a patch archive its patches. Bytes
/// after those are not looked at.
pub open spec fn file_reads(b: Seq<u8>, f: BinFile) -> bool {
    match head_end(b, f.is_patch, f.unknown, f.version, f.linked_list@) {
        Some(pb) => match entries_end(b, pb, f.entries) {
            Some(pc) => if f.is_patch {
                match f.patches {
                    Some(m) => patches_end(b, pc, m) is Some,
                    None => false,
                }
            } else {
                f.patches is None
            },
            None => false,
        },
        None => false,
    }
}

} // verus!

verus! {

pub proof fn lemma_reads_strs_prefix(b: Seq<u8>, pos: int, s1: Seq<String>, s2: Seq<String>, n: nat)
    requires
        n <= s1.len(),
        n <= s2.len(),
        s1.take(n as int) == s2.take(n as int),
    ensures
        reads_strs(b, pos, s1, n) == reads_strs(b, pos, s2, n),
    decreases n,
{
    if n > 0 {
        assert(s1.take(n - 1) =~= s1.take(n as int).take(n - 1));
        assert(s2.take(n - 1) =~= s2.take(n as int).take(n - 1));
        assert(s1[n - 1] == s1.take(n as int)[n - 1]);
        assert(s2[n - 1] == s2.take(n as int)[n - 1]);
        lemma_reads_strs_prefix(b, pos, s1, s2, (n - 1) as nat);
    }
}

pub proof fn lemma_reads_entries_prefix(
    b: Seq<u8>,
    pos: int,
    types: int,
    s1: Seq<MapPair>,
    s2: Seq<MapPair>,
    n: nat,
)
    requires
        n <= s1.len(),
        n <= s2.len(),
        s1.take(n as int) == s2.take(n as int),
    ensures
        reads_entries(b, pos, types, s1, n) == reads_entries(b, pos, types, s2, n),
    decreases n,
{
    if n > 0 {
        assert(s1.take(n - 1) =~= s1.take(n as int).take(n - 1));
        assert(s2.take(n - 1) =~= s2.take(n as int).take(n - 1));
        assert(s1[n - 1] == s1.take(n as int)[n - 1]);
        assert(s2[n - 1] == s2.take(n as int)[n - 1]);
        lemma_reads_entries_prefix(b, pos, types, s1, s2, (n - 1) as nat);
    }
}

pub proof fn lemma_reads_patches_prefix(
    b: Seq<u8>,
    pos: int,
    s1: Seq<MapPair>,
    s2: Seq<MapPair>,
    n: nat,
)
    requires
        n <= s1.len(),
        n <= s2.len(),
        s1.take(n as int) == s2.take(n as int),
    ensures
        reads_patches(b, pos, s1, n) == reads_patches(b, pos, s2, n),
    decreases n,
{
    if n > 0 {
        assert(s1.take(n - 1) =~= s1.take(n as int).take(n - 1));
        assert(s2.take(n - 1) =~= s2.take(n as int).take(n - 1));
        assert(s1[n - 1] == s1.take(n as int)[n - 1]);
        assert(s2[n - 1] == s2.take(n as int)[n - 1]);
        lemma_reads_patches_prefix(b, pos, s1, s2, (n - 1) as nat);
    }
}

} // verus!

verus! {

pub proof fn lemma_get16_at(b: Seq<u8>, pos: int, v: u16)
    requires
        0 <= pos,
        pos + 2 <= b.len(),
        b.subrange(pos, pos + 2) == le16(v),
    ensures
        get16(b, pos) == v,
{
    let b0 = b[pos];
    let b1 = b[pos + 1];
    assert(b0 == b.subrange(pos, pos + 2)[0]);
    assert(b1 == b.subrange(pos, pos + 2)[1]);
    assert(((b0 as u16) | ((b1 as u16) << 8u16)) == v) by (bit_vector)
        requires
            b0 == (v & 0xff) as u8,
            b1 == (v >> 8u16) as u8,
    ;
}

pub proof fn lemma_get32_at(b: Seq<u8>, pos: int, v: u32)
    requires
        0 <= pos,
        pos + 4 <= b.len(),
        b.subrange(pos, pos + 4) == le32(v),
    ensures
        get32(b, pos) == v,
{
    let b0 = b[pos];
    let b1 = b[pos + 1];
    let b2 = b[pos + 2];
    let b3 = b[pos + 3];
    assert(b0 == b.subrange(pos, pos + 4)[0]);
    assert(b1 == b.subrange(pos, pos + 4)[1]);
    assert(b2 == b.subrange(pos, pos + 4)[2]);
    assert(b3 == b.subrange(pos, pos + 4)[3]);
    assert(((b0 as u32) | ((b1 as u32) << 8u32) | ((b2 as u32) << 16u32) | ((b3 as u32) << 24u32))
        == v) by (bit_vector)
        requires
            b0 == (v & 0xff) as u8,
            b1 == ((v >> 8u32) & 0xff) as u8,
            b2 == ((v >> 16u32) & 0xff) as u8,
            b3 == (v >> 24u32) as u8,
    ;
}

pub proof fn lemma_get64_at(b: Seq<u8>, pos: int, v: u64)
    requires
        0 <= pos,
        pos + 8 <= b.len(),
        b.subrange(pos, pos + 8) == le64(v),
    ensures
        get64(b, pos) == v,
{
    let lo = (v & 0xffff_ffff) as u32;
    let hi = (v >> 32u64) as u32;
    assert(b.subrange(pos, pos + 4) =~= b.subrange(pos, pos + 8).subrange(0, 4));
    assert(b.subrange(pos + 4, pos + 8) =~= b.subrange(pos, pos + 8).subrange(4, 8));
    assert(le64(v).subrange(0, 4) =~= le32(lo));
    assert(le64(v).subrange(4, 8) =~= le32(hi));
    lemma_get32_at(b, pos, lo);
    lemma_get32_at(b, pos + 4, hi);
    assert(((lo as u64) | ((hi as u64) << 32u64)) == v) by (bit_vector)
        requires
            lo == (v & 0xffff_ffff) as u32,
            hi == (v >> 32u64) as u32,
    ;
}

/// Every length field that the writer emits for a value counts exactly the
/// bytes of the region that follows it: a container's counts its item count
/// and items, a named record's its field count and fields, a map's its pair
/// count and pairs.
pub proof fn lemma_length_fields(d: BinData)
    requires
        writable(d),
    ensures
        d is ContainerOrStruct ==> get32(enc(d), 1) as int == enc(d).len() - 5,
        (d is PointerOrEmbedded && d->PointerOrEmbedded_0.name != 0) ==> get32(enc(d), 4) as int
            == enc(d).len() - 8,
        d is Mapping ==> get32(enc(d), 2) as int == enc(d).len() - 6,
{
    match d {
        BinData::ContainerOrStruct(cs) => {
            let body = enc_items(cs.items@, cs.items@.len());
            let e = enc(d);
            assert(e.subrange(1, 5) =~= le32((4 + body.len()) as u32));
            lemma_get32_at(e, 1, (4 + body.len()) as u32);
        },
        BinData::PointerOrEmbedded(pe) => {
            if pe.name != 0 {
                let body = enc_fields(pe.items@, pe.items@.len());
                let e = enc(d);
                assert(e.subrange(4, 8) =~= le32((2 + body.len()) as u32));
                lemma_get32_at(e, 4, (2 + body.len()) as u32);
            }
        },
        BinData::Mapping(m) => {
            let body = enc_pairs(m.items@, m.items@.len());
            let e = enc(d);
            assert(e.subrange(2, 6) =~= le32((4 + body.len()) as u32));
            lemma_get32_at(e, 2, (4 + body.len()) as u32);
        },
        _ => {},
    }
}

/// An entry body's length field counts exactly the key, the field count and
/// the fields after it.
pub proof fn lemma_entry_length_field(p: MapPair)
    requires
        entry_ok(p),
    ensures
        get32(enc_entry(p), 0) as int == enc_entry(p).len() - 4,
{
    let f = entry_fields(p);
    let body = enc_fields(f, f.len());
    let e = enc_entry(p);
    assert(e.subrange(0, 4) =~= le32((6 + body.len()) as u32));
    lemma_get32_at(e, 0, (6 + body.len()) as u32);
}

/// A patch's length field counts exactly the kind byte, the path and the
/// replacement value after it.
pub proof fn lemma_patch_length_field(p: MapPair)
    requires
        patch_ok(p),
    ensures
        get32(enc_patch(p), 4) as int == enc_patch(p).len() - 8,
{
    let f = entry_fields(p);
    let body = seq![pack(f[1].btype)] + enc(*f[0].data) + enc(*f[1].data);
    let e = enc_patch(p);
    assert(e.subrange(4, 8) =~= le32(body.len() as u32));
    lemma_get32_at(e, 4, body.len() as u32);
}

} // verus!

verus! {

/// Whether the bytes at `pos` read as some value of kind `t`.
pub open spec fn readable(b: Seq<u8>, pos: int, t: BinType) -> bool {
    exists|d: BinData| #[trigger] reads(b, pos, t, d) is Some
}

/// Reading a prefix of items that read succeeds too.
pub proof fn lemma_items_prefix_some(b: Seq<u8>, pos: int, t: BinType, s: Seq<BinData>, k: nat, n: nat)
    requires
        k <= n,
        reads_items(b, pos, t, s, n) is Some,
    ensures
        reads_items(b, pos, t, s, k) is Some,
    decreases n - k,
{
    if k < n {
        lemma_items_prefix_some(b, pos, t, s, k, (n - 1) as nat);
    }
}

pub proof fn lemma_fields_prefix_some(b: Seq<u8>, pos: int, s: Seq<BinField>, k: nat, n: nat)
    requires
        k <= n,
        reads_fields(b, pos, s, n) is Some,
    ensures
        reads_fields(b, pos, s, k) is Some,
    decreases n - k,
{
    if k < n {
        lemma_fields_prefix_some(b, pos, s, k, (n - 1) as nat);
    }
}

pub proof fn lemma_pairs_prefix_some(
    b: Seq<u8>,
    pos: int,
    kt: BinType,
    vt: BinType,
    s: Seq<MapPair>,
    k: nat,
    n: nat,
)
    requires
        k <= n,
        reads_pairs(b, pos, kt, vt, s, n) is Some,
    ensures
        reads_pairs(b, pos, kt, vt, s, k) is Some,
    decreases n - k,
{
    if k < n {
        lemma_pairs_prefix_some(b, pos, kt, vt, s, k, (n - 1) as nat);
    }
}

} // verus!

verus! {

/// Whether the bytes start with signatures, a version and dependency names.
pub open spec fn head_readable(b: Seq<u8>) -> bool {
    exists|h: (bool, Option<u64>, u32, Seq<String>)| #[trigger] head_end(b, h.0, h.1, h.2, h.3) is Some
}

pub proof fn lemma_strs_prefix_some(b: Seq<u8>, pos: int, s: Seq<String>, k: nat, n: nat)
    requires
        k <= n,
        reads_strs(b, pos, s, n) is Some,
    ensures
        reads_strs(b, pos, s, k) is Some,
    decreases n - k,
{
    if k < n {
        lemma_strs_prefix_some(b, pos, s, k, (n - 1) as nat);
    }
}

} // verus!

verus! {

pub proof fn lemma_entries_prefix_some(
    b: Seq<u8>,
    pos: int,
    types: int,
    s: Seq<MapPair>,
    k: nat,
    n: nat,
)
    requires
        k <= n,
        reads_entries(b, pos, types, s, n) is Some,
    ensures
        reads_entries(b, pos, types, s, k) is Some,
    decreases n - k,
{
    if k < n {
        lemma_entries_prefix_some(b, pos, types, s, k, (n - 1) as nat);
    }
}

pub proof fn lemma_patches_prefix_some(b: Seq<u8>, pos: int, s: Seq<MapPair>, k: nat, n: nat)
    requires
        k <= n,
        reads_patches(b, pos, s, n) is Some,
    ensures
        reads_patches(b, pos, s, k) is Some,
    decreases n - k,
{
    if k < n {
        lemma_patches_prefix_some(b, pos, s, k, (n - 1) as nat);
    }
}

} // verus!

verus! {

/// Where the contents of a container, named record or map of kind `t` at
/// `pos` end when they read, leaving its own length field unchecked: the
/// header is there, the kind bytes and count agree, and every item, field or
/// pair reads. `None` for other kinds and for the null record.
pub open spec fn region_contents(b: Seq<u8>, pos: int, t: BinType, d: BinData) -> Option<int> {
    if !(0 <= pos <= b.len()) {
        None
    } else {
        match d {
            BinData::ContainerOrStruct(cs) => if (t == BinType::Container || t == BinType::Struct)
                && pos + 9 <= b.len() && unpack(b[pos]) == Some(cs.btype) && get32(b, pos + 5) as int
                == cs.items@.len() {
                reads_items(b, pos + 9, cs.btype, cs.items@, cs.items@.len())
            } else {
                None
            },
            BinData::PointerOrEmbedded(pe) => if (t == BinType::Pointer || t == BinType::Embedded)
                && pos + 10 <= b.len() && get32(b, pos) == pe.name && pe.name != 0 && get16(
                b,
                pos + 8,
            ) as int == pe.items@.len() {
                reads_fields(b, pos + 10, pe.items@, pe.items@.len())
            } else {
                None
            },
            BinData::Mapping(m) => if t == BinType::Mapping && pos + 10 <= b.len() && unpack(b[pos])
                == Some(m.keytype) && unpack(b[pos + 1]) == Some(m.valuetype) && get32(b, pos + 6)
                as int == m.items@.len() {
                reads_pairs(b, pos + 10, m.keytype, m.valuetype, m.items@, m.items@.len())
            } else {
                None
            },
            _ => None,
        }
    }
}

/// Where the region that a length field counts starts, after `pos`.
pub open spec fn region_offset(t: BinType) -> int {
    if t == BinType::Container || t == BinType::Struct {
        5
    } else if t == BinType::Mapping {
        6
    } else {
        8
    }
}

/// Where the length field stands, after `pos`.
pub open spec fn length_field_offset(t: BinType) -> int {
    if t == BinType::Container || t == BinType::Struct {
        1
    } else if t == BinType::Mapping {
        2
    } else {
        4
    }
}

/// The error for a container, named record or map at `pos` whose contents
/// read but whose length field disagrees with the bytes they took: the
/// record's name (0 for the others), the declared and the actual length.
pub open spec fn length_mismatch(b: Seq<u8>, pos: int, t: BinType) -> Option<BinError> {
    if exists|d: BinData| #[trigger] region_contents(b, pos, t, d) is Some {
        let d = choose|d: BinData| #[trigger] region_contents(b, pos, t, d) is Some;
        let e = region_contents(b, pos, t, d)->0;
        let declared = get32(b, pos + length_field_offset(t));
        let actual = e - (pos + region_offset(t));
        if actual != declared as int {
            Some(
                BinError::LengthMismatch {
                    name: if t == BinType::Pointer || t == BinType::Embedded {
                        get32(b, pos)
                    } else {
                        0
                    },
                    declared,
                    actual: actual as usize,
                },
            )
        } else {
            None
        }
    } else {
        None
    }
}

/// The unknown kind byte, and where it stands, of the field that follows
/// `k` fields that read, in the named record at `pos`.
pub open spec fn field_kind_unknown_at(b: Seq<u8>, pos: int, fs: Seq<BinField>, k: nat) -> bool {
    &&& 0 <= pos && pos + 10 <= b.len()
    &&& get32(b, pos) != 0
    &&& k < get16(b, pos + 8)
    &&& k <= fs.len()
    &&& reads_fields(b, pos + 10, fs, k) is Some
    &&& reads_fields(b, pos + 10, fs, k)->0 + 5 <= b.len()
    &&& unpack(b[reads_fields(b, pos + 10, fs, k)->0 + 4]) is None
}

/// The error for a named record at `pos` one of whose fields, after fields
/// that read, has a kind byte that names no kind.
pub open spec fn field_kind_error(b: Seq<u8>, pos: int) -> Option<BinError> {
    if exists|w: (Seq<BinField>, nat)| #[trigger] field_kind_unknown_at(b, pos, w.0, w.1) {
        let w = choose|w: (Seq<BinField>, nat)| #[trigger] field_kind_unknown_at(b, pos, w.0, w.1);
        let c = reads_fields(b, pos + 10, w.0, w.1)->0;
        Some(BinError::UnknownType { byte: b[c + 4], offset: (c + 4) as usize })
    } else {
        None
    }
}

/// The error for a value of kind `t` at `pos` whose own kind bytes (element,
/// key, value or optional kind) name no kind while the header is there.
pub open spec fn nested_kind_error(b: Seq<u8>, pos: int, t: BinType) -> Option<BinError> {
    if !(0 <= pos) {
        None
    } else if (t == BinType::Container || t == BinType::Struct) && pos + 9 <= b.len() && unpack(
        b[pos],
    ) is None {
        Some(BinError::UnknownType { byte: b[pos], offset: pos as usize })
    } else if t == BinType::Optional && pos + 2 <= b.len() && unpack(b[pos]) is None {
        Some(BinError::UnknownType { byte: b[pos], offset: pos as usize })
    } else if t == BinType::Mapping && pos + 10 <= b.len() && unpack(b[pos]) is None {
        Some(BinError::UnknownType { byte: b[pos], offset: pos as usize })
    } else if t == BinType::Mapping && pos + 10 <= b.len() && unpack(b[pos + 1]) is None {
        Some(BinError::UnknownType { byte: b[pos + 1], offset: (pos + 1) as usize })
    } else if t == BinType::Pointer || t == BinType::Embedded {
        field_kind_error(b, pos)
    } else {
        None
    }
}

} // verus!

verus! {

/// Where an entry body at `pos` ends when its key, record type, field count
/// and fields read, leaving its length field unchecked.
pub open spec fn entry_contents(b: Seq<u8>, pos: int, ty: u32, p: MapPair) -> Option<int> {
    match (*p.keydata, *p.valuedata) {
        (BinData::Hash(h), BinData::PointerOrEmbedded(pe)) => {
            if 0 <= pos && pos + 10 <= b.len() && get32(b, pos + 4) == h && pe.name == ty && get16(
                b,
                pos + 8,
            ) as int == pe.items@.len() {
                reads_fields(b, pos + 10, pe.items@, pe.items@.len())
            } else {
                None
            }
        },
        _ => None,
    }
}

/// The error for an entry body at `pos` whose contents read but whose
/// length field disagrees with them: the entry's key, the declared and the
/// actual length.
pub open spec fn entry_mismatch(b: Seq<u8>, pos: int, ty: u32) -> Option<BinError> {
    if exists|p: MapPair| #[trigger] entry_contents(b, pos, ty, p) is Some {
        let p = choose|p: MapPair| #[trigger] entry_contents(b, pos, ty, p) is Some;
        let e = entry_contents(b, pos, ty, p)->0;
        if e - (pos + 4) != get32(b, pos) as int {
            Some(
                BinError::LengthMismatch {
                    name: get32(b, pos + 4),
                    declared: get32(b, pos),
                    actual: (e - (pos + 4)) as usize,
                },
            )
        } else {
            None
        }
    } else {
        None
    }
}

/// Where a patch at `pos` ends when its key, kind, path and value read,
/// leaving its length field unchecked.
pub open spec fn patch_contents(b: Seq<u8>, pos: int, p: MapPair) -> Option<int> {
    match (*p.keydata, *p.valuedata) {
        (BinData::Hash(h), BinData::PointerOrEmbedded(pe)) => {
            if 0 <= pos && pos + 9 <= b.len() && get32(b, pos) == h && pe.name == PATCH_HASH
                && pe.items@.len() == 2 && pe.items@[0].name == PATH_HASH && pe.items@[0].btype
                == BinType::String && pe.items@[1].name == VALUE_HASH && unpack(b[pos + 8]) == Some(
                pe.items@[1].btype,
            ) {
                match *pe.items@[0].data {
                    BinData::String(path) => match reads_str(b, pos + 9, path@) {
                        Some(e1) => reads(b, e1, pe.items@[1].btype, *pe.items@[1].data),
                        None => None,
                    },
                    _ => None,
                }
            } else {
                None
            }
        },
        _ => None,
    }
}

/// The error for a patch at `pos` whose contents read but whose length field
/// disagrees with them: the patch's key, the declared and the actual length.
pub open spec fn patch_mismatch(b: Seq<u8>, pos: int) -> Option<BinError> {
    if exists|p: MapPair| #[trigger] patch_contents(b, pos, p) is Some {
        let p = choose|p: MapPair| #[trigger] patch_contents(b, pos, p) is Some;
        let e = patch_contents(b, pos, p)->0;
        if e - (pos + 8) != get32(b, pos + 4) as int {
            Some(
                BinError::LengthMismatch {
                    name: get32(b, pos),
                    declared: get32(b, pos + 4),
                    actual: (e - (pos + 8)) as usize,
                },
            )
        } else {
            None
        }
    } else {
        None
    }
}

/// The first `k` entry bodies after the count at `pos` read, and entry `k`'s
/// contents read with a wrong length field.
pub open spec fn entry_wrong_at(b: Seq<u8>, pos: int, s: Seq<MapPair>, k: nat) -> bool {
    let n = get32(b, pos) as int;
    &&& 0 <= pos && pos + 4 <= b.len()
    &&& pos + 4 + 4 * n <= b.len()
    &&& k < n
    &&& k <= s.len()
    &&& reads_entries(b, pos + 4 + 4 * n, pos + 4, s, k) is Some
    &&& entry_mismatch(
        b,
        reads_entries(b, pos + 4 + 4 * n, pos + 4, s, k)->0,
        get32(b, pos + 4 + 4 * k),
    ) is Some
}

/// The error for the entries at `pos` when an entry, after entries that
/// read, has a wrong length field.
pub open spec fn entries_error(b: Seq<u8>, pos: int) -> Option<BinError> {
    if exists|x: (Seq<MapPair>, nat)| #[trigger] entry_wrong_at(b, pos, x.0, x.1) {
        let x = choose|x: (Seq<MapPair>, nat)| #[trigger] entry_wrong_at(b, pos, x.0, x.1);
        let n = get32(b, pos) as int;
        entry_mismatch(
            b,
            reads_entries(b, pos + 4 + 4 * n, pos + 4, x.0, x.1)->0,
            get32(b, pos + 4 + 4 * x.1),
        )
    } else {
        None
    }
}

/// The first `k` patches after the count at `pos` read, and patch `k`'s
/// contents read with a wrong length field.
pub open spec fn patch_wrong_at(b: Seq<u8>, pos: int, s: Seq<MapPair>, k: nat) -> bool {
    &&& 0 <= pos && pos + 4 <= b.len()
    &&& k < get32(b, pos)
    &&& k <= s.len()
    &&& reads_patches(b, pos + 4, s, k) is Some
    &&& patch_mismatch(b, reads_patches(b, pos + 4, s, k)->0) is Some
}

/// The error for the patches at `pos` when a patch, after patches that read,
/// has a wrong length field.
pub open spec fn patches_error(b: Seq<u8>, pos: int) -> Option<BinError> {
    if exists|x: (Seq<MapPair>, nat)| #[trigger] patch_wrong_at(b, pos, x.0, x.1) {
        let x = choose|x: (Seq<MapPair>, nat)| #[trigger] patch_wrong_at(b, pos, x.0, x.1);
        patch_mismatch(b, reads_patches(b, pos + 4, x.0, x.1)->0)
    } else {
        None
    }
}

/// The error for an archive whose head reads and one of whose entries, or,
/// once all entries read, one of whose patches, after those before it that
/// read, has a wrong length field.
pub open spec fn file_length_error(b: Seq<u8>) -> Option<BinError> {
    if head_readable(b) {
        let h = choose|h: (bool, Option<u64>, u32, Seq<String>)| #[trigger] head_end(
            b,
            h.0,
            h.1,
            h.2,
            h.3,
        ) is Some;
        let at = head_end(b, h.0, h.1, h.2, h.3)->0;
        if entries_error(b, at) is Some {
            entries_error(b, at)
        } else if h.0 && exists|m: BinMap| #[trigger] entries_end(b, at, m) is Some {
            let m = choose|m: BinMap| #[trigger] entries_end(b, at, m) is Some;
            patches_error(b, entries_end(b, at, m)->0)
        } else {
            None
        }
    } else {
        None
    }
}

} // verus!

verus! {

/// Which error the writer reports for an entry, if any: a key that is not a
/// name hash, a value that is not a named record, more fields than a 16-bit
/// count holds or a field value it cannot lay out, or a body too long for its
/// length field.
pub open spec fn entry_error(p: MapPair) -> Option<BinError> {
    let f = entry_fields(p);
    if !(*p.keydata is Hash) {
        Some(BinError::KeyNotHash)
    } else if !(*p.valuedata is PointerOrEmbedded) {
        Some(BinError::NotARecord)
    } else if f.len() > 0xffff {
        Some(BinError::BadShape)
    } else if exists|j: int| 0 <= j < f.len() && !writable(*(#[trigger] f[j]).data) {
        Some(BinError::BadShape)
    } else if 6 + enc_fields(f, f.len()).len() > 0xffff_ffff {
        Some(BinError::TooLarge)
    } else {
        None
    }
}

/// Which error the writer reports for a patch, if any: a key that is not a
/// name hash, a value that is not a named record, a record without its path
/// and value fields, a path or value it cannot lay out, or a body too long
/// for its length field.
pub open spec fn patch_error(p: MapPair) -> Option<BinError> {
    let f = entry_fields(p);
    if !(*p.keydata is Hash) {
        Some(BinError::KeyNotHash)
    } else if !(*p.valuedata is PointerOrEmbedded) {
        Some(BinError::NotARecord)
    } else if f.len() < 2 {
        Some(BinError::MalformedPatch)
    } else if !writable(*f[0].data) || !writable(*f[1].data) {
        Some(BinError::BadShape)
    } else if 1 + enc(*f[0].data).len() + enc(*f[1].data).len() > 0xffff_ffff {
        Some(BinError::TooLarge)
    } else {
        None
    }
}

/// The error of the first of the first `n` entries that has one.
pub open spec fn entries_write_error(s: Seq<MapPair>, n: nat) -> Option<BinError>
    decreases n,
{
    if n == 0 || n > s.len() {
        None
    } else {
        match entries_write_error(s, (n - 1) as nat) {
            Some(e) => Some(e),
            None => entry_error(s[n - 1]),
        }
    }
}

/// The error of the first of the first `n` patches that has one.
pub open spec fn patches_write_error(s: Seq<MapPair>, n: nat) -> Option<BinError>
    decreases n,
{
    if n == 0 || n > s.len() {
        None
    } else {
        match patches_write_error(s, (n - 1) as nat) {
            Some(e) => Some(e),
            None => patch_error(s[n - 1]),
        }
    }
}

/// Which error the writer reports for an archive, checking in order: the
/// dependency names (too many, or one longer than 65535 bytes), the entry
/// count, each entry, then for a patch archive the patch map's presence, its
/// count and each patch.
pub open spec fn write_error(f: BinFile) -> Option<BinError> {
    let l = f.linked_list@;
    let ents = f.entries.items@;
    if f.version >= 2 && (l.len() > 0xffff_ffff || exists|i: int|
        0 <= i < l.len() && utf8((#[trigger] l[i])@).len() > 0xffff) {
        Some(BinError::BadShape)
    } else if ents.len() > 0xffff_ffff {
        Some(BinError::BadShape)
    } else if entries_write_error(ents, ents.len()) is Some {
        entries_write_error(ents, ents.len())
    } else if f.is_patch {
        match f.patches {
            None => Some(BinError::MalformedPatch),
            Some(m) => if m.items@.len() > 0xffff_ffff {
                Some(BinError::BadShape)
            } else {
                patches_write_error(m.items@, m.items@.len())
            },
        }
    } else {
        None
    }
}

/// Once one of the first `i` entries has an error, the first error stays.
pub proof fn lemma_entries_write_error_stays(s: Seq<MapPair>, i: nat, n: nat)
    requires
        i <= n <= s.len(),
        entries_write_error(s, i) is Some,
    ensures
        entries_write_error(s, n) == entries_write_error(s, i),
    decreases n - i,
{
    if i < n {
        lemma_entries_write_error_stays(s, i, (n - 1) as nat);
    }
}

/// Once one of the first `i` patches has an error, the first error stays.
pub proof fn lemma_patches_write_error_stays(s: Seq<MapPair>, i: nat, n: nat)
    requires
        i <= n <= s.len(),
        patches_write_error(s, i) is Some,
    ensures
        patches_write_error(s, n) == patches_write_error(s, i),
    decreases n - i,
{
    if i < n {
        lemma_patches_write_error_stays(s, i, (n - 1) as nat);
    }
}

} // verus!
