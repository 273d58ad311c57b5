use std::collections::HashMap;

use lol_bin::bin_read::read_bin;
use lol_bin::bin_write::{checked_size, get_total_bin_data_size, write_bin};
use lol_bin::error::BinError;
use lol_bin::hashes::fnv1a;
use lol_bin::model::{
    BinData, BinField, BinFile, BinMap, BinType, ContainerOrStruct, MapPair, Optional,
    PointerOrEmbedded, PATCH_HASH, PATH_HASH, VALUE_HASH,
};
use lol_bin::pretty::MyPrettyGenerator;
use lol_bin::tags::{type_to_u8, u8_to_type};
use lol_bin::text::{TextMember, TextNumber, TextValue};
use lol_bin::text_read::convert_json_to_bin;
use lol_bin::text_write::{
    add_to_hash_map, convert_bin_to_json, hash_u32_to_string, hash_u64_to_string, hex_string,
};

const ALL_KINDS: [BinType; 27] = [
    BinType::Null,
    BinType::Bool,
    BinType::SInt8,
    BinType::UInt8,
    BinType::SInt16,
    BinType::UInt16,
    BinType::SInt32,
    BinType::UInt32,
    BinType::SInt64,
    BinType::UInt64,
    BinType::Float32,
    BinType::Vector2,
    BinType::Vector3,
    BinType::Vector4,
    BinType::Matrix4x4,
    BinType::Rgba,
    BinType::String,
    BinType::Hash,
    BinType::WadEntryLink,
    BinType::Container,
    BinType::Struct,
    BinType::Pointer,
    BinType::Embedded,
    BinType::Link,
    BinType::Optional,
    BinType::Mapping,
    BinType::Flag,
];

fn entries_map(items: Vec<MapPair>) -> BinMap {
    BinMap::new(BinType::Hash, BinType::Embedded, items)
}

fn record_entry(key: u32, ty: u32, fields: Vec<BinField>) -> MapPair {
    MapPair::new(BinData::Hash(key), BinData::PointerOrEmbedded(PointerOrEmbedded::new(ty, fields)))
}

fn scenario_archive() -> BinFile {
    let fields = vec![BinField::new(fnv1a("Enabled"), BinType::Bool, BinData::Bool(true))];
    let entry = record_entry(fnv1a("TestRecord"), fnv1a("TestClass"), fields);
    BinFile::new(false, None, 3, vec!["Core.bin".to_string()], entries_map(vec![entry]), None)
}

fn patch_archive() -> BinFile {
    let fields = vec![
        BinField::new(PATH_HASH, BinType::String, BinData::String("Data/x.bin".to_string())),
        BinField::new(VALUE_HASH, BinType::UInt32, BinData::UInt32(7)),
    ];
    let patch = MapPair::new(
        BinData::Hash(fnv1a("x")),
        BinData::PointerOrEmbedded(PointerOrEmbedded::new(PATCH_HASH, fields)),
    );
    BinFile::new(true, Some(0x1122334455667788), 1, vec![], entries_map(vec![]), Some(entries_map(vec![patch])))
}

fn rich_archive() -> BinFile {
    let container = BinData::ContainerOrStruct(ContainerOrStruct::new(
        BinType::UInt16,
        vec![BinData::UInt16(1), BinData::UInt16(0xBEEF)],
    ));
    let inner = BinData::PointerOrEmbedded(PointerOrEmbedded::new(
        fnv1a("Inner"),
        vec![BinField::new(fnv1a("x"), BinType::SInt8, BinData::SInt8(-5))],
    ));
    let map = BinData::Mapping(BinMap::new(
        BinType::Hash,
        BinType::String,
        vec![MapPair::new(BinData::Hash(0xDEADBEEF), BinData::String("v".to_string()))],
    ));
    let plain_map = BinData::Mapping(BinMap::new(
        BinType::UInt8,
        BinType::Bool,
        vec![MapPair::new(BinData::UInt8(3), BinData::Bool(false))],
    ));
    let fields = vec![
        BinField::new(1, BinType::SInt64, BinData::SInt64(i64::MIN)),
        BinField::new(2, BinType::UInt64, BinData::UInt64(u64::MAX)),
        BinField::new(3, BinType::Float32, BinData::Float32(0x3F800000)),
        BinField::new(4, BinType::Vector3, BinData::Vector3(vec![1, 2, 3])),
        BinField::new(5, BinType::Rgba, BinData::Rgba(vec![255, 0, 128, 7])),
        BinField::new(6, BinType::WadEntryLink, BinData::WadEntryLink(0x0123456789ABCDEF)),
        BinField::new(7, BinType::Container, container),
        BinField::new(8, BinType::Embedded, inner),
        BinField::new(9, BinType::Pointer, BinData::PointerOrEmbedded(PointerOrEmbedded::new(0, vec![]))),
        BinField::new(10, BinType::Optional, BinData::Optional(Optional::new(BinType::Link, Some(BinData::Link(9))))),
        BinField::new(11, BinType::Optional, BinData::Optional(Optional::new(BinType::SInt32, None))),
        BinField::new(12, BinType::Mapping, map),
        BinField::new(13, BinType::Mapping, plain_map),
        BinField::new(14, BinType::Flag, BinData::Flag(true)),
        BinField::new(15, BinType::Null, BinData::Null),
        BinField::new(16, BinType::SInt16, BinData::SInt16(-2)),
        BinField::new(17, BinType::Matrix4x4, BinData::Matrix4x4((0..16).collect())),
    ];
    let entry = record_entry(fnv1a("Rich"), fnv1a("RichClass"), fields);
    BinFile::new(false, None, 2, vec!["A.bin".to_string(), "B.bin".to_string()], entries_map(vec![entry]), None)
}

#[test]
fn tag_packing_is_a_bijection_onto_its_bytes() {
    for kind in ALL_KINDS {
        let b = type_to_u8(&kind);
        assert!(b <= 18 || (0x80..=0x87).contains(&b));
        assert_eq!(u8_to_type(b), Some(kind));
    }
    assert_eq!(type_to_u8(&BinType::Container), 0x80);
    assert_eq!(type_to_u8(&BinType::Flag), 0x87);
    assert_eq!(type_to_u8(&BinType::WadEntryLink), 18);
    assert_eq!(u8_to_type(0x88), None);
    assert_eq!(u8_to_type(27), None);
}

#[test]
fn scenario_archive_binary_layout() {
    let bytes = write_bin(&scenario_archive()).unwrap();
    let mut expected: Vec<u8> = b"PROP".to_vec();
    expected.extend_from_slice(&3u32.to_le_bytes());
    expected.extend_from_slice(&1u32.to_le_bytes());
    expected.extend_from_slice(&8u16.to_le_bytes());
    expected.extend_from_slice(b"Core.bin");
    expected.extend_from_slice(&1u32.to_le_bytes());
    expected.extend_from_slice(&fnv1a("TestClass").to_le_bytes());
    expected.extend_from_slice(&(4u32 + 2 + 4 + 1 + 1).to_le_bytes());
    expected.extend_from_slice(&fnv1a("TestRecord").to_le_bytes());
    expected.extend_from_slice(&1u16.to_le_bytes());
    expected.extend_from_slice(&fnv1a("Enabled").to_le_bytes());
    expected.push(1);
    expected.push(1);
    assert_eq!(bytes, expected);
}

#[test]
fn scenario_archive_round_trips_through_both_forms() {
    let archive = scenario_archive();
    let first = write_bin(&archive).unwrap();
    let decoded = read_bin(&first).unwrap();
    assert_eq!(decoded, archive);

    let table: HashMap<u64, String> = HashMap::new();
    let text = convert_bin_to_json(&decoded, &table);
    let key = format!("0x{:08X}", fnv1a("TestRecord"));
    match &text {
        TextValue::Object(members) => {
            let entries = members.iter().find(|m| m.key == "Entries").unwrap();
            match &entries.value {
                TextValue::Array(items) => match &items[0] {
                    TextValue::Object(pair) => assert_eq!(pair[0].key, key),
                    other => panic!("unexpected {:?}", other),
                },
                other => panic!("unexpected {:?}", other),
            }
        }
        other => panic!("unexpected {:?}", other),
    }
    let from_text = convert_json_to_bin(&text).unwrap();
    assert_eq!(from_text, archive);
    let second = write_bin(&from_text).unwrap();
    assert_eq!(second, first);
}

#[test]
fn patch_record_is_synthesized_with_fixed_names() {
    let archive = patch_archive();
    let bytes = write_bin(&archive).unwrap();
    // PTCH, unknown, PROP, version, entry count, patch count, patch name, patch length.
    let length = u32::from_le_bytes([bytes[32], bytes[33], bytes[34], bytes[35]]);
    assert_eq!(length, 1 + (2 + 10) + 4);
    assert_eq!(bytes[36], type_to_u8(&BinType::UInt32));
    let decoded = read_bin(&bytes).unwrap();
    assert_eq!(decoded, archive);
    let patches = decoded.patches.unwrap();
    match &*patches.items[0].valuedata {
        BinData::PointerOrEmbedded(pe) => {
            assert_eq!(pe.name, PATCH_HASH);
            assert_eq!(pe.items.len(), 2);
            assert_eq!(pe.items[0].name, PATH_HASH);
            assert_eq!(pe.items[1].name, VALUE_HASH);
            assert_eq!(*pe.items[1].data, BinData::UInt32(7));
        }
        other => panic!("unexpected {:?}", other),
    }
}

#[test]
fn every_kind_round_trips_in_binary() {
    let archive = rich_archive();
    let bytes = write_bin(&archive).unwrap();
    let decoded = read_bin(&bytes).unwrap();
    assert_eq!(decoded, archive);
    assert_eq!(write_bin(&decoded).unwrap(), bytes);
}

#[test]
fn every_kind_round_trips_in_text() {
    let archive = rich_archive();
    let mut table: HashMap<u64, String> = HashMap::new();
    table.insert(fnv1a("Inner") as u64, "Inner".to_string());
    let text = convert_bin_to_json(&archive, &table);
    let back = convert_json_to_bin(&text).unwrap();
    assert_eq!(back, archive);
}

#[test]
fn size_function_matches_written_bytes() {
    let data = BinData::ContainerOrStruct(ContainerOrStruct::new(
        BinType::String,
        vec![BinData::String("ab".to_string()), BinData::String("".to_string())],
    ));
    assert_eq!(get_total_bin_data_size(&data), 1 + 4 + 4 + 4 + 2);
    assert_eq!(checked_size(&data), Some(15));
    assert_eq!(get_total_bin_data_size(&BinData::PointerOrEmbedded(PointerOrEmbedded::new(0, vec![]))), 4);
    assert_eq!(get_total_bin_data_size(&BinData::Optional(Optional::new(BinType::UInt8, None))), 2);
}

#[test]
fn container_length_field_counts_its_body() {
    let data = BinData::ContainerOrStruct(ContainerOrStruct::new(
        BinType::UInt32,
        vec![BinData::UInt32(1), BinData::UInt32(2)],
    ));
    let fields = vec![BinField::new(1, BinType::Container, data)];
    let file = BinFile::new(false, None, 1, vec![], entries_map(vec![record_entry(5, 6, fields)]), None);
    let bytes = write_bin(&file).unwrap();
    // PROP, version, count, type, entry length, key, field count, field name, field kind.
    let at = 4 + 4 + 4 + 4 + 4 + 4 + 2 + 4 + 1;
    assert_eq!(bytes[at], type_to_u8(&BinType::UInt32));
    let declared = u32::from_le_bytes([bytes[at + 1], bytes[at + 2], bytes[at + 3], bytes[at + 4]]);
    assert_eq!(declared, 4 + 8);
}

#[test]
fn null_record_writes_only_its_name() {
    let data = BinData::PointerOrEmbedded(PointerOrEmbedded::new(0, vec![]));
    assert_eq!(checked_size(&data), Some(4));
}

#[test]
fn writer_rejects_wrong_vector_width() {
    let fields = vec![BinField::new(1, BinType::Vector2, BinData::Vector2(vec![1, 2, 3]))];
    let file = BinFile::new(false, None, 1, vec![], entries_map(vec![record_entry(5, 6, fields)]), None);
    assert_eq!(write_bin(&file), Err(BinError::BadShape));
}

#[test]
fn writer_rejects_entry_that_is_not_a_record() {
    let entry = MapPair::new(BinData::Hash(1), BinData::UInt8(3));
    let file = BinFile::new(false, None, 1, vec![], entries_map(vec![entry]), None);
    assert_eq!(write_bin(&file), Err(BinError::NotARecord));
}

#[test]
fn writer_rejects_patch_archive_without_patches() {
    let file = BinFile::new(true, Some(0), 1, vec![], entries_map(vec![]), None);
    assert_eq!(write_bin(&file), Err(BinError::MalformedPatch));
}

#[test]
fn reader_rejects_bad_signature() {
    assert_eq!(read_bin(&b"NOPE\x01\x00\x00\x00".to_vec()), Err(BinError::BadSignature));
}

#[test]
fn reader_reports_truncation() {
    assert_eq!(read_bin(&b"PROP\x01\x00".to_vec()), Err(BinError::Truncated { offset: 4 }));
}

#[test]
fn reader_rejects_wrong_entry_length() {
    let mut bytes = write_bin(&scenario_archive()).unwrap();
    // The entry length field follows PROP, version, dependency list, count and type.
    let at = 4 + 4 + 4 + 2 + 8 + 4 + 4;
    bytes[at] += 1;
    match read_bin(&bytes) {
        Err(BinError::LengthMismatch { name, declared, actual }) => {
            assert_eq!(name, fnv1a("TestRecord"));
            assert_eq!(declared, 13);
            assert_eq!(actual, 12);
        }
        other => panic!("unexpected {:?}", other),
    }
}

#[test]
fn reader_rejects_unknown_type_byte() {
    let mut bytes = write_bin(&scenario_archive()).unwrap();
    let last_kind = bytes.len() - 2;
    bytes[last_kind] = 0x42;
    match read_bin(&bytes) {
        Err(BinError::UnknownType { byte, .. }) => assert_eq!(byte, 0x42),
        other => panic!("unexpected {:?}", other),
    }
}

#[test]
fn reader_takes_any_nonzero_byte_as_true() {
    let mut bytes = write_bin(&scenario_archive()).unwrap();
    let last = bytes.len() - 1;
    bytes[last] = 2;
    let decoded = read_bin(&bytes).unwrap();
    assert_eq!(decoded, scenario_archive());
}

#[test]
fn hashes_are_written_as_names_or_hex() {
    let mut table: HashMap<u64, String> = HashMap::new();
    table.insert(fnv1a("path") as u64, "path".to_string());
    assert_eq!(hash_u32_to_string(fnv1a("path"), &table), "path");
    assert_eq!(hash_u32_to_string(42, &table), "0x0000002A");
    assert_eq!(hash_u64_to_string(0xABCDEF, &table), "0x0000000000ABCDEF");
    assert_eq!(hex_string(0xDEADBEEF, 8), "0xDEADBEEF");
}

#[test]
fn text_reader_hashes_names() {
    let members = vec![
        TextMember { key: "IsPatch".to_string(), value: TextValue::Bool(false) },
        TextMember { key: "Version".to_string(), value: TextValue::Int { negative: false, magnitude: 1 } },
        TextMember {
            key: "Entries".to_string(),
            value: TextValue::Array(vec![TextValue::Object(vec![TextMember {
                key: "Thing".to_string(),
                value: TextValue::Object(vec![TextMember {
                    key: "ThingClass".to_string(),
                    value: TextValue::Array(vec![]),
                }]),
            }])]),
        },
    ];
    let file = convert_json_to_bin(&TextValue::Object(members)).unwrap();
    assert_eq!(file.entries.items.len(), 1);
    assert_eq!(*file.entries.items[0].keydata, BinData::Hash(fnv1a("Thing")));
    assert_eq!(
        *file.entries.items[0].valuedata,
        BinData::PointerOrEmbedded(PointerOrEmbedded::new(fnv1a("ThingClass"), vec![]))
    );
    assert!(file.linked_list.is_empty());
}

#[test]
fn text_reader_requires_is_patch() {
    assert!(convert_json_to_bin(&TextValue::Object(vec![])).is_err());
}

#[test]
fn pretty_printer_layout() {
    let tree = TextValue::Object(vec![
        TextMember { key: "a".to_string(), value: TextValue::Array(vec![
            TextValue::Int { negative: false, magnitude: 1 },
            TextValue::Int { negative: true, magnitude: 2 },
        ]) },
        TextMember { key: "b".to_string(), value: TextValue::Array(vec![]) },
        TextMember { key: "c".to_string(), value: TextValue::Str("q\"".to_string()) },
        TextMember { key: "d".to_string(), value: TextValue::Null },
    ]);
    let mut gen = MyPrettyGenerator::new();
    gen.write_json(&tree);
    assert_eq!(gen.consume(), "{\n\t\"a\": [\n\t\t1, -2\n\t],\n\t\"b\": [],\n\t\"c\": \"q\\\"\",\n\t\"d\": null\n}");
}

#[test]
fn pretty_printer_scenario_header() {
    let table: HashMap<u64, String> = HashMap::new();
    let text = convert_bin_to_json(&scenario_archive(), &table);
    let mut gen = MyPrettyGenerator::new();
    gen.write_json(&text);
    let out = gen.consume();
    assert!(out.starts_with("{\n\t\"IsPatch\": false,\n\t\"Version\": 3,\n\t\"LinkedList\": [\n\t\t\"Core.bin\"\n\t],"));
}

#[test]
fn writer_rejects_null_record_with_fields() {
    let inner = BinData::PointerOrEmbedded(PointerOrEmbedded::new(
        0,
        vec![BinField::new(1, BinType::UInt8, BinData::UInt8(1))],
    ));
    let fields = vec![BinField::new(1, BinType::Embedded, inner)];
    let file = BinFile::new(false, None, 1, vec![], entries_map(vec![record_entry(5, 6, fields)]), None);
    assert_eq!(write_bin(&file), Err(BinError::BadShape));
}

#[test]
fn reader_ignores_trailing_bytes() {
    let mut bytes = write_bin(&scenario_archive()).unwrap();
    bytes.extend_from_slice(&[9, 9, 9]);
    assert_eq!(read_bin(&bytes).unwrap(), scenario_archive());
}

#[test]
fn text_reader_reports_malformed_numeral() {
    let members = vec![
        TextMember { key: "IsPatch".to_string(), value: TextValue::Bool(false) },
        TextMember { key: "Version".to_string(), value: TextValue::Int { negative: false, magnitude: 1 } },
        TextMember {
            key: "Entries".to_string(),
            value: TextValue::Array(vec![TextValue::Object(vec![TextMember {
                key: "0x".to_string(),
                value: TextValue::Object(vec![]),
            }])]),
        },
    ];
    assert_eq!(
        convert_json_to_bin(&TextValue::Object(members)),
        Err(lol_bin::text_read::TextError::Malformed(lol_bin::numeral::MalformedNumeral))
    );
}

#[test]
fn text_reader_takes_numbers_for_floats_and_ints() {
    let number = |negative: bool, mantissa: u64, exponent: i16, f32_bits: u32| {
        TextValue::Number(TextNumber { negative, mantissa, exponent, f32_bits })
    };
    let field = |name: &str, kind: &str, data: TextValue| {
        TextValue::Object(vec![
            TextMember { key: "name".to_string(), value: TextValue::Str(name.to_string()) },
            TextMember { key: "type".to_string(), value: TextValue::Str(kind.to_string()) },
            TextMember { key: "data".to_string(), value: data },
        ])
    };
    let members = vec![
        TextMember { key: "IsPatch".to_string(), value: TextValue::Bool(false) },
        TextMember { key: "Version".to_string(), value: number(false, 3, 0, 0) },
        TextMember {
            key: "Entries".to_string(),
            value: TextValue::Array(vec![TextValue::Object(vec![TextMember {
                key: "0x00000001".to_string(),
                value: TextValue::Object(vec![TextMember {
                    key: "0x00000002".to_string(),
                    value: TextValue::Array(vec![
                        field("0x00000003", "Float32", number(false, 15, -1, 0x3FC00000)),
                        field("0x00000004", "SInt16", number(true, 7, 0, 0)),
                    ]),
                }]),
            }])]),
        },
    ];
    let file = convert_json_to_bin(&TextValue::Object(members)).unwrap();
    assert_eq!(file.version, 3);
    let fields = vec![
        BinField::new(3, BinType::Float32, BinData::Float32(0x3FC00000)),
        BinField::new(4, BinType::SInt16, BinData::SInt16(-7)),
    ];
    assert_eq!(file.entries.items[0], record_entry(1, 2, fields));
}

#[test]
fn registered_names_resolve_both_hashes() {
    let mut table: HashMap<u64, String> = HashMap::new();
    add_to_hash_map(&["path", "patch", "value"], &mut table);
    assert_eq!(hash_u32_to_string(PATH_HASH, &table), "path");
    assert_eq!(hash_u32_to_string(PATCH_HASH, &table), "patch");
    assert_eq!(hash_u64_to_string(lol_bin::hashes::xxhash("value"), &table), "value");
    assert_eq!(table.len(), 6);
}

fn one_field_archive(kind: BinType, data: BinData) -> Vec<u8> {
    let fields = vec![BinField::new(7, kind, data)];
    let file = BinFile::new(false, None, 1, vec![], entries_map(vec![record_entry(5, 6, fields)]), None);
    write_bin(&file).unwrap()
}

// PROP, version, entry count, entry type, entry length, key, field count,
// field name, field kind: where the single field's value starts.
const FIELD_VALUE_AT: usize = 4 + 4 + 4 + 4 + 4 + 4 + 2 + 4 + 1;

#[test]
fn reader_reports_unknown_nested_element_kind() {
    let data = BinData::ContainerOrStruct(ContainerOrStruct::new(BinType::UInt8, vec![BinData::UInt8(1)]));
    let mut bytes = one_field_archive(BinType::Container, data);
    bytes[FIELD_VALUE_AT] = 0x90;
    assert_eq!(read_bin(&bytes), Err(BinError::UnknownType { byte: 0x90, offset: FIELD_VALUE_AT }));
}

#[test]
fn reader_reports_unknown_map_value_kind() {
    let data = BinData::Mapping(BinMap::new(BinType::UInt8, BinType::UInt8, vec![]));
    let mut bytes = one_field_archive(BinType::Mapping, data);
    bytes[FIELD_VALUE_AT + 1] = 0x42;
    assert_eq!(read_bin(&bytes), Err(BinError::UnknownType { byte: 0x42, offset: FIELD_VALUE_AT + 1 }));
}

#[test]
fn reader_reports_nested_container_length_mismatch() {
    let data = BinData::ContainerOrStruct(ContainerOrStruct::new(
        BinType::UInt16,
        vec![BinData::UInt16(1), BinData::UInt16(2)],
    ));
    let mut bytes = one_field_archive(BinType::Container, data);
    // The container's length field follows its element kind.
    bytes[FIELD_VALUE_AT + 1] += 3;
    assert_eq!(
        read_bin(&bytes),
        Err(BinError::LengthMismatch { name: 0, declared: 4 + 4 + 3, actual: 8 })
    );
}

#[test]
fn reader_reports_nested_record_length_mismatch() {
    let inner = BinData::PointerOrEmbedded(PointerOrEmbedded::new(
        0x1234,
        vec![BinField::new(1, BinType::Bool, BinData::Bool(true))],
    ));
    let mut bytes = one_field_archive(BinType::Embedded, inner);
    // The record's length field follows its name.
    bytes[FIELD_VALUE_AT + 4] = 1;
    assert_eq!(
        read_bin(&bytes),
        Err(BinError::LengthMismatch { name: 0x1234, declared: 1, actual: 2 + 4 + 1 + 1 })
    );
}

#[test]
fn reader_reports_unknown_field_kind_in_nested_record() {
    let inner = BinData::PointerOrEmbedded(PointerOrEmbedded::new(
        0x1234,
        vec![BinField::new(1, BinType::Bool, BinData::Bool(true))],
    ));
    let mut bytes = one_field_archive(BinType::Embedded, inner);
    // Name, length, field count, then the field's name and kind.
    let kind_at = FIELD_VALUE_AT + 4 + 4 + 2 + 4;
    bytes[kind_at] = 0x99;
    assert_eq!(read_bin(&bytes), Err(BinError::UnknownType { byte: 0x99, offset: kind_at }));
}

#[test]
fn reader_rejects_patch_signature_without_prop() {
    let mut bytes = write_bin(&patch_archive()).unwrap();
    bytes[12] = b'X';
    assert_eq!(read_bin(&bytes), Err(BinError::BadSignature));
    assert_eq!(read_bin(&b"PTCH".to_vec()), Err(BinError::Truncated { offset: 4 }));
    assert_eq!(read_bin(&b"PR".to_vec()), Err(BinError::Truncated { offset: 0 }));
}

#[test]
fn reader_reports_patch_length_mismatch() {
    let mut bytes = write_bin(&patch_archive()).unwrap();
    bytes[32] += 1;
    assert_eq!(
        read_bin(&bytes),
        Err(BinError::LengthMismatch { name: fnv1a("x"), declared: 18, actual: 17 })
    );
}

#[test]
fn writer_names_the_invariant_error() {
    let key_not_hash = MapPair::new(
        BinData::UInt32(1),
        BinData::PointerOrEmbedded(PointerOrEmbedded::new(2, vec![])),
    );
    let file = BinFile::new(false, None, 1, vec![], entries_map(vec![key_not_hash]), None);
    assert_eq!(write_bin(&file), Err(BinError::KeyNotHash));
    let short_patch = MapPair::new(
        BinData::Hash(1),
        BinData::PointerOrEmbedded(PointerOrEmbedded::new(PATCH_HASH, vec![])),
    );
    let file = BinFile::new(true, Some(0), 1, vec![], entries_map(vec![]), Some(entries_map(vec![short_patch])));
    assert_eq!(write_bin(&file), Err(BinError::MalformedPatch));
}

#[test]
fn pretty_printer_escapes_control_characters() {
    let tree = TextValue::Str("a\u{1}\n\\\u{1f}é".to_string());
    let mut gen = MyPrettyGenerator::new();
    gen.write_json(&tree);
    assert_eq!(gen.consume(), "\"a\\u0001\\n\\\\\\u001fé\"");
}
