use lol_bin::hashes::{fnv1a, xxhash};
use lol_bin::model::{PATCH_HASH, PATH_HASH, VALUE_HASH};
use lol_bin::numeral::{
    check_valid_hex_or_decimal, hex_or_decimal_from_string_u32, hex_or_decimal_from_string_u64,
    string_to_hash_u32, string_to_hash_u64, MalformedNumeral,
};

#[test]
fn name_hash_ignores_ascii_case() {
    assert_eq!(fnv1a("Path"), fnv1a("path"));
    assert_eq!(fnv1a("PATH"), fnv1a("path"));
    assert_ne!(fnv1a("path"), fnv1a("patch"));
}

#[test]
fn name_hash_of_empty_is_offset_basis() {
    assert_eq!(fnv1a(""), 0x811c9dc5);
}

#[test]
fn name_hash_known_value() {
    // FNV-1a of "a": (0x811c9dc5 ^ 0x61) * 0x01000193 mod 2^32.
    assert_eq!(fnv1a("a"), 0xe40c292c);
    assert_eq!(fnv1a("A"), 0xe40c292c);
}

#[test]
fn name_hash_keeps_non_ascii() {
    assert_ne!(fnv1a("\u{e9}"), fnv1a("\u{c9}"));
}

#[test]
fn fixed_field_names_hash_to_their_constants() {
    assert_eq!(fnv1a("patch"), PATCH_HASH);
    assert_eq!(fnv1a("path"), PATH_HASH);
    assert_eq!(fnv1a("value"), VALUE_HASH);
}

#[test]
fn link_hash_of_empty_input() {
    assert_eq!(xxhash(""), 0xEF46DB3751D8E999);
}

#[test]
fn link_hash_short_inputs() {
    assert_eq!(xxhash("a"), 0xD24EC4F1A98C6E5B);
    assert_eq!(xxhash("abc"), 0x44BC2CF5AD770999);
}

#[test]
fn link_hash_long_input() {
    assert_eq!(xxhash("Nobody inspects the spammish repetition"), 0xFBCEA83C8A378BF1);
}

#[test]
fn link_hash_is_pure() {
    let s = "Characters/Ahri/Skins/Base/Ahri.bin";
    assert_eq!(xxhash(s), xxhash(s));
    assert_ne!(xxhash(s), xxhash("characters/ahri/skins/base/ahri.bin"));
}

#[test]
fn numeral_hex_literal() {
    assert_eq!(hex_or_decimal_from_string_u32("0x0000002A"), Ok(Some(42)));
    assert_eq!(hex_or_decimal_from_string_u32("0X2a"), Ok(Some(42)));
    assert_eq!(hex_or_decimal_from_string_u64("0x0000002A"), Ok(Some(42)));
}

#[test]
fn numeral_minus_one_is_all_ones() {
    assert_eq!(hex_or_decimal_from_string_u32("-1"), Ok(Some(u32::MAX)));
    assert_eq!(hex_or_decimal_from_string_u64("-1"), Ok(Some(u64::MAX)));
}

#[test]
fn numeral_sign_applies_to_hex_too() {
    assert_eq!(hex_or_decimal_from_string_u32("-0x1"), Ok(Some(u32::MAX)));
    assert_eq!(hex_or_decimal_from_string_u32("+0x10"), Ok(Some(16)));
}

#[test]
fn numeral_without_prefix_is_a_name() {
    assert!(!check_valid_hex_or_decimal("2A"));
    assert_eq!(hex_or_decimal_from_string_u32("2A"), Ok(None));
    assert_eq!(string_to_hash_u32("2A"), Ok(fnv1a("2A")));
}

#[test]
fn numeral_decimal() {
    assert!(check_valid_hex_or_decimal("12345"));
    assert_eq!(string_to_hash_u32("12345"), Ok(12345));
    assert_eq!(string_to_hash_u64("18446744073709551615"), Ok(u64::MAX));
}

#[test]
fn numeral_grammar_edges() {
    assert!(!check_valid_hex_or_decimal(""));
    assert!(check_valid_hex_or_decimal("+"));
    assert!(check_valid_hex_or_decimal("0x"));
    assert!(!check_valid_hex_or_decimal("0xZZ"));
    assert!(!check_valid_hex_or_decimal("1 2"));
}

#[test]
fn numeral_malformed() {
    assert_eq!(hex_or_decimal_from_string_u32("0x"), Err(MalformedNumeral));
    assert_eq!(hex_or_decimal_from_string_u32("-"), Err(MalformedNumeral));
    assert_eq!(hex_or_decimal_from_string_u32("4294967296"), Err(MalformedNumeral));
    assert_eq!(hex_or_decimal_from_string_u32("0x100000000"), Err(MalformedNumeral));
}

#[test]
fn names_hash_by_width() {
    assert_eq!(string_to_hash_u32("path"), Ok(fnv1a("path")));
    assert_eq!(string_to_hash_u64("path"), Ok(xxhash("path")));
}
