//! Hash-bearing tokens of the text form: a numeral literal is taken as the
//! value it spells, any other token as a name to hash.

use vstd::prelude::*;
use crate::hashes::{fnv1a, fnv_hash, xxh_hash, xxhash};

verus! {

/// A hash-bearing token that matches the numeral grammar but spells no value
/// of the target width (no digits, or too large).
#[derive(Clone, Copy, Debug, PartialEq, Eq, Structural)]
pub struct MalformedNumeral;

pub open spec fn is_dec_digit(c: char) -> bool {
    '0' <= c && c <= '9'
}

pub open spec fn is_hex_digit(c: char) -> bool {
    ('0' <= c && c <= '9') || ('a' <= c && c <= 'f') || ('A' <= c && c <= 'F')
}

pub open spec fn digit_value(c: char) -> nat {
    if '0' <= c && c <= '9' {
        (c as u32 - '0' as u32) as nat
    } else if 'a' <= c && c <= 'f' {
        (c as u32 - 'a' as u32 + 10) as nat
    } else {
        (c as u32 - 'A' as u32 + 10) as nat
    }
}

/// The length of an optional leading sign.
pub open spec fn sign_len(s: Seq<char>) -> int {
    if s.len() > 0 && (s[0] == '+' || s[0] == '-') {
        1
    } else {
        0
    }
}

pub open spec fn is_negative(s: Seq<char>) -> bool {
    s.len() > 0 && s[0] == '-'
}

/// Whether `0x` or `0X` follows the sign.
pub open spec fn has_hex_prefix(s: Seq<char>) -> bool {
    let i = sign_len(s);
    i + 2 <= s.len() && s[i] == '0' && (s[i + 1] == 'x' || s[i + 1] == 'X')
}

pub open spec fn digits_start(s: Seq<char>) -> int {
    sign_len(s) + if has_hex_prefix(s) {
        2int
    } else {
        0int
    }
}

pub open spec fn radix(s: Seq<char>) -> nat {
    if has_hex_prefix(s) {
        16
    } else {
        10
    }
}

/// The numeral grammar: an optional sign, an optional `0x`/`0X`, then only
/// hexadecimal digits after the prefix, or only decimal digits without it.
pub open spec fn is_numeral(s: Seq<char>) -> bool {
    &&& s.len() > 0
    &&& forall|i: int|
        digits_start(s) <= i < s.len() ==> if has_hex_prefix(s) {
            is_hex_digit(#[trigger] s[i])
        } else {
            is_dec_digit(s[i])
        }
}

/// The value of the digits `s[from..to]` in radix `r`.
pub open spec fn digits_value(s: Seq<char>, from: int, to: int, r: nat) -> nat
    decreases to - from,
{
    if to <= from {
        0
    } else {
        digits_value(s, from, to - 1, r) * r + digit_value(s[to - 1])
    }
}

/// The magnitude that a numeral spells.
pub open spec fn numeral_magnitude(s: Seq<char>) -> nat {
    digits_value(s, digits_start(s), s.len() as int, radix(s))
}

/// What a token reads as at a width whose largest value is `max`: not a
/// numeral (`Ok(None)`), a numeral's value with a leading minus taken as
/// wrapping negation, or malformed.
pub open spec fn numeral_reading(s: Seq<char>, max: nat) -> Result<Option<nat>, MalformedNumeral> {
    if !is_numeral(s) {
        Ok(None)
    } else if digits_start(s) >= s.len() || numeral_magnitude(s) > max {
        Err(MalformedNumeral)
    } else if is_negative(s) {
        Ok(Some(((max + 1 - numeral_magnitude(s)) % ((max + 1) as int)) as nat))
    } else {
        Ok(Some(numeral_magnitude(s)))
    }
}

proof fn lemma_digits_value_grows(s: Seq<char>, from: int, k: int, to: int, r: nat)
    requires
        from <= k <= to,
        r >= 1,
    ensures
        digits_value(s, from, k, r) <= digits_value(s, from, to, r),
    decreases to - k,
{
    if k < to {
        lemma_digits_value_grows(s, from, k, to - 1, r);
        let v = digits_value(s, from, to - 1, r);
        assert(v * r >= v) by (nonlinear_arith)
            requires
                r >= 1,
        ;
    }
}

/// The characters of a string.
pub(crate) fn chars_of(s: &str) -> (r: Vec<char>)
    ensures
        r@ == s@,
{
    let mut v: Vec<char> = Vec::new();
    let mut it = s.chars();
    for c in iter: it
        invariant
            iter.seq() == s@,
            v@ == iter.seq().take(iter.index() as int),
        ensures
            v@ == s@,
    {
        proof {
            assert(iter.seq().take(iter.index() + 1) =~= v@.push(c));
        }
        v.push(c);
    }
    v
}

/// Whether a token matches the numeral grammar.
pub fn check_valid_hex_or_decimal(string: &str) -> (r: bool)
    ensures
        r == is_numeral(string@),
{
    let s = chars_of(string);
    if s.len() == 0 {
        return false;
    }
    let mut i: usize = 0;
    if s[0] == '+' || s[0] == '-' {
        i = 1;
    }
    let hex = i + 2 <= s.len() && s[i] == '0' && (s[i + 1] == 'x' || s[i + 1] == 'X');
    if hex {
        i = i + 2;
    }
    assert(i == digits_start(s@));
    assert(hex == has_hex_prefix(s@));
    let start = i;
    while i < s.len()
        invariant
            s@ == string@,
            s@.len() > 0,
            start == digits_start(s@),
            hex == has_hex_prefix(s@),
            start <= i <= s@.len(),
            forall|j: int|
                start <= j < i ==> if hex {
                    is_hex_digit(#[trigger] s@[j])
                } else {
                    is_dec_digit(s@[j])
                },
        decreases s@.len() - i,
    {
        let c = s[i];
        let ok = if hex {
            ('0' <= c && c <= '9') || ('a' <= c && c <= 'f') || ('A' <= c && c <= 'F')
        } else {
            '0' <= c && c <= '9'
        };
        if !ok {
            return false;
        }
        i = i + 1;
    }
    true
}

/// Reads a token at a width whose largest value is `max`.
fn numeral_value(string: &str, max: u64) -> (r: Result<Option<u64>, MalformedNumeral>)
    requires
        max >= 0xffff_ffff,
    ensures
        match numeral_reading(string@, max as nat) {
            Ok(None) => r == Ok::<Option<u64>, MalformedNumeral>(None),
            Ok(Some(v)) => r == Ok::<Option<u64>, MalformedNumeral>(Some(v as u64)),
            Err(e) => r == Err::<Option<u64>, MalformedNumeral>(e),
        },
{
    if !check_valid_hex_or_decimal(string) {
        return Ok(None);
    }
    let s = chars_of(string);
    let negative = s[0] == '-';
    let mut i: usize = 0;
    if s[0] == '+' || s[0] == '-' {
        i = 1;
    }
    let hex = i + 2 <= s.len() && s[i] == '0' && (s[i + 1] == 'x' || s[i + 1] == 'X');
    if hex {
        i = i + 2;
    }
    let r: u64 = if hex {
        16
    } else {
        10
    };
    assert(i == digits_start(s@));
    assert(r == radix(s@));
    if i >= s.len() {
        return Err(MalformedNumeral);
    }
    let start = i;
    let mut acc: u64 = 0;
    while i < s.len()
        invariant
            s@ == string@,
            is_numeral(s@),
            start == digits_start(s@),
            hex == has_hex_prefix(s@),
            r == radix(s@),
            start <= i <= s@.len(),
            acc as nat == digits_value(s@, start as int, i as int, r as nat),
            acc <= max,
            max >= 0xffff_ffff,
        decreases s@.len() - i,
    {
        let c = s[i];
        assert(if hex { is_hex_digit(s@[i as int]) } else { is_dec_digit(s@[i as int]) });
        let d: u64 = if '0' <= c && c <= '9' {
            (c as u32 - '0' as u32) as u64
        } else if 'a' <= c && c <= 'f' {
            (c as u32 - 'a' as u32 + 10) as u64
        } else {
            (c as u32 - 'A' as u32 + 10) as u64
        };
        let q = (max - d) / r;
        if acc > q {
            proof {
                assert(acc * r + d > max) by (nonlinear_arith)
                    requires
                        acc > q,
                        q == (max - d) as int / r as int,
                        r > 0,
                        d <= max,
                ;
                lemma_digits_value_grows(s@, start as int, i + 1, s@.len() as int, r as nat);
            }
            return Err(MalformedNumeral);
        }
        assert(acc * r + d <= max) by (nonlinear_arith)
            requires
                acc <= q,
                q == (max - d) as int / r as int,
                r > 0,
                d <= max,
        ;
        acc = acc * r + d;
        i = i + 1;
    }
    proof {
        let m = numeral_magnitude(s@);
        assert(acc as nat == m);
        assert(negative == is_negative(s@));
        if m == 0 {
            assert(((max + 1 - m) as int) % ((max + 1) as int) == 0) by (nonlinear_arith)
                requires
                    m == 0,
                    max >= 0,
            ;
        } else {
            assert(((max + 1 - m) as int) % ((max + 1) as int) == max + 1 - m) by (nonlinear_arith)
                requires
                    0 < m <= max,
            ;
        }
    }
    if negative {
        Ok(Some(if acc == 0 {
            0
        } else {
            max - acc + 1
        }))
    } else {
        Ok(Some(acc))
    }
}

/// Reads a 32-bit hash token: `Ok(None)` where it is not a numeral.
pub fn hex_or_decimal_from_string_u32(string: &str) -> (r: Result<Option<u32>, MalformedNumeral>)
    ensures
        match numeral_reading(string@, u32::MAX as nat) {
            Ok(None) => r == Ok::<Option<u32>, MalformedNumeral>(None),
            Ok(Some(v)) => r == Ok::<Option<u32>, MalformedNumeral>(Some(v as u32)),
            Err(e) => r == Err::<Option<u32>, MalformedNumeral>(e),
        },
{
    match numeral_value(string, u32::MAX as u64) {
        Ok(Some(v)) => Ok(Some(v as u32)),
        Ok(None) => Ok(None),
        Err(e) => Err(e),
    }
}

/// Reads a 64-bit hash token: `Ok(None)` where it is not a numeral.
pub fn hex_or_decimal_from_string_u64(string: &str) -> (r: Result<Option<u64>, MalformedNumeral>)
    ensures
        match numeral_reading(string@, u64::MAX as nat) {
            Ok(None) => r == Ok::<Option<u64>, MalformedNumeral>(None),
            Ok(Some(v)) => r == Ok::<Option<u64>, MalformedNumeral>(Some(v as u64)),
            Err(e) => r == Err::<Option<u64>, MalformedNumeral>(e),
        },
{
    numeral_value(string, u64::MAX)
}

/// The 32-bit hash that a token stands for.
pub open spec fn token_hash_u32(s: Seq<char>) -> Result<u32, MalformedNumeral> {
    match numeral_reading(s, u32::MAX as nat) {
        Ok(Some(v)) => Ok(v as u32),
        Ok(None) => Ok(fnv_hash(s)),
        Err(e) => Err(e),
    }
}

/// The 64-bit hash that a token stands for.
pub open spec fn token_hash_u64(s: Seq<char>) -> Result<u64, MalformedNumeral> {
    match numeral_reading(s, u64::MAX as nat) {
        Ok(Some(v)) => Ok(v as u64),
        Ok(None) => Ok(xxh_hash(s)),
        Err(e) => Err(e),
    }
}

/// A 32-bit hash token: a numeral's value, or else the name's FNV-1a hash.
pub fn string_to_hash_u32(value: &str) -> (r: Result<u32, MalformedNumeral>)
    ensures
        r == token_hash_u32(value@),
{
    match hex_or_decimal_from_string_u32(value) {
        Ok(Some(v)) => Ok(v),
        Ok(None) => Ok(fnv1a(value)),
        Err(e) => Err(e),
    }
}

/// A 64-bit hash token: a numeral's value, or else the name's XXH64 hash.
pub fn string_to_hash_u64(value: &str) -> (r: Result<u64, MalformedNumeral>)
    ensures
        r == token_hash_u64(value@),
{
    match hex_or_decimal_from_string_u64(value) {
        Ok(Some(v)) => Ok(v),
        Ok(None) => Ok(xxhash(value)),
        Err(e) => Err(e),
    }
}

} // verus!
