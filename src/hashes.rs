//! The two identifier hashes of the archive format: a case-folding 32-bit FNV-1a
//! and the 64-bit XXH64 streaming hash (seed 0).

use vstd::prelude::*;
use vstd::wrapping::{u32_specs, u64_specs};

verus! {

pub const FNV_OFFSET: u32 = 0x811c9dc5;

pub const FNV_PRIME: u32 = 0x01000193;

pub const PRIME1: u64 = 0x9E3779B185EBCA87;

pub const PRIME2: u64 = 0xC2B2AE3D27D4EB4F;

pub const PRIME3: u64 = 0x165667B19E3779F9;

pub const PRIME4: u64 = 0x85EBCA77C2B2AE63;

pub const PRIME5: u64 = 0x27D4EB2F165667C5;

/// The code point of `c` with ASCII capitals folded to lower case.
pub open spec fn folded_code(c: char) -> u32 {
    let x = c as u32;
    if 65 <= x && x <= 90 {
        (x + 32) as u32
    } else {
        x
    }
}

pub open spec fn fnv_step(h: u32, c: char) -> u32 {
    u32_specs::wrapping_mul(h ^ folded_code(c), FNV_PRIME)
}

/// The case-folding FNV-1a hash of a character sequence.
pub open spec fn fnv_hash(s: Seq<char>) -> u32
    decreases s.len(),
{
    if s.len() == 0 {
        FNV_OFFSET
    } else {
        fnv_step(fnv_hash(s.drop_last()), s.last())
    }
}

/// Hashes a name case-insensitively (ASCII letters only) with 32-bit FNV-1a.
pub fn fnv1a(string: &str) -> (r: u32)
    ensures
        r == fnv_hash(string@),
{
    let mut hash: u32 = FNV_OFFSET;
    let ghost mut done: Seq<char> = Seq::empty();
    let mut it = string.chars();
    for c in iter: it
        invariant
            iter.seq() == string@,
            done == iter.seq().take(iter.index() as int),
            hash == fnv_hash(done),
        ensures
            done == string@,
    {
        let x = c as u32;
        let lower: u32 = if 65 <= x && x <= 90 {
            x + 32
        } else {
            x
        };
        hash = (hash ^ lower).wrapping_mul(FNV_PRIME);
        proof {
            assert(done.push(c).drop_last() =~= done);
            done = done.push(c);
        }
    }
    hash
}


pub open spec fn add64(a: u64, b: u64) -> u64 {
    u64_specs::wrapping_add(a, b)
}

pub open spec fn mul64(a: u64, b: u64) -> u64 {
    u64_specs::wrapping_mul(a, b)
}

#[verifier::opaque]
pub open spec fn rotl64(x: u64, r: u64) -> u64
    recommends
        0 < r < 64,
{
    (x << r) | (x >> (64 - r) as u64)
}

/// The little-endian 64-bit word at `i`.
#[verifier::opaque]
pub open spec fn word64(b: Seq<u8>, i: int) -> u64 {
    (b[i] as u64) | ((b[i + 1] as u64) << 8u64) | ((b[i + 2] as u64) << 16u64) | ((b[i + 3] as u64)
        << 24u64) | ((b[i + 4] as u64) << 32u64) | ((b[i + 5] as u64) << 40u64) | ((b[i + 6] as u64)
        << 48u64) | ((b[i + 7] as u64) << 56u64)
}

/// The little-endian 32-bit word at `i`.
#[verifier::opaque]
pub open spec fn word32(b: Seq<u8>, i: int) -> u32 {
    (b[i] as u32) | ((b[i + 1] as u32) << 8u32) | ((b[i + 2] as u32) << 16u32) | ((b[i + 3] as u32)
        << 24u32)
}

#[verifier::opaque]
pub open spec fn xxh_round(acc: u64, lane: u64) -> u64 {
    mul64(rotl64(add64(acc, mul64(lane, PRIME2)), 31), PRIME1)
}

#[verifier::opaque]
pub open spec fn xxh_merge(h: u64, v: u64) -> u64 {
    add64(mul64(h ^ xxh_round(0, v), PRIME1), PRIME4)
}

/// The four lanes after consuming every whole 32-byte stripe from `pos` on.
pub open spec fn xxh_stripes(b: Seq<u8>, pos: int, v: (u64, u64, u64, u64)) -> (u64, u64, u64, u64)
    decreases b.len() - pos,
{
    if 0 <= pos && pos + 32 <= b.len() {
        xxh_stripes(
            b,
            pos + 32,
            (
                xxh_round(v.0, word64(b, pos)),
                xxh_round(v.1, word64(b, pos + 8)),
                xxh_round(v.2, word64(b, pos + 16)),
                xxh_round(v.3, word64(b, pos + 24)),
            ),
        )
    } else {
        v
    }
}

#[verifier::opaque]
pub open spec fn xxh_converge(v: (u64, u64, u64, u64)) -> u64 {
    let h = add64(rotl64(v.0, 1), add64(rotl64(v.1, 7), add64(rotl64(v.2, 12), rotl64(v.3, 18))));
    xxh_merge(xxh_merge(xxh_merge(xxh_merge(h, v.0), v.1), v.2), v.3)
}

/// Where the whole 32-byte stripes from `pos` on end.
pub open spec fn stripes_end(len: int, pos: int) -> int
    decreases len - pos,
{
    if 0 <= pos && pos + 32 <= len {
        stripes_end(len, pos + 32)
    } else {
        pos
    }
}

/// Where the 8-byte words from `pos` on end.
pub open spec fn words_end(len: int, pos: int) -> int
    decreases len - pos,
{
    if 0 <= pos && pos + 8 <= len {
        words_end(len, pos + 8)
    } else {
        pos
    }
}

#[verifier::opaque]
pub open spec fn xxh_word_step(h: u64, w: u64) -> u64 {
    add64(mul64(rotl64(h ^ xxh_round(0, w), 27), PRIME1), PRIME4)
}

#[verifier::opaque]
pub open spec fn xxh_half_step(h: u64, w: u32) -> u64 {
    add64(mul64(rotl64(h ^ mul64(w as u64, PRIME1), 23), PRIME2), PRIME3)
}

#[verifier::opaque]
pub open spec fn xxh_byte_step(h: u64, c: u8) -> u64 {
    mul64(rotl64(h ^ mul64(c as u64, PRIME5), 11), PRIME1)
}

/// Folds the 8-byte words from `pos` on into `h`.
pub open spec fn xxh_tail8(b: Seq<u8>, h: u64, pos: int) -> u64
    decreases b.len() - pos,
{
    if 0 <= pos && pos + 8 <= b.len() {
        xxh_tail8(b, xxh_word_step(h, word64(b, pos)), pos + 8)
    } else {
        h
    }
}

/// Folds the single bytes from `pos` on into `h`.
pub open spec fn xxh_tail1(b: Seq<u8>, h: u64, pos: int) -> u64
    decreases b.len() - pos,
{
    if 0 <= pos && pos < b.len() {
        xxh_tail1(b, xxh_byte_step(h, b[pos]), pos + 1)
    } else {
        h
    }
}

#[verifier::opaque]
pub open spec fn xxh_avalanche(h: u64) -> u64 {
    let h1 = mul64(h ^ (h >> 33u64), PRIME2);
    let h2 = mul64(h1 ^ (h1 >> 29u64), PRIME3);
    h2 ^ (h2 >> 32u64)
}

/// XXH64 with seed 0 of a byte sequence.
pub open spec fn xxh64(b: Seq<u8>) -> u64 {
    let len = b.len() as int;
    let stripe_end = stripes_end(len, 0);
    let h0 = if len >= 32 {
        xxh_converge(xxh_stripes(b, 0, (add64(PRIME1, PRIME2), PRIME2, 0, u64_specs::wrapping_sub(0, PRIME1))))
    } else {
        PRIME5
    };
    let h1 = add64(h0, len as u64);
    let pos8 = words_end(len, stripe_end);
    let h2 = xxh_tail8(b, h1, stripe_end);
    let h3 = if pos8 + 4 <= len {
        xxh_half_step(h2, word32(b, pos8))
    } else {
        h2
    };
    let pos1 = if pos8 + 4 <= len {
        pos8 + 4
    } else {
        pos8
    };
    xxh_avalanche(xxh_tail1(b, h3, pos1))
}

/// The hash of a name's UTF-8 bytes.
pub open spec fn xxh_hash(s: Seq<char>) -> u64 {
    xxh64(vstd::utf8::encode_utf8(s))
}

fn xxh_rotl64(x: u64, r: u64) -> (res: u64)
    requires
        0 < r < 64,
    ensures
        res == rotl64(x, r),
{
    reveal(rotl64);
    (x << r) | (x >> (64 - r))
}

fn xxh_read64(b: &[u8], i: usize) -> (res: u64)
    requires
        i + 8 <= b@.len(),
    ensures
        res == word64(b@, i as int),
{
    reveal(word64);
    (b[i] as u64) | ((b[i + 1] as u64) << 8u64) | ((b[i + 2] as u64) << 16u64) | ((b[i + 3] as u64)
        << 24u64) | ((b[i + 4] as u64) << 32u64) | ((b[i + 5] as u64) << 40u64) | ((b[i + 6] as u64)
        << 48u64) | ((b[i + 7] as u64) << 56u64)
}

fn xxh_read32(b: &[u8], i: usize) -> (res: u32)
    requires
        i + 4 <= b@.len(),
    ensures
        res == word32(b@, i as int),
{
    reveal(word32);
    (b[i] as u32) | ((b[i + 1] as u32) << 8u32) | ((b[i + 2] as u32) << 16u32) | ((b[i + 3] as u32)
        << 24u32)
}

fn xxh_round_exec(acc: u64, lane: u64) -> (res: u64)
    ensures
        res == xxh_round(acc, lane),
{
    reveal(xxh_round);
    xxh_rotl64(acc.wrapping_add(lane.wrapping_mul(PRIME2)), 31).wrapping_mul(PRIME1)
}

fn xxh_merge_exec(h: u64, v: u64) -> (res: u64)
    ensures
        res == xxh_merge(h, v),
{
    reveal(xxh_merge);
    (h ^ xxh_round_exec(0, v)).wrapping_mul(PRIME1).wrapping_add(PRIME4)
}

fn xxh_converge_exec(v1: u64, v2: u64, v3: u64, v4: u64) -> (res: u64)
    ensures
        res == xxh_converge((v1, v2, v3, v4)),
{
    reveal(xxh_converge);
    let mut h64 = xxh_rotl64(v1, 1).wrapping_add(
        xxh_rotl64(v2, 7).wrapping_add(xxh_rotl64(v3, 12).wrapping_add(xxh_rotl64(v4, 18))),
    );
    h64 = xxh_merge_exec(h64, v1);
    h64 = xxh_merge_exec(h64, v2);
    h64 = xxh_merge_exec(h64, v3);
    xxh_merge_exec(h64, v4)
}

fn xxh_word_step_exec(h: u64, w: u64) -> (res: u64)
    ensures
        res == xxh_word_step(h, w),
{
    reveal(xxh_word_step);
    let k1 = xxh_round_exec(0, w);
    xxh_rotl64(h ^ k1, 27).wrapping_mul(PRIME1).wrapping_add(PRIME4)
}

fn xxh_half_step_exec(h: u64, w: u32) -> (res: u64)
    ensures
        res == xxh_half_step(h, w),
{
    reveal(xxh_half_step);
    let h1 = h ^ (w as u64).wrapping_mul(PRIME1);
    xxh_rotl64(h1, 23).wrapping_mul(PRIME2).wrapping_add(PRIME3)
}

fn xxh_byte_step_exec(h: u64, c: u8) -> (res: u64)
    ensures
        res == xxh_byte_step(h, c),
{
    reveal(xxh_byte_step);
    let h1 = h ^ (c as u64).wrapping_mul(PRIME5);
    xxh_rotl64(h1, 11).wrapping_mul(PRIME1)
}

fn xxh_avalanche_exec(h: u64) -> (res: u64)
    ensures
        res == xxh_avalanche(h),
{
    reveal(xxh_avalanche);
    let mut h64 = h;
    h64 ^= h64 >> 33;
    h64 = h64.wrapping_mul(PRIME2);
    h64 ^= h64 >> 29;
    h64 = h64.wrapping_mul(PRIME3);
    h64 ^= h64 >> 32;
    h64
}

/// Hashes the UTF-8 bytes of a name with XXH64 (seed 0).
pub fn xxhash(string: &str) -> (r: u64)
    ensures
        r == xxh_hash(string@),
{
    let b = string.as_bytes();
    let len = b.len();
    let ghost bs = b@;
    let mut pos: usize = 0;
    let mut h64: u64;
    if len >= 32 {
        let mut v1: u64 = PRIME1.wrapping_add(PRIME2);
        let mut v2: u64 = PRIME2;
        let mut v3: u64 = 0;
        let mut v4: u64 = 0u64.wrapping_sub(PRIME1);
        let ghost init = (v1, v2, v3, v4);
        while len - pos >= 32
            invariant
                bs == b@,
                len == bs.len(),
                pos <= len,
                stripes_end(len as int, pos as int) == stripes_end(len as int, 0),
                xxh_stripes(bs, pos as int, (v1, v2, v3, v4)) == xxh_stripes(bs, 0, init),
            decreases len - pos,
        {
            v1 = xxh_round_exec(v1, xxh_read64(b, pos));
            v2 = xxh_round_exec(v2, xxh_read64(b, pos + 8));
            v3 = xxh_round_exec(v3, xxh_read64(b, pos + 16));
            v4 = xxh_round_exec(v4, xxh_read64(b, pos + 24));
            pos = pos + 32;
        }
        h64 = xxh_converge_exec(v1, v2, v3, v4);
    } else {
        h64 = PRIME5;
    }
    h64 = h64.wrapping_add(len as u64);
    let ghost stripe_end = pos;
    let ghost h1 = h64;
    while len - pos >= 8
        invariant
            bs == b@,
            len == bs.len(),
            pos <= len,
            stripe_end == stripes_end(len as int, 0),
            words_end(len as int, pos as int) == words_end(len as int, stripe_end as int),
            xxh_tail8(bs, h64, pos as int) == xxh_tail8(bs, h1, stripe_end as int),
        decreases len - pos,
    {
        h64 = xxh_word_step_exec(h64, xxh_read64(b, pos));
        pos = pos + 8;
    }
    if len - pos >= 4 {
        h64 = xxh_half_step_exec(h64, xxh_read32(b, pos));
        pos = pos + 4;
    }
    let ghost pos1 = pos;
    let ghost h3 = h64;
    while pos < len
        invariant
            bs == b@,
            len == bs.len(),
            pos <= len,
            xxh_tail1(bs, h64, pos as int) == xxh_tail1(bs, h3, pos1 as int),
        decreases len - pos,
    {
        h64 = xxh_byte_step_exec(h64, b[pos]);
        pos = pos + 1;
    }
    xxh_avalanche_exec(h64)
}

/// The name hash ignores ASCII case: two names whose characters agree once
/// ASCII capitals are folded to lower case hash alike ("Path", "path" and
/// "PATH" among them).
pub proof fn lemma_name_hash_folds_case(a: Seq<char>, b: Seq<char>)
    requires
        a.len() == b.len(),
        forall|i: int| 0 <= i < a.len() ==> folded_code(#[trigger] a[i]) == folded_code(b[i]),
    ensures
        fnv_hash(a) == fnv_hash(b),
    decreases a.len(),
{
    if a.len() > 0 {
        lemma_name_hash_folds_case(a.drop_last(), b.drop_last());
        assert(folded_code(a.last()) == folded_code(b.last()));
    }
}

} // verus!
