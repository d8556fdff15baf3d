//! The zig-zag transform between signed and unsigned integers.
//!
//! Small magnitudes of either sign map to small unsigned numbers:
//! `0 -> 0, -1 -> 1, 1 -> 2, -2 -> 3, ...`.

use vstd::prelude::*;

verus! {

/// The unsigned number that stands for the signed `n`.
pub open spec fn zig_zag(n: int) -> int {
    if n >= 0 {
        2 * n
    } else {
        -2 * n - 1
    }
}

/// The signed number that the unsigned `u` stands for.
pub open spec fn zig_zag_inverse(u: int) -> int {
    if u % 2 == 0 {
        u / 2
    } else {
        -(u / 2) - 1
    }
}

/// Zig-zag decodes a 32-bit unsigned number: `(u >> 1) ^ -(u & 1)`.
pub fn zig_zag_decode32_from_u32(varint: u32) -> (n: i32)
    ensures
        n == zig_zag_inverse(varint as int),
{
    let half: u32 = varint >> 1;
    let sign: u32 = if varint & 1 == 1 { 0xFFFF_FFFF } else { 0 };
    let folded: u32 = half ^ sign;
    proof {
        if varint & 1 == 1 {
            assert((folded as i32) == -((varint / 2) as int) - 1 && varint % 2 == 1) by (bit_vector)
                requires
                    varint & 1 == 1,
                    folded == (varint >> 1) ^ 0xFFFF_FFFFu32,
            ;
        } else {
            assert((folded as i32) == (varint / 2) as int && varint % 2 == 0) by (bit_vector)
                requires
                    varint & 1 != 1,
                    folded == (varint >> 1) ^ 0u32,
            ;
        }
    }
    #[verifier::truncate]
    (folded as i32)
}

/// Zig-zag decodes a single byte. Every byte decodes to a number between
/// -128 and 127.
pub fn zig_zag_decode32_from_u8(byte: u8) -> (n: i32)
    ensures
        n == zig_zag_inverse(byte as int),
        -128 <= n <= 127,
{
    zig_zag_decode32_from_u32(byte as u32)
}

/// Zig-zag decodes a 64-bit unsigned number: `(u >> 1) ^ -(u & 1)`.
pub fn zig_zag_decode32_from_u64(varint: u64) -> (n: i64)
    ensures
        n == zig_zag_inverse(varint as int),
{
    let half: u64 = varint >> 1;
    let sign: u64 = if varint & 1 == 1 { 0xFFFF_FFFF_FFFF_FFFF } else { 0 };
    let folded: u64 = half ^ sign;
    proof {
        if varint & 1 == 1 {
            assert((folded as i64) == -((varint / 2) as int) - 1 && varint % 2 == 1) by (bit_vector)
                requires
                    varint & 1 == 1,
                    folded == (varint >> 1) ^ 0xFFFF_FFFF_FFFF_FFFFu64,
            ;
        } else {
            assert((folded as i64) == (varint / 2) as int && varint % 2 == 0) by (bit_vector)
                requires
                    varint & 1 != 1,
                    folded == (varint >> 1) ^ 0u64,
            ;
        }
    }
    #[verifier::truncate]
    (folded as i64)
}

/// Zig-zag encodes a 32-bit signed number: `(n << 1) ^ (n >> 31)`, the right
/// shift being arithmetic.
pub fn zig_zag_encode32(n: i32) -> (u: u32)
    ensures
        u == zig_zag(n as int),
{
    let bits: u32 = #[verifier::truncate]
    (n as u32);
    let sign: u32 = if n < 0 { 0xFFFF_FFFF } else { 0 };
    let folded: u32 = (bits << 1) ^ sign;
    proof {
        if n < 0 {
            assert(folded == -2 * (n as int) - 1) by (bit_vector)
                requires
                    n < 0,
                    folded == ((n as u32) << 1) ^ 0xFFFF_FFFFu32,
            ;
        } else {
            assert(folded == 2 * (n as int)) by (bit_vector)
                requires
                    n >= 0,
                    folded == ((n as u32) << 1) ^ 0u32,
            ;
        }
    }
    folded
}

/// Zig-zag encodes a 64-bit signed number: `(n << 1) ^ (n >> 63)`, the right
/// shift being arithmetic.
pub fn zig_zag_encode64(n: i64) -> (u: u64)
    ensures
        u == zig_zag(n as int),
{
    let bits: u64 = #[verifier::truncate]
    (n as u64);
    let sign: u64 = if n < 0 { 0xFFFF_FFFF_FFFF_FFFF } else { 0 };
    let folded: u64 = (bits << 1) ^ sign;
    proof {
        if n < 0 {
            assert(folded == -2 * (n as int) - 1) by (bit_vector)
                requires
                    n < 0,
                    folded == ((n as u64) << 1) ^ 0xFFFF_FFFF_FFFF_FFFFu64,
            ;
        } else {
            assert(folded == 2 * (n as int)) by (bit_vector)
                requires
                    n >= 0,
                    folded == ((n as u64) << 1) ^ 0u64,
            ;
        }
    }
    folded
}

/// The predecessor of `value`.
pub fn minus_one(value: i32) -> (r: i32)
    requires
        value > i32::MIN,
    ensures
        r == value - 1,
{
    value - 1
}

/// Zig-zag is a bijection between the integers and the non-negative
/// integers: decoding what was encoded gives the number back, and encoding
/// what was decoded gives the code back.
pub proof fn lemma_zig_zag_bijection(n: int, u: int)
    requires
        u >= 0,
    ensures
        zig_zag(n) >= 0,
        zig_zag_inverse(zig_zag(n)) == n,
        zig_zag(zig_zag_inverse(u)) == u,
{
}

/// Zig-zag maps the 32-bit signed numbers one-to-one onto the 32-bit
/// unsigned numbers.
pub proof fn lemma_zig_zag_bijection_32(n: i32, u: u32)
    ensures
        0 <= zig_zag(n as int) <= u32::MAX,
        zig_zag_inverse(zig_zag(n as int)) == n,
        i32::MIN <= zig_zag_inverse(u as int) <= i32::MAX,
        zig_zag(zig_zag_inverse(u as int)) == u,
{
}

/// Zig-zag maps the 64-bit signed numbers one-to-one onto the 64-bit
/// unsigned numbers.
pub proof fn lemma_zig_zag_bijection_64(n: i64, u: u64)
    ensures
        0 <= zig_zag(n as int) <= u64::MAX,
        zig_zag_inverse(zig_zag(n as int)) == n,
        i64::MIN <= zig_zag_inverse(u as int) <= i64::MAX,
        zig_zag(zig_zag_inverse(u as int)) == u,
{
}

} // verus!
