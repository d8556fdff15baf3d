//! Counts of up to 32 bits in base-128 form: seven bits to a byte, least
//! significant group first, the top bit of a byte saying that another follows.

use crate::buffer::{buffer_appended, buffer_bytes, buffer_read_position, buffer_ready};
use bytebuffer_new::ByteBuffer;
use std::io::Cursor;
use varint::VarintRead;
use vstd::prelude::*;

verus! {

/// The most bytes that one count takes.
pub const MAX_BYTES: usize = 5;

/// Whether another byte of the same count follows `byte`.
pub open spec fn continues(byte: u8) -> bool {
    byte & 0x80 != 0
}

/// The seven bits that the byte at index `i` carries, moved to their place.
pub open spec fn group(window: Seq<u8>, i: int) -> u32 {
    ((window[i] & 0x7f) as u32) << ((7 * i) as u32)
}

/// The number of bytes of the count at the head of `window`: the index behind
/// the first byte that no other follows, if it is among the first five.
pub open spec fn length(window: Seq<u8>) -> Option<nat> {
    if window.len() >= 1 && !continues(window[0]) {
        Some(1)
    } else if window.len() >= 2 && !continues(window[1]) {
        Some(2)
    } else if window.len() >= 3 && !continues(window[2]) {
        Some(3)
    } else if window.len() >= 4 && !continues(window[3]) {
        Some(4)
    } else if window.len() >= 5 && !continues(window[4]) {
        Some(5)
    } else {
        None
    }
}

/// The groups of the first `n` bytes, put together. Of a fifth byte only the
/// low four bits find room.
pub open spec fn value(window: Seq<u8>, n: nat) -> u32
    decreases n,
{
    if n == 0 {
        0
    } else {
        value(window, (n - 1) as nat) | group(window, n - 1)
    }
}

/// The count at the head of `window`, if it ends within the window.
pub open spec fn read(window: Seq<u8>) -> Option<u32> {
    match length(window) {
        Some(n) => Some(value(window, n)),
        None => None,
    }
}

/// The bytes that stand for `n`.
pub open spec fn bytes_of(n: nat) -> Seq<u8>
    decreases n,
{
    if n < 0x80 {
        seq![n as u8]
    } else {
        seq![(n % 0x80 + 0x80) as u8] + bytes_of(n / 0x80)
    }
}

/// `std::io::Error`, of which nothing is known.
#[verifier::external_type_specification]
#[verifier::external_body]
pub struct ExIoError(std::io::Error);

/// `VarintRead::read_unsigned_varint_32` on a cursor over `window`: it reads
/// byte after byte, ors each group into the result, and returns at the first
/// byte whose top bit is clear; it fails when the bytes run out first. Beyond
/// five bytes its shift would overflow, so `requires` leaves those out.
#[verifier::external_body]
pub(crate) fn read_unsigned_varint_32(window: Vec<u8>) -> (count: Result<u32, std::io::Error>)
    requires
        window@.len() <= MAX_BYTES,
    ensures
        match read(window@) {
            Some(n) => count matches Ok(c) && c == n,
            None => count is Err,
        },
{
    Cursor::new(window).read_unsigned_varint_32()
}

/// Appends the bytes of `n` to `buffer`.
pub(crate) fn write_count(buffer: &mut ByteBuffer, n: u32)
    requires
        buffer_ready(*old(buffer)),
    ensures
        buffer_appended(*old(buffer), *final(buffer), bytes_of(n as nat)),
{
    let mut rest: u32 = n;
    while rest >= 0x80
        invariant
            buffer_ready(*buffer),
            buffer_read_position(*buffer) == buffer_read_position(*old(buffer)),
            buffer_bytes(*buffer) + bytes_of(rest as nat) == buffer_bytes(*old(buffer)) + bytes_of(
                n as nat,
            ),
        decreases rest,
    {
        let ghost before = buffer_bytes(*buffer);
        let low: u8 = (rest % 0x80 + 0x80) as u8;
        buffer.write_u8(low);
        proof {
            assert((before + seq![low]) + bytes_of((rest / 0x80) as nat) == before + (seq![low]
                + bytes_of((rest / 0x80) as nat)));
        }
        rest = rest / 0x80;
    }
    buffer.write_u8(rest as u8);
}

proof fn lemma_one_byte(n: u32, b0: u8)
    by (bit_vector)
    requires
        n < 0x80,
        b0 as u32 == n,
    ensures
        b0 & 0x80 == 0,
        0u32 | (((b0 & 0x7f) as u32) << 0u32) == n,
{
}

proof fn lemma_two_bytes(n: u32, b0: u8, b1: u8)
    by (bit_vector)
    requires
        0x80 <= n < 0x4000,
        b0 as u32 == n % 0x80 + 0x80,
        b1 as u32 == n / 0x80,
    ensures
        b0 & 0x80 != 0,
        b1 & 0x80 == 0,
        (0u32 | (((b0 & 0x7f) as u32) << 0u32)) | (((b1 & 0x7f) as u32) << 7u32) == n,
{
}

proof fn lemma_three_bytes(n: u32, b0: u8, b1: u8, b2: u8)
    by (bit_vector)
    requires
        0x4000 <= n < 0x20_0000,
        b0 as u32 == n % 0x80 + 0x80,
        b1 as u32 == (n / 0x80) % 0x80 + 0x80,
        b2 as u32 == n / 0x4000,
    ensures
        b0 & 0x80 != 0,
        b1 & 0x80 != 0,
        b2 & 0x80 == 0,
        ((0u32 | (((b0 & 0x7f) as u32) << 0u32)) | (((b1 & 0x7f) as u32) << 7u32)) | (((b2
            & 0x7f) as u32) << 14u32) == n,
{
}

proof fn lemma_four_bytes(n: u32, b0: u8, b1: u8, b2: u8, b3: u8)
    by (bit_vector)
    requires
        0x20_0000 <= n < 0x1000_0000,
        b0 as u32 == n % 0x80 + 0x80,
        b1 as u32 == (n / 0x80) % 0x80 + 0x80,
        b2 as u32 == (n / 0x4000) % 0x80 + 0x80,
        b3 as u32 == n / 0x20_0000,
    ensures
        b0 & 0x80 != 0,
        b1 & 0x80 != 0,
        b2 & 0x80 != 0,
        b3 & 0x80 == 0,
        (((0u32 | (((b0 & 0x7f) as u32) << 0u32)) | (((b1 & 0x7f) as u32) << 7u32)) | (((b2
            & 0x7f) as u32) << 14u32)) | (((b3 & 0x7f) as u32) << 21u32) == n,
{
}

proof fn lemma_five_bytes(n: u32, b0: u8, b1: u8, b2: u8, b3: u8, b4: u8)
    by (bit_vector)
    requires
        0x1000_0000 <= n,
        b0 as u32 == n % 0x80 + 0x80,
        b1 as u32 == (n / 0x80) % 0x80 + 0x80,
        b2 as u32 == (n / 0x4000) % 0x80 + 0x80,
        b3 as u32 == (n / 0x20_0000) % 0x80 + 0x80,
        b4 as u32 == n / 0x1000_0000,
    ensures
        b0 & 0x80 != 0,
        b1 & 0x80 != 0,
        b2 & 0x80 != 0,
        b3 & 0x80 != 0,
        b4 & 0x80 == 0,
        ((((0u32 | (((b0 & 0x7f) as u32) << 0u32)) | (((b1 & 0x7f) as u32) << 7u32)) | (((b2
            & 0x7f) as u32) << 14u32)) | (((b3 & 0x7f) as u32) << 21u32)) | (((b4 & 0x7f) as u32)
            << 28u32) == n,
{
}

/// A count is read back from its own bytes, whatever follows them, and takes
/// between one and five bytes.
pub proof fn lemma_read_bytes_of(n: u32, rest: Seq<u8>)
    ensures
        1 <= bytes_of(n as nat).len() <= MAX_BYTES,
        length(bytes_of(n as nat) + rest) == Some(bytes_of(n as nat).len()),
        read(bytes_of(n as nat) + rest) == Some(n),
{
    reveal_with_fuel(bytes_of, 6);
    reveal_with_fuel(value, 6);
    let own = bytes_of(n as nat);
    let w = own + rest;
    if n < 0x80 {
        lemma_one_byte(n, w[0]);
    } else if n < 0x4000 {
        lemma_two_bytes(n, w[0], w[1]);
    } else if n < 0x20_0000 {
        lemma_three_bytes(n, w[0], w[1], w[2]);
    } else if n < 0x1000_0000 {
        lemma_four_bytes(n, w[0], w[1], w[2], w[3]);
    } else {
        lemma_five_bytes(n, w[0], w[1], w[2], w[3], w[4]);
    }
}

} // verus!
