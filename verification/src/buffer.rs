//! What this library takes on trust about `bytebuffer_new::ByteBuffer`.
//!
//! A `ByteBuffer` owns a growable array of bytes, a write cursor, a read
//! cursor and a byte order. Nothing here is proved: each contract restates
//! what the buffer's source does, over the names below.

use bytebuffer_new::{ByteBuffer, Endian};
use vstd::bytes::{
    spec_u32_from_le_bytes, spec_u32_to_le_bytes, spec_u64_from_le_bytes, spec_u64_to_le_bytes,
};
use vstd::prelude::*;

verus! {

/// `bytebuffer_new::ByteBuffer`, of which only the names below are known.
#[verifier::external_type_specification]
#[verifier::external_body]
pub struct ExByteBuffer(ByteBuffer);

/// All the bytes that the buffer holds, read or not.
pub uninterp spec fn buffer_bytes(buffer: ByteBuffer) -> Seq<u8>;

/// The index, in `buffer_bytes`, of the next byte to be read.
pub uninterp spec fn buffer_read_position(buffer: ByteBuffer) -> nat;

/// Whether multi-byte integers are written and read least significant byte
/// first.
pub uninterp spec fn buffer_little_endian(buffer: ByteBuffer) -> bool;

/// Whether the buffer is used byte by byte from front to back: its write cursor
/// stands at the end of its bytes and no single-bit read or write is pending.
pub uninterp spec fn buffer_sequential(buffer: ByteBuffer) -> bool;

/// A buffer in the state in which every contract below applies.
pub open spec fn buffer_ready(buffer: ByteBuffer) -> bool {
    &&& buffer_sequential(buffer)
    &&& buffer_little_endian(buffer)
    &&& buffer_read_position(buffer) <= buffer_bytes(buffer).len()
}

/// The `count` bytes from the read cursor on.
pub open spec fn buffer_next(buffer: ByteBuffer, count: nat) -> Seq<u8> {
    buffer_bytes(buffer).subrange(
        buffer_read_position(buffer) as int,
        buffer_read_position(buffer) + count as int,
    )
}

/// What a write leaves alone and what it appends.
pub open spec fn buffer_appended(before: ByteBuffer, after: ByteBuffer, added: Seq<u8>) -> bool {
    &&& buffer_bytes(after) == buffer_bytes(before) + added
    &&& buffer_read_position(after) == buffer_read_position(before)
    &&& buffer_ready(after)
}

/// What a read leaves alone and how far it moves the read cursor.
pub open spec fn buffer_advanced(before: ByteBuffer, after: ByteBuffer, count: nat) -> bool {
    &&& buffer_bytes(after) == buffer_bytes(before)
    &&& buffer_read_position(after) == buffer_read_position(before) + count
    &&& buffer_ready(after)
}

/// `ByteBuffer::new` makes an empty buffer with both cursors at zero.
pub assume_specification[ ByteBuffer::new ]() -> (buffer: ByteBuffer)
    ensures
        buffer_bytes(buffer) == Seq::<u8>::empty(),
        buffer_read_position(buffer) == 0,
        buffer_sequential(buffer),
;

/// `ByteBuffer::from_bytes` makes a buffer that holds a copy of `bytes`, with
/// the read cursor at zero and the write cursor behind the last byte.
pub assume_specification[ ByteBuffer::from_bytes ](bytes: &[u8]) -> (buffer: ByteBuffer)
    ensures
        buffer_bytes(buffer) == bytes@,
        buffer_read_position(buffer) == 0,
        buffer_sequential(buffer),
;

/// `ByteBuffer::set_endian`, called with `Endian::LittleEndian`: only the byte
/// order changes.
#[verifier::external_body]
pub(crate) fn set_little_endian(buffer: &mut ByteBuffer)
    ensures
        buffer_bytes(*final(buffer)) == buffer_bytes(*old(buffer)),
        buffer_read_position(*final(buffer)) == buffer_read_position(*old(buffer)),
        buffer_sequential(*final(buffer)) == buffer_sequential(*old(buffer)),
        buffer_little_endian(*final(buffer)),
{
    buffer.set_endian(Endian::LittleEndian);
}

/// `ByteBuffer::len` is the number of bytes held.
pub assume_specification[ ByteBuffer::len ](buffer: &ByteBuffer) -> (n: usize)
    ensures
        n == buffer_bytes(*buffer).len(),
;

/// `ByteBuffer::get_rpos` is the read cursor.
pub assume_specification[ ByteBuffer::get_rpos ](buffer: &ByteBuffer) -> (n: usize)
    ensures
        n == buffer_read_position(*buffer),
;

/// `ByteBuffer::to_bytes` copies out all the bytes held.
pub assume_specification[ ByteBuffer::to_bytes ](buffer: &ByteBuffer) -> (bytes: Vec<u8>)
    ensures
        bytes@ == buffer_bytes(*buffer),
;

/// `ByteBuffer::write_u8` appends one byte.
pub assume_specification[ ByteBuffer::write_u8 ](buffer: &mut ByteBuffer, val: u8)
    requires
        buffer_ready(*old(buffer)),
    ensures
        buffer_appended(*old(buffer), *final(buffer), seq![val]),
;

/// `ByteBuffer::write_u32` appends the four bytes of `val`, least significant
/// first on a little-endian buffer.
pub assume_specification[ ByteBuffer::write_u32 ](buffer: &mut ByteBuffer, val: u32)
    requires
        buffer_ready(*old(buffer)),
    ensures
        buffer_appended(*old(buffer), *final(buffer), spec_u32_to_le_bytes(val)),
;

/// `ByteBuffer::write_u64` appends the eight bytes of `val`, least significant
/// first on a little-endian buffer.
pub assume_specification[ ByteBuffer::write_u64 ](buffer: &mut ByteBuffer, val: u64)
    requires
        buffer_ready(*old(buffer)),
    ensures
        buffer_appended(*old(buffer), *final(buffer), spec_u64_to_le_bytes(val)),
;

/// `ByteBuffer::write_bytes` appends `bytes` as they are.
pub assume_specification[ ByteBuffer::write_bytes ](buffer: &mut ByteBuffer, bytes: &[u8])
    requires
        buffer_ready(*old(buffer)),
    ensures
        buffer_appended(*old(buffer), *final(buffer), bytes@),
;

/// `ByteBuffer::read_u8` returns the byte under the read cursor and steps over
/// it. It panics at the end of the buffer, which `requires` leaves out.
pub assume_specification[ ByteBuffer::read_u8 ](buffer: &mut ByteBuffer) -> (byte: u8)
    requires
        buffer_ready(*old(buffer)),
        buffer_read_position(*old(buffer)) < buffer_bytes(*old(buffer)).len(),
    ensures
        byte == buffer_bytes(*old(buffer))[buffer_read_position(*old(buffer)) as int],
        buffer_advanced(*old(buffer), *final(buffer), 1),
;

/// `ByteBuffer::read_u32` returns the four bytes under the read cursor as one
/// number, the first byte least significant on a little-endian buffer, and
/// steps over them. It panics where fewer than four bytes are left.
pub assume_specification[ ByteBuffer::read_u32 ](buffer: &mut ByteBuffer) -> (val: u32)
    requires
        buffer_ready(*old(buffer)),
        buffer_read_position(*old(buffer)) + 4 <= buffer_bytes(*old(buffer)).len(),
    ensures
        val == spec_u32_from_le_bytes(
            buffer_next(*old(buffer), 4),
        ),
        buffer_advanced(*old(buffer), *final(buffer), 4),
;

/// `ByteBuffer::read_u64` returns the eight bytes under the read cursor as one
/// number, the first byte least significant on a little-endian buffer, and
/// steps over them. It panics where fewer than eight bytes are left.
pub assume_specification[ ByteBuffer::read_u64 ](buffer: &mut ByteBuffer) -> (val: u64)
    requires
        buffer_ready(*old(buffer)),
        buffer_read_position(*old(buffer)) + 8 <= buffer_bytes(*old(buffer)).len(),
    ensures
        val == spec_u64_from_le_bytes(
            buffer_next(*old(buffer), 8),
        ),
        buffer_advanced(*old(buffer), *final(buffer), 8),
;

/// `ByteBuffer::read_bytes` copies out the `size` bytes under the read cursor
/// and steps over them. It panics where fewer than `size` bytes are left.
pub assume_specification[ ByteBuffer::read_bytes ](buffer: &mut ByteBuffer, size: usize) -> (bytes:
    Vec<u8>)
    requires
        buffer_ready(*old(buffer)),
        buffer_read_position(*old(buffer)) + size <= buffer_bytes(*old(buffer)).len(),
    ensures
        bytes@ == buffer_next(*old(buffer), size as nat),
        buffer_advanced(*old(buffer), *final(buffer), size as nat),
;

} // verus!
