//! The tag byte that opens every encoded node.
//!
//! Bytes up to [`MAX`] are small integers in zig-zag form; every byte above
//! it is a marker with a fixed meaning, or no tag at all.

use vstd::prelude::*;

verus! {

/// The largest tag byte that is itself a zig-zag encoded integer.
pub const MAX: u8 = 0xEF;

pub const NULL: u8 = 0xF0;

pub const TRUE: u8 = 0xF1;

pub const FALSE: u8 = 0xF2;

/// The object without pairs.
pub const EOBJECT: u8 = 0xF3;

/// The array without elements.
pub const EARRAY: u8 = 0xF4;

/// The string without characters.
pub const ESTRING: u8 = 0xF5;

/// Followed by a varint count and that many key and value nodes.
pub const OBJECT: u8 = 0xF6;

/// Followed by a varint count and that many nodes.
pub const ARRAY: u8 = 0xF7;

/// Followed by four bytes: a zig-zag encoded 32-bit integer.
pub const INTEGER: u8 = 0xF8;

/// Followed by eight bytes: a zig-zag encoded 64-bit integer.
pub const LONG: u8 = 0xF9;

/// Followed by four bytes: an IEEE-754 single.
pub const FLOAT: u8 = 0xFA;

/// Followed by eight bytes: an IEEE-754 double.
pub const DOUBLE: u8 = 0xFB;

/// Followed by a length byte and that many bytes of UTF-8.
pub const STRING: u8 = 0xFC;

/// Whether `byte` is a small integer in zig-zag form.
pub open spec fn is_inline(byte: u8) -> bool {
    byte <= MAX
}

/// Whether `byte` is one of the thirteen markers.
pub open spec fn is_marker(byte: u8) -> bool {
    NULL <= byte <= STRING
}

/// Every byte is an inline integer, a marker, or no tag; never two of these.
pub proof fn lemma_tags_disjoint(byte: u8)
    ensures
        !(is_inline(byte) && is_marker(byte)),
        !is_inline(byte) && !is_marker(byte) <==> byte > STRING,
{
}

} // verus!
