//! The byte layout, as mathematics: which bytes stand for a value, and which
//! value a run of bytes stands for.

use crate::error::{DecodeError, EncodeError};
use crate::tag::{
    ARRAY, DOUBLE, EARRAY, EOBJECT, ESTRING, FALSE, FLOAT, INTEGER, LONG, MAX, NULL, OBJECT,
    STRING, TRUE,
};
use crate::value::{put, Pairs, ValueView};
use crate::varint;
use crate::zigzag::{zig_zag, zig_zag_inverse};
use vstd::bytes::{
    spec_u32_from_le_bytes, spec_u32_to_le_bytes, spec_u64_from_le_bytes, spec_u64_to_le_bytes,
};
use vstd::prelude::*;
use vstd::utf8::{decode_utf8, encode_utf8, valid_utf8};

verus! {

/// The longest string, in bytes of UTF-8, that has an encoding.
pub const MAX_STRING_BYTES: usize = 255;

/// How deep arrays and objects with members may be nested. The encoder and the
/// decoder go down one call for each level, and stop here.
pub const MAX_DEPTH: usize = 128;

// ---------------------------------------------------------------- encoding

/// The bytes of a number: the tag alone from -120 to 119, else the narrowest
/// of the two wide forms.
pub open spec fn number_wire(n: int) -> Seq<u8> {
    if 0 <= zig_zag(n) <= MAX {
        seq![zig_zag(n) as u8]
    } else if i32::MIN <= n <= i32::MAX {
        seq![INTEGER] + spec_u32_to_le_bytes(zig_zag(n) as u32)
    } else {
        seq![LONG] + spec_u64_to_le_bytes(zig_zag(n) as u64)
    }
}

/// The bytes of a string or key.
pub open spec fn text_wire(text: Seq<char>) -> Seq<u8> {
    let payload = encode_utf8(text);
    if payload.len() == 0 {
        seq![ESTRING]
    } else {
        seq![STRING, payload.len() as u8] + payload
    }
}

/// The bytes of a value.
pub open spec fn wire(v: ValueView) -> Seq<u8>
    decreases v,
{
    match v {
        ValueView::Null => seq![NULL],
        ValueView::Bool(b) => if b {
            seq![TRUE]
        } else {
            seq![FALSE]
        },
        ValueView::Text(text) => text_wire(text),
        ValueView::Integer(n) => number_wire(n as int),
        ValueView::Long(n) => number_wire(n as int),
        ValueView::Float(bits) => seq![FLOAT] + spec_u32_to_le_bytes(bits),
        ValueView::Double(bits) => seq![DOUBLE] + spec_u64_to_le_bytes(bits),
        ValueView::Array(items) => if items.len() == 0 {
            seq![EARRAY]
        } else {
            seq![ARRAY] + varint::bytes_of(items.len()) + items_wire(items, items.len())
        },
        ValueView::Object(pairs) => if pairs.len() == 0 {
            seq![EOBJECT]
        } else {
            seq![OBJECT] + varint::bytes_of(pairs.len()) + pairs_wire(pairs, pairs.len())
        },
    }
}

/// The bytes of the first `n` of `items`, one behind the other.
pub open spec fn items_wire(items: Seq<ValueView>, n: nat) -> Seq<u8>
    decreases items, n,
{
    if n == 0 || n > items.len() {
        Seq::empty()
    } else {
        items_wire(items, (n - 1) as nat) + wire(items[n - 1])
    }
}

/// The bytes of the first `n` of `pairs`: each key as a string, then its
/// value.
pub open spec fn pairs_wire(pairs: Pairs, n: nat) -> Seq<u8>
    decreases pairs, n,
{
    if n == 0 || n > pairs.len() {
        Seq::empty()
    } else {
        pairs_wire(pairs, (n - 1) as nat) + text_wire(pairs[n - 1].0) + wire(pairs[n - 1].1)
    }
}

/// Why a string has no encoding, if it has none.
pub open spec fn text_refusal(text: Seq<char>) -> Option<EncodeError> {
    if encode_utf8(text).len() > MAX_STRING_BYTES {
        Some(EncodeError::StringTooLong)
    } else {
        None
    }
}

/// Why a value has no encoding with `depth` levels of nesting to spare, if
/// it has none: the first obstacle met on the way through the tree, parents
/// before children, members in their order.
pub open spec fn refusal(v: ValueView, depth: nat) -> Option<EncodeError>
    decreases v,
{
    match v {
        ValueView::Text(text) => text_refusal(text),
        ValueView::Array(items) => if items.len() == 0 {
            None
        } else if depth == 0 {
            Some(EncodeError::TooDeep)
        } else if items.len() > u32::MAX {
            Some(EncodeError::TooManyItems)
        } else {
            items_refusal(items, items.len(), (depth - 1) as nat)
        },
        ValueView::Object(pairs) => if pairs.len() == 0 {
            None
        } else if depth == 0 {
            Some(EncodeError::TooDeep)
        } else if pairs.len() > u32::MAX {
            Some(EncodeError::TooManyItems)
        } else {
            pairs_refusal(pairs, pairs.len(), (depth - 1) as nat)
        },
        _ => None,
    }
}

/// The first obstacle among the first `n` of `items`.
pub open spec fn items_refusal(items: Seq<ValueView>, n: nat, depth: nat) -> Option<EncodeError>
    decreases items, n,
{
    if n == 0 || n > items.len() {
        None
    } else if items_refusal(items, (n - 1) as nat, depth) is Some {
        items_refusal(items, (n - 1) as nat, depth)
    } else {
        refusal(items[n - 1], depth)
    }
}

/// The first obstacle among the first `n` of `pairs`, a key before its value.
pub open spec fn pairs_refusal(pairs: Pairs, n: nat, depth: nat) -> Option<EncodeError>
    decreases pairs, n,
{
    if n == 0 || n > pairs.len() {
        None
    } else if pairs_refusal(pairs, (n - 1) as nat, depth) is Some {
        pairs_refusal(pairs, (n - 1) as nat, depth)
    } else if text_refusal(pairs[n - 1].0) is Some {
        text_refusal(pairs[n - 1].0)
    } else {
        refusal(pairs[n - 1].1, depth)
    }
}

/// Whether a value has an encoding.
pub open spec fn encodable(v: ValueView) -> bool {
    refusal(v, MAX_DEPTH as nat) is None
}

// ---------------------------------------------------------------- decoding

/// The count that starts at `pos`, and where it ends. A count whose bytes run
/// out is truncated; one that goes on beyond five bytes announces more than
/// any buffer holds.
pub open spec fn parse_count(bytes: Seq<u8>, pos: int) -> Result<(u32, int), DecodeError> {
    let end = if pos + varint::MAX_BYTES <= bytes.len() {
        pos + varint::MAX_BYTES
    } else {
        bytes.len() as int
    };
    let window = bytes.subrange(pos, end);
    match varint::length(window) {
        Some(n) => Ok((varint::value(window, n), pos + n)),
        None => if window.len() < varint::MAX_BYTES {
            Err(DecodeError::TruncatedBuffer)
        } else {
            Err(DecodeError::CountMismatch)
        },
    }
}

/// The string whose length byte stands at `pos`, and where it ends: as many
/// bytes of UTF-8 as the length byte says.
pub open spec fn parse_text(bytes: Seq<u8>, pos: int) -> Result<(Seq<char>, int), DecodeError> {
    if pos >= bytes.len() {
        Err(DecodeError::TruncatedBuffer)
    } else if pos + 1 + bytes[pos] > bytes.len() {
        Err(DecodeError::TruncatedBuffer)
    } else {
        let payload = bytes.subrange(pos + 1, pos + 1 + bytes[pos]);
        if valid_utf8(payload) {
            Ok((decode_utf8(payload), pos + 1 + bytes[pos]))
        } else {
            Err(DecodeError::InvalidUtf8)
        }
    }
}

/// The key whose tag stands at `pos`, and where it ends. A key is a string,
/// empty or not.
pub open spec fn parse_key(bytes: Seq<u8>, pos: int) -> Result<(Seq<char>, int), DecodeError> {
    if bytes[pos] == ESTRING {
        Ok((Seq::empty(), pos + 1))
    } else if bytes[pos] == STRING {
        parse_text(bytes, pos + 1)
    } else {
        Err(DecodeError::NonStringKey)
    }
}

/// The value whose tag stands at `pos`, and where it ends, with `depth`
/// levels of nesting to spare.
pub open spec fn parse_node(bytes: Seq<u8>, pos: int, depth: nat) -> Result<
    (ValueView, int),
    DecodeError,
>
    decreases bytes.len() - pos, 0int,
{
    if pos < 0 || pos >= bytes.len() {
        Err(DecodeError::TruncatedBuffer)
    } else {
        let tag = bytes[pos];
        if tag <= MAX {
            Ok((ValueView::Integer(zig_zag_inverse(tag as int) as i32), pos + 1))
        } else if tag == NULL {
            Ok((ValueView::Null, pos + 1))
        } else if tag == TRUE {
            Ok((ValueView::Bool(true), pos + 1))
        } else if tag == FALSE {
            Ok((ValueView::Bool(false), pos + 1))
        } else if tag == EOBJECT {
            Ok((ValueView::Object(Seq::empty()), pos + 1))
        } else if tag == EARRAY {
            Ok((ValueView::Array(Seq::empty()), pos + 1))
        } else if tag == ESTRING {
            Ok((ValueView::Text(Seq::empty()), pos + 1))
        } else if tag == OBJECT {
            if depth == 0 {
                Err(DecodeError::TooDeep)
            } else {
                match parse_count(bytes, pos + 1) {
                    Err(e) => Err(e),
                    Ok((count, start)) => match parse_pairs(
                        bytes,
                        start,
                        count as nat,
                        Seq::empty(),
                        (depth - 1) as nat,
                    ) {
                        Err(e) => Err(e),
                        Ok((pairs, end)) => Ok((ValueView::Object(pairs), end)),
                    },
                }
            }
        } else if tag == ARRAY {
            if depth == 0 {
                Err(DecodeError::TooDeep)
            } else {
                match parse_count(bytes, pos + 1) {
                    Err(e) => Err(e),
                    Ok((count, start)) => match parse_items(
                        bytes,
                        start,
                        count as nat,
                        Seq::empty(),
                        (depth - 1) as nat,
                    ) {
                        Err(e) => Err(e),
                        Ok((items, end)) => Ok((ValueView::Array(items), end)),
                    },
                }
            }
        } else if tag == INTEGER {
            if pos + 5 > bytes.len() {
                Err(DecodeError::TruncatedBuffer)
            } else {
                let payload = spec_u32_from_le_bytes(bytes.subrange(pos + 1, pos + 5));
                Ok((ValueView::Integer(zig_zag_inverse(payload as int) as i32), pos + 5))
            }
        } else if tag == LONG {
            if pos + 9 > bytes.len() {
                Err(DecodeError::TruncatedBuffer)
            } else {
                let payload = spec_u64_from_le_bytes(bytes.subrange(pos + 1, pos + 9));
                Ok((ValueView::Long(zig_zag_inverse(payload as int) as i64), pos + 9))
            }
        } else if tag == FLOAT {
            if pos + 5 > bytes.len() {
                Err(DecodeError::TruncatedBuffer)
            } else {
                Ok((ValueView::Float(spec_u32_from_le_bytes(bytes.subrange(pos + 1, pos + 5))), pos + 5))
            }
        } else if tag == DOUBLE {
            if pos + 9 > bytes.len() {
                Err(DecodeError::TruncatedBuffer)
            } else {
                Ok((ValueView::Double(spec_u64_from_le_bytes(bytes.subrange(pos + 1, pos + 9))), pos + 9))
            }
        } else if tag == STRING {
            match parse_text(bytes, pos + 1) {
                Err(e) => Err(e),
                Ok((text, end)) => Ok((ValueView::Text(text), end)),
            }
        } else {
            Err(DecodeError::UnknownTag)
        }
    }
}

/// The array that `count` more nodes from `pos` on make of `done`, and where
/// it ends. A node ends behind its own tag and within the bytes
/// (`lemma_parse_node_sound` among the laws), so the test on `next` never fails.
pub open spec fn parse_items(
    bytes: Seq<u8>,
    pos: int,
    count: nat,
    done: Seq<ValueView>,
    depth: nat,
) -> Result<(Seq<ValueView>, int), DecodeError>
    decreases bytes.len() - pos, 1int,
{
    if count == 0 {
        Ok((done, pos))
    } else if pos < 0 || pos >= bytes.len() {
        Err(DecodeError::CountMismatch)
    } else {
        match parse_node(bytes, pos, depth) {
            Err(e) => Err(e),
            Ok((item, next)) => if pos < next <= bytes.len() {
                parse_items(bytes, next, (count - 1) as nat, done.push(item), depth)
            } else {
                Err(DecodeError::TruncatedBuffer)
            },
        }
    }
}

/// The object that `count` more keys and values from `pos` on make of `done`,
/// and where it ends. A later binding of a key replaces the earlier one.
pub open spec fn parse_pairs(bytes: Seq<u8>, pos: int, count: nat, done: Pairs, depth: nat) -> Result<
    (Pairs, int),
    DecodeError,
>
    decreases bytes.len() - pos, 1int,
{
    if count == 0 {
        Ok((done, pos))
    } else if pos < 0 || pos >= bytes.len() {
        Err(DecodeError::CountMismatch)
    } else {
        match parse_key(bytes, pos) {
            Err(e) => Err(e),
            Ok((key, mid)) => if mid >= bytes.len() {
                Err(DecodeError::CountMismatch)
            } else {
                match parse_node(bytes, mid, depth) {
                    Err(e) => Err(e),
                    Ok((value, next)) => if mid < next <= bytes.len() {
                        parse_pairs(
                            bytes,
                            next,
                            (count - 1) as nat,
                            put(done, key, value),
                            depth,
                        )
                    } else {
                        Err(DecodeError::TruncatedBuffer)
                    },
                }
            },
        }
    }
}

/// The value that the whole of `bytes` stands for: one node from the first
/// byte to the last.
pub open spec fn parse(bytes: Seq<u8>) -> Result<ValueView, DecodeError> {
    match parse_node(bytes, 0, MAX_DEPTH as nat) {
        Err(e) => Err(e),
        Ok((v, end)) => if end == bytes.len() {
            Ok(v)
        } else {
            Err(DecodeError::TrailingBytes)
        },
    }
}

} // verus!
