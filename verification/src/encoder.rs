//! The encoder: from a value to the bytes that stand for it.

use crate::buffer::{buffer_appended, buffer_bytes, buffer_ready, set_little_endian};
use crate::error::EncodeError;
use crate::tag::{
    ARRAY, DOUBLE, EARRAY, EOBJECT, ESTRING, FALSE, FLOAT, INTEGER, LONG, MAX, NULL, OBJECT,
    STRING, TRUE,
};
use crate::value::{
    lemma_array_view, lemma_object_view, pair_views, views, Pairs, Value, ValueView,
};
use crate::varint;
use crate::wire::{
    items_refusal, items_wire, number_wire, pairs_refusal, pairs_wire, refusal, text_refusal,
    text_wire, wire, MAX_DEPTH, MAX_STRING_BYTES,
};
use crate::zigzag::{zig_zag_encode32, zig_zag_encode64};
use bytebuffer_new::ByteBuffer;
use vstd::prelude::*;

verus! {

/// Appends a number: the tag alone where its zig-zag code is a tag, else the
/// narrowest wide form.
fn write_number(buffer: &mut ByteBuffer, n: i64)
    requires
        buffer_ready(*old(buffer)),
    ensures
        buffer_appended(*old(buffer), *final(buffer), number_wire(n as int)),
{
    let ghost before = buffer_bytes(*buffer);
    let code: u64 = zig_zag_encode64(n);
    if code <= MAX as u64 {
        buffer.write_u8(code as u8);
    } else if i32::MIN as i64 <= n && n <= i32::MAX as i64 {
        buffer.write_u8(INTEGER);
        buffer.write_u32(zig_zag_encode32(n as i32));
        assert(buffer_bytes(*buffer) =~= before + number_wire(n as int));
    } else {
        buffer.write_u8(LONG);
        buffer.write_u64(code);
        assert(buffer_bytes(*buffer) =~= before + number_wire(n as int));
    }
}

/// Appends a string or key.
fn write_text(buffer: &mut ByteBuffer, text: &str) -> (r: Result<(), EncodeError>)
    requires
        buffer_ready(*old(buffer)),
    ensures
        match text_refusal(text@) {
            None => r is Ok && buffer_appended(*old(buffer), *final(buffer), text_wire(text@)),
            Some(e) => r == Err::<(), EncodeError>(e),
        },
{
    let ghost before = buffer_bytes(*buffer);
    let payload: &[u8] = text.as_bytes();
    let size: usize = payload.len();
    if size == 0 {
        buffer.write_u8(ESTRING);
        Ok(())
    } else if size > MAX_STRING_BYTES {
        Err(EncodeError::StringTooLong)
    } else {
        buffer.write_u8(STRING);
        buffer.write_u8(size as u8);
        buffer.write_bytes(payload);
        assert(buffer_bytes(*buffer) =~= before + text_wire(text@));
        Ok(())
    }
}

/// Appends the bytes of `value`, which may nest `depth` levels deep.
pub(crate) fn encode_node(value: &Value, buffer: &mut ByteBuffer, depth: usize) -> (r: Result<
    (),
    EncodeError,
>)
    requires
        buffer_ready(*old(buffer)),
    ensures
        match refusal(value@, depth as nat) {
            None => r is Ok && buffer_appended(*old(buffer), *final(buffer), wire(value@)),
            Some(e) => r == Err::<(), EncodeError>(e),
        },
    decreases value,
{
    let ghost before = buffer_bytes(*buffer);
    match value {
        Value::Null => {
            buffer.write_u8(NULL);
            Ok(())
        },
        Value::Bool(b) => {
            if *b {
                buffer.write_u8(TRUE);
            } else {
                buffer.write_u8(FALSE);
            }
            Ok(())
        },
        Value::String(text) => write_text(buffer, text.as_str()),
        Value::Integer(n) => {
            write_number(buffer, *n as i64);
            Ok(())
        },
        Value::Long(n) => {
            write_number(buffer, *n);
            Ok(())
        },
        Value::Float(bits) => {
            buffer.write_u8(FLOAT);
            buffer.write_u32(*bits);
            assert(buffer_bytes(*buffer) =~= before + wire(value@));
            Ok(())
        },
        Value::Double(bits) => {
            buffer.write_u8(DOUBLE);
            buffer.write_u64(*bits);
            assert(buffer_bytes(*buffer) =~= before + wire(value@));
            Ok(())
        },
        Value::Array(items) => {
            proof {
                lemma_array_view(*items);
            }
            if items.len() == 0 {
                buffer.write_u8(EARRAY);
                Ok(())
            } else if depth == 0 {
                Err(EncodeError::TooDeep)
            } else if items.len() > u32::MAX as usize {
                Err(EncodeError::TooManyItems)
            } else {
                buffer.write_u8(ARRAY);
                varint::write_count(buffer, items.len() as u32);
                match encode_items(items, buffer, depth - 1) {
                    Err(e) => Err(e),
                    Ok(()) => {
                        assert(buffer_bytes(*buffer) =~= before + wire(value@));
                        Ok(())
                    },
                }
            }
        },
        Value::Object(pairs) => {
            proof {
                lemma_object_view(*pairs);
            }
            if pairs.len() == 0 {
                buffer.write_u8(EOBJECT);
                Ok(())
            } else if depth == 0 {
                Err(EncodeError::TooDeep)
            } else if pairs.len() > u32::MAX as usize {
                Err(EncodeError::TooManyItems)
            } else {
                buffer.write_u8(OBJECT);
                varint::write_count(buffer, pairs.len() as u32);
                match encode_pairs(pairs, buffer, depth - 1) {
                    Err(e) => Err(e),
                    Ok(()) => {
                        assert(buffer_bytes(*buffer) =~= before + wire(value@));
                        Ok(())
                    },
                }
            }
        },
    }
}

/// Appends the bytes of each of `items`, in their order.
fn encode_items(items: &Vec<Value>, buffer: &mut ByteBuffer, depth: usize) -> (r: Result<
    (),
    EncodeError,
>)
    requires
        buffer_ready(*old(buffer)),
    ensures
        match items_refusal(views(items@), items@.len(), depth as nat) {
            None => r is Ok && buffer_appended(
                *old(buffer),
                *final(buffer),
                items_wire(views(items@), items@.len()),
            ),
            Some(e) => r == Err::<(), EncodeError>(e),
        },
    decreases items,
{
    let ghost before = buffer_bytes(*buffer);
    let ghost members = views(items@);
    let mut i: usize = 0;
    while i < items.len()
        invariant
            i <= items.len(),
            members == views(items@),
            before == buffer_bytes(*old(buffer)),
            items_refusal(members, i as nat, depth as nat) is None,
            buffer_appended(*old(buffer), *buffer, items_wire(members, i as nat)),
        decreases items.len() - i,
    {
        let ghost so_far = buffer_bytes(*buffer);
        match encode_node(&items[i], buffer, depth) {
            Err(e) => {
                proof {
                    lemma_items_refusal_stays(
                        members,
                        (i + 1) as nat,
                        items@.len(),
                        depth as nat,
                    );
                }
                return Err(e);
            },
            Ok(()) => {
                assert(buffer_bytes(*buffer) =~= before + items_wire(members, (i + 1) as nat));
            },
        }
        i += 1;
    }
    Ok(())
}

/// Appends the bytes of each of `pairs`, key before value, in their order.
fn encode_pairs(pairs: &Vec<(String, Value)>, buffer: &mut ByteBuffer, depth: usize) -> (r:
    Result<(), EncodeError>)
    requires
        buffer_ready(*old(buffer)),
    ensures
        match pairs_refusal(pair_views(pairs@), pairs@.len(), depth as nat) {
            None => r is Ok && buffer_appended(
                *old(buffer),
                *final(buffer),
                pairs_wire(pair_views(pairs@), pairs@.len()),
            ),
            Some(e) => r == Err::<(), EncodeError>(e),
        },
    decreases pairs,
{
    let ghost before = buffer_bytes(*buffer);
    let ghost members = pair_views(pairs@);
    let mut i: usize = 0;
    while i < pairs.len()
        invariant
            i <= pairs.len(),
            members == pair_views(pairs@),
            before == buffer_bytes(*old(buffer)),
            pairs_refusal(members, i as nat, depth as nat) is None,
            buffer_appended(*old(buffer), *buffer, pairs_wire(members, i as nat)),
        decreases pairs.len() - i,
    {
        match write_text(buffer, pairs[i].0.as_str()) {
            Err(e) => {
                proof {
                    lemma_pairs_refusal_stays(
                        members,
                        (i + 1) as nat,
                        pairs@.len(),
                        depth as nat,
                    );
                }
                return Err(e);
            },
            Ok(()) => {},
        }
        match encode_node(&pairs[i].1, buffer, depth) {
            Err(e) => {
                proof {
                    lemma_pairs_refusal_stays(
                        members,
                        (i + 1) as nat,
                        pairs@.len(),
                        depth as nat,
                    );
                }
                return Err(e);
            },
            Ok(()) => {
                assert(buffer_bytes(*buffer) =~= before + pairs_wire(members, (i + 1) as nat));
            },
        }
        i += 1;
    }
    Ok(())
}

proof fn lemma_items_refusal_stays(items: Seq<ValueView>, n: nat, m: nat, depth: nat)
    requires
        n <= m <= items.len(),
        items_refusal(items, n, depth) is Some,
    ensures
        items_refusal(items, m, depth) == items_refusal(items, n, depth),
    decreases m,
{
    if n < m {
        lemma_items_refusal_stays(items, n, (m - 1) as nat, depth);
    }
}

proof fn lemma_pairs_refusal_stays(pairs: Pairs, n: nat, m: nat, depth: nat)
    requires
        n <= m <= pairs.len(),
        pairs_refusal(pairs, n, depth) is Some,
    ensures
        pairs_refusal(pairs, m, depth) == pairs_refusal(pairs, n, depth),
    decreases m,
{
    if n < m {
        lemma_pairs_refusal_stays(pairs, n, (m - 1) as nat, depth);
    }
}

/// Encodes `value` as bytes.
///
/// Every value has an encoding but one that holds a string or key of more
/// than 255 bytes of UTF-8, an array or object of more than `u32::MAX`
/// members, or arrays and objects nested more than 128 deep.
pub fn encode_bytes(value: &Value) -> (r: Result<Vec<u8>, EncodeError>)
    ensures
        match refusal(value@, MAX_DEPTH as nat) {
            None => r matches Ok(bytes) && bytes@ == wire(value@),
            Some(e) => r == Err::<Vec<u8>, EncodeError>(e),
        },
{
    let mut buffer: ByteBuffer = ByteBuffer::new();
    set_little_endian(&mut buffer);
    match encode_node(value, &mut buffer, MAX_DEPTH) {
        Err(e) => Err(e),
        Ok(()) => Ok(buffer.to_bytes()),
    }
}

} // verus!
