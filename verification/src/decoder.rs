//! The decoder: from bytes to the value they stand for.

use crate::buffer::{buffer_bytes, buffer_read_position, buffer_ready, set_little_endian};
use crate::error::DecodeError;
use crate::tag::{
    ARRAY, DOUBLE, EARRAY, EOBJECT, ESTRING, FALSE, FLOAT, INTEGER, LONG, MAX, NULL, OBJECT,
    STRING, TRUE,
};
use crate::laws::lemma_parsed_is_sound;
use crate::value::{
    distinct_keys, lemma_array_view, lemma_object_view, pair_views, put, views, well_formed,
    Value,
};
use crate::varint;
use crate::wire::{
    encodable, parse, parse_count, parse_items, parse_key, parse_node, parse_pairs, parse_text,
    MAX_DEPTH,
};
use crate::zigzag::{zig_zag_decode32_from_u32, zig_zag_decode32_from_u64, zig_zag_decode32_from_u8};
use bytebuffer_new::ByteBuffer;
use std::string::FromUtf8Error;
use vstd::prelude::*;
use vstd::utf8::{encode_utf8, encode_utf8_decode_utf8, valid_utf8};

verus! {

/// `std::string::FromUtf8Error`, of which nothing is known.
#[verifier::external_type_specification]
#[verifier::external_body]
pub struct ExFromUtf8Error(FromUtf8Error);

/// `String::from_utf8` gives the string made of the bytes of `vec` where they
/// are UTF-8, and an error where they are not.
pub assume_specification[ std::string::String::from_utf8 ](vec: Vec<u8>) -> (text: Result<
    std::string::String,
    FromUtf8Error,
>)
    ensures
        text is Ok <==> valid_utf8(vec@),
        text matches Ok(s) ==> encode_utf8(s@) == vec@,
;

/// The buffer as `before`, but read up to `end`.
pub open spec fn read_up_to(before: ByteBuffer, after: ByteBuffer, end: int) -> bool {
    &&& buffer_bytes(after) == buffer_bytes(before)
    &&& buffer_ready(after)
    &&& buffer_read_position(before) < buffer_read_position(after) == end
}

proof fn lemma_value_of_prefix(a: Seq<u8>, b: Seq<u8>, n: nat)
    requires
        n <= a.len(),
        n <= b.len(),
        forall|i: int| 0 <= i < n ==> a[i] == b[i],
    ensures
        varint::value(a, n) == varint::value(b, n),
    decreases n,
{
    if n > 0 {
        lemma_value_of_prefix(a, b, (n - 1) as nat);
    }
}

/// Reads the count under the read cursor.
fn read_count(buffer: &mut ByteBuffer) -> (r: Result<u32, DecodeError>)
    requires
        buffer_ready(*old(buffer)),
    ensures
        match parse_count(buffer_bytes(*old(buffer)), buffer_read_position(*old(buffer)) as int) {
            Ok((count, end)) => r == Ok::<u32, DecodeError>(count) && read_up_to(
                *old(buffer),
                *final(buffer),
                end,
            ),
            Err(e) => r == Err::<u32, DecodeError>(e),
        },
{
    let ghost bytes = buffer_bytes(*buffer);
    let ghost start = buffer_read_position(*buffer) as int;
    let ghost stop = if start + varint::MAX_BYTES <= bytes.len() {
        start + varint::MAX_BYTES
    } else {
        bytes.len() as int
    };
    let ghost whole = bytes.subrange(start, stop);
    let mut window: Vec<u8> = Vec::new();
    loop
        invariant_except_break
            window@.len() < varint::MAX_BYTES,
            forall|i: int| 0 <= i < window@.len() ==> varint::continues(#[trigger] window@[i]),
        invariant
            bytes == buffer_bytes(*old(buffer)),
            start == buffer_read_position(*old(buffer)),
            stop == if start + varint::MAX_BYTES <= bytes.len() {
                start + varint::MAX_BYTES
            } else {
                bytes.len() as int
            },
            whole == bytes.subrange(start, stop),
            buffer_bytes(*buffer) == bytes,
            buffer_ready(*buffer),
            buffer_read_position(*buffer) == start + window@.len(),
            window@.len() <= varint::MAX_BYTES,
            forall|i: int| 0 <= i < window@.len() ==> window@[i] == whole[i],
        ensures
            1 <= window@.len() <= varint::MAX_BYTES,
            varint::length(whole) == Some(window@.len()),
        decreases varint::MAX_BYTES - window@.len(),
    {
        if buffer.get_rpos() >= buffer.len() {
            return Err(DecodeError::TruncatedBuffer);
        }
        let byte: u8 = buffer.read_u8();
        window.push(byte);
        if byte & 0x80 == 0 {
            break ;
        }
        if window.len() == varint::MAX_BYTES {
            return Err(DecodeError::CountMismatch);
        }
    }
    proof {
        lemma_value_of_prefix(window@, whole, window@.len());
    }
    // The window ends in a byte that no other follows, so the read succeeds.
    match varint::read_unsigned_varint_32(window) {
        Ok(count) => Ok(count),
        Err(_) => Err(DecodeError::CountMismatch),
    }
}

/// Reads the string whose length byte stands under the read cursor.
fn read_text(buffer: &mut ByteBuffer) -> (r: Result<String, DecodeError>)
    requires
        buffer_ready(*old(buffer)),
    ensures
        match parse_text(buffer_bytes(*old(buffer)), buffer_read_position(*old(buffer)) as int) {
            Ok((text, end)) => r matches Ok(s) && s@ == text && read_up_to(
                *old(buffer),
                *final(buffer),
                end,
            ),
            Err(e) => r == Err::<String, DecodeError>(e),
        },
{
    if buffer.get_rpos() >= buffer.len() {
        return Err(DecodeError::TruncatedBuffer);
    }
    let size: u8 = buffer.read_u8();
    if buffer.len() - buffer.get_rpos() < size as usize {
        return Err(DecodeError::TruncatedBuffer);
    }
    let payload: Vec<u8> = buffer.read_bytes(size as usize);
    match String::from_utf8(payload) {
        Ok(text) => {
            proof {
                encode_utf8_decode_utf8(text@);
            }
            Ok(text)
        },
        Err(_) => Err(DecodeError::InvalidUtf8),
    }
}

/// Reads the key whose tag stands under the read cursor.
fn read_key(buffer: &mut ByteBuffer) -> (r: Result<String, DecodeError>)
    requires
        buffer_ready(*old(buffer)),
        buffer_read_position(*old(buffer)) < buffer_bytes(*old(buffer)).len(),
    ensures
        match parse_key(buffer_bytes(*old(buffer)), buffer_read_position(*old(buffer)) as int) {
            Ok((text, end)) => r matches Ok(s) && s@ == text && read_up_to(
                *old(buffer),
                *final(buffer),
                end,
            ),
            Err(e) => r == Err::<String, DecodeError>(e),
        },
{
    let tag: u8 = buffer.read_u8();
    if tag == ESTRING {
        Ok(String::new())
    } else if tag == STRING {
        read_text(buffer)
    } else {
        Err(DecodeError::NonStringKey)
    }
}

/// Binds `key` to `value`: over the earlier binding of `key` if there is
/// one, else behind the last pair.
fn put_pair(pairs: &mut Vec<(String, Value)>, key: String, value: Value)
    requires
        distinct_keys(pair_views(old(pairs)@)),
    ensures
        pair_views(final(pairs)@) == put(pair_views(old(pairs)@), key@, value@),
        distinct_keys(pair_views(final(pairs)@)),
{
    let ghost before = pair_views(pairs@);
    let mut i: usize = 0;
    while i < pairs.len()
        invariant
            i <= pairs.len(),
            *pairs == *old(pairs),
            before == pair_views(pairs@),
            distinct_keys(before),
            forall|j: int| 0 <= j < i ==> (#[trigger] before[j]).0 != key@,
        decreases pairs.len() - i,
    {
        if pairs[i].0 == key {
            assert(before[i as int].0 == key@);
            pairs.set(i, (key, value));
            assert(pair_views(pairs@) =~= put(before, key@, value@));
            return ;
        }
        i += 1;
    }
    pairs.push((key, value));
    assert(pair_views(pairs@) =~= put(before, key@, value@));
}

/// Reads the value whose tag stands under the read cursor, which may nest
/// `depth` levels deep.
pub(crate) fn decode_node(buffer: &mut ByteBuffer, depth: usize) -> (r: Result<
    Value,
    DecodeError,
>)
    requires
        buffer_ready(*old(buffer)),
    ensures
        match parse_node(
            buffer_bytes(*old(buffer)),
            buffer_read_position(*old(buffer)) as int,
            depth as nat,
        ) {
            Ok((v, end)) => r matches Ok(value) && value@ == v && read_up_to(
                *old(buffer),
                *final(buffer),
                end,
            ),
            Err(e) => r == Err::<Value, DecodeError>(e),
        },
    decreases buffer_bytes(*old(buffer)).len() - buffer_read_position(*old(buffer)), 0int,
{
    if buffer.get_rpos() >= buffer.len() {
        return Err(DecodeError::TruncatedBuffer);
    }
    let tag: u8 = buffer.read_u8();
    if tag <= MAX {
        Ok(Value::Integer(zig_zag_decode32_from_u8(tag)))
    } else if tag == NULL {
        Ok(Value::Null)
    } else if tag == TRUE {
        Ok(Value::Bool(true))
    } else if tag == FALSE {
        Ok(Value::Bool(false))
    } else if tag == EOBJECT {
        let pairs: Vec<(String, Value)> = Vec::new();
        proof {
            lemma_object_view(pairs);
            assert(pair_views(pairs@) =~= Seq::empty());
        }
        Ok(Value::Object(pairs))
    } else if tag == EARRAY {
        let items: Vec<Value> = Vec::new();
        proof {
            lemma_array_view(items);
            assert(views(items@) =~= Seq::empty());
        }
        Ok(Value::Array(items))
    } else if tag == ESTRING {
        Ok(Value::String(String::new()))
    } else if tag == OBJECT {
        if depth == 0 {
            return Err(DecodeError::TooDeep);
        }
        match read_count(buffer) {
            Err(e) => Err(e),
            Ok(count) => match decode_pairs(buffer, count, depth - 1) {
                Err(e) => Err(e),
                Ok(pairs) => {
                    proof {
                        lemma_object_view(pairs);
                    }
                    Ok(Value::Object(pairs))
                },
            },
        }
    } else if tag == ARRAY {
        if depth == 0 {
            return Err(DecodeError::TooDeep);
        }
        match read_count(buffer) {
            Err(e) => Err(e),
            Ok(count) => match decode_items(buffer, count, depth - 1) {
                Err(e) => Err(e),
                Ok(items) => {
                    proof {
                        lemma_array_view(items);
                    }
                    Ok(Value::Array(items))
                },
            },
        }
    } else if tag == INTEGER {
        if buffer.len() - buffer.get_rpos() < 4 {
            return Err(DecodeError::TruncatedBuffer);
        }
        Ok(Value::Integer(zig_zag_decode32_from_u32(buffer.read_u32())))
    } else if tag == LONG {
        if buffer.len() - buffer.get_rpos() < 8 {
            return Err(DecodeError::TruncatedBuffer);
        }
        Ok(Value::Long(zig_zag_decode32_from_u64(buffer.read_u64())))
    } else if tag == FLOAT {
        if buffer.len() - buffer.get_rpos() < 4 {
            return Err(DecodeError::TruncatedBuffer);
        }
        Ok(Value::Float(buffer.read_u32()))
    } else if tag == DOUBLE {
        if buffer.len() - buffer.get_rpos() < 8 {
            return Err(DecodeError::TruncatedBuffer);
        }
        Ok(Value::Double(buffer.read_u64()))
    } else if tag == STRING {
        match read_text(buffer) {
            Err(e) => Err(e),
            Ok(text) => Ok(Value::String(text)),
        }
    } else {
        Err(DecodeError::UnknownTag)
    }
}

/// Reads `count` values from the read cursor on.
fn decode_items(buffer: &mut ByteBuffer, count: u32, depth: usize) -> (r: Result<
    Vec<Value>,
    DecodeError,
>)
    requires
        buffer_ready(*old(buffer)),
    ensures
        match parse_items(
            buffer_bytes(*old(buffer)),
            buffer_read_position(*old(buffer)) as int,
            count as nat,
            Seq::empty(),
            depth as nat,
        ) {
            Ok((items, end)) => r matches Ok(read) && views(read@) == items && buffer_bytes(
                *final(buffer),
            ) == buffer_bytes(*old(buffer)) && buffer_ready(*final(buffer))
                && buffer_read_position(*old(buffer)) <= buffer_read_position(*final(buffer))
                == end,
            Err(e) => r == Err::<Vec<Value>, DecodeError>(e),
        },
    decreases buffer_bytes(*old(buffer)).len() - buffer_read_position(*old(buffer)), 1int,
{
    let ghost bytes = buffer_bytes(*buffer);
    let ghost start = buffer_read_position(*buffer) as int;
    let mut items: Vec<Value> = Vec::new();
    let mut left: u32 = count;
    assert(views(items@) =~= Seq::empty());
    while left > 0
        invariant
            bytes == buffer_bytes(*old(buffer)),
            start == buffer_read_position(*old(buffer)),
            buffer_bytes(*buffer) == bytes,
            buffer_ready(*buffer),
            start <= buffer_read_position(*buffer),
            parse_items(bytes, start, count as nat, Seq::empty(), depth as nat) == parse_items(
                bytes,
                buffer_read_position(*buffer) as int,
                left as nat,
                views(items@),
                depth as nat,
            ),
        decreases left,
    {
        if buffer.get_rpos() >= buffer.len() {
            return Err(DecodeError::CountMismatch);
        }
        let ghost done = views(items@);
        match decode_node(buffer, depth) {
            Err(e) => {
                return Err(e);
            },
            Ok(item) => {
                items.push(item);
                assert(views(items@) =~= done.push(item@));
            },
        }
        left = left - 1;
    }
    Ok(items)
}

/// Reads `count` keys and values from the read cursor on.
fn decode_pairs(buffer: &mut ByteBuffer, count: u32, depth: usize) -> (r: Result<
    Vec<(String, Value)>,
    DecodeError,
>)
    requires
        buffer_ready(*old(buffer)),
    ensures
        match parse_pairs(
            buffer_bytes(*old(buffer)),
            buffer_read_position(*old(buffer)) as int,
            count as nat,
            Seq::empty(),
            depth as nat,
        ) {
            Ok((pairs, end)) => r matches Ok(read) && pair_views(read@) == pairs && buffer_bytes(
                *final(buffer),
            ) == buffer_bytes(*old(buffer)) && buffer_ready(*final(buffer))
                && buffer_read_position(*old(buffer)) <= buffer_read_position(*final(buffer))
                == end,
            Err(e) => r == Err::<Vec<(String, Value)>, DecodeError>(e),
        },
    decreases buffer_bytes(*old(buffer)).len() - buffer_read_position(*old(buffer)), 1int,
{
    let ghost bytes = buffer_bytes(*buffer);
    let ghost start = buffer_read_position(*buffer) as int;
    let mut pairs: Vec<(String, Value)> = Vec::new();
    let mut left: u32 = count;
    assert(pair_views(pairs@) =~= Seq::empty());
    while left > 0
        invariant
            bytes == buffer_bytes(*old(buffer)),
            start == buffer_read_position(*old(buffer)),
            buffer_bytes(*buffer) == bytes,
            buffer_ready(*buffer),
            start <= buffer_read_position(*buffer),
            distinct_keys(pair_views(pairs@)),
            parse_pairs(bytes, start, count as nat, Seq::empty(), depth as nat) == parse_pairs(
                bytes,
                buffer_read_position(*buffer) as int,
                left as nat,
                pair_views(pairs@),
                depth as nat,
            ),
        decreases left,
    {
        if buffer.get_rpos() >= buffer.len() {
            return Err(DecodeError::CountMismatch);
        }
        let key: String = match read_key(buffer) {
            Err(e) => {
                return Err(e);
            },
            Ok(key) => key,
        };
        if buffer.get_rpos() >= buffer.len() {
            return Err(DecodeError::CountMismatch);
        }
        match decode_node(buffer, depth) {
            Err(e) => {
                return Err(e);
            },
            Ok(value) => {
                put_pair(&mut pairs, key, value);
            },
        }
        left = left - 1;
    }
    Ok(pairs)
}

/// Decodes the value that `bytes` stand for.
///
/// The bytes hold one node and nothing else: a tag, and what the tag
/// announces. Every way in which they can fail to has its own error.
pub fn decode_bytes(bytes: &[u8]) -> (r: Result<Value, DecodeError>)
    ensures
        match parse(bytes@) {
            Ok(v) => r matches Ok(value) && value@ == v,
            Err(e) => r == Err::<Value, DecodeError>(e),
        },
        r matches Ok(value) ==> well_formed(value@) && encodable(value@),
{
    proof {
        lemma_parsed_is_sound(bytes@);
    }
    let mut buffer: ByteBuffer = ByteBuffer::from_bytes(bytes);
    set_little_endian(&mut buffer);
    match decode_node(&mut buffer, MAX_DEPTH) {
        Err(e) => Err(e),
        Ok(value) => if buffer.get_rpos() == buffer.len() {
            Ok(value)
        } else {
            Err(DecodeError::TrailingBytes)
        },
    }
}

} // verus!
