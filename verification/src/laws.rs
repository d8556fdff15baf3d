//! What holds of the format as a whole: decoding undoes encoding.

use crate::error::DecodeError;
use crate::tag::{ARRAY, INTEGER, LONG, MAX, OBJECT, STRING};
use crate::value::{
    canonical, canonical_items, canonical_pairs, distinct_keys, lemma_well_formed_array,
    lemma_well_formed_object, number, put, well_formed, Pairs, ValueView,
};
use crate::varint;
use crate::wire::{
    encodable, items_refusal, items_wire, number_wire, pairs_refusal, pairs_wire, parse,
    parse_count, parse_items, parse_key, parse_node, parse_pairs, parse_text, refusal,
    text_refusal, text_wire, wire, MAX_DEPTH,
};
use crate::zigzag::zig_zag;
use vstd::bytes::{
    lemma_auto_spec_u32_to_from_le_bytes, lemma_auto_spec_u64_to_from_le_bytes,
    spec_u32_to_le_bytes, spec_u64_to_le_bytes,
};
use vstd::prelude::*;
use vstd::utf8::{
    decode_utf8, decode_utf8_encode_utf8, encode_utf8, encode_utf8_decode_utf8,
    encode_utf8_valid_utf8,
};

verus! {

/// Whether `bytes` hold `part` from `pos` on.
pub open spec fn holds_at(bytes: Seq<u8>, pos: int, part: Seq<u8>) -> bool {
    &&& 0 <= pos
    &&& pos + part.len() <= bytes.len()
    &&& bytes.subrange(pos, pos + part.len()) == part
}

proof fn lemma_holds_at_index(bytes: Seq<u8>, pos: int, part: Seq<u8>, k: int)
    requires
        holds_at(bytes, pos, part),
        0 <= k < part.len(),
    ensures
        bytes[pos + k] == part[k],
{
    assert(bytes.subrange(pos, pos + part.len())[k] == bytes[pos + k]);
}

proof fn lemma_holds_at_part(bytes: Seq<u8>, pos: int, part: Seq<u8>, from: int, to: int)
    requires
        holds_at(bytes, pos, part),
        0 <= from <= to <= part.len(),
    ensures
        holds_at(bytes, pos + from, part.subrange(from, to)),
{
    assert(bytes.subrange(pos + from, pos + to) =~= bytes.subrange(
        pos,
        pos + part.len(),
    ).subrange(from, to));
}

/// A number is read back in its narrowest kind from wherever its bytes stand.
pub proof fn lemma_parse_number_wire(n: int, bytes: Seq<u8>, pos: int, depth: nat)
    requires
        i64::MIN <= n <= i64::MAX,
        holds_at(bytes, pos, number_wire(n)),
    ensures
        parse_node(bytes, pos, depth) == Ok::<(ValueView, int), DecodeError>(
            (number(n), pos + number_wire(n).len()),
        ),
{
    let w = number_wire(n);
    lemma_auto_spec_u32_to_from_le_bytes();
    lemma_auto_spec_u64_to_from_le_bytes();
    lemma_holds_at_index(bytes, pos, w, 0);
    if 0 <= zig_zag(n) <= MAX {
    } else if i32::MIN <= n <= i32::MAX {
        let payload = spec_u32_to_le_bytes(zig_zag(n) as u32);
        lemma_holds_at_part(bytes, pos, w, 1, 5);
        assert(w.subrange(1, 5) =~= payload);
    } else {
        let payload = spec_u64_to_le_bytes(zig_zag(n) as u64);
        lemma_holds_at_part(bytes, pos, w, 1, 9);
        assert(w.subrange(1, 9) =~= payload);
    }
}

/// A string is read back from wherever its bytes stand, as a value and as a
/// key.
pub proof fn lemma_parse_text_wire(text: Seq<char>, bytes: Seq<u8>, pos: int, depth: nat)
    requires
        text_refusal(text) is None,
        holds_at(bytes, pos, text_wire(text)),
    ensures
        parse_node(bytes, pos, depth) == Ok::<(ValueView, int), DecodeError>(
            (ValueView::Text(text), pos + text_wire(text).len()),
        ),
        parse_key(bytes, pos) == Ok::<(Seq<char>, int), DecodeError>(
            (text, pos + text_wire(text).len()),
        ),
{
    let w = text_wire(text);
    let payload = encode_utf8(text);
    encode_utf8_decode_utf8(text);
    encode_utf8_valid_utf8(text);
    lemma_holds_at_index(bytes, pos, w, 0);
    if payload.len() == 0 {
        assert(decode_utf8(payload) =~= Seq::<char>::empty());
    } else {
        lemma_holds_at_index(bytes, pos, w, 1);
        lemma_holds_at_part(bytes, pos, w, 2, w.len() as int);
        assert(w.subrange(2, w.len() as int) =~= payload);
    }
}

/// A count is read back from wherever its bytes stand.
pub proof fn lemma_parse_count_wire(n: u32, bytes: Seq<u8>, pos: int)
    requires
        holds_at(bytes, pos, varint::bytes_of(n as nat)),
    ensures
        parse_count(bytes, pos) == Ok::<(u32, int), DecodeError>(
            (n, pos + varint::bytes_of(n as nat).len()),
        ),
{
    let own = varint::bytes_of(n as nat);
    let end = if pos + varint::MAX_BYTES <= bytes.len() {
        pos + varint::MAX_BYTES
    } else {
        bytes.len() as int
    };
    let window = bytes.subrange(pos, end);
    varint::lemma_read_bytes_of(n, Seq::empty());
    let rest = window.subrange(own.len() as int, window.len() as int);
    assert forall|k: int| 0 <= k < own.len() implies window[k] == own[k] by {
        lemma_holds_at_index(bytes, pos, own, k);
    }
    assert(window =~= own + rest);
    varint::lemma_read_bytes_of(n, rest);
}

/// Every value takes at least its tag.
pub proof fn lemma_wire_nonempty(v: ValueView)
    ensures
        wire(v).len() >= 1,
{
}

proof fn lemma_items_wire_prefix(items: Seq<ValueView>, i: nat, n: nat)
    requires
        i <= n <= items.len(),
    ensures
        items_wire(items, i).len() <= items_wire(items, n).len(),
        items_wire(items, n).subrange(0, items_wire(items, i).len() as int) == items_wire(
            items,
            i,
        ),
    decreases n,
{
    let short = items_wire(items, i);
    if i < n {
        lemma_items_wire_prefix(items, i, (n - 1) as nat);
        assert(items_wire(items, n).subrange(0, short.len() as int) =~= items_wire(
            items,
            (n - 1) as nat,
        ).subrange(0, short.len() as int));
    } else {
        assert(short.subrange(0, short.len() as int) =~= short);
    }
}

proof fn lemma_pairs_wire_prefix(pairs: Pairs, i: nat, n: nat)
    requires
        i <= n <= pairs.len(),
    ensures
        pairs_wire(pairs, i).len() <= pairs_wire(pairs, n).len(),
        pairs_wire(pairs, n).subrange(0, pairs_wire(pairs, i).len() as int) == pairs_wire(
            pairs,
            i,
        ),
    decreases n,
{
    let short = pairs_wire(pairs, i);
    if i < n {
        lemma_pairs_wire_prefix(pairs, i, (n - 1) as nat);
        assert(pairs_wire(pairs, n).subrange(0, short.len() as int) =~= pairs_wire(
            pairs,
            (n - 1) as nat,
        ).subrange(0, short.len() as int));
    } else {
        assert(short.subrange(0, short.len() as int) =~= short);
    }
}

proof fn lemma_items_encodable(items: Seq<ValueView>, n: nat, j: int, depth: nat)
    requires
        0 <= j < n <= items.len(),
        items_refusal(items, n, depth) is None,
    ensures
        refusal(items[j], depth) is None,
    decreases n,
{
    if j < n - 1 {
        lemma_items_encodable(items, (n - 1) as nat, j, depth);
    }
}

proof fn lemma_pairs_encodable(pairs: Pairs, n: nat, j: int, depth: nat)
    requires
        0 <= j < n <= pairs.len(),
        pairs_refusal(pairs, n, depth) is None,
    ensures
        text_refusal(pairs[j].0) is None,
        refusal(pairs[j].1, depth) is None,
    decreases n,
{
    if j < n - 1 {
        lemma_pairs_encodable(pairs, (n - 1) as nat, j, depth);
    }
}

/// Making a sequence canonical keeps its length, and makes each member
/// canonical in its place.
pub proof fn lemma_canonical_items(items: Seq<ValueView>, n: nat)
    requires
        n <= items.len(),
    ensures
        canonical_items(items, n).len() == n,
        forall|j: int| 0 <= j < n ==> canonical_items(items, n)[j] == canonical(items[j]),
    decreases n,
{
    if n > 0 {
        lemma_canonical_items(items, (n - 1) as nat);
    }
}

/// Making the pairs of an object canonical keeps their number and their keys,
/// and makes each value canonical in its place.
pub proof fn lemma_canonical_pairs(pairs: Pairs, n: nat)
    requires
        n <= pairs.len(),
    ensures
        canonical_pairs(pairs, n).len() == n,
        forall|j: int|
            0 <= j < n ==> canonical_pairs(pairs, n)[j] == (pairs[j].0, canonical(pairs[j].1)),
    decreases n,
{
    if n > 0 {
        lemma_canonical_pairs(pairs, (n - 1) as nat);
    }
}

/// A value that has an encoding within `depth` levels, and whose objects bind
/// each key once, is read back within as many levels from wherever its bytes
/// stand: the same value, each number in its narrowest kind.
pub proof fn lemma_parse_wire_at(v: ValueView, bytes: Seq<u8>, pos: int, depth: nat)
    requires
        refusal(v, depth) is None,
        well_formed(v),
        holds_at(bytes, pos, wire(v)),
    ensures
        parse_node(bytes, pos, depth) == Ok::<(ValueView, int), DecodeError>(
            (canonical(v), pos + wire(v).len()),
        ),
    decreases v,
{
    let w = wire(v);
    lemma_holds_at_index(bytes, pos, w, 0);
    match v {
        ValueView::Null => {},
        ValueView::Bool(b) => {},
        ValueView::Text(text) => {
            lemma_parse_text_wire(text, bytes, pos, depth);
        },
        ValueView::Integer(n) => {
            lemma_parse_number_wire(n as int, bytes, pos, depth);
        },
        ValueView::Long(n) => {
            lemma_parse_number_wire(n as int, bytes, pos, depth);
        },
        ValueView::Float(bits) => {
            lemma_auto_spec_u32_to_from_le_bytes();
            lemma_holds_at_part(bytes, pos, w, 1, 5);
            assert(w.subrange(1, 5) =~= spec_u32_to_le_bytes(bits));
        },
        ValueView::Double(bits) => {
            lemma_auto_spec_u64_to_from_le_bytes();
            lemma_holds_at_part(bytes, pos, w, 1, 9);
            assert(w.subrange(1, 9) =~= spec_u64_to_le_bytes(bits));
        },
        ValueView::Array(items) => {
            if items.len() > 0 {
                lemma_parse_array_wire(items, bytes, pos, depth);
            }
        },
        ValueView::Object(pairs) => {
            if pairs.len() > 0 {
                lemma_parse_object_wire(pairs, bytes, pos, depth);
            }
        },
    }
}

proof fn lemma_parse_array_wire(items: Seq<ValueView>, bytes: Seq<u8>, pos: int, depth: nat)
    requires
        items.len() > 0,
        refusal(ValueView::Array(items), depth) is None,
        well_formed(ValueView::Array(items)),
        holds_at(bytes, pos, wire(ValueView::Array(items))),
    ensures
        depth > 0,
        bytes[pos] == ARRAY,
        parse_count(bytes, pos + 1) == Ok::<(u32, int), DecodeError>(
            (items.len() as u32, pos + 1 + varint::bytes_of(items.len()).len()),
        ),
        parse_items(
            bytes,
            pos + 1 + varint::bytes_of(items.len()).len(),
            items.len(),
            Seq::empty(),
            (depth - 1) as nat,
        ) == Ok::<(Seq<ValueView>, int), DecodeError>(
            (
                canonical_items(items, items.len()),
                pos + wire(ValueView::Array(items)).len(),
            ),
        ),
    decreases items, items.len() + 1,
{
    let w = wire(ValueView::Array(items));
    let count = varint::bytes_of(items.len());
    let body = items_wire(items, items.len());
    let from: int = (1 + count.len()) as int;
    lemma_holds_at_index(bytes, pos, w, 0);
    lemma_holds_at_part(bytes, pos, w, 1, from);
    assert(w.subrange(1, from) =~= count);
    lemma_parse_count_wire(items.len() as u32, bytes, pos + 1);
    lemma_holds_at_part(bytes, pos, w, from, w.len() as int);
    assert(w.subrange(from, w.len() as int) =~= body);
    lemma_well_formed_array(items);
    lemma_parse_items_wire(items, items.len(), bytes, pos + from, (depth - 1) as nat);
}

proof fn lemma_parse_object_wire(pairs: Pairs, bytes: Seq<u8>, pos: int, depth: nat)
    requires
        pairs.len() > 0,
        refusal(ValueView::Object(pairs), depth) is None,
        well_formed(ValueView::Object(pairs)),
        holds_at(bytes, pos, wire(ValueView::Object(pairs))),
    ensures
        depth > 0,
        bytes[pos] == OBJECT,
        parse_count(bytes, pos + 1) == Ok::<(u32, int), DecodeError>(
            (pairs.len() as u32, pos + 1 + varint::bytes_of(pairs.len()).len()),
        ),
        parse_pairs(
            bytes,
            pos + 1 + varint::bytes_of(pairs.len()).len(),
            pairs.len(),
            Seq::empty(),
            (depth - 1) as nat,
        ) == Ok::<(Pairs, int), DecodeError>(
            (
                canonical_pairs(pairs, pairs.len()),
                pos + wire(ValueView::Object(pairs)).len(),
            ),
        ),
    decreases pairs, pairs.len() + 1,
{
    let w = wire(ValueView::Object(pairs));
    let count = varint::bytes_of(pairs.len());
    let body = pairs_wire(pairs, pairs.len());
    let from: int = (1 + count.len()) as int;
    lemma_holds_at_index(bytes, pos, w, 0);
    lemma_holds_at_part(bytes, pos, w, 1, from);
    assert(w.subrange(1, from) =~= count);
    lemma_parse_count_wire(pairs.len() as u32, bytes, pos + 1);
    lemma_holds_at_part(bytes, pos, w, from, w.len() as int);
    assert(w.subrange(from, w.len() as int) =~= body);
    lemma_well_formed_object(pairs);
    lemma_parse_pairs_wire(pairs, pairs.len(), bytes, pos + from, (depth - 1) as nat);
}

proof fn lemma_parse_items_wire(
    items: Seq<ValueView>,
    i: nat,
    bytes: Seq<u8>,
    start: int,
    depth: nat,
)
    requires
        i <= items.len(),
        items_refusal(items, items.len(), depth) is None,
        forall|j: int| 0 <= j < items.len() ==> well_formed(#[trigger] items[j]),
        holds_at(bytes, start, items_wire(items, i)),
    ensures
        parse_items(bytes, start, items.len(), Seq::empty(), depth) == parse_items(
            bytes,
            start + items_wire(items, i).len(),
            (items.len() - i) as nat,
            canonical_items(items, i),
            depth,
        ),
    decreases items, i,
{
    if i > 0 {
        let before = items_wire(items, (i - 1) as nat);
        let whole = items_wire(items, i);
        let item = items[i - 1];
        let own = wire(item);
        lemma_items_wire_prefix(items, (i - 1) as nat, i);
        lemma_holds_at_part(bytes, start, whole, 0, before.len() as int);
        lemma_parse_items_wire(items, (i - 1) as nat, bytes, start, depth);
        lemma_holds_at_part(bytes, start, whole, before.len() as int, whole.len() as int);
        assert(whole.subrange(before.len() as int, whole.len() as int) =~= own);
        lemma_items_encodable(items, items.len(), i - 1, depth);
        lemma_wire_nonempty(item);
        lemma_parse_wire_at(item, bytes, start + before.len(), depth);
    }
}

proof fn lemma_parse_pairs_wire(pairs: Pairs, i: nat, bytes: Seq<u8>, start: int, depth: nat)
    requires
        i <= pairs.len(),
        pairs_refusal(pairs, pairs.len(), depth) is None,
        distinct_keys(pairs),
        forall|j: int| 0 <= j < pairs.len() ==> well_formed((#[trigger] pairs[j]).1),
        holds_at(bytes, start, pairs_wire(pairs, i)),
    ensures
        parse_pairs(bytes, start, pairs.len(), Seq::empty(), depth) == parse_pairs(
            bytes,
            start + pairs_wire(pairs, i).len(),
            (pairs.len() - i) as nat,
            canonical_pairs(pairs, i),
            depth,
        ),
    decreases pairs, i,
{
    if i > 0 {
        let before = pairs_wire(pairs, (i - 1) as nat);
        let whole = pairs_wire(pairs, i);
        let key = pairs[i - 1].0;
        let value = pairs[i - 1].1;
        let key_bytes = text_wire(key);
        let value_bytes = wire(value);
        let done = canonical_pairs(pairs, (i - 1) as nat);
        lemma_pairs_wire_prefix(pairs, (i - 1) as nat, i);
        lemma_holds_at_part(bytes, start, whole, 0, before.len() as int);
        lemma_parse_pairs_wire(pairs, (i - 1) as nat, bytes, start, depth);
        lemma_pairs_encodable(pairs, pairs.len(), i - 1, depth);
        let mid: int = (before.len() + key_bytes.len()) as int;
        lemma_holds_at_part(bytes, start, whole, before.len() as int, mid);
        assert(whole.subrange(before.len() as int, mid) =~= key_bytes);
        lemma_parse_text_wire(key, bytes, start + before.len(), depth);
        lemma_holds_at_part(bytes, start, whole, mid, whole.len() as int);
        assert(whole.subrange(mid, whole.len() as int) =~= value_bytes);
        lemma_wire_nonempty(value);
        lemma_parse_wire_at(value, bytes, start + mid, depth);
        lemma_canonical_pairs(pairs, (i - 1) as nat);
        assert(put(done, key, canonical(value)) == done.push((key, canonical(value))));
    }
}

/// Decoding undoes encoding: the bytes of a value that has an encoding, and
/// whose objects bind each key once, stand for the same value, each number in
/// its narrowest kind; for the very same value, where its numbers are in
/// their narrowest kind already.
pub proof fn lemma_round_trip(v: ValueView)
    requires
        encodable(v),
        well_formed(v),
    ensures
        parse(wire(v)) == Ok::<ValueView, DecodeError>(canonical(v)),
        canonical(v) == v ==> parse(wire(v)) == Ok::<ValueView, DecodeError>(v),
{
    let w = wire(v);
    assert(w.subrange(0, w.len() as int) =~= w);
    lemma_parse_wire_at(v, w, 0, MAX_DEPTH as nat);
}

/// Whether no key is bound twice, every key has an encoding, and every value
/// has one within `depth` levels and is well formed.
pub open spec fn sound_pairs(pairs: Pairs, depth: nat) -> bool {
    &&& distinct_keys(pairs)
    &&& forall|j: int|
        0 <= j < pairs.len() ==> {
            &&& text_refusal((#[trigger] pairs[j]).0) is None
            &&& refusal(pairs[j].1, depth) is None
            &&& well_formed(pairs[j].1)
        }
}

/// Whether every member has an encoding within `depth` levels and is well
/// formed.
pub open spec fn sound_items(items: Seq<ValueView>, depth: nat) -> bool {
    forall|j: int|
        0 <= j < items.len() ==> refusal(#[trigger] items[j], depth) is None && well_formed(
            items[j],
        )
}

/// Binding a key keeps every other binding, adds at most one pair, and leaves
/// no key bound twice.
pub proof fn lemma_put_sound(pairs: Pairs, key: Seq<char>, value: ValueView, depth: nat)
    requires
        sound_pairs(pairs, depth),
        text_refusal(key) is None,
        refusal(value, depth) is None,
        well_formed(value),
    ensures
        sound_pairs(put(pairs, key, value), depth),
        pairs.len() <= put(pairs, key, value).len() <= pairs.len() + 1,
{
    let after = put(pairs, key, value);
    if exists|i: int| 0 <= i < pairs.len() && (#[trigger] pairs[i]).0 == key {
        assert forall|i: int, j: int| 0 <= i < j < after.len() implies after[i].0
            != after[j].0 by {
            assert(after[i].0 == pairs[i].0);
            assert(after[j].0 == pairs[j].0);
        }
    } else {
        assert forall|i: int, j: int| 0 <= i < j < after.len() implies after[i].0
            != after[j].0 by {
            if j == pairs.len() {
                assert(pairs[i].0 != key);
            }
        }
    }
}

/// The later of two bindings of one key is the one that stays.
pub proof fn lemma_later_binding_wins(
    pairs: Pairs,
    key: Seq<char>,
    earlier: ValueView,
    later: ValueView,
)
    ensures
        put(put(pairs, key, earlier), key, later) == put(pairs, key, later),
{
    let once = put(pairs, key, earlier);
    if exists|i: int| 0 <= i < pairs.len() && (#[trigger] pairs[i]).0 == key {
        let i = choose|i: int| 0 <= i < pairs.len() && (#[trigger] pairs[i]).0 == key;
        assert(once[i].0 == key);
        assert(put(once, key, later) =~= put(pairs, key, later));
    } else {
        assert(once[pairs.len() as int].0 == key);
        assert forall|j: int| 0 <= j < pairs.len() implies (#[trigger] pairs[j]).0 != key by {}
        assert(put(once, key, later) =~= put(pairs, key, later));
    }
}

proof fn lemma_items_refusal_none(items: Seq<ValueView>, n: nat, depth: nat)
    requires
        n <= items.len(),
        forall|j: int| 0 <= j < n ==> refusal(#[trigger] items[j], depth) is None,
    ensures
        items_refusal(items, n, depth) is None,
    decreases n,
{
    if n > 0 {
        lemma_items_refusal_none(items, (n - 1) as nat, depth);
    }
}

proof fn lemma_pairs_refusal_none(pairs: Pairs, n: nat, depth: nat)
    requires
        n <= pairs.len(),
        forall|j: int|
            0 <= j < n ==> text_refusal((#[trigger] pairs[j]).0) is None && refusal(
                pairs[j].1,
                depth,
            ) is None,
    ensures
        pairs_refusal(pairs, n, depth) is None,
    decreases n,
{
    if n > 0 {
        lemma_pairs_refusal_none(pairs, (n - 1) as nat, depth);
    }
}

proof fn lemma_parse_text_sound(bytes: Seq<u8>, pos: int)
    requires
        0 <= pos,
    ensures
        parse_text(bytes, pos) matches Ok((text, end)) ==> pos < end <= bytes.len()
            && text_refusal(text) is None,
{
    if parse_text(bytes, pos) is Ok {
        decode_utf8_encode_utf8(bytes.subrange(pos + 1, pos + 1 + bytes[pos]));
    }
}

/// What is read from the bytes within `depth` levels ends behind its tag and
/// within the bytes, is well formed, and has an encoding of its own within as
/// many levels.
pub proof fn lemma_parse_node_sound(bytes: Seq<u8>, pos: int, depth: nat)
    ensures
        parse_node(bytes, pos, depth) matches Ok((v, end)) ==> pos < end <= bytes.len()
            && well_formed(v) && refusal(v, depth) is None,
    decreases bytes.len() - pos, 0int,
{
    if 0 <= pos < bytes.len() && depth > 0 {
        let tag = bytes[pos];
        let below = (depth - 1) as nat;
        if tag == OBJECT {
            if let Ok((count, start)) = parse_count(bytes, pos + 1) {
                lemma_parse_pairs_sound(bytes, start, count as nat, Seq::empty(), below);
                if let Ok((pairs, end)) = parse_pairs(
                    bytes,
                    start,
                    count as nat,
                    Seq::empty(),
                    below,
                ) {
                    lemma_pairs_refusal_none(pairs, pairs.len(), below);
                    lemma_well_formed_object(pairs);
                }
            }
        } else if tag == ARRAY {
            if let Ok((count, start)) = parse_count(bytes, pos + 1) {
                lemma_parse_items_sound(bytes, start, count as nat, Seq::empty(), below);
                if let Ok((items, end)) = parse_items(
                    bytes,
                    start,
                    count as nat,
                    Seq::empty(),
                    below,
                ) {
                    lemma_items_refusal_none(items, items.len(), below);
                    lemma_well_formed_array(items);
                }
            }
        }
    }
    if 0 <= pos < bytes.len() && bytes[pos] == STRING {
        lemma_parse_text_sound(bytes, pos + 1);
    }
}

proof fn lemma_parse_items_sound(
    bytes: Seq<u8>,
    pos: int,
    count: nat,
    done: Seq<ValueView>,
    depth: nat,
)
    requires
        0 <= pos <= bytes.len(),
        sound_items(done, depth),
    ensures
        parse_items(bytes, pos, count, done, depth) matches Ok((items, end)) ==> pos <= end
            <= bytes.len() && sound_items(items, depth) && items.len() == done.len() + count,
    decreases bytes.len() - pos, 1int,
{
    if count > 0 && pos < bytes.len() {
        lemma_parse_node_sound(bytes, pos, depth);
        if let Ok((item, next)) = parse_node(bytes, pos, depth) {
            lemma_parse_items_sound(bytes, next, (count - 1) as nat, done.push(item), depth);
        }
    }
}

proof fn lemma_parse_pairs_sound(bytes: Seq<u8>, pos: int, count: nat, done: Pairs, depth: nat)
    requires
        0 <= pos <= bytes.len(),
        sound_pairs(done, depth),
    ensures
        parse_pairs(bytes, pos, count, done, depth) matches Ok((pairs, end)) ==> pos <= end
            <= bytes.len() && sound_pairs(pairs, depth) && pairs.len() <= done.len() + count,
    decreases bytes.len() - pos, 1int,
{
    if count > 0 && pos < bytes.len() {
        lemma_parse_text_sound(bytes, pos + 1);
        if let Ok((key, mid)) = parse_key(bytes, pos) {
            if mid < bytes.len() {
                lemma_parse_node_sound(bytes, mid, depth);
                if let Ok((value, next)) = parse_node(bytes, mid, depth) {
                    lemma_put_sound(done, key, value, depth);
                    lemma_parse_pairs_sound(
                        bytes,
                        next,
                        (count - 1) as nat,
                        put(done, key, value),
                        depth,
                    );
                }
            }
        }
    }
}

/// What decodes is well formed, and encodes again.
pub proof fn lemma_parsed_is_sound(bytes: Seq<u8>)
    ensures
        parse(bytes) matches Ok(v) ==> well_formed(v) && encodable(v),
{
    lemma_parse_node_sound(bytes, 0, MAX_DEPTH as nat);
}

/// What decodes, encoded and decoded again, is the same value, each number in
/// its narrowest kind.
pub proof fn lemma_decode_encode_decode(bytes: Seq<u8>)
    ensures
        parse(bytes) matches Ok(v) ==> parse(wire(v)) == Ok::<ValueView, DecodeError>(
            canonical(v),
        ),
{
    lemma_parsed_is_sound(bytes);
    if let Ok(v) = parse(bytes) {
        lemma_round_trip(v);
    }
}

/// Between -120 and 119 a number is its own tag, one byte in all; beyond, it
/// is a marker and four or eight bytes, and reads back as such.
pub proof fn lemma_inline_integer_boundary(n: i64)
    ensures
        -120 <= n <= 119 <==> number_wire(n as int).len() == 1,
        -120 <= n <= 119 ==> number_wire(n as int) == seq![zig_zag(n as int) as u8] && zig_zag(
            n as int,
        ) <= MAX,
        !(-120 <= n <= 119) && i32::MIN <= n <= i32::MAX ==> number_wire(n as int).len() == 5
            && number_wire(n as int)[0] == INTEGER,
        !(i32::MIN <= n <= i32::MAX) ==> number_wire(n as int).len() == 9 && number_wire(
            n as int,
        )[0] == LONG,
        parse(number_wire(n as int)) == Ok::<ValueView, DecodeError>(number(n as int)),
{
    let w = number_wire(n as int);
    lemma_auto_spec_u32_to_from_le_bytes();
    lemma_auto_spec_u64_to_from_le_bytes();
    assert(w.subrange(0, w.len() as int) =~= w);
    lemma_parse_number_wire(n as int, w, 0, MAX_DEPTH as nat);
}

} // verus!
