use pson::decoder::decode_bytes;
use pson::encoder::encode_bytes;
use pson::tag::{
    ARRAY, DOUBLE, EARRAY, EOBJECT, ESTRING, FALSE, FLOAT, INTEGER, LONG, NULL, OBJECT, STRING,
    TRUE,
};
use pson::{decode, encode, DecodeError, EncodeError, Value};

fn text(s: &str) -> Value {
    Value::String(s.to_string())
}

fn pair(key: &str, value: Value) -> (String, Value) {
    (key.to_string(), value)
}

#[test]
fn decode_test() {
    let buff: Vec<u8> = vec![0xF6, 0x01, 0xFC, 0x01, 0x61, 0xFC, 0x01, 0x62];
    let encode_str = base64::encode(&buff);
    let bytes_from_str = base64::decode(&encode_str).unwrap();
    assert_eq!(bytes_from_str, buff);
    let value = decode(&encode_str).unwrap();
    assert!(matches!(value, Value::Object(_)));
    let expected = Value::Object(vec![pair("a", text("b"))]);
    assert_eq!(value, expected);
    let chiper = encode(&value).unwrap();
    assert_eq!(&chiper, &encode_str);
}

#[test]
fn object_of_one_pair_end_to_end() {
    let value = Value::Object(vec![pair("a", text("b"))]);
    let bytes = encode_bytes(&value).unwrap();
    assert_eq!(bytes, vec![OBJECT, 1, STRING, 1, b'a', STRING, 1, b'b']);
    let sealed = encode(&value).unwrap();
    assert_eq!(sealed, "9gH8AWH8AWI=");
    assert_eq!(decode(&sealed), Ok(value));
}

#[test]
fn scalars_take_one_tag() {
    assert_eq!(encode_bytes(&Value::Null).unwrap(), vec![NULL]);
    assert_eq!(encode_bytes(&Value::Bool(true)).unwrap(), vec![TRUE]);
    assert_eq!(encode_bytes(&Value::Bool(false)).unwrap(), vec![FALSE]);
    assert_eq!(decode_bytes(&[NULL]), Ok(Value::Null));
    assert_eq!(decode_bytes(&[TRUE]), Ok(Value::Bool(true)));
    assert_eq!(decode_bytes(&[FALSE]), Ok(Value::Bool(false)));
    assert_eq!(encode(&Value::Null).unwrap(), "8A==");
}

#[test]
fn empty_containers_take_one_tag_and_no_count() {
    assert_eq!(encode_bytes(&Value::Array(vec![])).unwrap(), vec![EARRAY]);
    assert_eq!(encode_bytes(&Value::Object(vec![])).unwrap(), vec![EOBJECT]);
    assert_eq!(encode(&Value::Array(vec![])).unwrap(), "9A==");
    assert_eq!(encode(&Value::Object(vec![])).unwrap(), "8w==");
    assert_eq!(decode("9A=="), Ok(Value::Array(vec![])));
    assert_eq!(decode("8w=="), Ok(Value::Object(vec![])));
}

#[test]
fn containers_with_a_zero_count_are_empty() {
    assert_eq!(decode_bytes(&[ARRAY, 0]), Ok(Value::Array(vec![])));
    assert_eq!(decode_bytes(&[OBJECT, 0]), Ok(Value::Object(vec![])));
}

#[test]
fn hello_comes_back_unchanged() {
    let value = text("hello");
    let bytes = encode_bytes(&value).unwrap();
    assert_eq!(bytes, vec![STRING, 5, b'h', b'e', b'l', b'l', b'o']);
    let sealed = encode(&value).unwrap();
    assert_eq!(sealed, "/AVoZWxsbw==");
    assert_eq!(decode(&sealed), Ok(text("hello")));
}

#[test]
fn empty_string_takes_one_tag() {
    assert_eq!(encode_bytes(&text("")).unwrap(), vec![ESTRING]);
    assert_eq!(encode(&text("")).unwrap(), "9Q==");
    assert_eq!(decode_bytes(&[ESTRING]), Ok(text("")));
    assert_eq!(decode_bytes(&[STRING, 0]), Ok(text("")));
}

#[test]
fn strings_hold_utf8() {
    let value = text("h\u{e9}llo \u{4e16}\u{754c} \u{1F600}");
    let bytes = encode_bytes(&value).unwrap();
    assert_eq!(bytes[0], STRING);
    assert_eq!(bytes[1] as usize, "h\u{e9}llo \u{4e16}\u{754c} \u{1F600}".len());
    assert_eq!(&bytes[2..], "h\u{e9}llo \u{4e16}\u{754c} \u{1F600}".as_bytes());
    assert_eq!(decode_bytes(&bytes), Ok(value));
}

#[test]
fn string_length_has_one_byte() {
    let longest = "x".repeat(255);
    let bytes = encode_bytes(&text(&longest)).unwrap();
    assert_eq!(bytes.len(), 257);
    assert_eq!(bytes[1], 255);
    assert_eq!(decode_bytes(&bytes), Ok(text(&longest)));
    let too_long = "x".repeat(256);
    assert_eq!(encode_bytes(&text(&too_long)), Err(EncodeError::StringTooLong));
    assert_eq!(encode(&text(&too_long)), Err(EncodeError::StringTooLong));
    let keyed = Value::Object(vec![pair(&too_long, Value::Null)]);
    assert_eq!(encode(&keyed), Err(EncodeError::StringTooLong));
    let nested = Value::Array(vec![Value::Null, Value::Array(vec![text(&too_long)])]);
    assert_eq!(encode(&nested), Err(EncodeError::StringTooLong));
}

#[test]
fn small_integers_are_their_own_tag() {
    assert_eq!(encode_bytes(&Value::Integer(0)).unwrap(), vec![0x00]);
    assert_eq!(encode_bytes(&Value::Integer(-1)).unwrap(), vec![0x01]);
    assert_eq!(encode_bytes(&Value::Integer(1)).unwrap(), vec![0x02]);
    assert_eq!(encode_bytes(&Value::Integer(-2)).unwrap(), vec![0x03]);
    assert_eq!(encode_bytes(&Value::Integer(119)).unwrap(), vec![0xEE]);
    assert_eq!(encode_bytes(&Value::Integer(-120)).unwrap(), vec![0xEF]);
    assert_eq!(encode_bytes(&Value::Long(119)).unwrap(), vec![0xEE]);
    assert_eq!(encode_bytes(&Value::Long(-120)).unwrap(), vec![0xEF]);
    for n in -120i32..=119 {
        let bytes = encode_bytes(&Value::Integer(n)).unwrap();
        assert_eq!(bytes.len(), 1);
        assert_eq!(decode_bytes(&bytes), Ok(Value::Integer(n)));
    }
}

#[test]
fn integers_beyond_the_inline_range_are_wide() {
    assert_eq!(encode_bytes(&Value::Integer(120)).unwrap(), vec![INTEGER, 0xF0, 0, 0, 0]);
    assert_eq!(encode_bytes(&Value::Integer(-121)).unwrap(), vec![INTEGER, 0xF1, 0, 0, 0]);
    assert_eq!(encode_bytes(&Value::Integer(1000)).unwrap(), vec![INTEGER, 0xD0, 0x07, 0, 0]);
    assert_eq!(decode_bytes(&[INTEGER, 0xF0, 0, 0, 0]), Ok(Value::Integer(120)));
    assert_eq!(decode_bytes(&[INTEGER, 0xF1, 0, 0, 0]), Ok(Value::Integer(-121)));
    assert_eq!(decode_bytes(&[INTEGER, 0xD0, 0x07, 0, 0]), Ok(Value::Integer(1000)));
    assert_eq!(
        encode_bytes(&Value::Integer(i32::MAX)).unwrap(),
        vec![INTEGER, 0xFE, 0xFF, 0xFF, 0xFF]
    );
    assert_eq!(
        encode_bytes(&Value::Integer(i32::MIN)).unwrap(),
        vec![INTEGER, 0xFF, 0xFF, 0xFF, 0xFF]
    );
    assert_eq!(decode_bytes(&[INTEGER, 0xFE, 0xFF, 0xFF, 0xFF]), Ok(Value::Integer(i32::MAX)));
    assert_eq!(decode_bytes(&[INTEGER, 0xFF, 0xFF, 0xFF, 0xFF]), Ok(Value::Integer(i32::MIN)));
}

#[test]
fn wide_integer_with_a_small_value_is_not_read_as_a_tag() {
    assert_eq!(decode_bytes(&[INTEGER, 0x02, 0, 0, 0]), Ok(Value::Integer(1)));
    assert_eq!(decode_bytes(&[LONG, 0x02, 0, 0, 0, 0, 0, 0, 0]), Ok(Value::Long(1)));
}

#[test]
fn longs_take_the_narrowest_form() {
    assert_eq!(encode_bytes(&Value::Long(1000)).unwrap(), vec![INTEGER, 0xD0, 0x07, 0, 0]);
    assert_eq!(
        encode_bytes(&Value::Long(2147483648)).unwrap(),
        vec![LONG, 0, 0, 0, 0, 1, 0, 0, 0]
    );
    assert_eq!(
        encode_bytes(&Value::Long(-2147483649)).unwrap(),
        vec![LONG, 1, 0, 0, 0, 1, 0, 0, 0]
    );
    assert_eq!(
        encode_bytes(&Value::Long(i64::MAX)).unwrap(),
        vec![LONG, 0xFE, 0xFF, 0xFF, 0xFF, 0xFF, 0xFF, 0xFF, 0xFF]
    );
    assert_eq!(
        encode_bytes(&Value::Long(i64::MIN)).unwrap(),
        vec![LONG, 0xFF, 0xFF, 0xFF, 0xFF, 0xFF, 0xFF, 0xFF, 0xFF]
    );
    for n in [2147483648i64, -2147483649, i64::MAX, i64::MIN] {
        let sealed = encode(&Value::Long(n)).unwrap();
        assert_eq!(decode(&sealed), Ok(Value::Long(n)));
    }
    for n in [0i64, 5, -120, 120, -121, 2147483647, -2147483648] {
        let sealed = encode(&Value::Long(n)).unwrap();
        assert_eq!(decode(&sealed), Ok(Value::Integer(n as i32)));
    }
}

#[test]
fn floats_keep_every_bit() {
    let double = Value::Double(0.1f64.to_bits());
    assert_eq!(
        encode_bytes(&double).unwrap(),
        vec![DOUBLE, 0x9a, 0x99, 0x99, 0x99, 0x99, 0x99, 0xb9, 0x3f]
    );
    let single = Value::Float((-2.25f32).to_bits());
    assert_eq!(encode_bytes(&single).unwrap(), vec![FLOAT, 0x00, 0x00, 0x10, 0xc0]);
    for x in [0.0f64, -0.0, 1.5, -2.25, 0.1, f64::MAX, f64::MIN_POSITIVE, f64::INFINITY] {
        let value = Value::Double(x.to_bits());
        let sealed = encode(&value).unwrap();
        match decode(&sealed) {
            Ok(Value::Double(bits)) => assert_eq!(f64::from_bits(bits).to_bits(), x.to_bits()),
            other => panic!("{:?}", other),
        }
    }
    for x in [0.0f32, -1.0, 3.5, f32::MAX] {
        let value = Value::Float(x.to_bits());
        let sealed = encode(&value).unwrap();
        assert_eq!(decode(&sealed), Ok(Value::Float(x.to_bits())));
    }
}

#[test]
fn arrays_keep_their_order() {
    let value = Value::Array(vec![Value::Integer(1), text("a"), Value::Null, Value::Bool(true)]);
    let bytes = encode_bytes(&value).unwrap();
    assert_eq!(bytes, vec![ARRAY, 4, 0x02, STRING, 1, b'a', NULL, TRUE]);
    assert_eq!(decode_bytes(&bytes), Ok(value));
}

#[test]
fn nested_values_come_back() {
    let value = Value::Object(vec![
        pair("list", Value::Array(vec![
            Value::Integer(-5),
            Value::Array(vec![]),
            Value::Object(vec![]),
            Value::Array(vec![Value::Array(vec![Value::Long(i64::MIN)])]),
        ])),
        pair("", text("")),
        pair("inner", Value::Object(vec![
            pair("pi", Value::Double(3.141592653589793f64.to_bits())),
            pair("ok", Value::Bool(false)),
            pair("none", Value::Null),
        ])),
    ]);
    let sealed = encode(&value).unwrap();
    assert_eq!(decode(&sealed), Ok(value));
}

#[test]
fn counts_over_127_take_more_bytes() {
    let items: Vec<Value> = (0..300).map(|_| Value::Null).collect();
    let value = Value::Array(items);
    let bytes = encode_bytes(&value).unwrap();
    assert_eq!(bytes.len(), 303);
    assert_eq!(&bytes[..3], &[ARRAY, 0xAC, 0x02]);
    assert_eq!(decode_bytes(&bytes), Ok(value));
    let many: Vec<Value> = (0..20000).map(|i| Value::Integer(i % 100)).collect();
    let value = Value::Array(many);
    let bytes = encode_bytes(&value).unwrap();
    assert_eq!(&bytes[..4], &[ARRAY, 0xA0, 0x9C, 0x01]);
    assert_eq!(decode_bytes(&bytes), Ok(value));
}

#[test]
fn object_keys_keep_their_order() {
    let value = Value::Object(vec![
        pair("z", Value::Integer(1)),
        pair("a", Value::Integer(2)),
        pair("m", Value::Integer(3)),
    ]);
    let sealed = encode(&value).unwrap();
    assert_eq!(decode(&sealed), Ok(value));
}

#[test]
fn later_duplicate_key_wins() {
    let bytes = [OBJECT, 2, STRING, 1, b'k', 0x02, STRING, 1, b'k', 0x04];
    assert_eq!(decode_bytes(&bytes), Ok(Value::Object(vec![pair("k", Value::Integer(2))])));
    let bytes = [
        OBJECT, 3, STRING, 1, b'a', 0x02, STRING, 1, b'b', 0x04, STRING, 1, b'a', NULL,
    ];
    assert_eq!(
        decode_bytes(&bytes),
        Ok(Value::Object(vec![pair("a", Value::Null), pair("b", Value::Integer(2))]))
    );
    let bytes = [OBJECT, 2, ESTRING, TRUE, STRING, 0, FALSE];
    assert_eq!(decode_bytes(&bytes), Ok(Value::Object(vec![pair("", Value::Bool(false))])));
}

#[test]
fn text_that_is_not_base64_is_refused() {
    assert_eq!(decode("!!!"), Err(DecodeError::MalformedEnvelope));
    assert_eq!(decode("8"), Err(DecodeError::MalformedEnvelope));
    assert_eq!(decode("9gH8AWH8AW=="), Err(DecodeError::MalformedEnvelope));
    assert_eq!(decode("8A= ="), Err(DecodeError::MalformedEnvelope));
    assert_eq!(decode("9gH8AWH8AWI=\n"), Err(DecodeError::MalformedEnvelope));
}

#[test]
fn truncated_bytes_are_refused() {
    assert_eq!(decode(""), Err(DecodeError::TruncatedBuffer));
    assert_eq!(decode_bytes(&[]), Err(DecodeError::TruncatedBuffer));
    assert_eq!(decode_bytes(&[INTEGER, 1, 2, 3]), Err(DecodeError::TruncatedBuffer));
    assert_eq!(decode_bytes(&[LONG, 1, 2, 3, 4, 5, 6, 7]), Err(DecodeError::TruncatedBuffer));
    assert_eq!(decode_bytes(&[FLOAT]), Err(DecodeError::TruncatedBuffer));
    assert_eq!(decode_bytes(&[DOUBLE, 0, 0, 0, 0]), Err(DecodeError::TruncatedBuffer));
    assert_eq!(decode_bytes(&[STRING]), Err(DecodeError::TruncatedBuffer));
    assert_eq!(decode_bytes(&[STRING, 3, b'a', b'b']), Err(DecodeError::TruncatedBuffer));
    assert_eq!(decode_bytes(&[ARRAY]), Err(DecodeError::TruncatedBuffer));
    assert_eq!(decode_bytes(&[ARRAY, 0x80]), Err(DecodeError::TruncatedBuffer));
    assert_eq!(decode_bytes(&[OBJECT, 0xFF, 0xFF]), Err(DecodeError::TruncatedBuffer));
    assert_eq!(decode_bytes(&[ARRAY, 1, INTEGER, 1]), Err(DecodeError::TruncatedBuffer));
    assert_eq!(decode("9gH8AWH8"), Err(DecodeError::TruncatedBuffer));
}

#[test]
fn bytes_that_are_not_utf8_are_refused() {
    assert_eq!(decode_bytes(&[STRING, 1, 0xFF]), Err(DecodeError::InvalidUtf8));
    assert_eq!(decode_bytes(&[STRING, 2, 0xC3, 0x28]), Err(DecodeError::InvalidUtf8));
    assert_eq!(decode_bytes(&[STRING, 1, 0xC3]), Err(DecodeError::InvalidUtf8));
    assert_eq!(
        decode_bytes(&[OBJECT, 1, STRING, 1, 0x80, NULL]),
        Err(DecodeError::InvalidUtf8)
    );
}

#[test]
fn unknown_tags_are_refused() {
    assert_eq!(decode_bytes(&[0xFD]), Err(DecodeError::UnknownTag));
    assert_eq!(decode_bytes(&[0xFE]), Err(DecodeError::UnknownTag));
    assert_eq!(decode_bytes(&[0xFF]), Err(DecodeError::UnknownTag));
    assert_eq!(decode_bytes(&[ARRAY, 2, NULL, 0xFF]), Err(DecodeError::UnknownTag));
    assert_eq!(decode("/w=="), Err(DecodeError::UnknownTag));
}

#[test]
fn counts_that_the_bytes_cannot_meet_are_refused() {
    assert_eq!(decode_bytes(&[ARRAY, 2, NULL]), Err(DecodeError::CountMismatch));
    assert_eq!(decode_bytes(&[ARRAY, 1]), Err(DecodeError::CountMismatch));
    assert_eq!(decode_bytes(&[OBJECT, 1]), Err(DecodeError::CountMismatch));
    assert_eq!(decode_bytes(&[OBJECT, 1, STRING, 1, b'a']), Err(DecodeError::CountMismatch));
    assert_eq!(
        decode_bytes(&[ARRAY, 0xFF, 0xFF, 0xFF, 0xFF, 0x0F, NULL, NULL]),
        Err(DecodeError::CountMismatch)
    );
    assert_eq!(
        decode_bytes(&[ARRAY, 0x80, 0x80, 0x80, 0x80, 0x80, 0x00]),
        Err(DecodeError::CountMismatch)
    );
    assert_eq!(
        decode_bytes(&[ARRAY, 0x81, 0x80, 0x80, 0x80, 0x80]),
        Err(DecodeError::CountMismatch)
    );
}

#[test]
fn counts_may_carry_idle_bytes() {
    assert_eq!(decode_bytes(&[ARRAY, 0x81, 0x00, NULL]), Ok(Value::Array(vec![Value::Null])));
    assert_eq!(
        decode_bytes(&[ARRAY, 0x81, 0x80, 0x80, 0x80, 0x00, TRUE]),
        Ok(Value::Array(vec![Value::Bool(true)]))
    );
    assert_eq!(
        decode_bytes(&[ARRAY, 0x81, 0x80, 0x80, 0x80, 0x70, TRUE]),
        Ok(Value::Array(vec![Value::Bool(true)]))
    );
}

#[test]
fn keys_that_are_not_strings_are_refused() {
    assert_eq!(decode_bytes(&[OBJECT, 1, NULL, NULL]), Err(DecodeError::NonStringKey));
    assert_eq!(decode_bytes(&[OBJECT, 1, 0x02, NULL]), Err(DecodeError::NonStringKey));
    assert_eq!(decode_bytes(&[OBJECT, 1, 0xFF, NULL]), Err(DecodeError::NonStringKey));
    assert_eq!(decode_bytes(&[OBJECT, 1, EARRAY, NULL]), Err(DecodeError::NonStringKey));
}

#[test]
fn bytes_behind_the_value_are_refused() {
    assert_eq!(decode_bytes(&[NULL, NULL]), Err(DecodeError::TrailingBytes));
    assert_eq!(decode_bytes(&[NULL, 0xFF]), Err(DecodeError::TrailingBytes));
    assert_eq!(decode_bytes(&[ARRAY, 1, NULL, NULL]), Err(DecodeError::TrailingBytes));
    assert_eq!(decode_bytes(&[0x02, 0x02]), Err(DecodeError::TrailingBytes));
    assert_eq!(decode("8PA="), Err(DecodeError::TrailingBytes));
}

fn nested(levels: usize, innermost: Value) -> Value {
    let mut value = innermost;
    for _ in 0..levels {
        value = Value::Array(vec![value]);
    }
    value
}

fn nested_bytes(levels: usize, innermost: u8) -> Vec<u8> {
    let mut bytes = Vec::new();
    for _ in 0..levels {
        bytes.push(ARRAY);
        bytes.push(1);
    }
    bytes.push(innermost);
    bytes
}

#[test]
fn nesting_stops_at_128_levels() {
    let deepest = nested(128, Value::Null);
    let bytes = encode_bytes(&deepest).unwrap();
    assert_eq!(bytes, nested_bytes(128, NULL));
    assert_eq!(decode_bytes(&bytes), Ok(deepest));
    let too_deep = nested(129, Value::Null);
    assert_eq!(encode_bytes(&too_deep), Err(EncodeError::TooDeep));
    assert_eq!(encode(&too_deep), Err(EncodeError::TooDeep));
    assert_eq!(decode_bytes(&nested_bytes(129, NULL)), Err(DecodeError::TooDeep));
    assert_eq!(decode_bytes(&nested_bytes(100000, NULL)), Err(DecodeError::TooDeep));
}

#[test]
fn containers_without_members_take_no_level() {
    let value = nested(128, Value::Array(vec![]));
    let bytes = encode_bytes(&value).unwrap();
    assert_eq!(bytes, nested_bytes(128, EARRAY));
    assert_eq!(decode_bytes(&bytes), Ok(value));
    let value = nested(128, Value::Object(vec![]));
    let sealed = encode(&value).unwrap();
    assert_eq!(decode(&sealed), Ok(value));
    let mut bytes = nested_bytes(128, ARRAY);
    bytes.push(0);
    assert_eq!(decode_bytes(&bytes), Err(DecodeError::TooDeep));
}

#[test]
fn objects_nest_like_arrays() {
    let mut value = Value::Bool(true);
    for _ in 0..128 {
        value = Value::Object(vec![pair("k", value)]);
    }
    let sealed = encode(&value).unwrap();
    assert_eq!(decode(&sealed), Ok(value.clone()));
    let too_deep = Value::Array(vec![Value::Null, value]);
    assert_eq!(encode(&too_deep), Err(EncodeError::TooDeep));
}

#[test]
fn first_obstacle_is_reported() {
    let too_long = "x".repeat(256);
    let both = Value::Array(vec![text(&too_long), nested(129, Value::Null)]);
    assert_eq!(encode(&both), Err(EncodeError::StringTooLong));
    let both = Value::Array(vec![nested(128, Value::Null), text(&too_long)]);
    assert_eq!(encode(&both), Err(EncodeError::TooDeep));
    let keyed = Value::Object(vec![pair(&too_long, nested(129, Value::Null))]);
    assert_eq!(encode(&keyed), Err(EncodeError::StringTooLong));
}

#[test]
fn well_formed_means_no_key_twice() {
    assert!(Value::Null.is_well_formed());
    assert!(Value::Array(vec![]).is_well_formed());
    assert!(Value::Object(vec![pair("a", Value::Null), pair("b", Value::Null)]).is_well_formed());
    assert!(!Value::Object(vec![pair("a", Value::Null), pair("a", Value::Null)]).is_well_formed());
    assert!(!Value::Object(vec![
        pair("a", Value::Null),
        pair("b", Value::Null),
        pair("c", Value::Integer(1)),
        pair("b", Value::Integer(2)),
    ])
    .is_well_formed());
    let inner = Value::Object(vec![pair("k", Value::Null), pair("k", Value::Bool(true))]);
    assert!(!Value::Array(vec![Value::Null, inner.clone()]).is_well_formed());
    assert!(!Value::Object(vec![pair("outer", inner)]).is_well_formed());
    let twice = Value::Array(vec![
        Value::Object(vec![pair("k", Value::Null)]),
        Value::Object(vec![pair("k", Value::Null)]),
    ]);
    assert!(twice.is_well_formed());
}

#[test]
fn a_key_bound_twice_decodes_to_its_later_binding() {
    let twice = Value::Object(vec![pair("k", Value::Integer(1)), pair("k", Value::Integer(2))]);
    let bytes = encode_bytes(&twice).unwrap();
    assert_eq!(bytes, vec![OBJECT, 2, STRING, 1, b'k', 0x02, STRING, 1, b'k', 0x04]);
    assert_eq!(decode_bytes(&bytes), Ok(Value::Object(vec![pair("k", Value::Integer(2))])));
}

#[test]
fn canonical_narrows_longs_and_nothing_else() {
    assert_eq!(Value::Long(5).to_canonical(), Value::Integer(5));
    assert_eq!(Value::Long(2147483647).to_canonical(), Value::Integer(i32::MAX));
    assert_eq!(Value::Long(-2147483648).to_canonical(), Value::Integer(i32::MIN));
    assert_eq!(Value::Long(2147483648).to_canonical(), Value::Long(2147483648));
    assert_eq!(Value::Long(-2147483649).to_canonical(), Value::Long(-2147483649));
    assert_eq!(Value::Integer(7).to_canonical(), Value::Integer(7));
    assert_eq!(text("5").to_canonical(), text("5"));
    let value = Value::Object(vec![
        pair("a", Value::Array(vec![Value::Long(1), Value::Long(i64::MAX), Value::Null])),
        pair("b", Value::Long(-1)),
    ]);
    let expected = Value::Object(vec![
        pair("a", Value::Array(vec![Value::Integer(1), Value::Long(i64::MAX), Value::Null])),
        pair("b", Value::Integer(-1)),
    ]);
    assert_eq!(value.to_canonical(), expected);
}

#[test]
fn round_trip_gives_the_canonical_value() {
    let samples = vec![
        Value::Null,
        Value::Bool(true),
        Value::Bool(false),
        text(""),
        text("hello"),
        Value::Integer(0),
        Value::Integer(119),
        Value::Integer(120),
        Value::Integer(-120),
        Value::Integer(-121),
        Value::Integer(i32::MAX),
        Value::Integer(i32::MIN),
        Value::Long(0),
        Value::Long(-1),
        Value::Long(119),
        Value::Long(120),
        Value::Long(i32::MAX as i64),
        Value::Long(i32::MAX as i64 + 1),
        Value::Long(i32::MIN as i64),
        Value::Long(i32::MIN as i64 - 1),
        Value::Long(i64::MAX),
        Value::Long(i64::MIN),
        Value::Float(0.0f32.to_bits()),
        Value::Float((-7.5f32).to_bits()),
        Value::Double(0.0f64.to_bits()),
        Value::Double((-1.0e300f64).to_bits()),
        Value::Double(0.1f64.to_bits()),
        Value::Array(vec![]),
        Value::Object(vec![]),
        Value::Array(vec![Value::Long(3), Value::Array(vec![Value::Long(1 << 40)])]),
        Value::Object(vec![
            pair("n", Value::Long(12)),
            pair("m", Value::Object(vec![pair("n", Value::Long(-12345678901))])),
        ]),
    ];
    for value in samples {
        assert!(value.is_well_formed());
        let sealed = encode(&value).unwrap();
        assert_eq!(decode(&sealed), Ok(value.to_canonical()));
        let bytes = encode_bytes(&value).unwrap();
        assert_eq!(decode_bytes(&bytes), Ok(value.to_canonical()));
        assert_eq!(base64::decode(&sealed).unwrap(), bytes);
    }
}

#[test]
fn clone_gives_an_equal_value() {
    let value = Value::Object(vec![
        pair("list", Value::Array(vec![Value::Integer(-5), text("x"), Value::Long(i64::MAX)])),
        pair("pi", Value::Double(3.25f64.to_bits())),
        pair("single", Value::Float(1.5f32.to_bits())),
        pair("flag", Value::Bool(true)),
        pair("none", Value::Null),
    ]);
    assert_eq!(value.clone(), value);
}

#[test]
fn what_decodes_encodes_to_the_same_value() {
    let inputs: [&[u8]; 5] = [
        &[LONG, 0x02, 0, 0, 0, 0, 0, 0, 0],
        &[INTEGER, 0x02, 0, 0, 0],
        &[ARRAY, 0x81, 0x00, STRING, 0],
        &[OBJECT, 2, STRING, 1, b'k', 0x02, STRING, 1, b'k', 0x04],
        &[OBJECT, 0],
    ];
    let canonical: [Value; 5] = [
        Value::Integer(1),
        Value::Integer(1),
        Value::Array(vec![text("")]),
        Value::Object(vec![pair("k", Value::Integer(2))]),
        Value::Object(vec![]),
    ];
    for (input, expected) in inputs.iter().zip(canonical.iter()) {
        let value = decode_bytes(input).unwrap();
        let again = decode_bytes(&encode_bytes(&value).unwrap()).unwrap();
        assert_eq!(&again, expected);
    }
}
