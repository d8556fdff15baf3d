//! PSON: a compact, tagged binary encoding of JSON-like values, carried as
//! base64 text.
//!
//! Every node opens with one tag byte, and the tag says what follows:
//!
//! | tag                       | behind the tag                     | value            |
//! |---------------------------|------------------------------------|------------------|
//! | `0x00..=0xEF`             | nothing                            | integer, zig-zag |
//! | `NULL`, `TRUE`, `FALSE`   | nothing                            | null, boolean    |
//! | `ESTRING`                 | nothing                            | `""`             |
//! | `EARRAY`, `EOBJECT`       | nothing                            | `[]`, `{}`       |
//! | `STRING`                  | length byte, UTF-8                 | string           |
//! | `INTEGER`                 | 4 bytes, little-endian             | 32 bits, zig-zag |
//! | `LONG`                    | 8 bytes, little-endian             | 64 bits, zig-zag |
//! | `FLOAT`                   | 4 bytes, little-endian             | IEEE-754 single  |
//! | `DOUBLE`                  | 8 bytes, little-endian             | IEEE-754 double  |
//! | `ARRAY`                   | varint count, the members          | array            |
//! | `OBJECT`                  | varint count, key and value each   | object           |
//!
//! [`encode`] turns a [`Value`] into text and [`decode`] turns text into a
//! [`Value`]; [`encoder::encode_bytes`] and [`decoder::decode_bytes`] do the
//! same without the base64 envelope.
//!
//! The layout is defined once, as mathematics, in [`wire`]: `wire::wire` gives
//! the bytes of a value and `wire::parse` the value of some bytes. The encoder
//! and the decoder are proved to compute exactly these, and [`laws`] proves
//! that `parse` undoes `wire`.
//!
//! Four things are taken on trust, each stated where it is used: the byte
//! buffer of `bytebuffer_new` ([`buffer`]), the varint reader of `varint`
//! ([`varint`]), `String::from_utf8` ([`decoder`]) and the base64 of `base64`
//! ([`envelope`]).

pub mod buffer;
pub mod decoder;
pub mod encoder;
pub mod envelope;
pub mod error;
pub mod laws;
pub mod tag;
pub mod value;
pub mod varint;
pub mod wire;
pub mod zigzag;

pub use envelope::{decode, encode};
pub use error::{DecodeError, EncodeError};
pub use value::Value;
