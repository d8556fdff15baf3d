//! Why text is refused by the decoder, and a value by the encoder.

use vstd::prelude::*;

verus! {

/// Why a text does not decode.
#[derive(Debug, Clone, Copy, PartialEq, Eq, Structural)]
pub enum DecodeError {
    /// The text is not base64.
    MalformedEnvelope,
    /// A tag, a length or a payload is wanted behind the last byte.
    TruncatedBuffer,
    /// The bytes of a string are not UTF-8.
    InvalidUtf8,
    /// A byte where a tag is wanted is neither a small integer nor a marker.
    UnknownTag,
    /// An array or object announces more nodes than the buffer holds: the
    /// bytes end where a member should begin, or the count itself runs over
    /// five bytes.
    CountMismatch,
    /// The node in the place of an object's key is not a string.
    NonStringKey,
    /// Bytes are left behind the outermost node.
    TrailingBytes,
    /// Arrays and objects are nested more than 128 deep.
    TooDeep,
}

/// Why a value has no encoding.
#[derive(Debug, Clone, Copy, PartialEq, Eq, Structural)]
pub enum EncodeError {
    /// A string or key takes more than 255 bytes of UTF-8: its length has one
    /// byte.
    StringTooLong,
    /// An array or object has more than `u32::MAX` members.
    TooManyItems,
    /// Arrays and objects are nested more than 128 deep.
    TooDeep,
}

} // verus!
