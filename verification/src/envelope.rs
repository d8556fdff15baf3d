//! The envelope: encoded bytes travel as base64 text.

use crate::decoder::decode_bytes;
use crate::encoder::encode_bytes;
use crate::error::{DecodeError, EncodeError};
use crate::laws::lemma_round_trip;
use crate::value::{canonical, well_formed, Value, ValueView};
use crate::wire::{encodable, parse, refusal, wire, MAX_DEPTH};
use base64::DecodeError as Base64Error;
use vstd::prelude::*;

verus! {

/// The base64 text of `bytes`, in the standard alphabet with padding.
pub uninterp spec fn base64_text(bytes: Seq<u8>) -> Seq<char>;

/// The bytes that `text` is the base64 of, if it is base64 at all.
pub uninterp spec fn base64_bytes(text: Seq<char>) -> Option<Seq<u8>>;

/// `base64::DecodeError`, of which nothing is known.
#[verifier::external_type_specification]
#[verifier::external_body]
pub struct ExBase64Error(Base64Error);

/// `base64::encode`: the text is a function of the bytes alone, and
/// `base64::decode` gives the bytes back from it.
#[verifier::external_body]
fn base64_encode(bytes: &Vec<u8>) -> (text: String)
    ensures
        text@ == base64_text(bytes@),
        base64_bytes(text@) == Some(bytes@),
{
    base64::encode(bytes)
}

/// `base64::decode`: whether it succeeds, and with which bytes, is a function
/// of the text alone.
#[verifier::external_body]
fn base64_decode(text: &str) -> (bytes: Result<Vec<u8>, Base64Error>)
    ensures
        match base64_bytes(text@) {
            Some(b) => bytes matches Ok(v) && v@ == b,
            None => bytes is Err,
        },
{
    base64::decode(text)
}

/// The text of a value: the base64 of its bytes.
pub open spec fn encoded(v: ValueView) -> Seq<char> {
    base64_text(wire(v))
}

/// What a text decodes to.
pub open spec fn decoded(text: Seq<char>) -> Result<ValueView, DecodeError> {
    match base64_bytes(text) {
        None => Err(DecodeError::MalformedEnvelope),
        Some(bytes) => parse(bytes),
    }
}

/// Encodes `json` as base64 text.
///
/// Every value has an encoding but one that holds a string or key of more
/// than 255 bytes of UTF-8, an array or object of more than `u32::MAX`
/// members, or arrays and objects nested more than 128 deep. Where no object
/// in `json` binds a key twice, the text decodes to `json` again, each number
/// in its narrowest kind.
pub fn encode(json: &Value) -> (r: Result<String, EncodeError>)
    ensures
        match refusal(json@, MAX_DEPTH as nat) {
            None => r matches Ok(text) && text@ == encoded(json@) && (well_formed(json@)
                ==> decoded(text@) == Ok::<ValueView, DecodeError>(canonical(json@))),
            Some(e) => r == Err::<String, EncodeError>(e),
        },
{
    proof {
        if encodable(json@) && well_formed(json@) {
            lemma_round_trip(json@);
        }
    }
    match encode_bytes(json) {
        Err(e) => Err(e),
        Ok(bytes) => Ok(base64_encode(&bytes)),
    }
}

/// Decodes base64 text to the value it stands for.
///
/// The text is base64 of one node and nothing else; every way in which it can
/// fail to be has its own error. What decodes binds no key twice, and encodes
/// again.
pub fn decode(pson_str: &str) -> (r: Result<Value, DecodeError>)
    ensures
        match decoded(pson_str@) {
            Ok(v) => r matches Ok(value) && value@ == v,
            Err(e) => r == Err::<Value, DecodeError>(e),
        },
        r matches Ok(value) ==> well_formed(value@) && encodable(value@),
{
    match base64_decode(pson_str) {
        Err(_) => Err(DecodeError::MalformedEnvelope),
        Ok(bytes) => decode_bytes(bytes.as_slice()),
    }
}

} // verus!
