//! Encodings computed by outside crates, and the UTF-8 boundary.
//!
//! Each function here is an `external_body` wrapper around exactly one
//! outside call; its contract states, over the byte-level encodings defined
//! in [`crate::render`] and vstd's UTF-8 model, what that call returns.

use vstd::prelude::*;
use vstd::utf8::{decode_utf8, encode_utf8, valid_utf8};
use crate::render::{spec_base64, spec_hex_upper};
use crate::ConversionError;
use base64::Engine;

verus! {

/// A pair of ASCII hex digits (either letter case) and the byte they denote.
pub open spec fn spec_hex_digit_val(c: u8) -> Option<u8> {
    if 48 <= c <= 57 {
        Some((c - 48) as u8)
    } else if 97 <= c <= 102 {
        Some((c - 87) as u8)
    } else if 65 <= c <= 70 {
        Some((c - 55) as u8)
    } else {
        None
    }
}

/// Whether `s` is a case-insensitive hex spelling of the byte string `b`.
pub open spec fn spec_is_hex_of(s: Seq<u8>, b: Seq<u8>) -> bool {
    &&& s.len() == 2 * b.len()
    &&& forall|i: int|
        0 <= i < b.len() ==> {
            &&& spec_hex_digit_val(s[2 * i]) matches Some(h) && spec_hex_digit_val(s[2 * i + 1])
                matches Some(l) && #[trigger] b[i] == h * 16 + l
        }
}

/// Relies on `String::from_utf8` from std: it succeeds exactly on valid
/// UTF-8 input and returns the string those bytes spell.
#[verifier::external_body]
pub(crate) fn bytes_to_string(bytes: Vec<u8>) -> (r: Option<String>)
    ensures
        r is Some <==> valid_utf8(bytes@),
        r matches Some(s) ==> s@ == decode_utf8(bytes@),
{
    match String::from_utf8(bytes) {
        Ok(s) => Some(s),
        Err(_) => None,
    }
}

/// Encode binary data as an uppercase hexadecimal string: two digits per
/// byte, no separator, no prefix.
///
/// Relies on `faster_hex::hex_string_upper`, which encodes each byte as two
/// uppercase ASCII hex digits in order.
#[verifier::external_body]
pub fn hex_encode(data: &[u8]) -> (r: String)
    ensures
        encode_utf8(r@) == spec_hex_upper(data@),
{
    faster_hex::hex_string_upper(data)
}

/// Decode a hexadecimal string (either letter case, no prefix) to bytes.
///
/// Relies on `faster_hex::hex_decode_vec`, which decodes exactly the
/// even-length strings of ASCII hex digits and rejects everything else.
#[verifier::external_body]
pub fn hex_decode(hex: &str) -> (r: Result<Vec<u8>, ConversionError>)
    ensures
        r matches Ok(b) ==> spec_is_hex_of(encode_utf8(hex@), b@),
        r matches Err(e) ==> e is InvalidHex && (forall|bs: Seq<u8>|
            !spec_is_hex_of(encode_utf8(hex@), bs)),
{
    match faster_hex::hex_decode_vec(hex.as_bytes()) {
        Ok(b) => Ok(b),
        Err(_) => Err(ConversionError::InvalidHex),
    }
}

/// Encode binary data as standard base64 with padding.
///
/// Relies on the `base64` crate's `STANDARD` engine, whose `encode` produces
/// the canonical padded standard-alphabet encoding.
#[verifier::external_body]
pub fn base64_encode(data: &[u8]) -> (r: String)
    ensures
        encode_utf8(r@) == spec_base64(data@),
{
    base64::engine::general_purpose::STANDARD.encode(data)
}

/// Decode a standard padded base64 string to bytes.
///
/// Relies on the `base64` crate's `STANDARD` engine, whose `decode` accepts
/// exactly the canonical padded encodings (it rejects missing padding and
/// non-zero trailing bits) and inverts `encode`.
#[verifier::external_body]
pub fn base64_decode(encoded: &str) -> (r: Result<Vec<u8>, ConversionError>)
    ensures
        r matches Ok(b) ==> encode_utf8(encoded@) == spec_base64(b@),
        r matches Err(e) ==> e is InvalidBase64 && (forall|bs: Seq<u8>|
            encode_utf8(encoded@) != spec_base64(bs)),
{
    match base64::engine::general_purpose::STANDARD.decode(encoded) {
        Ok(b) => Ok(b),
        Err(_) => Err(ConversionError::InvalidBase64),
    }
}

} // verus!
