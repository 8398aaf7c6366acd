//! The reversible text-safe encoding used by the binary read and write
//! operations.

use base64::Engine;
use vstd::prelude::*;
use vstd::string::StringExecFns;

verus! {

/// What base64's standard-alphabet padded engine produces for a byte
/// sequence: a function of the bytes alone.
pub uninterp spec fn b64_of(bytes: Seq<u8>) -> Seq<char>;

/// Relies on base64's `STANDARD` engine `encode`: the output depends on
/// the input bytes alone.
#[verifier::external_body]
pub(crate) fn base64_encode(bytes: &Vec<u8>) -> (r: String)
    ensures
        r@ == b64_of(bytes@),
{
    base64::engine::general_purpose::STANDARD.encode(bytes)
}

/// Relies on base64's `STANDARD` engine `decode`: with canonical padding
/// required and trailing bits rejected, it accepts exactly the strings the
/// engine's `encode` produces, and inverts it on those.
#[verifier::external_body]
pub(crate) fn base64_decode(text: &str) -> (r: Result<Vec<u8>, String>)
    ensures
        r matches Ok(v) ==> text@ == b64_of(v@),
        (exists|bs: Seq<u8>| text@ == b64_of(bs)) ==> r is Ok,
{
    match base64::engine::general_purpose::STANDARD.decode(text) {
        Ok(v) => Ok(v),
        Err(e) => Err(format!("{}", e)),
    }
}

/// Relies on `String::from_utf8`: it succeeds exactly on valid UTF-8 and
/// decodes the bytes to their character sequence.
#[verifier::external_body]
pub(crate) fn bytes_to_utf8(v: Vec<u8>) -> (r: Option<String>)
    ensures
        r matches Some(s) ==> vstd::utf8::valid_utf8(v@) && s@ == vstd::utf8::decode_utf8(v@),
        r is None ==> !vstd::utf8::valid_utf8(v@),
{
    String::from_utf8(v).ok()
}

/// The fixed prefix put before a decode failure's message.
pub open spec fn decode_error_prefix() -> Seq<char> {
    "Base64 decode error: "@
}

/// Builds the error string reported for a malformed payload.
pub fn decode_error_message(detail: &str) -> (r: String)
    ensures
        r@ == decode_error_prefix() + detail@,
{
    let mut r = String::from_str("Base64 decode error: ");
    r.append(detail);
    r
}

} // verus!
