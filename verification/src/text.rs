use vstd::prelude::*;
use vstd::utf8::{decode_utf8, valid_utf8};
use crate::error::CryptoError;

verus! {

/// `String::from_utf8` of the standard library, its error dropped. The
/// contract claims what the library documents: the conversion succeeds exactly
/// on well-formed UTF-8, and the string then holds the characters that the
/// bytes encode.
#[verifier::external_body]
fn string_from_utf8(bytes: Vec<u8>) -> (r: Option<String>)
    ensures
        r is Some <==> valid_utf8(bytes@),
        r matches Some(text) ==> text@ == decode_utf8(bytes@),
{
    String::from_utf8(bytes).ok()
}

/// `String::push` of the standard library: the character is appended to the
/// string, as the library documents.
pub assume_specification[ String::push ](text: &mut String, ch: char)
    ensures
        final(text)@ == old(text)@.push(ch),
;

/// Reads a byte buffer as text. Bytes that are not well-formed UTF-8 are
/// rejected.
pub fn decode_text(bytes: Vec<u8>) -> (r: Result<String, CryptoError>)
    ensures
        valid_utf8(bytes@) ==> (r matches Ok(text) && text@ == decode_utf8(bytes@)),
        !valid_utf8(bytes@) ==> (r matches Err(e) && e == CryptoError::InvalidText),
{
    match string_from_utf8(bytes) {
        Some(text) => Ok(text),
        None => Err(CryptoError::InvalidText),
    }
}

} // verus!
