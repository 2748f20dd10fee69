//! Base64 and UTF-8: bytes as text.

use vstd::prelude::*;

verus! {

broadcast use vstd::string::group_string_axioms;

/// The text that the standard base64 engine makes of bytes.
pub uninterp spec fn base64_encoded(data: Seq<u8>) -> Seq<char>;

/// The bytes that the standard base64 engine reads from a text, if it accepts the text.
pub uninterp spec fn base64_decoded(text: Seq<char>) -> Option<Seq<u8>>;

/// A character that base64 is written with: of the standard alphabet, or padding.
pub open spec fn base64_char(c: char) -> bool {
    'A' <= c <= 'Z' || 'a' <= c <= 'z' || '0' <= c <= '9' || c == '+' || c == '/' || c == '='
}

/// `base64::Engine::encode` of the standard engine: the result depends on the bytes alone, is
/// written in the standard alphabet with padding, and decoding it gives the bytes back. Only the
/// encoding of no bytes is empty.
#[verifier::external_body]
pub(crate) fn base64_encode(data: &[u8]) -> (r: String)
    ensures
        r@ == base64_encoded(data@),
        base64_decoded(r@) == Some(data@),
        forall|i: int| 0 <= i < r@.len() ==> base64_char(#[trigger] r@[i]),
        r@.len() == 0 <==> data@.len() == 0,
{
    base64::Engine::encode(&base64::engine::general_purpose::STANDARD, data)
}

/// The bytes of an optional list.
pub open spec fn bytes_of(v: Option<Vec<u8>>) -> Option<Seq<u8>> {
    match v {
        Some(b) => Some(b@),
        None => None,
    }
}

/// `base64::Engine::decode` of the standard engine: the result depends on the text alone; a text
/// that the engine refuses gives none.
#[verifier::external_body]
pub(crate) fn base64_decode(text: &str) -> (r: Option<Vec<u8>>)
    ensures
        bytes_of(r) == base64_decoded(text@),
{
    base64::Engine::decode(&base64::engine::general_purpose::STANDARD, text).ok()
}

/// `String::from_utf8`: bytes that are valid UTF-8 give the text that they encode, other bytes
/// give none.
#[verifier::external_body]
pub(crate) fn from_utf8(bytes: Vec<u8>) -> (r: Option<String>)
    ensures
        r is Some <==> vstd::utf8::valid_utf8(bytes@),
        r matches Some(s) ==> s@ == vstd::utf8::decode_utf8(bytes@),
{
    String::from_utf8(bytes).ok()
}

} // verus!
