//! Bridges between character strings and their UTF-8 bytes, stated over
//! vstd's UTF-8 model.

use vstd::prelude::*;
use vstd::utf8::{encode_utf8, decode_utf8, valid_utf8};
use crate::error::Error;

verus! {

/// Relies on str::as_bytes: a str's bytes are the UTF-8 encoding of its
/// characters, as `encode_utf8` defines it.
#[verifier::external_body]
pub fn str_to_bytes(s: &str) -> (r: Vec<u8>)
    ensures
        r@ == encode_utf8(s@),
{
    s.as_bytes().to_vec()
}

/// Relies on String::from_utf8: it succeeds exactly on valid UTF-8 and
/// returns the characters those bytes encode.
#[verifier::external_body]
pub fn bytes_to_string(b: Vec<u8>) -> (r: Result<String, Error>)
    ensures
        r matches Ok(s) ==> valid_utf8(b@) && s@ == decode_utf8(b@),
        r matches Err(e) ==> e == Error::InvalidUtf8 && !valid_utf8(b@),
{
    match String::from_utf8(b) {
        Ok(s) => Ok(s),
        Err(_) => Err(Error::InvalidUtf8),
    }
}

/// What base64 (standard alphabet, padded) encodes a byte string to.
pub uninterp spec fn b64_of(b: Seq<u8>) -> Seq<char>;

/// Relies on base64's STANDARD engine encode: the canonical padded encoding,
/// a function of the bytes alone.
#[verifier::external_body]
pub fn b64_encode(b: &Vec<u8>) -> (r: String)
    requires
        b@.len() <= usize::MAX / 4,
    ensures
        r@ == b64_of(b@),
{
    base64::Engine::encode(&base64::engine::general_purpose::STANDARD, b)
}

/// Relies on base64's STANDARD engine decode: it requires canonical padding
/// and rejects set trailing bits, so it accepts exactly the strings `encode`
/// produces, and inverts it on them.
#[verifier::external_body]
pub fn b64_decode(s: &str) -> (r: Result<Vec<u8>, Error>)
    ensures
        r matches Ok(b) ==> s@ == b64_of(b@),
        r matches Ok(b) ==> forall|b0: Seq<u8>| s@ == b64_of(b0) ==> b0 == b@,
        r is Err ==> forall|b0: Seq<u8>| s@ != b64_of(b0),
        r matches Err(e) ==> e == Error::MalformedBundle,
{
    match base64::Engine::decode(&base64::engine::general_purpose::STANDARD, s) {
        Ok(b) => Ok(b),
        Err(_) => Err(Error::MalformedBundle),
    }
}

} // verus!
