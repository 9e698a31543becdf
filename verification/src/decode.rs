//! Percent-decoding, Base64 and UTF-8 decoding, as the outside crates and std do them.

use base64::Engine;
use vstd::prelude::*;
use vstd::utf8::{decode_utf8, encode_utf8, valid_utf8};

verus! {

/// The value of an ASCII hexadecimal digit.
pub open spec fn hex_value(b: u8) -> Option<u8> {
    if 48 <= b && b <= 57 {
        Some((b - 48) as u8)
    } else if 65 <= b && b <= 70 {
        Some((b - 55) as u8)
    } else if 97 <= b && b <= 102 {
        Some((b - 87) as u8)
    } else {
        None
    }
}

/// `b` with each `%` followed by two hexadecimal digits replaced by the byte they spell;
/// any other `%` stays as it is.
pub open spec fn percent_decode_bytes(b: Seq<u8>) -> Seq<u8>
    decreases b.len(),
{
    if b.len() == 0 {
        seq![]
    } else if b[0] == 37 && b.len() >= 3 && hex_value(b[1]) is Some && hex_value(b[2]) is Some {
        seq![(hex_value(b[1]).unwrap() * 16 + hex_value(b[2]).unwrap()) as u8]
            + percent_decode_bytes(b.subrange(3, b.len() as int))
    } else {
        seq![b[0]] + percent_decode_bytes(b.drop_first())
    }
}

/// The text that `s` spells once percent-decoded, if the decoded bytes are UTF-8.
pub open spec fn percent_decoded(s: Seq<char>) -> Option<Seq<char>> {
    let b = percent_decode_bytes(encode_utf8(s));
    if valid_utf8(b) {
        Some(decode_utf8(b))
    } else {
        None
    }
}

/// The bytes that the URL-safe Base64 engine without padding decodes `text` to, if it
/// accepts `text`.
pub uninterp spec fn base64_url_decoded(text: Seq<char>) -> Option<Seq<u8>>;

/// Calls `urlencoding::decode`. Claimed: it percent-decodes the UTF-8 bytes of `s` (a `%`
/// not followed by two hexadecimal digits is kept, `+` is kept) and fails exactly when the
/// result is not UTF-8.
#[verifier::external_body]
pub fn percent_decode(s: &str) -> (r: Option<String>)
    ensures
        match r {
            Some(d) => percent_decoded(s@) == Some(d@),
            None => percent_decoded(s@) is None,
        },
{
    urlencoding::decode(s).ok().map(|d| d.into_owned())
}

/// Calls the `decode` of `base64::engine::general_purpose::URL_SAFE_NO_PAD`. Claimed: its
/// result is `base64_url_decoded` of the text, `None` where the engine returns an error.
#[verifier::external_body]
pub fn base64_url_decode(text: &str) -> (r: Option<Vec<u8>>)
    ensures
        match r {
            Some(b) => base64_url_decoded(text@) == Some(b@),
            None => base64_url_decoded(text@) is None,
        },
{
    base64::engine::general_purpose::URL_SAFE_NO_PAD.decode(text).ok()
}

/// Calls `String::from_utf8`. Claimed: it succeeds exactly on valid UTF-8 and then holds
/// the characters that the bytes encode.
#[verifier::external_body]
pub fn string_from_utf8(bytes: Vec<u8>) -> (r: Option<String>)
    ensures
        r is Some <==> valid_utf8(bytes@),
        r matches Some(s) ==> s@ == decode_utf8(bytes@),
{
    String::from_utf8(bytes).ok()
}

} // verus!
