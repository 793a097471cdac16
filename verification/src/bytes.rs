//! Byte strings: URL-safe base64 with padding, as the `base64` crate writes and reads it.

use crate::error::Base64ErrorKind;
use vstd::prelude::*;
use vstd::string::StringSliceAdditionalSpecFns;

verus! {

/// The URL-safe base64 text of `bytes`, with padding.
pub uninterp spec fn base64_text(bytes: Seq<u8>) -> Seq<char>;

/// What the URL-safe base64 text `text` decodes to: the bytes, or why it is refused.
pub uninterp spec fn base64_bytes(text: Seq<char>) -> Result<Seq<u8>, Base64ErrorKind>;

/// Whether the base64 text `text` decodes to `bytes`.
pub open spec fn reads_as(text: Seq<char>, bytes: Seq<u8>) -> bool {
    base64_bytes(text) == Ok::<Seq<u8>, Base64ErrorKind>(bytes)
}

/// A character of the URL-safe alphabet, or the padding character.
pub open spec fn is_base64_char(c: char) -> bool {
    ('A' <= c <= 'Z') || ('a' <= c <= 'z') || ('0' <= c <= '9') || c == '-' || c == '_' || c == '='
}

/// The number of characters that `len` bytes take as padded base64 where
/// that number fits a `usize` with some room to spare, and nothing otherwise.
pub open spec fn base64_len(len: nat) -> Option<nat> {
    if (len + 2) / 3 * 4 + 7 <= usize::MAX {
        Some((len + 2) / 3 * 4)
    } else {
        None
    }
}

/// Whether a text is short enough for the decoder, which rounds its length up.
pub open spec fn decodable_len(text: Seq<char>) -> bool {
    vstd::utf8::encode_utf8(text).len() + 7 <= usize::MAX
}

/// `base64::encode_config` with `base64::URL_SAFE`. The contract names the
/// text and claims of it what the crate's tables and its size computation
/// show: four characters for every three bytes begun, all of the URL-safe
/// alphabet or `=`, which `base64::decode_config` reads back as `bytes`.
#[verifier::external_body]
pub(crate) fn encode_url_safe(bytes: &[u8]) -> (r: String)
    requires
        base64_len(bytes@.len()) is Some,
    ensures
        r@ == base64_text(bytes@),
        r@.len() == (bytes@.len() + 2) / 3 * 4,
        forall|i: int| 0 <= i < r@.len() ==> is_base64_char(#[trigger] r@[i]),
        reads_as(r@, bytes@),
{
    base64::encode_config(bytes, base64::URL_SAFE)
}

/// `base64::decode_config` with `base64::URL_SAFE`. The contract names the
/// outcome; the crate's error is carried over variant by variant.
#[verifier::external_body]
pub(crate) fn decode_url_safe(text: &str) -> (r: Result<Vec<u8>, Base64ErrorKind>)
    requires
        decodable_len(text@),
    ensures
        match base64_bytes(text@) {
            Ok(bytes) => r matches Ok(v) && v@ == bytes,
            Err(e) => r matches Err(kind) && kind == e,
        },
{
    match base64::decode_config(text, base64::URL_SAFE) {
        Ok(v) => Ok(v),
        Err(base64::DecodeError::InvalidByte(at, byte)) => Err(
            Base64ErrorKind::InvalidByte(at, byte),
        ),
        Err(base64::DecodeError::InvalidLength) => Err(Base64ErrorKind::InvalidLength),
        Err(base64::DecodeError::InvalidLastSymbol(at, byte)) => Err(
            Base64ErrorKind::InvalidLastSymbol(at, byte),
        ),
    }
}

} // verus!
