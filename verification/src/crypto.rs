//! The encodings and primitives the session cookie is built from, each one a
//! call into the crate that implements it.
use vstd::prelude::*;
use base64::Engine;
use hmac::Mac;
use sha2::Digest;

verus! {

#[verifier::external_type_specification]
#[verifier::external_body]
pub struct ExDecodeError(base64::DecodeError);

#[verifier::external_type_specification]
#[verifier::external_body]
pub struct ExInvalidLength(hmac::digest::InvalidLength);

#[verifier::external_type_specification]
#[verifier::external_body]
pub struct ExJsonError(serde_json::Error);

/// The characters of the URL-safe base64 alphabet.
pub open spec fn is_base64url_char(c: char) -> bool {
    let u = c as u32;
    ||| 65 <= u <= 90
    ||| 97 <= u <= 122
    ||| 48 <= u <= 57
    ||| c == '-'
    ||| c == '_'
}

/// URL-safe base64 of `data`, without padding.
pub uninterp spec fn base64url(data: Seq<u8>) -> Seq<char>;

/// The bytes URL-safe, unpadded base64 text decodes to, or `None` when the
/// text is not such an encoding.
pub uninterp spec fn base64url_decoded(text: Seq<u8>) -> Option<Seq<u8>>;

/// SHA-256 of `data`.
pub uninterp spec fn sha256(data: Seq<u8>) -> Seq<u8>;

/// HMAC-SHA256 of `message` under `key`.
pub uninterp spec fn hmac_sha256(key: Seq<u8>, message: Seq<u8>) -> Seq<u8>;

/// `base64::engine::general_purpose::URL_SAFE_NO_PAD.encode`.
///
/// Trusted: the result is the encoding of `bytes`, and every character of
/// it comes from the URL-safe alphabet (`A-Z a-z 0-9 - _`; the engine writes
/// no padding). The encoder panics only when the output length overflows
/// `usize`, which the bound on the input rules out.
#[verifier::external_body]
pub(crate) fn base64_url(bytes: &[u8]) -> (r: String)
    requires
        bytes@.len() <= usize::MAX / 2,
    ensures
        r@ == base64url(bytes@),
        forall|i: int| 0 <= i < r@.len() ==> is_base64url_char(#[trigger] r@[i]),
{
    base64::engine::general_purpose::URL_SAFE_NO_PAD.encode(bytes)
}

/// `base64::engine::general_purpose::URL_SAFE_NO_PAD.decode`.
///
/// Trusted: `Ok` carries the decoding of `text`, and `Err` comes exactly when
/// `text` is not a valid unpadded URL-safe encoding.
#[verifier::external_body]
pub(crate) fn base64_url_decode(text: &[u8]) -> (r: Result<Vec<u8>, base64::DecodeError>)
    ensures
        r matches Ok(bytes) ==> base64url_decoded(text@) == Some(bytes@),
        r is Err ==> base64url_decoded(text@) is None,
{
    base64::engine::general_purpose::URL_SAFE_NO_PAD.decode(text)
}

/// `<sha2::Sha256 as Digest>::digest`.
///
/// Trusted: the result is the SHA-256 digest of `data`, 32 bytes long.
#[verifier::external_body]
pub(crate) fn sha256_digest(data: &[u8]) -> (r: Vec<u8>)
    ensures
        r@ == sha256(data@),
        r@.len() == 32,
{
    sha2::Sha256::digest(data).to_vec()
}

/// `Hmac::<Sha256>::new_from_slice`, then `update` with `message` and
/// `finalize`.
///
/// Trusted: the tag is HMAC-SHA256 of `message` under `key`, 32 bytes long.
/// HMAC accepts a key of any length (an over-long key is hashed first), so
/// `new_from_slice` never returns its `InvalidLength` error here.
#[verifier::external_body]
pub(crate) fn hmac_sha256_tag(key: &[u8], message: &[u8]) -> (r: Result<Vec<u8>, hmac::digest::InvalidLength>)
    ensures
        r is Ok,
        r matches Ok(tag) ==> tag@ == hmac_sha256(key@, message@) && tag@.len() == 32,
{
    match hmac::Hmac::<sha2::Sha256>::new_from_slice(key) {
        Ok(mut mac) => {
            mac.update(message);
            Ok(mac.finalize().into_bytes().to_vec())
        },
        Err(error) => Err(error),
    }
}

/// `text` written as a JSON string literal.
pub uninterp spec fn json_string(text: Seq<char>) -> Seq<char>;

/// `serde_json::to_string` of a string.
///
/// Trusted: the result is the JSON string literal for `text`. Serializing a
/// `str` only writes into an in-memory buffer, so it does not fail.
#[verifier::external_body]
pub(crate) fn to_json_string(text: &str) -> (r: Result<String, serde_json::Error>)
    ensures
        r is Ok,
        r matches Ok(json) ==> json@ == json_string(text@),
{
    serde_json::to_string(text)
}

} // verus!
