//! Signing a serialized snapshot with HMAC-SHA256, the tag carried as
//! standard base64, and checking such a signature.

use vstd::prelude::*;
use base64::engine::general_purpose::STANDARD;
use base64::Engine;
use hmac::{Hmac, Mac};
use sha2::Sha256;

verus! {

/// The HMAC-SHA256 tag of the UTF-8 bytes of `message` under `key`.
pub uninterp spec fn hmac_sha256(key: Seq<u8>, message: Seq<char>) -> Seq<u8>;

/// The standard (padded) base64 text of `bytes`.
pub uninterp spec fn base64_encode(bytes: Seq<u8>) -> Seq<char>;

/// The bytes that a standard base64 text stands for, or `None` where the text
/// is not valid standard base64.
pub uninterp spec fn base64_decode(text: Seq<char>) -> Option<Seq<u8>>;

/// A character of the standard base64 alphabet (padding excluded).
pub open spec fn is_base64_char(c: char) -> bool {
    ('A' <= c && c <= 'Z') || ('a' <= c && c <= 'z') || ('0' <= c && c <= '9') || c == '+' || c
        == '/'
}

/// The shape of the padded standard base64 text of `n` bytes: four characters
/// per started group of three bytes, `=` filling the last group, and
/// alphabet characters before it.
pub open spec fn base64_shaped(text: Seq<char>, n: nat) -> bool {
    let pad = (3 - n % 3) % 3;
    &&& text.len() == (n + 2) / 3 * 4
    &&& forall|i: int| 0 <= i < text.len() - pad ==> is_base64_char(#[trigger] text[i])
    &&& forall|i: int| text.len() - pad <= i < text.len() ==> #[trigger] text[i] == '='
}

/// `signature` is the base64 form of the HMAC-SHA256 tag of `message` under `key`.
pub open spec fn signature_matches(message: Seq<char>, signature: Seq<char>, key: Seq<u8>) -> bool {
    base64_decode(signature) == Some(hmac_sha256(key, message))
}

/// Computes the HMAC-SHA256 tag of `message`'s bytes with `Hmac::<Sha256>`
/// (`new_from_slice`, `update`, `finalize`). Trusted: the tag is the named
/// value `hmac_sha256(key, message)` and is 32 bytes long, the output size of
/// SHA-256; HMAC accepts keys of any length, so `new_from_slice` does not fail.
#[verifier::external_body]
fn hmac_sha256_tag(key: &[u8], message: &str) -> (tag: Vec<u8>)
    ensures
        tag@ == hmac_sha256(key@, message@),
        tag@.len() == 32,
{
    let mut mac = Hmac::<Sha256>::new_from_slice(key).expect("HMAC can take key of any size");
    mac.update(message.as_bytes());
    mac.finalize().into_bytes().to_vec()
}

/// Checks `tag` against the HMAC-SHA256 of `message`'s bytes with
/// `Hmac::<Sha256>::verify_slice`. Trusted: the source compares in constant
/// time and succeeds exactly when `tag` has the output length and equals the
/// computed tag, that is, when `tag` is `hmac_sha256(key, message)`; the
/// length check there admits only 32-byte tags, the SHA-256 output size.
#[verifier::external_body]
fn hmac_sha256_check(key: &[u8], message: &str, tag: &[u8]) -> (ok: bool)
    ensures
        ok == (tag@ == hmac_sha256(key@, message@)),
        ok ==> tag@.len() == 32,
{
    let mut mac = Hmac::<Sha256>::new_from_slice(key).expect("HMAC can take key of any size");
    mac.update(message.as_bytes());
    mac.verify_slice(tag).is_ok()
}

/// Encodes `bytes` with base64's `STANDARD` engine (`Engine::encode`).
/// Trusted: the text is the named value `base64_encode(bytes)`, and decoding
/// it with the same engine gives `bytes` back; its shape is what
/// `encode_with_padding` writes: `encoded_len` characters, four per started
/// group of three bytes, from the standard alphabet, then `=` padding to the
/// end of the last group. The length bound excludes the overflow on which
/// `encode` panics.
#[verifier::external_body]
fn base64_encode_standard(bytes: &[u8]) -> (text: String)
    requires
        bytes@.len() / 3 * 4 + 4 <= usize::MAX,
    ensures
        text@ == base64_encode(bytes@),
        base64_decode(text@) == Some(bytes@),
        base64_shaped(text@, bytes@.len()),
{
    STANDARD.encode(bytes)
}

/// Decodes `text` with base64's `STANDARD` engine (`Engine::decode`).
/// Trusted: the result is the named value `base64_decode(text)`, with `None`
/// for any decode error.
#[verifier::external_body]
fn base64_decode_standard(text: &str) -> (bytes: Option<Vec<u8>>)
    ensures
        match bytes {
            Some(b) => base64_decode(text@) == Some(b@),
            None => base64_decode(text@) is None,
        },
{
    STANDARD.decode(text).ok()
}

/// Signs `json_str` with HMAC-SHA256 under `key` and returns the tag in
/// standard base64: 44 characters for the 32-byte tag, 43 from the base64
/// alphabet and a final `=`. The result always passes `verify` for the same
/// text and key.
pub fn sign(json_str: &str, key: &[u8]) -> (signature: String)
    ensures
        signature@ == base64_encode(hmac_sha256(key@, json_str@)),
        signature@.len() == 44,
        forall|i: int| 0 <= i < 43 ==> is_base64_char(#[trigger] signature@[i]),
        signature@[43] == '=',
        signature_matches(json_str@, signature@, key@),
{
    let tag = hmac_sha256_tag(key, json_str);
    base64_encode_standard(tag.as_slice())
}

/// Checks a base64 signature against `json_str` and `key`: true exactly when
/// the signature decodes to the HMAC-SHA256 tag of the text under the key,
/// which is 32 bytes long.
pub fn verify(json_str: &str, signature: &str, key: &[u8]) -> (ok: bool)
    ensures
        ok == signature_matches(json_str@, signature@, key@),
        ok ==> (base64_decode(signature@) matches Some(tag) && tag.len() == 32),
{
    match base64_decode_standard(signature) {
        None => false,
        Some(tag) => hmac_sha256_check(key, json_str, tag.as_slice()),
    }
}

} // verus!
