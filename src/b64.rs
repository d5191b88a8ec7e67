//! Base64 text, from the `base64` crate: the standard alphabet for data URIs
//! and the URL-safe alphabet for directory names.
use base64::Engine;
use vstd::prelude::*;

verus! {

/// What the `base64` crate's `STANDARD` engine writes for `b`.
pub uninterp spec fn base64_standard(b: Seq<u8>) -> Seq<u8>;

/// What the `base64` crate's `URL_SAFE` engine writes for `b`.
pub uninterp spec fn base64_url_safe(b: Seq<u8>) -> Seq<u8>;

/// What the `base64` crate's `URL_SAFE` engine reads from `s`, if it accepts it.
pub uninterp spec fn base64_url_safe_decoded(s: Seq<u8>) -> Option<Seq<u8>>;

/// A letter or a digit.
pub open spec fn is_alphanumeric(c: u8) -> bool {
    (65 <= c <= 90) || (97 <= c <= 122) || (48 <= c <= 57)
}

/// A byte of padded standard base64: letters, digits, `+`, `/` and `=`.
pub open spec fn is_standard_char(c: u8) -> bool {
    is_alphanumeric(c) || c == 43 || c == 47 || c == 61
}

/// A byte of padded URL-safe base64: letters, digits, `-`, `_` and `=`.
pub open spec fn is_url_safe_char(c: u8) -> bool {
    is_alphanumeric(c) || c == 45 || c == 95 || c == 61
}

/// The length of padded base64 for `n` bytes: four characters per three bytes, rounded up.
pub open spec fn padded_len(n: nat) -> nat {
    4 * ((n + 2) / 3)
}

/// Relies on `base64::engine::general_purpose::STANDARD.encode`: padded
/// standard-alphabet text, four characters for every three bytes.
/// The crate computes the output length with a checked multiplication and
/// panics on overflow, hence the bound on the input.
#[verifier::external_body]
pub(crate) fn encode_standard(b: &[u8]) -> (r: Vec<u8>)
    requires
        b@.len() <= usize::MAX / 4,
    ensures
        r@ == base64_standard(b@),
        r@.len() == padded_len(b@.len()),
        forall|i: int| 0 <= i < r@.len() ==> is_standard_char(#[trigger] r@[i]),
{
    base64::engine::general_purpose::STANDARD.encode(b).into_bytes()
}

/// Relies on `base64::engine::general_purpose::URL_SAFE.encode`: padded
/// URL-safe text, four characters for every three bytes, which the same
/// engine decodes back to `b`.
#[verifier::external_body]
pub(crate) fn encode_url_safe(b: &[u8]) -> (r: Vec<u8>)
    requires
        b@.len() <= usize::MAX / 4,
    ensures
        r@ == base64_url_safe(b@),
        r@.len() == padded_len(b@.len()),
        forall|i: int| 0 <= i < r@.len() ==> is_url_safe_char(#[trigger] r@[i]),
        base64_url_safe_decoded(r@) == Some(b@),
{
    base64::engine::general_purpose::URL_SAFE.encode(b).into_bytes()
}

/// Relies on `base64::engine::general_purpose::URL_SAFE.decode`: the bytes
/// the text encodes, or nothing when the engine rejects it.
#[verifier::external_body]
pub(crate) fn decode_url_safe(s: &[u8]) -> (r: Option<Vec<u8>>)
    ensures
        r.deep_view() == base64_url_safe_decoded(s@),
{
    base64::engine::general_purpose::URL_SAFE.decode(s).ok()
}

} // verus!
