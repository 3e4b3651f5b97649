//! The few points where the library leans on code it does not verify:
//! base64 decoding and SHA-256 digests from outside crates, and one
//! `String` method that vstd leaves unspecified.

use vstd::prelude::*;
use base64::Engine;
use sha2::Digest;

verus! {

/// What standard base64 decoding (with padding) yields for a given text:
/// the decoded bytes, or `None` when the text is not valid base64.
/// The result depends on the characters of the text alone.
pub uninterp spec fn base64_decoded(s: Seq<char>) -> Option<Seq<u8>>;

/// The SHA-256 digest of a byte string; it depends on the bytes alone.
pub uninterp spec fn sha256_of(data: Seq<u8>) -> Seq<u8>;

/// Relies on base64's `Engine::decode` with the `STANDARD` engine: the
/// decoded bytes are a function of the input characters alone, and invalid
/// input is reported as an error.
#[verifier::external_body]
pub(crate) fn base64_decode(s: &str) -> (r: Option<Vec<u8>>)
    ensures
        match r {
            Some(bytes) => base64_decoded(s@) == Some(bytes@),
            None => base64_decoded(s@) is None,
        },
{
    base64::engine::general_purpose::STANDARD.decode(s).ok()
}

/// Relies on sha2's `Sha256`: a 32-byte digest that is a function of the
/// input bytes alone.
#[verifier::external_body]
pub(crate) fn sha256_digest(data: &[u8]) -> (r: Vec<u8>)
    ensures
        r@ == sha256_of(data@),
        r@.len() == 32,
{
    sha2::Sha256::digest(data).to_vec()
}

/// Relies on `String::push` appending the character; vstd has no
/// specification for it.
pub assume_specification[ String::push ](s: &mut String, ch: char)
    ensures
        final(s)@ == old(s)@.push(ch),
;

} // verus!
