//! Digests.

use vstd::prelude::*;
use vstd::utf8::encode_utf8;

use sha2::Digest;

use crate::text::{hex, hex_text};

verus! {

/// The SHA-256 digest of bytes.
pub uninterp spec fn sha256(bytes: Seq<u8>) -> Seq<u8>;

/// `Sha256::digest` of the `sha2` crate: the digest depends on the bytes alone, and has thirty-two
/// bytes.
#[verifier::external_body]
pub(crate) fn sha256_of(bytes: &[u8]) -> (r: Vec<u8>)
    ensures
        r@ == sha256(bytes@),
        r@.len() == 32,
{
    sha2::Sha256::digest(bytes).to_vec()
}

/// The digest of a text, in hexadecimal.
pub open spec fn text_digest(text: Seq<char>) -> Seq<char> {
    hex(sha256(encode_utf8(text)))
}

/// The digest of a text, in hexadecimal.
pub fn digest_text(text: &str) -> (r: String)
    ensures
        r@ == text_digest(text@),
{
    let digest = sha256_of(text.as_bytes());
    hex_text(digest.as_slice())
}

/// The digest of bytes, in hexadecimal.
pub fn digest_bytes(bytes: &[u8]) -> (r: String)
    ensures
        r@ == hex(sha256(bytes@)),
{
    let digest = sha256_of(bytes);
    hex_text(digest.as_slice())
}

} // verus!
