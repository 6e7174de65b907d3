//! SHA-256 digests in hexadecimal.

use vstd::prelude::*;
use vstd::utf8::*;
use crate::text::{hex, hex_of};
use sha2::Digest;

verus! {

/// The SHA-256 digest of a byte sequence.
pub uninterp spec fn sha256(bytes: Seq<u8>) -> Seq<u8>;

/// `sha2::Sha256::digest`. Claimed: the digest is a function of the bytes, and 32 bytes long.
#[verifier::external_body]
fn sha256_of(bytes: &[u8]) -> (r: Vec<u8>)
    ensures
        r@ == sha256(bytes@),
        r@.len() == 32,
{
    sha2::Sha256::digest(bytes).to_vec()
}

proof fn lemma_hex_len(bytes: Seq<u8>)
    ensures
        hex(bytes).len() == 2 * bytes.len(),
    decreases bytes.len(),
{
    if bytes.len() > 0 {
        lemma_hex_len(bytes.drop_last());
    }
}

/// The digest of a text's UTF-8 bytes, in lower-case hexadecimal.
pub open spec fn digest_text(text: Seq<char>) -> Seq<char> {
    hex(sha256(encode_utf8(text)))
}

pub fn hex_digest(text: &str) -> (r: String)
    ensures
        r@ == digest_text(text@),
        r@.len() == 64,
{
    let digest = sha256_of(text.as_bytes());
    proof {
        lemma_hex_len(digest@);
    }
    hex_of(&digest)
}

} // verus!
