//! Content hashing: the SHA-1 digest behind the object store's addressing,
//! and its lowercase hexadecimal form.

use vstd::prelude::*;

use crate::encoding::{hex_chars, lemma_hex_chars_len, render_hex_string};
use crypto::digest::Digest;

verus! {

/// The SHA-1 digest of a byte string. The digest is a fixed, published
/// function of its input alone; its value is left unspecified here and is
/// supplied by an outside implementation.
pub uninterp spec fn sha1_of(s: Seq<u8>) -> Seq<u8>;

/// Relies on crypto's `Sha1` (`new`, `input`, `result`): the digest depends on
/// the input bytes alone and is 160 bits, twenty bytes, long.
#[verifier::external_body]
pub(crate) fn sha1_digest(input: &[u8]) -> (r: Vec<u8>)
    ensures
        r@ == sha1_of(input@),
        r@.len() == 20,
{
    let mut hasher = crypto::sha1::Sha1::new();
    hasher.input(input);
    let mut out = vec![0u8; 20];
    hasher.result(&mut out);
    out
}

/// The forty-character lowercase hexadecimal SHA-1 digest of `input`.
pub fn create_sha1(input: &[u8]) -> (r: String)
    ensures
        r@ == hex_chars(sha1_of(input@)),
        r@.len() == 40,
{
    let digest = sha1_digest(input);
    let r = render_hex_string(digest.as_slice());
    proof {
        lemma_hex_chars_len(sha1_of(input@));
    }
    r
}

} // verus!
