//! SHA-256, and the hash that blocks carry: the lower-case hexadecimal
//! rendering of the SHA-256 digest of a text's UTF-8 bytes.

use sha2::{Digest, Sha256};
use vstd::prelude::*;
use vstd::utf8::encode_utf8;
use crate::text::{is_lower_hex, lemma_lower_hex_digits, lemma_lower_hex_len, lower_hex, lower_hex_string};

verus! {

/// The SHA-256 digest of a byte string.
pub uninterp spec fn sha256_digest_of(data: Seq<u8>) -> Seq<u8>;

/// `Sha256::digest` of the `sha2` crate (what `new`, `update` and
/// `finalize` compute in turn): the SHA-256 digest of `data`, which is 32
/// bytes long (the output size of `Sha256`). What the digest is, is left to
/// the name `sha256_digest_of`.
#[verifier::external_body]
pub(crate) fn sha256(data: &[u8]) -> (d: Vec<u8>)
    ensures
        d@ == sha256_digest_of(data@),
        d@.len() == 32,
{
    Sha256::digest(data).to_vec()
}

/// The hash of a text: lower-case hex of the SHA-256 digest of its UTF-8 bytes.
pub open spec fn hash_of_text(text: Seq<char>) -> Seq<char> {
    lower_hex(sha256_digest_of(encode_utf8(text)))
}

/// The hash of `text`, as `format!("{:x}", Sha256::digest(text))` renders it.
pub fn hash_text(text: &str) -> (h: String)
    ensures
        h@ == hash_of_text(text@),
        h@.len() == 64,
        is_lower_hex(h@),
{
    let bytes = text.as_bytes();
    let d = sha256(bytes);
    proof {
        lemma_lower_hex_len(d@);
        lemma_lower_hex_digits(d@);
    }
    lower_hex_string(d.as_slice())
}

} // verus!
