//! The receipt's checksum: the SHA-256 of an item's bytes, as lowercase hex.

use vstd::prelude::*;

use crate::hex::{hex_encode, push_hex};
use crate::text::string_of;

verus! {

/// The SHA-256 digest of `data`, as the `sha2` crate computes it.
pub uninterp spec fn sha256_digest(data: Seq<u8>) -> Seq<u8>;

/// `<sha2::Sha256 as sha2::Digest>::digest`: the digest of `data`, a
/// function of `data` alone, copied out of its fixed-size array of 32 bytes
/// (`Output<Sha256>` is `GenericArray<u8, U32>`).
#[verifier::external_body]
fn sha256_bytes(data: &[u8]) -> (digest: Vec<u8>)
    ensures
        digest@ == sha256_digest(data@),
        digest@.len() == 32,
{
    <sha2::Sha256 as sha2::Digest>::digest(data).to_vec()
}

/// A digest as lowercase hex, two digits per byte.
pub fn checksum_text(digest: &[u8]) -> (text: String)
    ensures
        text@ == hex_encode(digest@),
{
    let mut out: Vec<char> = Vec::new();
    push_hex(&mut out, digest);
    string_of(out.as_slice())
}

/// The SHA-256 of `bytes` as lowercase hex, the receipt's checksum: 64
/// characters.
pub fn sha256(bytes: &[u8]) -> (text: String)
    ensures
        text@ == hex_encode(sha256_digest(bytes@)),
        text@.len() == 64,
{
    let digest = sha256_bytes(bytes);
    checksum_text(digest.as_slice())
}

} // verus!
