use vstd::prelude::*;
use crate::encoding::is_hex_byte;
use crypto::digest::Digest;

verus! {

/// The SHA3-512 digest of `data`, rendered as lowercase hexadecimal bytes.
/// The digest is a pure function of the input bytes, stable across runs
/// and platforms.
pub uninterp spec fn sha3_512_hex(data: Seq<u8>) -> Seq<u8>;

/// Relies on crypto::sha3::Sha3::sha3_512 with Digest::input and
/// Digest::result_str: the digest depends on the input bytes alone, and
/// result_str renders the 64 digest bytes as 128 lowercase hexadecimal
/// characters.
#[verifier::external_body]
fn sha3_512_hex_bytes(data: &[u8]) -> (r: Vec<u8>)
    ensures
        r@ == sha3_512_hex(data@),
        r@.len() == 128,
        forall|i: int| 0 <= i < r@.len() ==> is_hex_byte(#[trigger] r@[i]),
{
    let mut hasher = crypto::sha3::Sha3::sha3_512();
    hasher.input(data);
    hasher.result_str().into_bytes()
}

/// The content address of a chunk: the SHA3-512 digest of its bytes as
/// lowercase hexadecimal.  Identical bytes always yield the identical
/// address.
pub fn hash_chunk(data: &[u8]) -> (r: Vec<u8>)
    ensures
        r@ == sha3_512_hex(data@),
        r@.len() == 128,
        forall|i: int| 0 <= i < r@.len() ==> is_hex_byte(#[trigger] r@[i]),
{
    sha3_512_hex_bytes(data)
}

} // verus!
