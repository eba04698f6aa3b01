//! Identifiers from user keys, by SHA3-256.
use vstd::prelude::*;
use vstd::string::StringSliceAdditionalSpecFns;
use sha3::Digest;
use sha3::Sha3_256;
use crate::key::Key;
use crate::KEY_LENGTH;

verus! {

/// The SHA3-256 digest of a byte string, as `Sha3_256::digest` of the `sha3`
/// crate computes it.
pub uninterp spec fn sha3_256_digest(data: Seq<u8>) -> Seq<u8>;

/// Hashes `data` with `Sha3_256::digest`. The digest is a function of the
/// bytes alone and has 32 bytes, the output size of `Sha3_256`.
#[verifier::external_body]
fn sha3_256(data: &[u8]) -> (digest: Vec<u8>)
    ensures
        digest@ == sha3_256_digest(data@),
        digest@.len() == 32,
{
    Sha3_256::digest(data).to_vec()
}

/// Copies a slice into an array of the same length.
pub fn clone_into_array<const N: usize>(slice: &[u8]) -> (array: [u8; N])
    requires
        slice@.len() == N,
    ensures
        array@ == slice@,
{
    let mut array: [u8; N] = [0u8; N];
    let mut i: usize = 0;
    while i < N
        invariant
            i <= N,
            slice@.len() == N,
            forall|j: int| 0 <= j < i ==> array@[j] == slice@[j],
        decreases N - i,
    {
        array[i] = slice[i];
        i += 1;
    }
    assert(array@ =~= slice@);
    array
}

/// The identifier under which the user key `key` is stored: the SHA3-256
/// digest of its UTF-8 bytes.
pub fn get_key(key: &str) -> (id: Key)
    ensures
        id@ == sha3_256_digest(key.spec_bytes()),
{
    let digest = sha3_256(key.as_bytes());
    Key::new(clone_into_array::<KEY_LENGTH>(digest.as_slice()))
}

} // verus!
