//! SHA-256 digests, through the `bitcoin_hashes` crate.
//!
//! The engine keeps three separately named hashing routines — identity
//! digest, preimage digest, and request-body digest — which share only the
//! underlying SHA-256 call wrapped here.
use vstd::prelude::*;

verus! {

/// The SHA-256 digest of a byte string. The function itself is left
/// uninterpreted: nothing useful about it can be stated in a few lines, and
/// the contracts only need that equal inputs give equal digests.
pub uninterp spec fn sha256_of(data: Seq<u8>) -> Seq<u8>;

/// Relies on `bitcoin_hashes::sha256::Hash::hash`: the 32-byte SHA-256
/// digest of the input bytes alone.
#[verifier::external_body]
pub fn sha256(data: &Vec<u8>) -> (r: Vec<u8>)
    ensures
        r@ == sha256_of(data@),
        r@.len() == 32,
{
    bitcoin_hashes::Hash::to_byte_array(bitcoin_hashes::sha256::Hash::hash(data.as_slice()))
        .to_vec()
}

/// Digest of a payment preimage: the payment hash it proves.
pub fn preimage_to_sha256(preimage: &Vec<u8>) -> (r: Vec<u8>)
    ensures
        r@ == sha256_of(preimage@),
        r@.len() == 32,
{
    sha256(preimage)
}

} // verus!
