//! The hashes by which messages are checked.

use sha2::{Digest, Sha512};
use vstd::prelude::*;

use crate::byte_string::same_bytes;
use crate::error::SigningFault;

verus! {

/// The SHA-512 hash of a byte string.
pub uninterp spec fn sha512(content: Seq<u8>) -> Seq<u8>;

/// Computes the SHA-512 hash of a byte string: `sha2::Sha512::digest`.
///
/// Trusted: that the hash is a function of the bytes alone, the one named `sha512` here.
#[verifier::external_body]
pub(crate) fn hash_sha512(content: &[u8]) -> (hash: Vec<u8>)
    ensures
        hash@ == sha512(content@),
{
    Sha512::digest(content).to_vec()
}

/// Checks a computed hash against the one that a message claims.
pub fn check_hash(computed: &[u8], claimed: &[u8]) -> (r: Result<(), SigningFault>)
    ensures
        r == (if computed@ == claimed@ {
            Ok::<(), SigningFault>(())
        } else {
            Err(SigningFault::HashMismatch)
        }),
{
    if same_bytes(computed, claimed) {
        Ok(())
    } else {
        Err(SigningFault::HashMismatch)
    }
}

} // verus!
