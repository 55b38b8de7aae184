//! The cryptographic digest behind identifier generation.

use vstd::prelude::*;

verus! {

/// The 16-byte Blake2b digest of a byte string, as computed by
/// `sp_io::hashing::blake2_128`. The digest is a function of the input bytes
/// alone; nothing further is assumed of its value.
pub uninterp spec fn blake2_128_of(data: Seq<u8>) -> Seq<u8>;

/// Relies on `sp_io::hashing::blake2_128`: a 16-byte Blake2b digest of the
/// input, depending on the input bytes alone.
#[verifier::external_body]
pub(crate) fn blake2_128(data: &[u8]) -> (r: [u8; 16])
    ensures
        r@ == blake2_128_of(data@),
{
    sp_io::hashing::blake2_128(data)
}

} // verus!
