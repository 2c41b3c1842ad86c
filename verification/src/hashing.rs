//! The hash function of the message queue chains.

use vstd::prelude::*;
use crate::primitives::H256;

verus! {

/// The BLAKE2b digest of `data`, 256 bits wide.
pub uninterp spec fn blake2_256(data: Seq<u8>) -> Seq<u8>;

/// Calls `sp_runtime::traits::BlakeTwo256::hash`, which computes the 256-bit
/// BLAKE2b digest of the bytes it is given.
#[verifier::external_body]
pub(crate) fn blake2_256_of(data: &[u8]) -> (digest: H256)
    ensures
        digest@ == blake2_256(data@),
{
    <sp_runtime::traits::BlakeTwo256 as sp_runtime::traits::Hash>::hash(data).0
}

} // verus!
