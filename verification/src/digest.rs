//! The address that belongs to a channel identifier.

use vstd::prelude::*;
use crate::ident::{Address, ChannelId};

verus! {

/// The Keccak-256 digest of a byte string.
pub uninterp spec fn keccak256_of(bytes: Seq<u8>) -> Seq<u8>;

/// Calls `web3::signing::keccak256`, which hashes the bytes with Keccak-256
/// and returns the thirty-two bytes of the digest. The contract says only
/// that the digest depends on the bytes alone; its value is not claimed.
#[verifier::external_body]
fn keccak256(bytes: &[u8; 32]) -> (digest: [u8; 32])
    ensures
        digest@ == keccak256_of(bytes@),
{
    web3::signing::keccak256(bytes)
}

/// The last twenty bytes of a digest.
pub open spec fn digest_tail(digest: Seq<u8>) -> Seq<u8> {
    digest.subrange(12, 32)
}

/// The address that owns the channel `id`: the last twenty bytes of the
/// Keccak-256 digest of the identifier.
pub open spec fn owner_of(id: ChannelId) -> Address {
    choose|address: Address| address@ == digest_tail(keccak256_of(id@))
}

/// Cuts the address out of a digest.
pub fn address_from_digest(digest: &[u8; 32]) -> (address: Address)
    ensures
        address@ == digest_tail(digest@),
{
    let mut address: Address = [0u8; 20];
    let mut i: usize = 0;
    while i < 20
        invariant
            i <= 20,
            forall|j: int| 0 <= j < i ==> address@[j] == digest@[12 + j],
        decreases 20 - i,
    {
        address[i] = digest[12 + i];
        i = i + 1;
    }
    assert(address@ =~= digest_tail(digest@));
    address
}

/// Computes [`owner_of`].
pub fn calculate_keccak_address(id: &ChannelId) -> (address: Address)
    ensures
        address@ == digest_tail(keccak256_of(id@)),
        address == owner_of(*id),
{
    let digest = keccak256(id);
    let address = address_from_digest(&digest);
    assert(address =~= owner_of(*id));
    address
}

} // verus!
