use vstd::prelude::*;
use crate::account_states::nft_pool::NftPool;
use crate::key::Key;

verus! {

pub struct NewNftPoolIx {
    pub verified_creators: Vec<Key>,
}

/// Sets up an NFT pool over the collection of `ix.verified_creators`, with
/// its own `mint`, at address `bump`.
pub fn handler(nft_pool: &mut NftPool, mint: Key, bump: u8, ix: NewNftPoolIx)
    ensures
        final(nft_pool).mint == mint,
        final(nft_pool).bump == bump,
        final(nft_pool).verified_creators@ == ix.verified_creators@,
{
    nft_pool.mint = mint;
    nft_pool.bump = bump;
    nft_pool.verified_creators = ix.verified_creators;
}

} // verus!
