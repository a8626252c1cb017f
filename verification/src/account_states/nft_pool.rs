use vstd::prelude::*;
use crate::key::Key;

verus! {

/// A pool of NFTs of one collection.
pub struct NftPool {
    pub verified_creators: Vec<Key>,
    pub mint: Key,
    pub bump: u8,
}

impl NftPool {
    /// Account space of a pool with `len` verified creators.
    pub fn space(len: usize) -> (r: usize)
        requires
            45 + 32 * len <= usize::MAX,
        ensures
            r == 8 + (4 + 32 * len) + 32 + 1,
    {
        8 + (4 + 32 * len) + 32 + 1
    }
}

} // verus!
