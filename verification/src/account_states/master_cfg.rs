use vstd::prelude::*;
use crate::key::Key;

verus! {

/// Master config
///
/// Values can only be changed by an admin.
pub struct MasterCfg {
    /// Maker fee in basis points (BPS). Max BPS 255 = 2.55%.
    pub maker_fee_bps: u8,
    /// Taker fee in basis points (BPS). Max BPS 255 = 2.55%.
    pub taker_fee_bps: u8,
    /// Whitelisted clients such as market makers et cetera.
    pub fee_exempt: Vec<Key>,
    /// Treasury wallet collecting fees for all instruments.
    pub fee_treasury: Key,
    pub bump: u8,
}

impl MasterCfg {
    /// Account space of a config exempting `len` clients.
    pub fn space(len: usize) -> (r: usize)
        requires
            45 + 32 * len <= usize::MAX,
        ensures
            r == 8 + 1 + (4 + 32 * len) + 32,
    {
        8 + 1 + (4 + 32 * len) + 32
    }
}

} // verus!
