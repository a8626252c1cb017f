use vstd::prelude::*;
use crate::account_states::master_cfg::MasterCfg;
use crate::errors::ErrorCode;
use crate::key::Key;

verus! {

#[derive(Clone, Copy, Debug)]
pub struct InitMasterCfgIx {
    pub maker_fee_bps: u8,
    pub taker_fee_bps: u8,
    pub fee_treasury: Key,
}

/// Sets up the master config from `ix` and its address `bump`; only the
/// program admin `admin_key` may (`NotAdmin`). A refusal changes nothing.
pub fn handler(
    master_cfg: &mut MasterCfg,
    ix: &InitMasterCfgIx,
    bump: u8,
    admin: Key,
    admin_key: Key,
) -> (r: Result<(), ErrorCode>)
    ensures
        admin != admin_key ==> r == Err::<(), ErrorCode>(ErrorCode::NotAdmin) && *final(master_cfg)
            == *old(master_cfg),
        admin == admin_key ==> r is Ok && *final(master_cfg) == (MasterCfg {
            maker_fee_bps: ix.maker_fee_bps,
            taker_fee_bps: ix.taker_fee_bps,
            fee_treasury: ix.fee_treasury,
            bump,
            ..*old(master_cfg)
        }),
{
    if admin != admin_key {
        return Err(ErrorCode::NotAdmin);
    }
    master_cfg.maker_fee_bps = ix.maker_fee_bps;
    master_cfg.taker_fee_bps = ix.taker_fee_bps;
    master_cfg.fee_treasury = ix.fee_treasury;
    master_cfg.bump = bump;
    Ok(())
}

} // verus!
