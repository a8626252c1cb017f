use vstd::prelude::*;
use crate::account_states::instrmt_grp::InstrmtGrp;
use crate::key::Key;

verus! {

/// Makes `authority` the admin of a new instrument group at address `bump`.
pub fn handler(instrmt_grp: &mut InstrmtGrp, authority: Key, bump: u8)
    ensures
        final(instrmt_grp).admin == authority,
        final(instrmt_grp).bump == bump,
        final(instrmt_grp).instrmts@ == old(instrmt_grp).instrmts@,
{
    instrmt_grp.admin = authority;
    instrmt_grp.bump = bump;
}

} // verus!
