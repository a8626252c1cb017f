use vstd::prelude::*;
use crate::account_states::crank::{Crank, CrankRing, RingBufferCrank, empty_crank, CRANK_SIZE};
use crate::errors::ErrorCode;
use crate::key::Key;

verus! {

/// Pays out the oldest pending crank: it must owe something
/// (`RbCrankEmpty`), be owed into `user` (`WrongTokenAccount`) and out of
/// `vault` (`WrongVaultAccount`). On success the crank leaves the ring and is
/// returned, its `quantity` the amount to move from `vault` to `user`;
/// refusals change nothing.
pub fn handler(rb_crank: &mut RingBufferCrank, user: Key, vault: Key) -> (r: Result<Crank, ErrorCode>)
    requires
        old(rb_crank).wf(),
    ensures
        final(rb_crank).wf(),
        ({
            let c = old(rb_crank).cranks@[old(rb_crank).head as int];
            &&& c.quantity == 0 ==> r == Err::<Crank, ErrorCode>(ErrorCode::RbCrankEmpty)
            &&& c.quantity != 0 && c.token_acc != user ==> r == Err::<Crank, ErrorCode>(
                ErrorCode::WrongTokenAccount,
            )
            &&& c.quantity != 0 && c.token_acc == user && c.vault != vault ==> r == Err::<Crank, ErrorCode>(
                ErrorCode::WrongVaultAccount,
            )
            &&& c.quantity != 0 && c.token_acc == user && c.vault == vault ==> r == Ok::<
                Crank,
                ErrorCode,
            >(c)
            &&& r is Err ==> *final(rb_crank) == *old(rb_crank)
            &&& r is Ok ==> {
                &&& r == Ok::<Crank, ErrorCode>(c)
                &&& c.quantity != 0 && c.token_acc == user && c.vault == vault
                &&& final(rb_crank).instrmt_grp == old(rb_crank).instrmt_grp
                &&& final(rb_crank)@ == (CrankRing {
                    cranks: old(rb_crank)@.cranks.update(old(rb_crank).head as int, empty_crank()),
                    head: (old(rb_crank).head + 1) % (CRANK_SIZE as int),
                    next: old(rb_crank).next as int,
                })
            }
        }),
{
    let crank = rb_crank.cranks[rb_crank.head as usize];
    if crank.is_empty() {
        return Err(ErrorCode::RbCrankEmpty);
    }
    if crank.get_token_account() != user {
        return Err(ErrorCode::WrongTokenAccount);
    }
    if crank.get_vault() != vault {
        return Err(ErrorCode::WrongVaultAccount);
    }
    let c = rb_crank.remove_head();
    Ok(c)
}

} // verus!
