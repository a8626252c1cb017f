use vstd::prelude::*;
use anchor_lang::prelude::Clock;
use anchor_lang::solana_program::sysvar::Sysvar;

verus! {

/// Reads the cluster clock through `Clock::get()` of `anchor_lang` (the
/// runtime's clock sysvar) and gives its slot and Unix timestamp, or `None`
/// where the runtime does not provide the sysvar (off-chain it never does).
/// The values depend on the cluster and on the time of the call, so nothing is
/// stated of them.
#[verifier::external_body]
pub(crate) fn current_clock() -> (r: Option<(u64, i64)>) {
    match Clock::get() {
        Ok(c) => Some((c.slot, c.unix_timestamp)),
        Err(_) => None,
    }
}

} // verus!
