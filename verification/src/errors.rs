use vstd::prelude::*;

verus! {

/// Why an instruction was refused.
#[derive(Clone, Copy, Debug, PartialEq, Eq, Structural)]
pub enum ErrorCode {
    /// Not admin.
    NotAdmin,
    /// Order not executed immediately in its entirety.
    FillOrKillFailed,
    /// Order executed partially or fully as taker.
    MakerOnlyFailed,
    /// Leaves quantity for an IOC order not set to 0 after execution.
    ImmediateOrCancelError,
    /// Nothing to crank; try again later.
    RbCrankEmpty,
    /// Wrong token account.
    WrongTokenAccount,
    /// Wrong vault account.
    WrongVaultAccount,
    /// Unauthorized order cancellation.
    UnauthorizedOrderCancellation,
    /// Order is tombstone.
    TombstoneOrder,
    /// The order cannot be taken: the crank ring has no room for the payments
    /// it would owe, an amount would overflow, or its side is full and the
    /// order ranks below every resting order.
    OrderRejected,
    /// The cluster clock could not be read.
    ClockUnavailable,
}

} // verus!
