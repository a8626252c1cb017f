use vstd::prelude::*;

verus! {

/// The two sides of a book.
#[derive(Clone, Copy, Debug, PartialEq, Eq, Structural)]
pub enum BookSide {
    Sell,
    Buy,
}

/// All order types must have a limit price upon placement.
#[derive(Clone, Copy, Debug, PartialEq, Eq, Structural)]
pub enum OrderType {
    /// A Good-Til-Cancelled order (GTC) is a buy or sell order that remains
    /// active until it is either executed or until the user cancels it.
    GTC,
    /// A Fill-Or-Kill order (FOK) is a buy or sell order that must be
    /// executed immediately in its entirety; otherwise, the entire order will
    /// be cancelled (i.e., no partial execution of the order is allowed).
    FOK,
    /// An Immediate-Or-Cancel order (IOC) is a buy or sell order that attempts
    /// to execute all or part immediately and then cancels any unfilled portion
    /// of the order.
    IOC,
    /// A Maker-Only order (MO) is a GTC order except it will be rejected and
    /// cancelled if the price entered would execute immediately.
    MO,
}

} // verus!
