use vstd::prelude::*;
use crate::errors::ErrorCode;

verus! {

#[derive(Clone, Copy, Debug)]
pub struct SwapNftIx {}

/// Swapping NFTs accepts every request whose accounts pass validation and
/// does nothing yet.
pub fn handler(ix: SwapNftIx) -> (r: Result<(), ErrorCode>)
    ensures
        r == Ok::<(), ErrorCode>(()),
{
    Ok(())
}

} // verus!
