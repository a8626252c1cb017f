use vstd::prelude::*;
use crate::key::Key;

verus! {

/// Instrument Group
///
/// Only an admin of the instrument group can make updates.
/// If we exceed 10KB we will create a new instrument group.
pub struct InstrmtGrp {
    /// Owner of the instrument group.
    pub admin: Key,
    pub instrmts: Vec<Key>,
    pub bump: u8,
}

impl InstrmtGrp {
    /// Account space of a group of `len` instruments.
    pub fn space(len: usize) -> (r: usize)
        requires
            13 + 32 * len <= usize::MAX,
        ensures
            r == 8 + (4 + 32 * len) + 1,
    {
        8 + (4 + 32 * len) + 1
    }
}

} // verus!
