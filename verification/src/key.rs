use vstd::prelude::*;

verus! {

/// A 32-byte account address, held as four little-endian 64-bit words
/// (`w0` holds bytes 0..8, `w3` bytes 24..32).
#[derive(Clone, Copy, Debug, PartialEq, Eq, Structural)]
pub struct Key {
    pub w0: u64,
    pub w1: u64,
    pub w2: u64,
    pub w3: u64,
}

/// The all-zero address, which stands for "no account".
pub open spec fn zero_key() -> Key {
    Key { w0: 0, w1: 0, w2: 0, w3: 0 }
}

impl Key {
    /// The all-zero address.
    pub fn zero() -> (k: Key)
        ensures
            k == zero_key(),
    {
        Key { w0: 0, w1: 0, w2: 0, w3: 0 }
    }

    /// Whether this is the all-zero address.
    pub fn is_zero(&self) -> (r: bool)
        ensures
            r == (*self == zero_key()),
    {
        *self == Key::zero()
    }
}

} // verus!
