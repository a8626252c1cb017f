use vstd::prelude::*;
use crate::key::Key;

verus! {

/// Instrument.
pub struct Instrmt {
    /// Symbol for base, eg. BTC.
    pub base_symbol: [u8; 10],
    /// Symbol for quote, eg. USD.
    pub quote_symbol: [u8; 10],
    /// Instrument group instrument belongs to.
    pub instrmt_grp: Key,
    /// Base currency.
    pub base_mint: Key,
    /// Vault to store base currency.
    pub base_vault: Key,
    /// Quote currency.
    pub quote_mint: Key,
    /// Vault to store quote currency.
    pub quote_vault: Key,
    /// Central limit order book.
    pub book: Key,
    /// Execution reports for activity view.
    pub rb_filled_exec_reports: Key,
    pub bumps: InstrmtBumps,
}

#[derive(Clone, Copy, Debug, PartialEq, Eq, Structural)]
pub struct InstrmtBumps {
    pub base_vault_bump: u8,
    pub quote_vault_bump: u8,
    pub instrmt_bump: u8,
}

/// The UTF-8 bytes of `s`.
pub open spec fn utf8_bytes(s: Seq<char>) -> Seq<u8> {
    vstd::utf8::encode_utf8(s)
}

/// A symbol as a 10-byte field: its bytes, then zeros.
pub open spec fn symbol_field(bytes: Seq<u8>) -> Seq<u8> {
    Seq::new(10, |i: int| if i < bytes.len() { bytes[i] } else { 0u8 })
}

impl Instrmt {
    /// Account space of an instrument.
    pub fn space() -> (r: usize)
        ensures
            r == 8 + 20 + 7 * 32 + 3,
    {
        8 + 20 + 7 * 32 + InstrmtBumps::space()
    }

    /// The bytes of `a` in a 10-byte field padded with zeros (at most 10
    /// bytes fit).
    pub fn to_u8_array(a: String) -> (r: [u8; 10])
        requires
            utf8_bytes(a@).len() <= 10,
        ensures
            r@ == symbol_field(utf8_bytes(a@)),
    {
        let src = a.as_str().as_bytes();
        let mut dest = [0u8; 10];
        let mut i: usize = 0;
        while i < src.len()
            invariant
                src@ == utf8_bytes(a@),
                src@.len() <= 10,
                0 <= i <= src@.len(),
                dest@.len() == 10,
                forall|j: int| 0 <= j < i ==> #[trigger] dest@[j] == src@[j],
                forall|j: int| i <= j < 10 ==> #[trigger] dest@[j] == 0u8,
            decreases src@.len() - i,
        {
            dest[i] = src[i];
            i = i + 1;
        }
        proof {
            assert(dest@ =~= symbol_field(utf8_bytes(a@)));
        }
        dest
    }
}

impl InstrmtBumps {
    pub fn space() -> (r: usize)
        ensures
            r == 3,
    {
        1 + 1 + 1
    }
}

} // verus!
