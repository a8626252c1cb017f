use vstd::prelude::*;
use crate::account_states::book::Book;
use crate::account_states::side::Side;
use crate::account_states::filled_exec_report::RingBufferFilledExecReport;
use crate::account_states::instrmt::{Instrmt, InstrmtBumps, symbol_field, utf8_bytes};
use crate::account_states::instrmt_grp::InstrmtGrp;
use crate::errors::ErrorCode;
use crate::key::Key;

verus! {

pub struct NewInstrmtIx {
    pub base_symbol: String,
    pub quote_symbol: String,
}

/// The addresses of the accounts a new instrument ties together.
#[derive(Clone, Copy, Debug)]
pub struct NewInstrmtAccounts {
    pub authority: Key,
    pub instrmt_grp: Key,
    pub instrmt: Key,
    pub rb_filled_exec_reports: Key,
    pub book: Key,
    pub base_mint: Key,
    pub base_vault: Key,
    pub quote_mint: Key,
    pub quote_vault: Key,
}

/// Creates an instrument in the group: only the group's admin may
/// (`NotAdmin`, which changes nothing). The instrument joins the group and
/// records its mints, vaults, symbols (at most 10 bytes each), book and report
/// ring; the report ring starts over at its first slot; the book learns its
/// instrument and vaults, forgets any recorded best prices, and has the head
/// and tail of both sides set to slot 0. The book is meant to be a fresh
/// one (both sides empty, free pointers at slot 0), which stays well formed.
pub fn handler(
    accounts: &NewInstrmtAccounts,
    instrmt_grp: &mut InstrmtGrp,
    instrmt: &mut Instrmt,
    rb_filled_exec_reports: &mut RingBufferFilledExecReport,
    book: &mut Book,
    bumps: InstrmtBumps,
    ix: NewInstrmtIx,
) -> (r: Result<(), ErrorCode>)
    requires
        old(instrmt_grp).admin == accounts.authority ==> utf8_bytes(ix.base_symbol@).len() <= 10
            && utf8_bytes(ix.quote_symbol@).len() <= 10,
    ensures
        old(instrmt_grp).admin != accounts.authority ==> {
            &&& r == Err::<(), ErrorCode>(ErrorCode::NotAdmin)
            &&& *final(instrmt_grp) == *old(instrmt_grp)
            &&& *final(instrmt) == *old(instrmt)
            &&& *final(rb_filled_exec_reports) == *old(rb_filled_exec_reports)
            &&& *final(book) == *old(book)
        },
        old(instrmt_grp).admin == accounts.authority ==> {
            &&& r is Ok
            &&& final(instrmt_grp).admin == old(instrmt_grp).admin
            &&& final(instrmt_grp).bump == old(instrmt_grp).bump
            &&& final(instrmt_grp).instrmts@ == old(instrmt_grp).instrmts@.push(accounts.instrmt)
            &&& final(instrmt).instrmt_grp == accounts.instrmt_grp
            &&& final(instrmt).base_mint == accounts.base_mint
            &&& final(instrmt).base_vault == accounts.base_vault
            &&& final(instrmt).quote_mint == accounts.quote_mint
            &&& final(instrmt).quote_vault == accounts.quote_vault
            &&& final(instrmt).base_symbol@ == symbol_field(utf8_bytes(ix.base_symbol@))
            &&& final(instrmt).quote_symbol@ == symbol_field(utf8_bytes(ix.quote_symbol@))
            &&& final(instrmt).book == accounts.book
            &&& final(instrmt).bumps == bumps
            &&& final(instrmt).rb_filled_exec_reports == accounts.rb_filled_exec_reports
            &&& final(rb_filled_exec_reports).next_index == 0
            &&& final(rb_filled_exec_reports).filled_exec_reports == old(
                rb_filled_exec_reports,
            ).filled_exec_reports
            &&& final(book).instrmt == accounts.instrmt
            &&& final(book).asks == (Side { vault: accounts.base_vault, head: 0, tail: 0, ..old(book).asks })
            &&& final(book).bids == (Side { vault: accounts.quote_vault, head: 0, tail: 0, ..old(book).bids })
            &&& final(book).ask_min == 0
            &&& final(book).bid_max == 0
            &&& old(book).wf() && old(book).asks@.len() == 0 && old(book).bids@.len() == 0
                && old(book).asks.spec_tombstone() == 0 && old(book).bids.spec_tombstone() == 0
                ==> final(book).wf() && final(book).asks@.len() == 0 && final(book).bids@.len() == 0
        },
{
    if instrmt_grp.admin != accounts.authority {
        return Err(ErrorCode::NotAdmin);
    }
    instrmt_grp.instrmts.push(accounts.instrmt);

    instrmt.instrmt_grp = accounts.instrmt_grp;

    instrmt.base_mint = accounts.base_mint;
    instrmt.base_vault = accounts.base_vault;

    instrmt.quote_mint = accounts.quote_mint;
    instrmt.quote_vault = accounts.quote_vault;

    instrmt.base_symbol = Instrmt::to_u8_array(ix.base_symbol);
    instrmt.quote_symbol = Instrmt::to_u8_array(ix.quote_symbol);

    instrmt.book = accounts.book;
    instrmt.bumps = bumps;

    rb_filled_exec_reports.next_index = 0;
    instrmt.rb_filled_exec_reports = accounts.rb_filled_exec_reports;

    book.instrmt = accounts.instrmt;

    let ghost b0 = *book;
    proof {
        if b0.wf() && b0.asks@.len() == 0 && b0.bids@.len() == 0 {
            b0.asks.lemma_wf();
            b0.bids.lemma_wf();
        }
    }
    book.set_base_vault(accounts.base_vault);
    book.set_quote_vault(accounts.quote_vault);
    book.asks.head = 0;
    book.asks.tail = 0;
    book.bids.head = 0;
    book.bids.tail = 0;
    proof {
        if b0.wf() && b0.asks@.len() == 0 && b0.bids@.len() == 0 && b0.asks.spec_tombstone() == 0
            && b0.bids.spec_tombstone() == 0 {
            assert(book.asks == (Side { vault: accounts.base_vault, ..b0.asks }));
            assert(book.bids == (Side { vault: accounts.quote_vault, ..b0.bids }));
        }
    }

    book.ask_min = 0;
    book.bid_max = 0;
    Ok(())
}

} // verus!
