use vstd::prelude::*;
use crate::account_states::book::{
    Book,
    all_resting,
    crosses,
    filled_cost,
    filled_qty,
    law_matching,
    law_new_limit_keeps_order,
    lemma_match_executes,
    lemma_match_taker,
};
use crate::account_states::crank::CrankRing;
use crate::account_states::filled_exec_report::ReportRing;
use crate::account_states::side::{Side, placed};
use crate::account_states::crank::RingBufferCrank;
use crate::account_states::filled_exec_report::RingBufferFilledExecReport;
use crate::account_states::order::{Order, order_of, resting_ok};
use crate::enums::OrderType;
use crate::errors::ErrorCode;
use crate::key::Key;

verus! {

/// A new order single: buy or sell `size` at `limit`.
#[derive(Clone, Copy, Debug)]
pub struct NewOrderSingleIx {
    pub is_buy: bool,
    pub limit: u64,
    pub size: u64,
    pub order_type: OrderType,
}

/// The token movements a placed order calls for.
#[derive(Clone, Copy, Debug, PartialEq, Eq, Structural)]
pub struct Settlement {
    /// What the user deposits: quote for a buy (the open quantity at its
    /// limit plus what its trades cost), base for a sell (its whole size).
    pub deposit: u64,
    /// What the user receives at once: base for a buy (the quantity bought),
    /// quote for a sell (what its trades fetched).
    pub payout: u64,
}

/// How an order of type `order_type` that stands as `o` after placement is
/// settled: refused when its type's condition fails, else the deposit and
/// payout it calls for (refused when they overflow).
pub open spec fn settle(order_type: OrderType, is_buy: bool, o: Order) -> Result<Settlement, ErrorCode> {
    if order_type == OrderType::FOK && o.leaves_qty != 0 {
        Err(ErrorCode::FillOrKillFailed)
    } else if order_type == OrderType::IOC && o.leaves_qty != 0 {
        Err(ErrorCode::ImmediateOrCancelError)
    } else if order_type == OrderType::MO && o.cum_qty > 0 {
        Err(ErrorCode::MakerOnlyFailed)
    } else if is_buy {
        if o.leaves_qty * o.limit + o.cum_cost > u64::MAX {
            Err(ErrorCode::OrderRejected)
        } else {
            Ok(Settlement { deposit: (o.leaves_qty * o.limit + o.cum_cost) as u64, payout: o.cum_qty })
        }
    } else {
        if o.cum_qty + o.leaves_qty > u64::MAX {
            Err(ErrorCode::OrderRejected)
        } else {
            Ok(Settlement { deposit: (o.cum_qty + o.leaves_qty) as u64, payout: o.cum_cost })
        }
    }
}

/// The handler's result given what placing the order returned.
pub open spec fn handler_result(
    order_type: OrderType,
    is_buy: bool,
    placed: Result<Order, ErrorCode>,
) -> Result<Settlement, ErrorCode> {
    match placed {
        Err(e) => Err(e),
        Ok(o) => settle(order_type, is_buy, o),
    }
}

/// The order `ix` asks for on behalf of `authority`: it pays out into the
/// account of what it buys and pays with the account of what it sells.
pub open spec fn order_for(ix: NewOrderSingleIx, authority: Key, base_acc: Key, quote_acc: Key) -> Order {
    if ix.is_buy {
        order_of(ix.limit, ix.size, authority, base_acc, quote_acc)
    } else {
        order_of(ix.limit, ix.size, authority, quote_acc, base_acc)
    }
}

/// Places the order `ix` of `authority` in the book, checks its type's
/// condition (a fill-or-kill order must be fully executed, an
/// immediate-or-cancel one must have nothing open, a maker-only one must not
/// have traded), and gives the deposit and payout that settle it. When an
/// error comes after the book changed, the instruction is rolled back.
pub fn handler(
    book: &mut Book,
    rb_filled_exec_reports: &mut RingBufferFilledExecReport,
    rb_crank: &mut RingBufferCrank,
    ix: &NewOrderSingleIx,
    authority: Key,
    base_user_token_account: Key,
    quote_user_token_account: Key,
) -> (r: Result<Settlement, ErrorCode>)
    requires
        old(book).wf(),
        old(rb_filled_exec_reports).wf(),
        old(rb_crank).wf(),
        ix.limit > 0,
        ix.size > 0,
    ensures
        final(book).wf(),
        final(rb_filled_exec_reports).wf(),
        final(rb_crank).wf(),
        exists|placed: Result<Order, ErrorCode>|
            #[trigger] Book::limit_result(
                old(book),
                final(book),
                old(rb_filled_exec_reports)@,
                final(rb_filled_exec_reports)@,
                old(rb_crank)@,
                final(rb_crank)@,
                order_for(*ix, authority, base_user_token_account, quote_user_token_account),
                ix.order_type,
                ix.is_buy,
                placed,
            ) && r == handler_result(ix.order_type, ix.is_buy, placed),
{
    let ghost b0 = *book;
    let ghost fer0 = rb_filled_exec_reports@;
    let ghost crank0 = rb_crank@;
    let recv_token_account = if ix.is_buy {
        base_user_token_account
    } else {
        quote_user_token_account
    };
    let payment_token_account = if ix.is_buy {
        quote_user_token_account
    } else {
        base_user_token_account
    };
    let placed = book.new_limit_from_nos_ix(
        ix,
        authority,
        recv_token_account,
        payment_token_account,
        rb_filled_exec_reports,
        rb_crank,
    );
    let ghost g = placed;
    proof {
        let o = order_for(*ix, authority, base_user_token_account, quote_user_token_account);
        assert(o == order_of(ix.limit, ix.size, authority, recv_token_account, payment_token_account));
        assert(Book::limit_result(
            &b0,
            book,
            fer0,
            rb_filled_exec_reports@,
            crank0,
            rb_crank@,
            o,
            ix.order_type,
            ix.is_buy,
            g,
        ));
    }
    let order = match placed {
        Err(e) => {
            return Err(e);
        },
        Ok(order) => order,
    };
    settle_order(ix.order_type, ix.is_buy, &order)
}

/// Settles an order of type `order_type` that stands as `order` after it was
/// placed: refused when its type's condition fails (`FillOrKillFailed`,
/// `ImmediateOrCancelError`, `MakerOnlyFailed`) or when the amounts overflow
/// (`OrderRejected`), else the deposit and payout it calls for.
pub fn settle_order(order_type: OrderType, is_buy: bool, order: &Order) -> (r: Result<Settlement, ErrorCode>)
    ensures
        r == settle(order_type, is_buy, *order),
{
    match order_type {
        // All good. No checks required.
        OrderType::GTC => {},
        OrderType::FOK => {
            if !order.is_filled() {
                return Err(ErrorCode::FillOrKillFailed);
            }
        },
        OrderType::IOC => {
            if order.get_leaves_qty() != 0 {
                return Err(ErrorCode::ImmediateOrCancelError);
            }
        },
        OrderType::MO => {
            if order.is_partially_filed() {
                return Err(ErrorCode::MakerOnlyFailed);
            }
        },
    }
    if is_buy {
        // user deposits quote, receives base if (partially) filled.
        let leaves_cost = match order.get_leaves_cost() {
            Some(c) => c,
            None => {
                return Err(ErrorCode::OrderRejected);
            },
        };
        let user_deposit_qty = match leaves_cost.checked_add(order.get_cum_cost()) {
            Some(d) => d,
            None => {
                return Err(ErrorCode::OrderRejected);
            },
        };
        Ok(Settlement { deposit: user_deposit_qty, payout: order.get_cum_qty() })
    } else {
        // user deposits base, receives quote for what was executed.
        let user_deposit_qty = match order.get_cum_qty().checked_add(order.get_leaves_qty()) {
            Some(d) => d,
            None => {
                return Err(ErrorCode::OrderRejected);
            },
        };
        Ok(Settlement { deposit: user_deposit_qty, payout: order.get_cum_cost() })
    }
}

/// Every order of a well-formed side can rest.
proof fn lemma_side_resting(side: &Side)
    requires
        side.wf(),
    ensures
        all_resting(side@),
{
    side.lemma_wf();
    assert forall|i: int| 0 <= i < side@.len() implies resting_ok(#[trigger] side@[i]) by {
        assert(0 <= side.slots()[i] < 2048);
    }
}

/// Law: the order types keep their promises. A fill-or-kill order that is
/// taken has executed its whole quantity; an immediate-or-cancel order keeps
/// nothing open and nothing of it rests; a maker-only order that would trade
/// at once is refused, and one that is taken has not traded and leaves the
/// other side as it was; a good-til-cancelled order rests whatever it did not
/// execute.
pub proof fn law_order_types(
    old: &Book,
    new: &Book,
    old_reports: ReportRing,
    new_reports: ReportRing,
    old_cranks: CrankRing,
    new_cranks: CrankRing,
    o: Order,
    order_type: OrderType,
    is_buy: bool,
    slot: u64,
    transact_time: i64,
    r: Order,
)
    requires
        old.wf(),
        Book::fresh_order(o),
        old.admits(o, order_type, is_buy, old_cranks),
        Book::limit_outcome(
            old,
            new,
            old_reports,
            new_reports,
            old_cranks,
            new_cranks,
            o,
            order_type,
            is_buy,
            slot,
            transact_time,
            r,
        ),
    ensures
        order_type == OrderType::FOK && settle(order_type, is_buy, r) is Ok ==> r.leaves_qty == 0
            && r.cum_qty == o.leaves_qty,
        order_type == OrderType::IOC ==> r.leaves_qty == 0 && new.own(is_buy) == old.own(is_buy),
        order_type == OrderType::MO && old.trades(o, is_buy) ==> settle(order_type, is_buy, r) == Err::<
            Settlement,
            ErrorCode,
        >(ErrorCode::MakerOnlyFailed),
        order_type == OrderType::MO && settle(order_type, is_buy, r) is Ok ==> r.cum_qty == 0
            && new.opposite(is_buy) == old.opposite(is_buy),
        order_type == OrderType::GTC && r.leaves_qty > 0 ==> new.own(is_buy) == placed(
            old.own(is_buy),
            r,
            is_buy,
        ),
{
    let opp = old.opposite(is_buy);
    lemma_side_resting(&old.asks);
    lemma_side_resting(&old.bids);
    if old.has_matches(o, is_buy) {
        lemma_match_taker(opp, o, is_buy);
        lemma_match_executes(opp, o, is_buy);
    }
}

/// Law: what one placement does, as the order types describe it. The order
/// trades against the other side best first, each trade a positive quantity,
/// no more than the resting order has open, at the resting order's price;
/// what it executed and what that cost add up over its trades. An
/// immediate-or-cancel order keeps nothing open and leaves its own side as
/// it was; any other order has executed plus open equal to what it asked
/// for, and whatever is open rests on its side. The book stays in price
/// priority and uncrossed, with its recorded best prices the real ones.
pub proof fn law_one_placement(
    old: &Book,
    new: &Book,
    old_reports: ReportRing,
    new_reports: ReportRing,
    old_cranks: CrankRing,
    new_cranks: CrankRing,
    o: Order,
    order_type: OrderType,
    is_buy: bool,
    slot: u64,
    transact_time: i64,
    r: Order,
)
    requires
        old.wf(),
        old.ordered(),
        old.exact_best(),
        Book::fresh_order(o),
        old.admits(o, order_type, is_buy, old_cranks),
        Book::limit_outcome(
            old,
            new,
            old_reports,
            new_reports,
            old_cranks,
            new_cranks,
            o,
            order_type,
            is_buy,
            slot,
            transact_time,
            r,
        ),
    ensures
        ({
            let fills = old.matched(o, is_buy).2;
            &&& forall|i: int|
                0 <= i < fills.len() ==> {
                    &&& (#[trigger] fills[i]).0 == old.opposite(is_buy)[i]
                    &&& crosses(fills[i].0.limit, o.limit, is_buy)
                    &&& 0 < fills[i].1 <= fills[i].0.leaves_qty
                }
            &&& r.cum_qty == filled_qty(fills)
            &&& r.cum_cost == filled_cost(fills)
        }),
        r.cum_qty <= o.leaves_qty,
        order_type == OrderType::IOC ==> r.leaves_qty == 0 && new.own_side(is_buy) == old.own_side(is_buy),
        order_type != OrderType::IOC ==> r.cum_qty + r.leaves_qty == o.leaves_qty && (r.leaves_qty > 0
            ==> new.own(is_buy) == placed(old.own(is_buy), r, is_buy)),
        new.ordered(),
        new.exact_best(),
{
    law_new_limit_keeps_order(
        old,
        new,
        old_reports,
        new_reports,
        old_cranks,
        new_cranks,
        o,
        order_type,
        is_buy,
        slot,
        transact_time,
        r,
    );
    law_order_types(
        old,
        new,
        old_reports,
        new_reports,
        old_cranks,
        new_cranks,
        o,
        order_type,
        is_buy,
        slot,
        transact_time,
        r,
    );
    let opp = old.opposite(is_buy);
    lemma_side_resting(&old.asks);
    lemma_side_resting(&old.bids);
    if old.has_matches(o, is_buy) {
        law_matching(opp, o, is_buy);
        lemma_match_taker(opp, o, is_buy);
    } else {
        assert(filled_qty(Seq::<(Order, u64)>::empty()) == 0);
        assert(filled_cost(Seq::<(Order, u64)>::empty()) == 0);
    }
}

/// Law: what settling a placed order moves. With `q` the quantity its
/// trades executed and `c` what they cost (at the resting orders' prices):
/// a fill-or-kill order that did not execute its whole quantity, and a
/// maker-only order that traded, are refused for their type; any other
/// order is taken. A taken sell deposits its whole quantity in base (what
/// executed, for an immediate-or-cancel order, whose rest is cancelled) and
/// is paid `c` in quote; a taken buy is paid `q` in base and deposits `c`
/// plus what is still open at its limit in quote (refused only when that
/// does not fit in a `u64`). So a fill-or-kill order executed in full is
/// never refused for its type.
pub proof fn law_settlement(
    old: &Book,
    new: &Book,
    old_reports: ReportRing,
    new_reports: ReportRing,
    old_cranks: CrankRing,
    new_cranks: CrankRing,
    o: Order,
    order_type: OrderType,
    is_buy: bool,
    slot: u64,
    transact_time: i64,
    r: Order,
)
    requires
        old.wf(),
        Book::fresh_order(o),
        old.admits(o, order_type, is_buy, old_cranks),
        Book::limit_outcome(
            old,
            new,
            old_reports,
            new_reports,
            old_cranks,
            new_cranks,
            o,
            order_type,
            is_buy,
            slot,
            transact_time,
            r,
        ),
    ensures
        ({
            let fills = old.matched(o, is_buy).2;
            let q = filled_qty(fills);
            let c = filled_cost(fills);
            let open = if order_type == OrderType::IOC {
                0int
            } else {
                o.leaves_qty - q
            };
            &&& order_type == OrderType::FOK && q < o.leaves_qty ==> settle(order_type, is_buy, r) == Err::<
                Settlement,
                ErrorCode,
            >(ErrorCode::FillOrKillFailed)
            &&& order_type == OrderType::MO && q > 0 ==> settle(order_type, is_buy, r) == Err::<
                Settlement,
                ErrorCode,
            >(ErrorCode::MakerOnlyFailed)
            &&& !(order_type == OrderType::FOK && q < o.leaves_qty) && !(order_type == OrderType::MO && q > 0)
                ==> {
                &&& !is_buy ==> settle(order_type, is_buy, r) == Ok::<Settlement, ErrorCode>(
                    Settlement { deposit: (q + open) as u64, payout: c as u64 },
                )
                &&& is_buy && c + open * o.limit <= u64::MAX ==> settle(order_type, is_buy, r) == Ok::<
                    Settlement,
                    ErrorCode,
                >(Settlement { deposit: (c + open * o.limit) as u64, payout: q as u64 })
                &&& is_buy && c + open * o.limit > u64::MAX ==> settle(order_type, is_buy, r) == Err::<
                    Settlement,
                    ErrorCode,
                >(ErrorCode::OrderRejected)
            }
        }),
{
    let opp = old.opposite(is_buy);
    lemma_side_resting(&old.asks);
    lemma_side_resting(&old.bids);
    if old.has_matches(o, is_buy) {
        law_matching(opp, o, is_buy);
        lemma_match_taker(opp, o, is_buy);
    } else {
        assert(filled_qty(Seq::<(Order, u64)>::empty()) == 0);
        assert(filled_cost(Seq::<(Order, u64)>::empty()) == 0);
    }
}

} // verus!
