use vstd::prelude::*;
use crate::account_states::crank::{
    CRANK_SIZE,
    Crank,
    CrankRing,
    lemma_ring_push_all_slots,
    RingBufferCrank,
    crank_for,
    lemma_ring_push_all_push,
    ring_push,
    ring_push_all,
    ring_room,
};
use crate::account_states::filled_exec_report::{
    FilledExecReport,
    ReportRing,
    RingBufferFilledExecReport,
    lemma_ring_with_all_push,
    report_of,
    ring_with_all,
};
use crate::account_states::order::{
    Order,
    cleared,
    fill_qty,
    maker_after,
    order_of,
    ranks_ahead,
    resting_ok,
    taker_after,
    trade_fits,
};
use crate::account_states::side::{
    Side,
    placed_slots,
    placed_vacant,
    taken_slot,
    best_limit,
    first_ahead,
    insert_index,
    lemma_first_ahead,
    max_orders,
    placed,
    placement_ok,
};
use crate::account_states::order_header::empty_header;
use crate::enums::OrderType;
use crate::errors::ErrorCode;
use crate::clock::current_clock;
use crate::instructions::new_order_single::NewOrderSingleIx;
use crate::key::{Key, zero_key};

verus! {

/// Number of order slots of each side of a book.
pub const MAX_ORDERS: u16 = 2048;

/// Whether a resting order at `resting_limit` trades with an incoming order
/// at `taker_limit`: a buyer takes asks at or below its limit, a seller takes
/// bids at or above it.
pub open spec fn crosses(resting_limit: u64, taker_limit: u64, is_buy: bool) -> bool {
    if is_buy {
        resting_limit <= taker_limit
    } else {
        resting_limit >= taker_limit
    }
}

/// The incoming `taker` matched against the resting orders `resting` (best
/// first): the resting orders left, the taker afterwards, and each trade as
/// the resting order before it and the quantity traded.
pub open spec fn match_orders(resting: Seq<Order>, taker: Order, is_buy: bool) -> (
    Seq<Order>,
    Order,
    Seq<(Order, u64)>,
)
    decreases resting.len(),
{
    if resting.len() == 0 || taker.leaves_qty == 0 || !crosses(resting[0].limit, taker.limit, is_buy) {
        (resting, taker, Seq::empty())
    } else {
        let m = resting[0];
        let q = fill_qty(m, taker);
        let t = taker_after(taker, q, m.limit);
        if maker_after(m, q).leaves_qty == 0 {
            let rec = match_orders(resting.drop_first(), t, is_buy);
            (rec.0, rec.1, seq![(m, q)] + rec.2)
        } else {
            (resting.update(0, maker_after(m, q)), t, seq![(m, q)])
        }
    }
}

/// Every trade of `match_orders` keeps its amounts within `u64`, the crank
/// amount of a buy (quantity plus price) included.
pub open spec fn match_fits(resting: Seq<Order>, taker: Order, is_buy: bool) -> bool
    decreases resting.len(),
{
    if resting.len() == 0 || taker.leaves_qty == 0 || !crosses(resting[0].limit, taker.limit, is_buy) {
        true
    } else {
        let m = resting[0];
        let q = fill_qty(m, taker);
        &&& trade_fits(m, taker)
        &&& (is_buy ==> q + m.limit <= u64::MAX)
        &&& (maker_after(m, q).leaves_qty == 0 ==> match_fits(
            resting.drop_first(),
            taker_after(taker, q, m.limit),
            is_buy,
        ))
    }
}

/// The execution reports of a run of trades by `taker_key`.
pub open spec fn reports_of(
    fills: Seq<(Order, u64)>,
    taker_key: Key,
    is_buy: bool,
    slot: u64,
    transact_time: i64,
) -> Seq<FilledExecReport> {
    fills.map_values(
        |f: (Order, u64)| report_of(f.0.maker, taker_key, f.1, f.0.limit, is_buy, slot, transact_time),
    )
}

/// The payments owed to the makers of a run of trades, out of `vault`.
pub open spec fn cranks_of(fills: Seq<(Order, u64)>, vault: Key, is_buy: bool) -> Seq<Crank> {
    fills.map_values(|f: (Order, u64)| crank_for(vault, f.0.payout_acc, is_buy, f.0.maker, f.1, f.0.limit))
}

/// The refund owed for an order pushed out of a full side.
pub open spec fn eviction_crank(vault: Key, evicted: Order, is_buy: bool) -> Crank {
    crank_for(vault, evicted.payment_acc, is_buy, evicted.maker, evicted.leaves_qty, evicted.limit)
}

/// Central Limit Order Book.
pub struct Book {
    /// Instrument the book belongs to.
    pub instrmt: Key,
    /// Best ask.
    pub ask_min: u64,
    /// Best bid.
    pub bid_max: u64,
    /// Ask side.
    pub asks: Side,
    /// Bid side.
    pub bids: Side,
}

impl Book {
    pub open spec fn wf(&self) -> bool {
        self.asks.wf() && self.bids.wf()
    }

    /// The side an incoming order of direction `is_buy` trades against.
    pub open spec fn opposite(&self, is_buy: bool) -> Seq<Order> {
        if is_buy {
            self.asks@
        } else {
            self.bids@
        }
    }

    /// The side, slots and all, an incoming order of direction `is_buy`
    /// trades against.
    pub open spec fn opposite_side(&self, is_buy: bool) -> Side {
        if is_buy {
            self.asks
        } else {
            self.bids
        }
    }

    /// The side, slots and all, an incoming order of direction `is_buy`
    /// rests on.
    pub open spec fn own_side(&self, is_buy: bool) -> Side {
        if is_buy {
            self.bids
        } else {
            self.asks
        }
    }

    /// The side an incoming order of direction `is_buy` rests on.
    pub open spec fn own(&self, is_buy: bool) -> Seq<Order> {
        if is_buy {
            self.bids@
        } else {
            self.asks@
        }
    }

    /// The incoming order looks for trades: its limit reaches the recorded
    /// best price of the opposite side.
    pub open spec fn has_matches(&self, o: Order, is_buy: bool) -> bool {
        if is_buy {
            o.limit >= self.ask_min
        } else {
            o.limit <= self.bid_max
        }
    }

    /// What matching `o` against the book gives (see `match_orders`); nothing
    /// trades when the order's limit misses the recorded best price.
    pub open spec fn matched(&self, o: Order, is_buy: bool) -> (Seq<Order>, Order, Seq<(Order, u64)>) {
        if self.has_matches(o, is_buy) {
            match_orders(self.opposite(is_buy), o, is_buy)
        } else {
            (self.opposite(is_buy), o, Seq::empty())
        }
    }

    /// After matching, what is left of `o` rests on its side.
    pub open spec fn rests(&self, o: Order, order_type: OrderType, is_buy: bool) -> bool {
        self.matched(o, is_buy).1.leaves_qty > 0 && order_type != OrderType::IOC
    }

    /// Resting what is left of `o` pushes the last order out of a full side.
    pub open spec fn evicts(&self, o: Order, order_type: OrderType, is_buy: bool) -> bool {
        self.rests(o, order_type, is_buy) && self.own(is_buy).len() == max_orders()
    }

    /// The order can be taken without running out of room or overflowing:
    /// the crank ring has room for every payment it causes, no amount leaves
    /// `u64`, and a full side has an order for it to push out.
    pub open spec fn admits(&self, o: Order, order_type: OrderType, is_buy: bool, crank: CrankRing) -> bool {
        let m = self.matched(o, is_buy);
        &&& (self.has_matches(o, is_buy) ==> match_fits(self.opposite(is_buy), o, is_buy))
        &&& (self.rests(o, order_type, is_buy) ==> placement_ok(self.own(is_buy), m.1, is_buy))
        &&& m.2.len() + (if self.evicts(o, order_type, is_buy) {
            1int
        } else {
            0int
        }) <= ring_room(crank)
        &&& (self.evicts(o, order_type, is_buy) && is_buy ==> self.own(is_buy).last().leaves_qty
            + self.own(is_buy).last().limit <= u64::MAX)
    }

    /// A new order that can be placed: priced, non-empty, untraded.
    pub open spec fn fresh_order(o: Order) -> bool {
        &&& o.limit > 0
        &&& o.leaves_qty > 0
        &&& o.cum_qty == 0
        &&& o.cum_cost == 0
    }

    /// Where the orders of `new` sit, `old` having met an order of
    /// direction `is_buy` that matched down to `rest` on the other side and
    /// stands as `t` (which `rests` or not). The orders that traded in full
    /// leave their slots, cleared, at the front of the vacant slots, the
    /// best first, and no other slot of that side but the next one (which
    /// may have traded in part) changes its order; what rests takes the slot `Side::insert_order` gives it,
    /// every other slot keeping its order; a side with nothing placed on it
    /// is left as it was.
    pub open spec fn slots_outcome(old: &Book, new: &Book, rest: Seq<Order>, t: Order, rests: bool, is_buy: bool) -> bool {
        let opp0 = old.opposite_side(is_buy);
        let opp1 = new.opposite_side(is_buy);
        let own0 = old.own_side(is_buy);
        let own1 = new.own_side(is_buy);
        let j = opp0@.len() - rest.len();
        &&& opp1.slots() == opp0.slots().skip(j)
        &&& opp1.vacant() == freed_front(opp0.slots(), j, opp0.vacant())
        &&& forall|i: int| 0 <= i < j ==> (#[trigger] opp1.orders@[opp0.slots()[i]]).order == cleared(opp0@[i])
        &&& forall|s: int|
            0 <= s < max_orders() && untouched(opp0.slots(), j, s) ==> (#[trigger] opp1.orders@[s]).order
                == opp0.orders@[s].order
        &&& rests ==> {
            &&& own1.slots() == placed_slots(own0.slots(), own0.vacant(), insert_index(own0@, t, is_buy))
            &&& own1.vacant() == placed_vacant(own0.vacant())
            &&& forall|s: int|
                0 <= s < max_orders() && s != taken_slot(own0.slots(), own0.vacant()) ==> (
                #[trigger] own1.orders@[s]).order == own0.orders@[s].order
        }
        &&& !rests ==> own1 == own0
    }

    /// `new` and the rings are what placing `o` in `old` at the given slot
    /// and time leaves, and `r` the order it returns.
    pub open spec fn limit_outcome(
        old: &Book,
        new: &Book,
        old_reports: ReportRing,
        new_reports: ReportRing,
        old_cranks: CrankRing,
        new_cranks: CrankRing,
        o: Order,
        order_type: OrderType,
        is_buy: bool,
        slot: u64,
        transact_time: i64,
        r: Order,
    ) -> bool {
        let m = old.matched(o, is_buy);
        let rest = m.0;
        let t = m.1;
        let fills = m.2;
        let rests = old.rests(o, order_type, is_buy);
        let own_after = if rests {
            placed(old.own(is_buy), t, is_buy)
        } else {
            old.own(is_buy)
        };
        let crank_vault = if is_buy {
            old.bids.vault
        } else {
            old.asks.vault
        };
        let pushed = ring_push_all(old_cranks, cranks_of(fills, crank_vault, is_buy));
        let opp_best = if rest.len() < old.opposite(is_buy).len() {
            best_limit(rest)
        } else if is_buy {
            old.ask_min
        } else {
            old.bid_max
        };
        &&& new.wf()
        &&& r == (if t.leaves_qty > 0 && order_type == OrderType::IOC {
            Order { leaves_qty: 0, ..t }
        } else {
            t
        })
        &&& new.instrmt == old.instrmt
        &&& new.asks.vault == old.asks.vault
        &&& new.bids.vault == old.bids.vault
        &&& new.opposite(is_buy) == rest
        &&& new.own(is_buy) == own_after
        &&& Book::slots_outcome(old, new, rest, t, rests, is_buy)
        &&& (is_buy ==> new.ask_min == opp_best && new.bid_max == (if rests && t.limit > old.bid_max {
            t.limit
        } else {
            old.bid_max
        }))
        &&& (!is_buy ==> new.bid_max == opp_best && new.ask_min == (if rests && (old.ask_min == 0
            || t.limit < old.ask_min) {
            t.limit
        } else {
            old.ask_min
        }))
        &&& new_reports == ring_with_all(old_reports, reports_of(fills, o.maker, is_buy, slot, transact_time))
        &&& new_cranks == (if old.evicts(o, order_type, is_buy) {
            ring_push(pushed, eviction_crank(if is_buy { old.bids.vault } else { old.asks.vault }, old.own(is_buy).last(), is_buy))
        } else {
            pushed
        })
    }
}

/// Whether a resting order at `resting_limit` trades with an incoming order
/// at `taker_limit`.
pub fn is_match(resting_limit: u64, taker_limit: u64, is_buy: bool) -> (r: bool)
    ensures
        r == crosses(resting_limit, taker_limit, is_buy),
{
    if is_buy {
        resting_limit <= taker_limit
    } else {
        resting_limit >= taker_limit
    }
}

/// What `match_orders` keeps of the incoming order: its price, owner and
/// total quantity; only quantity moves from open to executed.
pub proof fn lemma_match_taker(resting: Seq<Order>, taker: Order, is_buy: bool)
    requires
        match_fits(resting, taker, is_buy),
        taker.cum_qty + taker.leaves_qty <= u64::MAX,
    ensures
        ({
            let t = match_orders(resting, taker, is_buy).1;
            &&& t.limit == taker.limit
            &&& t.maker == taker.maker
            &&& t.cum_qty + t.leaves_qty == taker.cum_qty + taker.leaves_qty
            &&& t.leaves_qty <= taker.leaves_qty
            &&& t.cum_qty >= taker.cum_qty
        }),
    decreases resting.len(),
{
    if resting.len() == 0 || taker.leaves_qty == 0 || !crosses(resting[0].limit, taker.limit, is_buy) {
    } else {
        let m = resting[0];
        let q = fill_qty(m, taker);
        let t = taker_after(taker, q, m.limit);
        if maker_after(m, q).leaves_qty == 0 {
            lemma_match_taker(resting.drop_first(), t, is_buy);
        }
    }
}

/// The vacant slots of a side once the orders in `slots[0..j]` left it one
/// after the other, each freed slot going in front of the others.
pub open spec fn freed_front(slots: Seq<int>, j: int, vacant: Seq<int>) -> Seq<int> {
    Seq::new(j as nat, |i: int| slots[j - 1 - i]) + vacant
}

/// Slot `s` is none of `slots[0..=j]`: matching that took the first `j`
/// orders in full and at most part of the next leaves it alone.
pub open spec fn untouched(slots: Seq<int>, j: int, s: int) -> bool {
    forall|i: int| 0 <= i < slots.len() && i <= j ==> slots[i] != s
}

/// Matches `taker` against `side`, best order first, for as long as prices
/// cross and it has quantity open; each trade goes to the report ring and
/// the payment owed to its maker to the crank ring. Returns whether any
/// resting order was used up.
fn match_against(
    side: &mut Side,
    taker: &mut Order,
    is_buy: bool,
    crank_vault: Key,
    rb_filled_exec_report: &mut RingBufferFilledExecReport,
    rb_crank: &mut RingBufferCrank,
    slot: u64,
    transact_time: i64,
) -> (removed: bool)
    requires
        old(side).wf(),
        old(rb_filled_exec_report).wf(),
        old(rb_crank).wf(),
        match_fits(old(side)@, *old(taker), is_buy),
        match_orders(old(side)@, *old(taker), is_buy).2.len() <= ring_room(old(rb_crank)@),
    ensures
        final(side).wf(),
        final(side).vault == old(side).vault,
        final(side)@ == match_orders(old(side)@, *old(taker), is_buy).0,
        *final(taker) == match_orders(old(side)@, *old(taker), is_buy).1,
        ({
            let j = old(side)@.len() - final(side)@.len();
            &&& final(side).slots() == old(side).slots().skip(j)
            &&& final(side).vacant() == freed_front(old(side).slots(), j, old(side).vacant())
            &&& forall|i: int|
                0 <= i < j ==> (#[trigger] final(side).orders@[old(side).slots()[i]]).order == cleared(
                    old(side)@[i],
                )
            &&& forall|s: int|
                0 <= s < max_orders() && untouched(old(side).slots(), j, s)
                    ==> (#[trigger] final(side).orders@[s]).order == old(side).orders@[s].order
        }),
        removed == (final(side)@.len() < old(side)@.len()),
        final(rb_filled_exec_report).wf(),
        final(rb_filled_exec_report)@ == ring_with_all(
            old(rb_filled_exec_report)@,
            reports_of(
                match_orders(old(side)@, *old(taker), is_buy).2,
                old(taker).maker,
                is_buy,
                slot,
                transact_time,
            ),
        ),
        final(rb_crank).wf(),
        final(rb_crank).instrmt_grp == old(rb_crank).instrmt_grp,
        final(rb_crank)@ == ring_push_all(
            old(rb_crank)@,
            cranks_of(match_orders(old(side)@, *old(taker), is_buy).2, crank_vault, is_buy),
        ),
        ring_room(final(rb_crank)@) == ring_room(old(rb_crank)@) - match_orders(
            old(side)@,
            *old(taker),
            is_buy,
        ).2.len(),
{
    let ghost s0 = side@;
    let ghost t0 = *taker;
    let ghost m0 = match_orders(s0, t0, is_buy);
    let ghost fills = m0.2;
    let ghost reps = reports_of(fills, t0.maker, is_buy, slot, transact_time);
    let ghost cs = cranks_of(fills, crank_vault, is_buy);
    let ghost fer0 = rb_filled_exec_report@;
    let ghost crank0 = rb_crank@;
    let ghost mut done: int = 0;
    let mut removed = false;
    let ghost sl0 = side.slots();
    let ghost vac0 = side.vacant();
    let ghost ord0 = side.orders@;
    proof {
        side.lemma_wf();
        assert(sl0.skip(0) =~= sl0);
        assert(freed_front(sl0, 0, vac0) =~= vac0);
        assert forall|i: int| 0 <= i < sl0.len() implies cleared(
            (#[trigger] side.orders@[sl0[i]]).order,
        ) == cleared(s0[i]) by {}
        assert(fills.skip(0) =~= fills);
        assert(reps.take(0) =~= Seq::<FilledExecReport>::empty());
        assert(cs.take(0) =~= Seq::<Crank>::empty());
    }
    loop
        invariant
            side.wf(),
            side.vault == old(side).vault,
            rb_filled_exec_report.wf(),
            rb_crank.wf(),
            rb_crank.instrmt_grp == old(rb_crank).instrmt_grp,
            0 <= done <= fills.len(),
            fills.len() <= ring_room(crank0),
            match_orders(side@, *taker, is_buy) == (m0.0, m0.1, fills.skip(done)),
            match_fits(side@, *taker, is_buy),
            taker.maker == t0.maker,
            reps == reports_of(fills, t0.maker, is_buy, slot, transact_time),
            cs == cranks_of(fills, crank_vault, is_buy),
            rb_filled_exec_report@ == ring_with_all(fer0, reps.take(done)),
            rb_crank@ == ring_push_all(crank0, cs.take(done)),
            ring_room(rb_crank@) == ring_room(crank0) - done,
            side@.len() <= s0.len(),
            removed == (side@.len() < s0.len()),
            sl0.len() == s0.len(),
            sl0.no_duplicates(),
            forall|i: int| 0 <= i < sl0.len() ==> 0 <= #[trigger] sl0[i] < max_orders(),
            side.slots() == sl0.skip(s0.len() - side@.len()),
            side.vacant() == freed_front(sl0, s0.len() - side@.len(), vac0),
            forall|i: int|
                0 <= i < s0.len() - side@.len() ==> (#[trigger] side.orders@[sl0[i]]).order == cleared(
                    s0[i],
                ),
            forall|i: int|
                s0.len() - side@.len() <= i < s0.len() ==> cleared(
                    (#[trigger] side.orders@[sl0[i]]).order,
                ) == cleared(s0[i]),
            forall|s: int|
                0 <= s < max_orders() && untouched(sl0, s0.len() - side@.len(), s) ==> (
                #[trigger] side.orders@[s]).order == ord0[s].order,
        ensures
            done == fills.len(),
            side@ == m0.0,
            *taker == m0.1,
            side.wf(),
            side.vault == old(side).vault,
            rb_filled_exec_report.wf(),
            rb_crank.wf(),
            rb_crank.instrmt_grp == old(rb_crank).instrmt_grp,
            rb_filled_exec_report@ == ring_with_all(fer0, reps.take(done)),
            rb_crank@ == ring_push_all(crank0, cs.take(done)),
            ring_room(rb_crank@) == ring_room(crank0) - done,
            removed == (side@.len() < s0.len()),
            side.slots() == sl0.skip(s0.len() - side@.len()),
            side.vacant() == freed_front(sl0, s0.len() - side@.len(), vac0),
            forall|i: int|
                0 <= i < s0.len() - side@.len() ==> (#[trigger] side.orders@[sl0[i]]).order == cleared(
                    s0[i],
                ),
            forall|s: int|
                0 <= s < max_orders() && untouched(sl0, s0.len() - side@.len(), s) ==> (
                #[trigger] side.orders@[s]).order == ord0[s].order,
        decreases fills.len() - done,
    {
        if taker.leaves_qty == 0 || side.is_empty() {
            proof {
                assert(fills.skip(done).len() == 0);
            }
            break;
        }
        let m = side.head_order();
        if !is_match(m.limit, taker.limit, is_buy) {
            proof {
                assert(fills.skip(done).len() == 0);
            }
            break;
        }
        let ghost s1 = side@;
        let ghost t1 = *taker;
        proof {
            assert(fills.skip(done).len() > 0);
            assert(fills.skip(done)[0] == fills[done]);
            assert(fills[done] == (m, fill_qty(m, t1)));
        }
        if taker.leaves_qty >= m.leaves_qty {
            removed = true;
        }
        let ghost pre = *side;
        proof {
            pre.lemma_wf();
        }
        let rep = side.fill_best(taker, is_buy, slot, transact_time);
        proof {
            let d = s0.len() - pre@.len();
            assert(pre.slots()[0] == sl0[d]);
            assert(pre@[0] == pre.orders@[sl0[d]].order);
            assert forall|i: int| 0 <= i < d implies sl0[i] != sl0[d] by {}
            assert forall|i: int| d < i < s0.len() implies sl0[i] != sl0[d] by {}
            if side@.len() < pre@.len() {
                assert(side.slots() =~= sl0.skip(d + 1));
                assert(side.vacant() =~= freed_front(sl0, d + 1, vac0));
            }
            let d1 = s0.len() - side@.len();
            assert forall|i: int| 0 <= i < d1 implies (#[trigger] side.orders@[sl0[i]]).order == cleared(
                s0[i],
            ) by {
                if i < d {
                    assert(pre.orders@[sl0[i]].order == cleared(s0[i]));
                }
            }
            assert forall|s: int|
                0 <= s < max_orders() && untouched(sl0, d1, s) implies (#[trigger] side.orders@[s]).order
                == ord0[s].order by {
                assert(untouched(sl0, d, s));
                if d < sl0.len() {
                    assert(sl0[d] != s);
                }
            }
            assert forall|i: int| d1 <= i < s0.len() implies cleared(
                (#[trigger] side.orders@[sl0[i]]).order,
            ) == cleared(s0[i]) by {
                assert(cleared(pre.orders@[sl0[i]].order) == cleared(s0[i]));
                if i == d {
                    side.lemma_wf();
                    assert(side.slots()[0] == sl0[d]);
                    assert(side.orders@[sl0[d]].order == side@[0]);
                }
            }
        }
        rb_filled_exec_report.insert(rep);
        rb_crank.insert(crank_vault, m.payout_acc, is_buy, m.maker, rep.quantity, rep.avg_px);
        proof {
            let q = fill_qty(m, t1);
            assert(fills.skip(done + 1) =~= fills.skip(done).drop_first());
            assert(reps.take(done + 1) =~= reps.take(done).push(reps[done]));
            assert(cs.take(done + 1) =~= cs.take(done).push(cs[done]));
            lemma_ring_with_all_push(fer0, reps.take(done), reps[done]);
            lemma_ring_push_all_push(crank0, cs.take(done), cs[done]);
            if maker_after(m, q).leaves_qty != 0 {
                assert(taker.leaves_qty == 0);
                assert(fills.skip(done).len() == 1);
            }
            done = done + 1;
        }
    }
    proof {
        assert(reps.take(done) =~= reps);
        assert(cs.take(done) =~= cs);
    }
    removed
}

impl Book {
    /// An empty book with every account zero.
    pub fn new() -> (b: Book)
        ensures
            b.wf(),
            b.asks@.len() == 0,
            b.bids@.len() == 0,
            b.ask_min == 0,
            b.bid_max == 0,
            b.instrmt == zero_key(),
            b.asks.vault == zero_key(),
            b.bids.vault == zero_key(),
            b.asks.head == 0 && b.asks.tail == 0 && b.asks.spec_tombstone() == 0,
            b.bids.head == 0 && b.bids.tail == 0 && b.bids.spec_tombstone() == 0,
            forall|i: int| 0 <= i < 2048 ==> #[trigger] b.asks.orders@[i] == empty_header(),
            forall|i: int| 0 <= i < 2048 ==> #[trigger] b.bids.orders@[i] == empty_header(),
            b.ordered(),
    {
        Book { instrmt: Key::zero(), ask_min: 0, bid_max: 0, asks: Side::new(), bids: Side::new() }
    }

    /// When buying you deposit quote to create a bid.
    pub fn get_quote_vault(&self) -> (r: Key)
        ensures
            r == self.bids.vault,
    {
        self.bids.vault
    }

    pub fn set_quote_vault(&mut self, vault: Key)
        ensures
            final(self).wf() == old(self).wf(),
            final(self).bids == (Side { vault, ..old(self).bids }),
            final(self).bids@ == old(self).bids@,
            final(self).asks == old(self).asks,
            final(self).ask_min == old(self).ask_min,
            final(self).bid_max == old(self).bid_max,
            final(self).instrmt == old(self).instrmt,
    {
        self.bids.set_vault(vault);
    }

    /// When selling you deposit base to create an ask.
    pub fn get_base_vault(&self) -> (r: Key)
        ensures
            r == self.asks.vault,
    {
        self.asks.vault
    }

    pub fn set_base_vault(&mut self, vault: Key)
        ensures
            final(self).wf() == old(self).wf(),
            final(self).asks == (Side { vault, ..old(self).asks }),
            final(self).asks@ == old(self).asks@,
            final(self).bids == old(self).bids,
            final(self).ask_min == old(self).ask_min,
            final(self).bid_max == old(self).bid_max,
            final(self).instrmt == old(self).instrmt,
    {
        self.asks.set_vault(vault);
    }

    /// Process an incoming new order single, stamping its trades with the
    /// given slot and time: match it against the opposite side, then cancel
    /// what is left of an IOC order or rest it on its own side. Returns the
    /// order as it stands afterwards.
    #[verifier::spinoff_prover]
    pub fn new_limit_at(
        &mut self,
        new_order: Order,
        order_type: OrderType,
        is_buy: bool,
        rb_filled_exec_report: &mut RingBufferFilledExecReport,
        rb_crank: &mut RingBufferCrank,
        slot: u64,
        transact_time: i64,
    ) -> (r: Order)
        requires
            old(self).wf(),
            old(rb_filled_exec_report).wf(),
            old(rb_crank).wf(),
            Book::fresh_order(new_order),
            old(self).admits(new_order, order_type, is_buy, old(rb_crank)@),
        ensures
            Book::limit_outcome(
                old(self),
                final(self),
                old(rb_filled_exec_report)@,
                final(rb_filled_exec_report)@,
                old(rb_crank)@,
                final(rb_crank)@,
                new_order,
                order_type,
                is_buy,
                slot,
                transact_time,
                r,
            ),
            final(rb_filled_exec_report).wf(),
            final(rb_crank).wf(),
            final(rb_crank).instrmt_grp == old(rb_crank).instrmt_grp,
    {
        let ghost b0 = *self;
        let ghost m = b0.matched(new_order, is_buy);
        let ghost crank0 = rb_crank@;
        let ghost fer0 = rb_filled_exec_report@;
        let mut taker = new_order;
        proof {
            if b0.has_matches(new_order, is_buy) {
                lemma_match_taker(b0.opposite(is_buy), new_order, is_buy);
            }
        }
        if is_buy {
            let crank_vault = self.get_quote_vault();
            if !self.asks.is_empty() && taker.limit >= self.ask_min {
                let removed = match_against(
                    &mut self.asks,
                    &mut taker,
                    is_buy,
                    crank_vault,
                    rb_filled_exec_report,
                    rb_crank,
                    slot,
                    transact_time,
                );
                if removed {
                    self.ask_min = self.asks.best_offer();
                }
            } else {
                proof {
                    assert(m.2 =~= Seq::<(Order, u64)>::empty());
                    assert(reports_of(m.2, new_order.maker, is_buy, slot, transact_time) =~= Seq::<FilledExecReport>::empty());
                    assert(cranks_of(m.2, crank_vault, is_buy) =~= Seq::<Crank>::empty());
                    assert(b0.asks.slots().skip(0) =~= b0.asks.slots());
                    assert(freed_front(b0.asks.slots(), 0, b0.asks.vacant()) =~= b0.asks.vacant());
                }
            }
            if taker.is_filled() {
                return taker;
            }
            if order_type == OrderType::IOC {
                taker.clear_leaves_qty();
                return taker;
            }
            self.bids.insert_order(taker, is_buy, rb_crank);
            if taker.limit > self.bid_max {
                self.bid_max = taker.limit;
            }
            taker
        } else {
            let crank_vault = self.get_base_vault();
            if !self.bids.is_empty() && taker.limit <= self.bid_max {
                let removed = match_against(
                    &mut self.bids,
                    &mut taker,
                    is_buy,
                    crank_vault,
                    rb_filled_exec_report,
                    rb_crank,
                    slot,
                    transact_time,
                );
                if removed {
                    self.bid_max = self.bids.best_offer();
                }
            } else {
                proof {
                    assert(m.2 =~= Seq::<(Order, u64)>::empty());
                    assert(reports_of(m.2, new_order.maker, is_buy, slot, transact_time) =~= Seq::<FilledExecReport>::empty());
                    assert(cranks_of(m.2, crank_vault, is_buy) =~= Seq::<Crank>::empty());
                    assert(b0.bids.slots().skip(0) =~= b0.bids.slots());
                    assert(freed_front(b0.bids.slots(), 0, b0.bids.vacant()) =~= b0.bids.vacant());
                }
            }
            if taker.is_filled() {
                return taker;
            }
            if order_type == OrderType::IOC {
                taker.clear_leaves_qty();
                return taker;
            }
            self.asks.insert_order(taker, is_buy, rb_crank);
            if self.ask_min == 0 || taker.limit < self.ask_min {
                self.ask_min = taker.limit;
            }
            taker
        }
    }
}

/// `a` is priced at least as well as `b` on the side of `is_buy`.
pub open spec fn at_least_as_good(a: Order, b: Order, is_buy: bool) -> bool {
    if is_buy {
        a.limit >= b.limit
    } else {
        a.limit <= b.limit
    }
}

/// A side is in price priority: bids by falling price, asks by rising price.
pub open spec fn sorted_side(list: Seq<Order>, is_buy: bool) -> bool {
    forall|i: int, j: int| 0 <= i < j < list.len() ==> at_least_as_good(#[trigger] list[i], #[trigger] list[j], is_buy)
}

/// Every order of a side can rest.
pub open spec fn all_resting(list: Seq<Order>) -> bool {
    forall|i: int| 0 <= i < list.len() ==> resting_ok(#[trigger] list[i])
}

/// An incoming order that trades executes something: what it has executed
/// grows, and what it has not met stays where it was.
pub proof fn lemma_match_executes(resting: Seq<Order>, taker: Order, is_buy: bool)
    requires
        all_resting(resting),
        match_fits(resting, taker, is_buy),
        taker.cum_qty + taker.leaves_qty <= u64::MAX,
    ensures
        match_orders(resting, taker, is_buy).2.len() > 0 ==> match_orders(resting, taker, is_buy).1.cum_qty
            > taker.cum_qty,
        match_orders(resting, taker, is_buy).2.len() == 0 ==> match_orders(resting, taker, is_buy).0
            == resting && match_orders(resting, taker, is_buy).1 == taker,
{
    if resting.len() == 0 || taker.leaves_qty == 0 || !crosses(resting[0].limit, taker.limit, is_buy) {
    } else {
        let m = resting[0];
        let q = fill_qty(m, taker);
        let t = taker_after(taker, q, m.limit);
        assert(resting_ok(m));
        if maker_after(m, q).leaves_qty == 0 {
            lemma_match_taker(resting.drop_first(), t, is_buy);
        }
    }
}

/// What the matching leaves of a side in price order.
pub proof fn lemma_match_rest(resting: Seq<Order>, taker: Order, is_buy: bool)
    requires
        sorted_side(resting, !is_buy),
        all_resting(resting),
        match_fits(resting, taker, is_buy),
        taker.cum_qty + taker.leaves_qty <= u64::MAX,
    ensures
        ({
            let m = match_orders(resting, taker, is_buy);
            let rest = m.0;
            let t = m.1;
            &&& sorted_side(rest, !is_buy)
            &&& all_resting(rest)
            &&& rest.len() <= resting.len()
            &&& rest.len() > 0 ==> at_least_as_good(resting[0], rest[0], !is_buy)
            &&& rest.len() == resting.len() && rest.len() > 0 ==> rest[0].limit == resting[0].limit
            &&& t.leaves_qty > 0 ==> rest.len() == 0 || !crosses(rest[0].limit, t.limit, is_buy)
            &&& t.cum_qty > taker.cum_qty ==> resting.len() > 0 && crosses(resting[0].limit, taker.limit, is_buy)
            &&& m.2.len() > 0 ==> resting.len() > 0 && crosses(resting[0].limit, taker.limit, is_buy)
        }),
    decreases resting.len(),
{
    if resting.len() == 0 || taker.leaves_qty == 0 || !crosses(resting[0].limit, taker.limit, is_buy) {
    } else {
        let m = resting[0];
        let q = fill_qty(m, taker);
        let t = taker_after(taker, q, m.limit);
        if maker_after(m, q).leaves_qty == 0 {
            let d = resting.drop_first();
            assert(sorted_side(d, !is_buy)) by {
                assert forall|i: int, j: int| 0 <= i < j < d.len() implies at_least_as_good(
                    #[trigger] d[i],
                    #[trigger] d[j],
                    !is_buy,
                ) by {
                    assert(d[i] == resting[i + 1]);
                    assert(d[j] == resting[j + 1]);
                }
            }
            assert(all_resting(d)) by {
                assert forall|i: int| 0 <= i < d.len() implies resting_ok(#[trigger] d[i]) by {
                    assert(d[i] == resting[i + 1]);
                }
            }
            lemma_match_rest(d, t, is_buy);
            let rest = match_orders(d, t, is_buy).0;
            if rest.len() > 0 {
                assert(at_least_as_good(resting[0], resting[1], !is_buy));
            }
        } else {
            let rest = resting.update(0, maker_after(m, q));
            assert(sorted_side(rest, !is_buy)) by {
                assert forall|i: int, j: int| 0 <= i < j < rest.len() implies at_least_as_good(
                    #[trigger] rest[i],
                    #[trigger] rest[j],
                    !is_buy,
                ) by {
                    assert(at_least_as_good(resting[i], resting[j], !is_buy));
                }
            }
            assert(all_resting(rest)) by {
                assert forall|i: int| 0 <= i < rest.len() implies resting_ok(#[trigger] rest[i]) by {
                    assert(resting_ok(resting[i]));
                }
            }
        }
    }
}

/// Placing an order keeps a side in price priority, and the order ends up
/// behind every order priced at least as well (time priority among equal
/// prices) and ahead of every order it ranks ahead of.
pub proof fn lemma_placed_sorted(list: Seq<Order>, o: Order, is_buy: bool)
    requires
        sorted_side(list, is_buy),
        all_resting(list),
        o.limit > 0,
        placement_ok(list, o, is_buy),
        o.cum_qty > 0 ==> list.len() == 0 || ranks_ahead(o, list[0], is_buy),
    ensures
        sorted_side(placed(list, o, is_buy), is_buy),
        placed(list, o, is_buy).len() > 0,
        placed(list, o, is_buy)[0] == (if insert_index(list, o, is_buy) == 0 {
            o
        } else {
            list[0]
        }),
        insert_index(list, o, is_buy) == 0 ==> list.len() == 0 || ranks_ahead(o, list[0], is_buy),
        forall|j: int|
            0 <= j < insert_index(list, o, is_buy) ==> at_least_as_good(#[trigger] list[j], o, is_buy),
        forall|j: int|
            insert_index(list, o, is_buy) <= j < list.len() ==> ranks_ahead(o, #[trigger] list[j], is_buy),
{
    let idx = insert_index(list, o, is_buy);
    let n = list.len() as int;
    if o.cum_qty > 0 || n == 0 || ranks_ahead(o, list[0], is_buy) {
        assert(idx == 0);
    } else if !ranks_ahead(o, list.last(), is_buy) {
        assert(idx == n);
        assert forall|j: int| 0 <= j < idx implies at_least_as_good(#[trigger] list[j], o, is_buy) by {
            assert(at_least_as_good(list[j], list[n - 1], is_buy));
        }
    } else {
        lemma_first_ahead(list, o, is_buy, 0);
    }
    assert forall|j: int| 0 <= j < idx implies at_least_as_good(#[trigger] list[j], o, is_buy) by {
        assert(!ranks_ahead(o, list[j], is_buy) || idx == n);
        if idx == n && n > 0 {
            assert(at_least_as_good(list[j], list[n - 1], is_buy));
        }
    }
    assert forall|j: int| idx <= j < n implies ranks_ahead(o, #[trigger] list[j], is_buy) by {
        assert(resting_ok(list[j]));
        if idx < n {
            assert(ranks_ahead(o, list[idx], is_buy));
            assert(at_least_as_good(list[idx], list[j], is_buy));
        }
    }
    let base = if n < max_orders() {
        list
    } else {
        list.drop_last()
    };
    let p = placed(list, o, is_buy);
    assert(idx <= base.len());
    base.insert_ensures(idx, o);
    assert(forall|i: int| 0 <= i < base.len() ==> #[trigger] base[i] == list[i]);
    assert forall|i: int, j: int| 0 <= i < j < p.len() implies at_least_as_good(
        #[trigger] p[i],
        #[trigger] p[j],
        is_buy,
    ) by {
        if j < idx {
            assert(at_least_as_good(list[i], list[j], is_buy));
        } else if j == idx {
            assert(at_least_as_good(list[i], o, is_buy));
        } else if i == idx {
            assert(ranks_ahead(o, list[j - 1], is_buy));
            assert(resting_ok(list[j - 1]));
        } else if i < idx {
            assert(at_least_as_good(list[i], list[j - 1], is_buy));
        } else {
            assert(at_least_as_good(list[i - 1], list[j - 1], is_buy));
        }
    }
}

impl Book {
    /// The book is in order: each side in price priority, the best bid below
    /// the best ask, and the recorded best prices no worse than the real ones.
    pub open spec fn ordered(&self) -> bool {
        &&& sorted_side(self.asks@, false)
        &&& sorted_side(self.bids@, true)
        &&& all_resting(self.asks@)
        &&& all_resting(self.bids@)
        &&& (self.asks@.len() > 0 && self.bids@.len() > 0 ==> self.bids@[0].limit < self.asks@[0].limit)
        &&& (self.asks@.len() > 0 ==> 0 < self.ask_min <= self.asks@[0].limit)
        &&& (self.bids@.len() > 0 ==> self.bid_max >= self.bids@[0].limit)
    }
}

impl Book {
    /// The recorded best prices are the real ones (0 for an empty side).
    pub open spec fn exact_best(&self) -> bool {
        &&& self.ask_min == best_limit(self.asks@)
        &&& self.bid_max == best_limit(self.bids@)
    }
}

/// Law: placing an order keeps the book in order (price priority on both
/// sides, never crossed, best prices recorded no worse than the real ones),
/// and keeps the recorded best prices equal to the real ones when they were.
pub proof fn law_new_limit_keeps_order(
    old: &Book,
    new: &Book,
    old_reports: ReportRing,
    new_reports: ReportRing,
    old_cranks: CrankRing,
    new_cranks: CrankRing,
    o: Order,
    order_type: OrderType,
    is_buy: bool,
    slot: u64,
    transact_time: i64,
    r: Order,
)
    requires
        old.wf(),
        old.ordered(),
        Book::fresh_order(o),
        old.admits(o, order_type, is_buy, old_cranks),
        Book::limit_outcome(
            old,
            new,
            old_reports,
            new_reports,
            old_cranks,
            new_cranks,
            o,
            order_type,
            is_buy,
            slot,
            transact_time,
            r,
        ),
    ensures
        new.ordered(),
        old.exact_best() ==> new.exact_best(),
{
    let opp = old.opposite(is_buy);
    let own = old.own(is_buy);
    let m = old.matched(o, is_buy);
    let rest = m.0;
    let t = m.1;
    if old.has_matches(o, is_buy) {
        lemma_match_taker(opp, o, is_buy);
        lemma_match_rest(opp, o, is_buy);
    } else {
        // without a match nothing crosses: the recorded best price is no
        // worse than the real one
        if opp.len() > 0 {
            assert(!crosses(opp[0].limit, o.limit, is_buy));
        }
    }
    if old.rests(o, order_type, is_buy) {
        if t.cum_qty > 0 && own.len() > 0 {
            assert(crosses(opp[0].limit, o.limit, is_buy));
            assert(resting_ok(own[0]));
        }
        lemma_placed_sorted(own, t, is_buy);
        let p = placed(own, t, is_buy);
        assert(all_resting(p)) by {
            let idx = insert_index(own, t, is_buy);
            let base = if own.len() < max_orders() {
                own
            } else {
                own.drop_last()
            };
            base.insert_ensures(idx, t);
            assert forall|i: int| 0 <= i < p.len() implies resting_ok(#[trigger] p[i]) by {
                if i < idx {
                    assert(p[i] == own[i]);
                } else if i > idx {
                    assert(p[i] == own[i - 1]);
                }
            }
        }
    }
}

/// `match_orders` over a side, seen from its `i`-th order on: what the
/// walk of `Book::admits_order` tracks.
proof fn lemma_match_step(resting: Seq<Order>, taker: Order, is_buy: bool, i: int)
    requires
        0 <= i < resting.len(),
        taker.leaves_qty > 0,
        crosses(resting[i].limit, taker.limit, is_buy),
    ensures
        ({
            let s = resting.skip(i);
            let m = s[0];
            let q = fill_qty(m, taker);
            let t = taker_after(taker, q, m.limit);
            &&& m == resting[i]
            &&& match_fits(s, taker, is_buy) == (trade_fits(m, taker) && (is_buy ==> q + m.limit
                <= u64::MAX) && (maker_after(m, q).leaves_qty == 0 ==> match_fits(
                resting.skip(i + 1),
                t,
                is_buy,
            )))
            &&& maker_after(m, q).leaves_qty == 0 ==> match_orders(s, taker, is_buy).1 == match_orders(
                resting.skip(i + 1),
                t,
                is_buy,
            ).1 && match_orders(s, taker, is_buy).2.len() == 1 + match_orders(
                resting.skip(i + 1),
                t,
                is_buy,
            ).2.len()
            &&& maker_after(m, q).leaves_qty != 0 ==> match_orders(s, taker, is_buy).1 == t
                && match_orders(s, taker, is_buy).2.len() == 1
        }),
{
    let s = resting.skip(i);
    assert(s.drop_first() =~= resting.skip(i + 1));
}

impl Book {
    /// Decides `admits`: walks the opposite side as matching would, checking
    /// each trade's amounts, then checks the room the order needs.
    #[verifier::spinoff_prover]
    pub fn admits_order(
        &self,
        new_order: &Order,
        order_type: OrderType,
        is_buy: bool,
        rb_crank: &RingBufferCrank,
    ) -> (r: bool)
        requires
            self.wf(),
            rb_crank.wf(),
            Book::fresh_order(*new_order),
        ensures
            r == self.admits(*new_order, order_type, is_buy, rb_crank@),
    {
        let opp: &Side = if is_buy {
            &self.asks
        } else {
            &self.bids
        };
        let own: &Side = if is_buy {
            &self.bids
        } else {
            &self.asks
        };
        let has_matches = if is_buy {
            new_order.limit >= self.ask_min
        } else {
            new_order.limit <= self.bid_max
        };
        let ghost opp_v = opp@;
        let ghost m0 = self.matched(*new_order, is_buy);
        let mut t = *new_order;
        let mut count: usize = 0;
        let mut fits = true;
        proof {
            opp.lemma_wf();
            assert(opp_v.skip(0) =~= opp_v);
        }
        if has_matches && !opp.is_empty() {
            let mut pos = opp.head;
            let mut at_end = false;
            let ghost mut i: int = 0;
            loop
                invariant_except_break
                    fits,
                    i < opp_v.len() ==> opp.slots()[i] == pos as int,
                    at_end == (i == opp_v.len()),
                invariant
                    opp.wf(),
                    opp@ == opp_v,
                    0 <= i <= opp_v.len(),
                    pos < MAX_ORDERS,
                    count == i,
                    opp_v.len() <= max_orders(),
                    m0 == match_orders(opp_v, *new_order, is_buy),
                    match_fits(opp_v, *new_order, is_buy) == match_fits(opp_v.skip(i), t, is_buy),
                    m0.1 == match_orders(opp_v.skip(i), t, is_buy).1,
                    m0.2.len() == i + match_orders(opp_v.skip(i), t, is_buy).2.len(),
                    t.limit == new_order.limit,
                    t.maker == new_order.maker,
                    t.cum_qty + t.leaves_qty == new_order.leaves_qty,
                ensures
                    fits ==> m0.1 == t && m0.2.len() == count && match_fits(opp_v, *new_order, is_buy),
                    !fits ==> !match_fits(opp_v, *new_order, is_buy),
                    count <= max_orders(),
                decreases opp_v.len() - i,
            {
                proof {
                    opp.lemma_wf();
                }
                if at_end || t.leaves_qty == 0 {
                    break;
                }
                let m = opp.order_at(pos);
                if !is_match(m.limit, t.limit, is_buy) {
                    break;
                }
                proof {
                    lemma_match_step(opp_v, t, is_buy, i);
                    assert(resting_ok(opp_v[i]));
                }
                let q = if t.leaves_qty >= m.leaves_qty {
                    m.leaves_qty
                } else {
                    t.leaves_qty
                };
                let fits_cost = match q.checked_mul(m.limit) {
                    Some(c) => match t.cum_cost.checked_add(c) {
                        Some(_) => true,
                        None => false,
                    },
                    None => false,
                };
                let fits_crank = !is_buy || q.checked_add(m.limit).is_some();
                if !fits_cost || !fits_crank {
                    fits = false;
                    break;
                }
                t.leaves_qty = t.leaves_qty - q;
                t.cum_qty = t.cum_qty + q;
                t.cum_cost = t.cum_cost + q * m.limit;
                count = count + 1;
                let ghost i_now = i;
                proof {
                    i = i + 1;
                }
                if m.leaves_qty > q {
                    break;
                }
                match opp.next_order(pos) {
                    Some(next_pos) => {
                        pos = next_pos;
                    },
                    None => {
                        at_end = true;
                    },
                }
                proof {
                    assert(opp.slots()[i_now] == pos as int || at_end || true);
                }
            }
        }
        if !fits {
            return false;
        }
        proof {
            own.lemma_wf();
        }
        let rests = t.leaves_qty > 0 && order_type != OrderType::IOC;
        let full = own.is_full();
        if rests && full {
            let ok = t.is_partially_filed() || own.is_better_than_best(&t, is_buy) || !own.is_worse_than_worst(
                t,
                is_buy,
            );
            proof {
                if !(t.cum_qty > 0 || ranks_ahead(t, own@[0], is_buy)) && ranks_ahead(
                    t,
                    own@.last(),
                    is_buy,
                ) {
                    lemma_first_ahead(own@, t, is_buy, 0);
                    let f = first_ahead(own@, t, is_buy, 0);
                    if f == own@.len() {
                        assert(!ranks_ahead(t, own@[own@.len() - 1], is_buy));
                    }
                }
            }
            if !ok {
                return false;
            }
        }
        let evict: usize = if rests && full {
            1
        } else {
            0
        };
        let room: u32 = ((rb_crank.head as u32) + 4096 - (rb_crank.next as u32)) % 4096;
        proof {
            assert(room as int == ring_room(rb_crank@));
        }
        if (count + evict) as u64 > room as u64 {
            return false;
        }
        if rests && full && is_buy {
            let last = own.tail_order();
            if last.leaves_qty.checked_add(last.limit).is_none() {
                return false;
            }
        }
        true
    }
}

impl Book {
    /// An order that trades at least once reads the cluster clock.
    pub open spec fn trades(&self, o: Order, is_buy: bool) -> bool {
        self.matched(o, is_buy).2.len() > 0
    }

    /// What `new_limit` promises: a refused order leaves everything as it
    /// was; a rejected one is exactly one `admits` refuses; a clock failure
    /// comes only when the order would trade; a taken order is placed as
    /// `new_limit_at` places it, at the clock's slot and time.
    pub open spec fn limit_result(
        old: &Book,
        new: &Book,
        old_reports: ReportRing,
        new_reports: ReportRing,
        old_cranks: CrankRing,
        new_cranks: CrankRing,
        o: Order,
        order_type: OrderType,
        is_buy: bool,
        r: Result<Order, ErrorCode>,
    ) -> bool {
        &&& r matches Err(e) ==> {
            &&& *new == *old
            &&& new_reports == old_reports
            &&& new_cranks == old_cranks
            &&& (e == ErrorCode::OrderRejected && !old.admits(o, order_type, is_buy, old_cranks) || e
                == ErrorCode::ClockUnavailable && old.admits(o, order_type, is_buy, old_cranks)
                && old.trades(o, is_buy))
        }
        &&& (old.admits(o, order_type, is_buy, old_cranks) && !old.trades(o, is_buy) ==> r is Ok)
        &&& r matches Ok(placed_order) ==> {
            &&& old.admits(o, order_type, is_buy, old_cranks)
            &&& Book::limit_outcome_at_some_time(
                old,
                new,
                old_reports,
                new_reports,
                old_cranks,
                new_cranks,
                o,
                order_type,
                is_buy,
                placed_order,
            )
        }
    }

    /// `limit_outcome` holds for some slot and time.
    pub open spec fn limit_outcome_at_some_time(
        old: &Book,
        new: &Book,
        old_reports: ReportRing,
        new_reports: ReportRing,
        old_cranks: CrankRing,
        new_cranks: CrankRing,
        o: Order,
        order_type: OrderType,
        is_buy: bool,
        r: Order,
    ) -> bool {
        exists|slot: u64, transact_time: i64|
            #[trigger] Book::limit_outcome(
                old,
                new,
                old_reports,
                new_reports,
                old_cranks,
                new_cranks,
                o,
                order_type,
                is_buy,
                slot,
                transact_time,
                r,
            )
    }

    /// Process an incoming new order single: refuse it when `admits` does,
    /// read the cluster clock when it trades, then place it as
    /// `new_limit_at` does.
    #[verifier::spinoff_prover]
    #[verifier::rlimit(30)]
    pub fn new_limit(
        &mut self,
        new_order: Order,
        order_type: OrderType,
        is_buy: bool,
        rb_filled_exec_report: &mut RingBufferFilledExecReport,
        rb_crank: &mut RingBufferCrank,
    ) -> (r: Result<Order, ErrorCode>)
        requires
            old(self).wf(),
            old(rb_filled_exec_report).wf(),
            old(rb_crank).wf(),
            Book::fresh_order(new_order),
        ensures
            final(self).wf(),
            final(rb_filled_exec_report).wf(),
            final(rb_crank).wf(),
            final(rb_crank).instrmt_grp == old(rb_crank).instrmt_grp,
            Book::limit_result(
                old(self),
                final(self),
                old(rb_filled_exec_report)@,
                final(rb_filled_exec_report)@,
                old(rb_crank)@,
                final(rb_crank)@,
                new_order,
                order_type,
                is_buy,
                r,
            ),
    {
        if !self.admits_order(&new_order, order_type, is_buy, rb_crank) {
            return Err(ErrorCode::OrderRejected);
        }
        let ghost b0 = *self;
        let ghost fer0 = rb_filled_exec_report@;
        let ghost crank0 = rb_crank@;
        let opp: &Side = if is_buy {
            &self.asks
        } else {
            &self.bids
        };
        let has_matches = if is_buy {
            new_order.limit >= self.ask_min
        } else {
            new_order.limit <= self.bid_max
        };
        let trades = has_matches && !opp.is_empty() && is_match(
            opp.head_order().limit,
            new_order.limit,
            is_buy,
        );
        proof {
            assert(trades == b0.trades(new_order, is_buy));
        }
        if trades {
            match current_clock() {
                None => {
                    let r = Err(ErrorCode::ClockUnavailable);
                    proof {
                        assert(*self == b0);
                        assert(Book::limit_result(
                            &b0, self, fer0, rb_filled_exec_report@, crank0, rb_crank@,
                            new_order, order_type, is_buy, r,
                        ));
                    }
                    r
                },
                Some((slot, transact_time)) => {
                    let o = self.new_limit_at(
                        new_order,
                        order_type,
                        is_buy,
                        rb_filled_exec_report,
                        rb_crank,
                        slot,
                        transact_time,
                    );
                    proof {
                        assert(Book::limit_outcome(
                            &b0, self, fer0, rb_filled_exec_report@, crank0, rb_crank@,
                            new_order, order_type, is_buy, slot, transact_time, o,
                        ));
                        assert(Book::limit_result(
                            &b0, self, fer0, rb_filled_exec_report@, crank0, rb_crank@,
                            new_order, order_type, is_buy, Ok(o),
                        ));
                    }
                    Ok(o)
                },
            }
        } else {
            let o = self.new_limit_at(
                new_order,
                order_type,
                is_buy,
                rb_filled_exec_report,
                rb_crank,
                0,
                0,
            );
            proof {
                assert(Book::limit_outcome(
                    &b0, self, fer0, rb_filled_exec_report@, crank0, rb_crank@,
                    new_order, order_type, is_buy, 0, 0, o,
                ));
                assert(Book::limit_result(
                    &b0, self, fer0, rb_filled_exec_report@, crank0, rb_crank@,
                    new_order, order_type, is_buy, Ok(o),
                ));
            }
            Ok(o)
        }
    }

    /// Process an incoming new order single given as an instruction: the
    /// order is `maker`'s, pays out into `payout_acc` and was paid for out of
    /// `payment_acc`.
    pub fn new_limit_from_nos_ix(
        &mut self,
        nos: &NewOrderSingleIx,
        maker: Key,
        payout_acc: Key,
        payment_acc: Key,
        rb_filled_exec_report: &mut RingBufferFilledExecReport,
        rb_crank: &mut RingBufferCrank,
    ) -> (r: Result<Order, ErrorCode>)
        requires
            old(self).wf(),
            old(rb_filled_exec_report).wf(),
            old(rb_crank).wf(),
            nos.limit > 0,
            nos.size > 0,
        ensures
            final(self).wf(),
            final(rb_filled_exec_report).wf(),
            final(rb_crank).wf(),
            final(rb_crank).instrmt_grp == old(rb_crank).instrmt_grp,
            Book::limit_result(
                old(self),
                final(self),
                old(rb_filled_exec_report)@,
                final(rb_filled_exec_report)@,
                old(rb_crank)@,
                final(rb_crank)@,
                order_of(nos.limit, nos.size, maker, payout_acc, payment_acc),
                nos.order_type,
                nos.is_buy,
                r,
            ),
    {
        let new_order = nos.into_order(maker, payout_acc, payment_acc);
        self.new_limit(new_order, nos.order_type, nos.is_buy, rb_filled_exec_report, rb_crank)
    }
}

impl NewOrderSingleIx {
    /// A good-til-cancelled order.
    pub fn new(is_buy: bool, limit: u64, size: u64) -> (r: NewOrderSingleIx)
        ensures
            r == (NewOrderSingleIx { is_buy, limit, size, order_type: OrderType::GTC }),
    {
        NewOrderSingleIx { is_buy, limit, size, order_type: OrderType::GTC }
    }

    /// The order this instruction asks for.
    pub fn into_order(&self, maker: Key, payout_acc: Key, payment_acc: Key) -> (o: Order)
        ensures
            o == order_of(self.limit, self.size, maker, payout_acc, payment_acc),
    {
        Order::new(self.limit, self.size, maker, payout_acc, payment_acc)
    }
}

/// Total quantity of a run of trades.
pub open spec fn filled_qty(fills: Seq<(Order, u64)>) -> int
    decreases fills.len(),
{
    if fills.len() == 0 {
        0
    } else {
        fills[0].1 + filled_qty(fills.drop_first())
    }
}

/// Total cost of a run of trades, each at its resting order's limit.
pub open spec fn filled_cost(fills: Seq<(Order, u64)>) -> int
    decreases fills.len(),
{
    if fills.len() == 0 {
        0
    } else {
        fills[0].1 * fills[0].0.limit + filled_cost(fills.drop_first())
    }
}

/// Law: an incoming order trades only with resting orders whose price
/// crosses its limit, best first, each trade at the resting order's price,
/// for a positive quantity no larger than either side has open; what it
/// executes and what that costs add up over its trades.
pub proof fn law_matching(resting: Seq<Order>, taker: Order, is_buy: bool)
    requires
        all_resting(resting),
        match_fits(resting, taker, is_buy),
        taker.cum_qty + taker.leaves_qty <= u64::MAX,
    ensures
        ({
            let m = match_orders(resting, taker, is_buy);
            let fills = m.2;
            &&& fills.len() <= resting.len()
            &&& forall|i: int|
                0 <= i < fills.len() ==> {
                    &&& crosses((#[trigger] fills[i]).0.limit, taker.limit, is_buy)
                    &&& fills[i].0 == resting[i]
                    &&& 0 < fills[i].1 <= fills[i].0.leaves_qty
                }
            &&& m.1.cum_qty == taker.cum_qty + filled_qty(fills)
            &&& m.1.cum_cost == taker.cum_cost + filled_cost(fills)
            &&& m.1.leaves_qty == taker.leaves_qty - filled_qty(fills)
        }),
    decreases resting.len(),
{
    if resting.len() == 0 || taker.leaves_qty == 0 || !crosses(resting[0].limit, taker.limit, is_buy) {
        assert(filled_qty(Seq::<(Order, u64)>::empty()) == 0);
        assert(filled_cost(Seq::<(Order, u64)>::empty()) == 0);
    } else {
        let m = resting[0];
        let q = fill_qty(m, taker);
        let t = taker_after(taker, q, m.limit);
        assert(resting_ok(m));
        assert(t.cum_qty == taker.cum_qty + q);
        assert(t.cum_cost == taker.cum_cost + q * m.limit);
        assert(t.leaves_qty == taker.leaves_qty - q);
        if maker_after(m, q).leaves_qty == 0 {
            let d = resting.drop_first();
            assert(all_resting(d)) by {
                assert forall|i: int| 0 <= i < d.len() implies resting_ok(#[trigger] d[i]) by {
                    assert(d[i] == resting[i + 1]);
                }
            }
            law_matching(d, t, is_buy);
            let rec = match_orders(d, t, is_buy);
            let fills = seq![(m, q)] + rec.2;
            assert(fills.drop_first() =~= rec.2);
            assert(fills[0] == (m, q));
            assert(filled_qty(fills) == q + filled_qty(rec.2));
            assert(filled_cost(fills) == q * m.limit + filled_cost(rec.2));
            assert forall|i: int| 0 <= i < fills.len() implies {
                &&& crosses((#[trigger] fills[i]).0.limit, taker.limit, is_buy)
                &&& fills[i].0 == resting[i]
                &&& 0 < fills[i].1 <= fills[i].0.leaves_qty
            } by {
                if i > 0 {
                    assert(fills[i] == rec.2[i - 1]);
                    assert(d[i - 1] == resting[i]);
                }
            }
        } else {
            let fills = seq![(m, q)];
            assert(fills.drop_first() =~= Seq::<(Order, u64)>::empty());
            assert(filled_qty(fills.drop_first()) == 0);
            assert(filled_cost(fills.drop_first()) == 0);
            assert(filled_qty(fills) == q);
            assert(filled_cost(fills) == q * m.limit);
        }
    }
}

/// Law: each trade of a placement owes the resting order's maker a
/// payment, queued in the order of the trades in the slots right after the
/// cranks already queued: the `i`-th crank pays the maker of the `i`-th
/// resting order met, into that order's payout account (for buys and sells
/// alike), out of the vault of the incoming order's own side, the quantity
/// traded (for an incoming buy, the quantity plus the price, as the program
/// records it).
pub proof fn law_trade_cranks(
    old: &Book,
    new: &Book,
    old_reports: ReportRing,
    new_reports: ReportRing,
    old_cranks: CrankRing,
    new_cranks: CrankRing,
    o: Order,
    order_type: OrderType,
    is_buy: bool,
    slot: u64,
    transact_time: i64,
    r: Order,
)
    requires
        old.wf(),
        old_cranks.cranks.len() == CRANK_SIZE as int,
        0 <= old_cranks.next < CRANK_SIZE as int,
        Book::fresh_order(o),
        old.admits(o, order_type, is_buy, old_cranks),
        Book::limit_outcome(
            old,
            new,
            old_reports,
            new_reports,
            old_cranks,
            new_cranks,
            o,
            order_type,
            is_buy,
            slot,
            transact_time,
            r,
        ),
    ensures
        ({
            let fills = old.matched(o, is_buy).2;
            forall|i: int|
                0 <= i < fills.len() ==> {
                    let c = #[trigger] new_cranks.cranks[(old_cranks.next + i) % (CRANK_SIZE as int)];
                    &&& c.token_acc == fills[i].0.payout_acc
                    &&& c.maker == fills[i].0.maker
                    &&& c.vault == old.own_side(is_buy).vault
                    &&& c.quantity == (if is_buy {
                        (fills[i].1 + fills[i].0.limit) as u64
                    } else {
                        fills[i].1
                    })
                }
        }),
{
    let n = CRANK_SIZE as int;
    let opp = old.opposite(is_buy);
    let fills = old.matched(o, is_buy).2;
    let vault = if is_buy {
        old.bids.vault
    } else {
        old.asks.vault
    };
    if old.has_matches(o, is_buy) {
        old.asks.lemma_wf();
        old.bids.lemma_wf();
        assert(all_resting(opp)) by {
            assert forall|i: int| 0 <= i < opp.len() implies resting_ok(#[trigger] opp[i]) by {
                if is_buy {
                    assert(0 <= old.asks.slots()[i] < max_orders());
                } else {
                    assert(0 <= old.bids.slots()[i] < max_orders());
                }
            }
        }
        lemma_match_taker(opp, o, is_buy);
        law_matching(opp, o, is_buy);
    }
    assert(fills.len() <= max_orders()) by {
        if old.has_matches(o, is_buy) {
            old.asks.lemma_shape();
            old.bids.lemma_shape();
        }
    }
    let cs = cranks_of(fills, vault, is_buy);
    lemma_ring_push_all_slots(old_cranks, cs);
    let pushed = ring_push_all(old_cranks, cs);
    assert forall|i: int| 0 <= i < fills.len() implies #[trigger] new_cranks.cranks[(old_cranks.next + i) % n]
        == cs[i] by {
        assert(pushed.cranks[(old_cranks.next + i) % n] == cs[i]);
        if old.evicts(o, order_type, is_buy) {
            assert(pushed.next != (old_cranks.next + i) % n);
        }
    }
}

} // verus!
