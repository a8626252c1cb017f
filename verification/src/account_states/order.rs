use vstd::prelude::*;
use crate::account_states::filled_exec_report::{FilledExecReport, report_of};
use crate::clock::current_clock;
use crate::errors::ErrorCode;
use crate::key::{Key, zero_key};

verus! {

/// A limit order.
#[derive(Clone, Copy, Debug)]
pub struct Order {
    /// Limit price per unit of quantity.
    pub limit: u64,
    /// Amount executed.
    pub cum_qty: u64,
    /// Cost of executed amount.
    pub cum_cost: u64,
    /// Amount open for further execution.
    pub leaves_qty: u64,
    /// Order creator.
    pub maker: Key,
    /// Token account to receive the funds from an executed trade.
    pub payout_acc: Key,
    /// Token account for the deposit required to place an order.
    pub payment_acc: Key,
}

/// A fresh order of `qty` at `limit`.
pub open spec fn order_of(limit: u64, qty: u64, maker: Key, payout_acc: Key, payment_acc: Key) -> Order {
    Order { limit, cum_qty: 0, cum_cost: 0, leaves_qty: qty, maker, payout_acc, payment_acc }
}

/// An order that can rest in a book: it has a price, something left to
/// execute, and its total quantity fits in a `u64`.
pub open spec fn resting_ok(o: Order) -> bool {
    &&& o.limit > 0
    &&& o.leaves_qty > 0
    &&& o.cum_qty + o.leaves_qty <= u64::MAX
}

/// `a` ranks strictly ahead of `b` on the side of `is_buy` (a higher bid, a
/// lower ask); anything ranks ahead of an empty slot (limit 0).
pub open spec fn ranks_ahead(a: Order, b: Order, is_buy: bool) -> bool {
    b.limit == 0 || (if is_buy { a.limit > b.limit } else { a.limit < b.limit })
}

/// Quantity that trades when `taker` meets `maker`.
pub open spec fn fill_qty(maker: Order, taker: Order) -> u64 {
    if taker.leaves_qty >= maker.leaves_qty { maker.leaves_qty } else { taker.leaves_qty }
}

/// The resting order after `q` of it traded.
pub open spec fn maker_after(maker: Order, q: u64) -> Order {
    Order { cum_qty: (maker.cum_qty + q) as u64, leaves_qty: (maker.leaves_qty - q) as u64, ..maker }
}

/// The incoming order after `q` of it traded at `price`.
pub open spec fn taker_after(taker: Order, q: u64, price: u64) -> Order {
    Order {
        cum_qty: (taker.cum_qty + q) as u64,
        cum_cost: (taker.cum_cost + q * price) as u64,
        leaves_qty: (taker.leaves_qty - q) as u64,
        ..taker
    }
}

/// A trade of `taker` against `maker` keeps every amount within `u64`.
pub open spec fn trade_fits(maker: Order, taker: Order) -> bool {
    let q = fill_qty(maker, taker);
    &&& maker.cum_qty + q <= u64::MAX
    &&& taker.cum_qty + q <= u64::MAX
    &&& taker.cum_cost + q * maker.limit <= u64::MAX
}

/// An order slot with nothing in it: `clear` leaves this behind.
pub open spec fn cleared(o: Order) -> Order {
    Order {
        limit: 0,
        cum_qty: 0,
        leaves_qty: 0,
        maker: zero_key(),
        payout_acc: zero_key(),
        payment_acc: zero_key(),
        ..o
    }
}

impl Order {
    /// A fresh order with every account zero.
    pub fn new_test(limit: u64, qty: u64) -> (o: Order)
        ensures
            o == order_of(limit, qty, zero_key(), zero_key(), zero_key()),
    {
        Order {
            limit: limit,
            cum_qty: 0,
            cum_cost: 0,
            leaves_qty: qty,
            maker: Key::zero(),
            payout_acc: Key::zero(),
            payment_acc: Key::zero(),
        }
    }

    /// Used for IOC orders as we don't want an order with a leaves qty after
    /// trade execution.
    pub fn clear_leaves_qty(&mut self)
        ensures
            *final(self) == (Order { leaves_qty: 0, ..*old(self) }),
    {
        self.leaves_qty = 0;
    }

    pub fn get_cum_cost(&self) -> (r: u64)
        ensures
            r == self.cum_cost,
    {
        self.cum_cost
    }

    /// What the open quantity costs at the limit price, if that fits in a `u64`.
    pub fn get_leaves_cost(&self) -> (r: Option<u64>)
        ensures
            r == (if self.leaves_qty * self.limit <= u64::MAX {
                Some((self.leaves_qty * self.limit) as u64)
            } else {
                None::<u64>
            }),
    {
        self.leaves_qty.checked_mul(self.limit)
    }

    pub fn new(limit: u64, qty: u64, maker: Key, payout_acc: Key, payment_acc: Key) -> (o: Order)
        ensures
            o == order_of(limit, qty, maker, payout_acc, payment_acc),
    {
        Order { limit: limit, cum_qty: 0, cum_cost: 0, leaves_qty: qty, maker, payout_acc, payment_acc }
    }

    /// Empties the order: price, quantities and accounts go to zero (the
    /// executed cost is left as it was).
    pub fn clear(&mut self)
        ensures
            *final(self) == cleared(*old(self)),
    {
        self.limit = 0;
        self.cum_qty = 0;
        self.leaves_qty = 0;
        self.maker = Key::zero();
        self.payout_acc = Key::zero();
        self.payment_acc = Key::zero();
    }

    pub fn get_leaves_qty(&self) -> (r: u64)
        ensures
            r == self.leaves_qty,
    {
        self.leaves_qty
    }

    pub fn get_cum_qty(&self) -> (r: u64)
        ensures
            r == self.cum_qty,
    {
        self.cum_qty
    }

    pub fn is_partially_filed(&self) -> (r: bool)
        ensures
            r == (self.cum_qty > 0),
    {
        self.cum_qty > 0
    }

    pub fn is_filled(&self) -> (r: bool)
        ensures
            r == (self.leaves_qty == 0),
    {
        self.leaves_qty == 0
    }

    /// Whether this order ranks strictly ahead of `other` on the side of `is_buy`.
    pub fn is_better_than(&self, other: &Order, is_buy: bool) -> (r: bool)
        ensures
            r == ranks_ahead(*self, *other, is_buy),
    {
        if other.limit == 0 {
            return true;
        }
        if is_buy {
            self.limit > other.limit
        } else {
            self.limit < other.limit
        }
    }

    /// This resting order trades with the incoming `new_order` at this
    /// order's limit, for as much as both have open; the report carries the
    /// given slot and time.
    pub fn execute_trade_at(
        &mut self,
        new_order: &mut Order,
        is_buy: bool,
        slot: u64,
        transact_time: i64,
    ) -> (r: FilledExecReport)
        requires
            trade_fits(*old(self), *old(new_order)),
        ensures
            *final(self) == maker_after(*old(self), fill_qty(*old(self), *old(new_order))),
            *final(new_order) == taker_after(
                *old(new_order),
                fill_qty(*old(self), *old(new_order)),
                old(self).limit,
            ),
            r == report_of(
                old(self).maker,
                old(new_order).maker,
                fill_qty(*old(self), *old(new_order)),
                old(self).limit,
                is_buy,
                slot,
                transact_time,
            ),
    {
        let match_qty;
        if new_order.leaves_qty >= self.leaves_qty {
            match_qty = self.leaves_qty;
        } else {
            match_qty = new_order.leaves_qty;
        }
        self.cum_qty = self.cum_qty + match_qty;
        self.leaves_qty = self.leaves_qty - match_qty;

        new_order.leaves_qty = new_order.leaves_qty - match_qty;
        new_order.cum_qty = new_order.cum_qty + match_qty;
        new_order.cum_cost = new_order.cum_cost + match_qty * self.limit;
        FilledExecReport::new(
            self.maker,
            new_order.maker,
            match_qty,
            self.limit,
            is_buy,
            slot,
            transact_time,
        )
    }

    /// Existing order matches with a new incoming order; the report is stamped
    /// with the cluster clock. Where the clock cannot be read the quantities
    /// have moved all the same and `ClockUnavailable` is returned.
    pub fn execute_trade(&mut self, new_order: &mut Order, is_buy: bool) -> (r: Result<
        FilledExecReport,
        ErrorCode,
    >)
        requires
            trade_fits(*old(self), *old(new_order)),
        ensures
            *final(self) == maker_after(*old(self), fill_qty(*old(self), *old(new_order))),
            *final(new_order) == taker_after(
                *old(new_order),
                fill_qty(*old(self), *old(new_order)),
                old(self).limit,
            ),
            r matches Err(e) ==> e == ErrorCode::ClockUnavailable,
            r matches Ok(rep) ==> {
                &&& rep.maker == old(self).maker
                &&& rep.taker == old(new_order).maker
                &&& rep.quantity == fill_qty(*old(self), *old(new_order))
                &&& rep.avg_px == old(self).limit
                &&& rep.side == (if is_buy { 0u8 } else { 1u8 })
            },
    {
        let maker = *self;
        let taker = *new_order;
        let rep = self.execute_trade_at(new_order, is_buy, 0, 0);
        match current_clock() {
            None => Err(ErrorCode::ClockUnavailable),
            Some((slot, transact_time)) => Ok(
                FilledExecReport::new(
                    maker.maker,
                    taker.maker,
                    rep.quantity,
                    maker.limit,
                    is_buy,
                    slot,
                    transact_time,
                ),
            ),
        }
    }

    pub fn is_tombstone(&self) -> (r: bool)
        ensures
            r == (self.leaves_qty == 0),
    {
        self.leaves_qty == 0
    }

    /// Account space of one order.
    pub fn space() -> (r: usize)
        ensures
            r == 72,
    {
        8 + (8 * 4) + 32
    }
}

} // verus!
