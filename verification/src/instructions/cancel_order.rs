use vstd::prelude::*;
use crate::account_states::book::{Book, MAX_ORDERS, all_resting, sorted_side};
use crate::account_states::crank::{RingBufferCrank, crank_for, ring_push, ring_room};
use crate::account_states::order::{Order, cleared};
use crate::account_states::side::Side;
use crate::errors::ErrorCode;
use crate::key::Key;

verus! {

/// Cancel the order in slot `order_pos` of the bids (`is_buy`) or the asks.
#[derive(Clone, Copy, Debug)]
pub struct CancelOrderIx {
    pub order_pos: u16,
    pub is_buy: bool,
}

/// The side a cancellation addresses.
pub open spec fn side_of(book: &Book, is_buy: bool) -> &Side {
    if is_buy {
        &book.bids
    } else {
        &book.asks
    }
}

/// The order in slot `pos` of a side.
pub open spec fn order_in(side: &Side, pos: int) -> Order {
    side.orders@[pos].order
}

/// Removing an order keeps a side in price priority.
pub proof fn lemma_remove_sorted(list: Seq<Order>, i: int, is_buy: bool)
    requires
        sorted_side(list, is_buy),
        all_resting(list),
        0 <= i < list.len(),
    ensures
        sorted_side(list.remove(i), is_buy),
        all_resting(list.remove(i)),
        list.remove(i).len() > 0 ==> crate::account_states::book::at_least_as_good(
            list[0],
            list.remove(i)[0],
            is_buy,
        ),
{
    let r = list.remove(i);
    list.remove_ensures(i);
    assert forall|a: int, b: int| 0 <= a < b < r.len() implies crate::account_states::book::at_least_as_good(
        #[trigger] r[a],
        #[trigger] r[b],
        is_buy,
    ) by {
        let oa = if a < i { a } else { a + 1 };
        let ob = if b < i { b } else { b + 1 };
        assert(r[a] == list[oa]);
        assert(r[b] == list[ob]);
    }
    assert forall|a: int| 0 <= a < r.len() implies crate::account_states::order::resting_ok(#[trigger] r[a]) by {
        let oa = if a < i { a } else { a + 1 };
        assert(r[a] == list[oa]);
    }
    if r.len() > 0 {
        let o0 = if 0 < i { 0int } else { 1int };
        assert(r[0] == list[o0]);
    }
}

/// Cancels the order in slot `ix.order_pos` on behalf of `authority`: the
/// slot must hold an order (`TombstoneOrder`) and `authority` must have made
/// it (`UnauthorizedOrderCancellation`); then the order leaves its side and
/// the refund of what it left open is owed to it through the crank ring.
/// Refusals change nothing.
pub fn handler(book: &mut Book, rb_crank: &mut RingBufferCrank, authority: Key, ix: &CancelOrderIx) -> (r: Result<
    (),
    ErrorCode,
>)
    requires
        old(book).wf(),
        old(rb_crank).wf(),
        ix.order_pos < MAX_ORDERS,
        side_of(old(book), ix.is_buy).slots().contains(ix.order_pos as int) && order_in(
            side_of(old(book), ix.is_buy),
            ix.order_pos as int,
        ).maker == authority ==> ring_room(old(rb_crank)@) > 0 && (ix.is_buy ==> order_in(
            side_of(old(book), ix.is_buy),
            ix.order_pos as int,
        ).leaves_qty + order_in(side_of(old(book), ix.is_buy), ix.order_pos as int).limit <= u64::MAX),
    ensures
        final(book).wf(),
        final(rb_crank).wf(),
        !side_of(old(book), ix.is_buy).slots().contains(ix.order_pos as int) ==> r == Err::<(), ErrorCode>(
            ErrorCode::TombstoneOrder,
        ),
        side_of(old(book), ix.is_buy).slots().contains(ix.order_pos as int) && order_in(
            side_of(old(book), ix.is_buy),
            ix.order_pos as int,
        ).maker != authority ==> r == Err::<(), ErrorCode>(ErrorCode::UnauthorizedOrderCancellation),
        side_of(old(book), ix.is_buy).slots().contains(ix.order_pos as int) && order_in(
            side_of(old(book), ix.is_buy),
            ix.order_pos as int,
        ).maker == authority ==> r is Ok,
        r is Err ==> *final(book) == *old(book) && *final(rb_crank) == *old(rb_crank),
        r is Ok ==> {
            let side0 = side_of(old(book), ix.is_buy);
            let o = order_in(side0, ix.order_pos as int);
            &&& side0.slots().contains(ix.order_pos as int)
            &&& o.maker == authority
            &&& final(book).ask_min == old(book).ask_min
            &&& final(book).bid_max == old(book).bid_max
            &&& final(book).instrmt == old(book).instrmt
            &&& side_of(final(book), !ix.is_buy) == side_of(old(book), !ix.is_buy)
            &&& side_of(final(book), ix.is_buy).vault == side0.vault
            &&& forall|i: int|
                0 <= i < side0.slots().len() && #[trigger] side0.slots()[i] == ix.order_pos as int
                    ==> side_of(final(book), ix.is_buy)@ == side0@.remove(i) && side_of(
                    final(book),
                    ix.is_buy,
                ).slots() == side0.slots().remove(i)
            &&& side_of(final(book), ix.is_buy).vacant() == seq![ix.order_pos as int] + side0.vacant()
            &&& side_of(final(book), ix.is_buy).spec_tombstone() == ix.order_pos
            &&& side_of(final(book), ix.is_buy).orders@[ix.order_pos as int].order == cleared(o)
            &&& forall|s: int|
                0 <= s < MAX_ORDERS && s != ix.order_pos ==> (#[trigger] side_of(
                    final(book),
                    ix.is_buy,
                ).orders@[s]).order == side0.orders@[s].order
            &&& final(rb_crank).instrmt_grp == old(rb_crank).instrmt_grp
            &&& final(rb_crank)@ == ring_push(
                old(rb_crank)@,
                crank_for(side0.vault, o.payment_acc, ix.is_buy, o.maker, o.leaves_qty, o.limit),
            )
        },
        old(book).ordered() ==> final(book).ordered(),
{
    let ghost b0 = *book;
    let is_buy = ix.is_buy;
    let pos = ix.order_pos;
    let side: &Side = if is_buy {
        &book.bids
    } else {
        &book.asks
    };
    if side.is_tombstone(pos) {
        return Err(ErrorCode::TombstoneOrder);
    }
    let order = side.order_at(pos);
    if order.maker != authority {
        return Err(ErrorCode::UnauthorizedOrderCancellation);
    }
    let vault = side.vault;
    let removed = if is_buy {
        book.bids.remove_order(pos)
    } else {
        book.asks.remove_order(pos)
    };
    proof {
        let s0 = side_of(&b0, is_buy);
        s0.lemma_wf();
        let i = choose|i: int| 0 <= i < s0.slots().len() && s0.slots()[i] == pos as int;
        assert(removed == s0@[i]);
        assert(removed == order);
        if b0.ordered() {
            if is_buy {
                lemma_remove_sorted(b0.bids@, i, true);
            } else {
                lemma_remove_sorted(b0.asks@, i, false);
            }
        }
    }
    rb_crank.insert(vault, removed.payment_acc, is_buy, removed.maker, removed.leaves_qty, removed.limit);
    Ok(())
}

} // verus!
