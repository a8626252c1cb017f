use vstd::prelude::*;
use vstd::multiset::Multiset;
use crate::account_states::book::{Book, all_resting, crosses, law_new_limit_keeps_order, match_orders, sorted_side};
use crate::account_states::crank::CrankRing;
use crate::account_states::filled_exec_report::ReportRing;
use crate::account_states::order::Order;
use crate::account_states::side::{best_limit, placed};
use crate::enums::OrderType;

verus! {

/// The sides, asks then bids, after an order `o` of direction `is_buy` met
/// them: it trades against the other side (`match_orders`: best first while
/// the prices cross, each trade the smaller of the two open quantities, at
/// the resting price), and what is left open rests on its own side in price
/// then arrival order (`placed`), unless it is an immediate-or-cancel order.
pub open spec fn model_step(
    asks: Seq<Order>,
    bids: Seq<Order>,
    o: Order,
    order_type: OrderType,
    is_buy: bool,
) -> (Seq<Order>, Seq<Order>) {
    let opp = if is_buy { asks } else { bids };
    let own = if is_buy { bids } else { asks };
    let m = match_orders(opp, o, is_buy);
    let own2 = if m.1.leaves_qty > 0 && order_type != OrderType::IOC {
        placed(own, m.1, is_buy)
    } else {
        own
    };
    if is_buy {
        (m.0, own2)
    } else {
        (own2, m.0)
    }
}

/// The sides after the orders of `os` (order, type, direction) came in one
/// after the other.
pub open spec fn model_run(
    asks: Seq<Order>,
    bids: Seq<Order>,
    os: Seq<(Order, OrderType, bool)>,
) -> (Seq<Order>, Seq<Order>)
    decreases os.len(),
{
    if os.len() == 0 {
        (asks, bids)
    } else {
        let p = model_run(asks, bids, os.drop_last());
        model_step(p.0, p.1, os.last().0, os.last().1, os.last().2)
    }
}

/// `new` is what placing `o` in `old` left, the order taken and placed as
/// `Book::new_limit_at` places it, with some rings, slot and time.
pub open spec fn placement(old: &Book, new: &Book, o: Order, order_type: OrderType, is_buy: bool) -> bool {
    exists|x: (ReportRing, ReportRing, CrankRing, CrankRing, u64, i64, Order)|
        #[trigger] Book::limit_outcome(
            old,
            new,
            x.0,
            x.1,
            x.2,
            x.3,
            o,
            order_type,
            is_buy,
            x.4,
            x.5,
            x.6,
        ) && old.admits(o, order_type, is_buy, x.2)
}

/// One placement in a book in order with exact best prices follows the
/// model and keeps the book so.
proof fn lemma_model_step(old: &Book, new: &Book, o: Order, order_type: OrderType, is_buy: bool)
    requires
        old.wf(),
        old.ordered(),
        old.exact_best(),
        Book::fresh_order(o),
        placement(old, new, o, order_type, is_buy),
    ensures
        new.wf(),
        new.ordered(),
        new.exact_best(),
        (new.asks@, new.bids@) == model_step(old.asks@, old.bids@, o, order_type, is_buy),
{
    let x = choose|x: (ReportRing, ReportRing, CrankRing, CrankRing, u64, i64, Order)|
        #[trigger] Book::limit_outcome(
            old,
            new,
            x.0,
            x.1,
            x.2,
            x.3,
            o,
            order_type,
            is_buy,
            x.4,
            x.5,
            x.6,
        ) && old.admits(o, order_type, is_buy, x.2);
    law_new_limit_keeps_order(old, new, x.0, x.1, x.2, x.3, o, order_type, is_buy, x.4, x.5, x.6);
    let opp = old.opposite(is_buy);
    if !old.has_matches(o, is_buy) {
        // the recorded best price is the real one: nothing crosses
        if opp.len() > 0 {
            assert(!crosses(opp[0].limit, o.limit, is_buy));
        }
        assert(match_orders(opp, o, is_buy) == (opp, o, Seq::<(Order, u64)>::empty()));
    }
}

/// Law: the book follows the model. Along a run of books, each what placing
/// the next order of `os` in the one before left, starting from a book in
/// order whose recorded best prices are the real ones, the sides of every
/// book are what `model_run` gives for the orders placed so far.
pub proof fn law_model(books: Seq<Book>, os: Seq<(Order, OrderType, bool)>)
    requires
        books.len() == os.len() + 1,
        books[0].wf(),
        books[0].ordered(),
        books[0].exact_best(),
        forall|i: int|
            0 <= i < os.len() ==> Book::fresh_order((#[trigger] os[i]).0) && placement(
                &books[i],
                &books[i + 1],
                os[i].0,
                os[i].1,
                os[i].2,
            ),
    ensures
        forall|i: int|
            0 <= i < books.len() ==> ((#[trigger] books[i]).asks@, books[i].bids@) == model_run(
                books[0].asks@,
                books[0].bids@,
                os.take(i),
            ),
{
    assert forall|i: int| 0 <= i < books.len() implies ((#[trigger] books[i]).asks@, books[i].bids@)
        == model_run(books[0].asks@, books[0].bids@, os.take(i)) by {
        lemma_model_run(books, os, i);
    }
}

proof fn lemma_model_run(books: Seq<Book>, os: Seq<(Order, OrderType, bool)>, i: int)
    requires
        books.len() == os.len() + 1,
        books[0].wf(),
        books[0].ordered(),
        books[0].exact_best(),
        forall|k: int|
            0 <= k < os.len() ==> Book::fresh_order((#[trigger] os[k]).0) && placement(
                &books[k],
                &books[k + 1],
                os[k].0,
                os[k].1,
                os[k].2,
            ),
        0 <= i < books.len(),
    ensures
        books[i].wf(),
        books[i].ordered(),
        books[i].exact_best(),
        (books[i].asks@, books[i].bids@) == model_run(books[0].asks@, books[0].bids@, os.take(i)),
    decreases i,
{
    if i == 0 {
        assert(os.take(0) =~= Seq::<(Order, OrderType, bool)>::empty());
    } else {
        lemma_model_run(books, os, i - 1);
        let k = i - 1;
        assert(Book::fresh_order(os[k].0));
        lemma_model_step(&books[k], &books[i], os[k].0, os[k].1, os[k].2);
        assert(os.take(i).drop_last() =~= os.take(k));
        assert(os.take(i).last() == os[k]);
    }
}

/// Sells that all rest: the model's asks after the sells of `ls` (good till
/// cancelled, with no bids to meet).
pub open spec fn sells_of(ls: Seq<Order>) -> Seq<(Order, OrderType, bool)> {
    ls.map_values(|o: Order| (o, OrderType::GTC, false))
}

/// Law: sells placed in a book with no bids all rest, and the ask side is
/// then a price-sorted permutation of the asks it had and the sells placed,
/// as long as it has room for them all.
pub proof fn law_sells_rest_sorted(asks: Seq<Order>, ls: Seq<Order>)
    requires
        sorted_side(asks, false),
        all_resting(asks),
        asks.len() + ls.len() <= 2048,
        forall|i: int| 0 <= i < ls.len() ==> Book::fresh_order(#[trigger] ls[i]),
    ensures
        model_run(asks, Seq::empty(), sells_of(ls)).1 == Seq::<Order>::empty(),
        sorted_side(model_run(asks, Seq::empty(), sells_of(ls)).0, false),
        all_resting(model_run(asks, Seq::empty(), sells_of(ls)).0),
        model_run(asks, Seq::empty(), sells_of(ls)).0.to_multiset() == asks.to_multiset().add(
            ls.to_multiset(),
        ),
    decreases ls.len(),
{
    broadcast use vstd::seq_lib::group_to_multiset_ensures;

    if ls.len() == 0 {
        assert(sells_of(ls) =~= Seq::<(Order, OrderType, bool)>::empty());
        assert(ls.to_multiset() =~= Multiset::empty());
        assert(asks.to_multiset().add(Multiset::empty()) =~= asks.to_multiset());
    } else {
        let init = ls.drop_last();
        let o = ls.last();
        law_sells_rest_sorted(asks, init);
        assert(sells_of(ls).drop_last() =~= sells_of(init));
        assert(sells_of(ls).last() == (o, OrderType::GTC, false));
        let p = model_run(asks, Seq::empty(), sells_of(init));
        assert(p.1 == Seq::<Order>::empty());
        assert(match_orders(Seq::<Order>::empty(), o, false) == (Seq::<Order>::empty(), o, Seq::<(
            Order,
            u64,
        )>::empty()));
        let a = p.0;
        assert(a.len() == asks.len() + init.len()) by {
            assert(a.to_multiset().len() == a.len());
            assert(asks.to_multiset().len() == asks.len());
            assert(init.to_multiset().len() == init.len());
        }
        lemma_placed_rests(a, o);
        assert(ls =~= init.push(o));
        assert(ls.to_multiset() =~= init.to_multiset().insert(o));
        assert(asks.to_multiset().add(ls.to_multiset()) =~= asks.to_multiset().add(
            init.to_multiset(),
        ).insert(o));
    }
}

/// A sell placed on an ask side with room: the side stays price-sorted and
/// gains the order.
proof fn lemma_placed_rests(a: Seq<Order>, o: Order)
    requires
        sorted_side(a, false),
        all_resting(a),
        a.len() < 2048,
        Book::fresh_order(o),
    ensures
        sorted_side(placed(a, o, false), false),
        all_resting(placed(a, o, false)),
        placed(a, o, false).to_multiset() == a.to_multiset().insert(o),
{
    broadcast use vstd::seq_lib::group_to_multiset_ensures;

    crate::account_states::book::lemma_placed_sorted(a, o, false);
    let idx = crate::account_states::side::insert_index(a, o, false);
    crate::account_states::side::lemma_first_ahead(a, o, false, 0);
    let p = placed(a, o, false);
    a.insert_ensures(idx, o);
    assert(all_resting(p)) by {
        assert forall|i: int| 0 <= i < p.len() implies crate::account_states::order::resting_ok(#[trigger] p[i]) by {
            if i < idx {
                assert(p[i] == a[i]);
            } else if i > idx {
                assert(p[i] == a[i - 1]);
            }
        }
    }
}

} // verus!
