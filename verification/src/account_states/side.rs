use vstd::prelude::*;
use crate::account_states::book::MAX_ORDERS;
use crate::account_states::crank::{RingBufferCrank, crank_for, ring_push, ring_room};
use crate::account_states::filled_exec_report::{FilledExecReport, report_of};
use crate::account_states::order::{
    Order,
    cleared,
    fill_qty,
    maker_after,
    ranks_ahead,
    resting_ok,
    taker_after,
    trade_fits,
};
use crate::account_states::order_header::{OrderHeader, empty_header};
use crate::key::{Key, zero_key};

verus! {

/// Number of slots of a side, as an `int`.
pub open spec fn max_orders() -> int {
    2048
}

/// A slot that holds no order.
pub open spec fn slot_clear(o: Order) -> bool {
    o.leaves_qty == 0 && o.limit == 0
}

/// The slots after slot `i`'s successor became `n`.
pub open spec fn with_next(s: Seq<OrderHeader>, i: int, n: u16) -> Seq<OrderHeader> {
    s.update(i, OrderHeader { next: n, ..s[i] })
}

/// The slots after slot `i`'s predecessor became `p`.
pub open spec fn with_prev(s: Seq<OrderHeader>, i: int, p: u16) -> Seq<OrderHeader> {
    s.update(i, OrderHeader { prev: p, ..s[i] })
}

/// The value the free-slot pointer takes once slot `t` has been handed out:
/// the next free slot that `t` links to, or the slot above `t` when `t` was
/// never used.
pub open spec fn tombstone_after(orders: Seq<OrderHeader>, t: int) -> int {
    let n = orders[t].next as int;
    if t == n {
        t + 1
    } else if n >= max_orders() {
        max_orders()
    } else if orders[n].order.leaves_qty == 0 {
        n
    } else {
        t + 1
    }
}

/// Where a new order goes in a side whose orders, best first, are `list`: at
/// the front when it already traded or ranks ahead of the best, at the back
/// when it does not rank ahead of the last, else before the first order it
/// ranks ahead of (so after every order at an equal or better price).
pub open spec fn insert_index(list: Seq<Order>, o: Order, is_buy: bool) -> int {
    if o.cum_qty > 0 || list.len() == 0 || ranks_ahead(o, list[0], is_buy) {
        0
    } else if !ranks_ahead(o, list.last(), is_buy) {
        list.len() as int
    } else {
        first_ahead(list, o, is_buy, 0)
    }
}

/// The first index at or after `i` whose order `o` ranks ahead of, or the
/// length of `list` when there is none.
pub open spec fn first_ahead(list: Seq<Order>, o: Order, is_buy: bool, i: int) -> int
    decreases list.len() - i,
{
    if i < 0 || i >= list.len() {
        list.len() as int
    } else if ranks_ahead(o, list[i], is_buy) {
        i
    } else {
        first_ahead(list, o, is_buy, i + 1)
    }
}

/// `o` can be placed in `list`: there is room, or it ranks ahead of the last
/// order, which then gives way.
pub open spec fn placement_ok(list: Seq<Order>, o: Order, is_buy: bool) -> bool {
    list.len() < max_orders() || insert_index(list, o, is_buy) < list.len()
}

/// The orders of a side after `o` was placed: inserted at its index, the
/// last order dropped when the side was full.
pub open spec fn placed(list: Seq<Order>, o: Order, is_buy: bool) -> Seq<Order> {
    if list.len() < max_orders() {
        list.insert(insert_index(list, o, is_buy), o)
    } else {
        list.drop_last().insert(insert_index(list, o, is_buy), o)
    }
}

/// The slot that receives a placed order: the first vacant slot, or, on a
/// full side, the slot the last order gives up.
pub open spec fn taken_slot(slots: Seq<int>, vacant: Seq<int>) -> int {
    if vacant.len() > 0 {
        vacant[0]
    } else {
        slots.last()
    }
}

/// The slots of a side's orders, best first, after an order was placed at
/// index `idx` (in `taken_slot`, the last order dropped on a full side).
pub open spec fn placed_slots(slots: Seq<int>, vacant: Seq<int>, idx: int) -> Seq<int> {
    if vacant.len() > 0 {
        slots.insert(idx, vacant[0])
    } else {
        slots.drop_last().insert(idx, slots.last())
    }
}

/// The vacant slots of a side after an order was placed.
pub open spec fn placed_vacant(vacant: Seq<int>) -> Seq<int> {
    if vacant.len() > 0 {
        vacant.drop_first()
    } else {
        vacant
    }
}

/// The limit of the best order, 0 for an empty side.
pub open spec fn best_limit(list: Seq<Order>) -> u64 {
    if list.len() > 0 {
        list[0].limit
    } else {
        0
    }
}

pub proof fn lemma_first_ahead(list: Seq<Order>, o: Order, is_buy: bool, i: int)
    requires
        0 <= i <= list.len(),
    ensures
        i <= first_ahead(list, o, is_buy, i) <= list.len(),
        forall|j: int| i <= j < first_ahead(list, o, is_buy, i) ==> !ranks_ahead(o, #[trigger] list[j], is_buy),
        first_ahead(list, o, is_buy, i) < list.len() ==> ranks_ahead(
            o,
            list[first_ahead(list, o, is_buy, i)],
            is_buy,
        ),
    decreases list.len() - i,
{
    if i < list.len() && !ranks_ahead(o, list[i], is_buy) {
        lemma_first_ahead(list, o, is_buy, i + 1);
    }
}

/// The slot bookkeeping: resting slots and free slots are distinct, below
/// the ladder, and together with the reserved slot `r` (if `r >= 0`) they are
/// every slot below it.
spec fn seqs_ok(live: Seq<int>, free: Seq<int>, k: int, r: int) -> bool {
    &&& 0 <= k <= max_orders()
    &&& live.len() + free.len() + (if r >= 0 { 1int } else { 0int }) == k
    &&& live.no_duplicates()
    &&& free.no_duplicates()
    &&& (forall|i: int| 0 <= i < live.len() ==> 0 <= #[trigger] live[i] < k && live[i] != r)
    &&& (forall|i: int| 0 <= i < free.len() ==> 0 <= #[trigger] free[i] < k && free[i] != r)
    &&& (forall|i: int, j: int|
        0 <= i < live.len() && 0 <= j < free.len() ==> #[trigger] live[i] != #[trigger] free[j])
    &&& (r >= 0 ==> r < k)
    &&& (forall|s: int| 0 <= s < k ==> #[trigger] live.contains(s) || free.contains(s) || s == r)
}

/// Free slots are empty and chained in order, the last one to the ladder.
spec fn free_ok(o: Seq<OrderHeader>, free: Seq<int>, k: int) -> bool {
    &&& (forall|i: int|
        0 <= i < free.len() ==> (#[trigger] o[free[i]]).next as int == (if i + 1 < free.len() {
            free[i + 1]
        } else {
            k
        }))
    &&& (forall|i: int| 0 <= i < free.len() ==> slot_clear((#[trigger] o[free[i]]).order))
}

/// Slots at and above the ladder have never been touched.
spec fn fresh_ok(o: Seq<OrderHeader>, k: int) -> bool {
    forall|s: int| k <= s < max_orders() ==> slot_clear((#[trigger] o[s]).order) && o[s].next == 0
}

/// The resting slots are doubly linked in order; the head is its own
/// predecessor and the tail its own successor.
spec fn links_ok(o: Seq<OrderHeader>, live: Seq<int>) -> bool {
    &&& (forall|i: int|
        0 <= i < live.len() ==> (#[trigger] o[live[i]]).next as int == (if i + 1 < live.len() {
            live[i + 1]
        } else {
            live[i]
        }))
    &&& (forall|i: int|
        0 <= i < live.len() ==> (#[trigger] o[live[i]]).prev as int == (if i > 0 {
            live[i - 1]
        } else {
            live[i]
        }))
}

/// Every resting slot holds an order that can rest.
spec fn resting_all(o: Seq<OrderHeader>, live: Seq<int>) -> bool {
    forall|i: int| 0 <= i < live.len() ==> resting_ok((#[trigger] o[live[i]]).order)
}

/// Head and tail name the ends of the list; on an empty list they both name
/// slot `e`.
spec fn ends_ok(head: int, tail: int, live: Seq<int>, e: int) -> bool {
    &&& (live.len() == 0 ==> head == tail && head == e)
    &&& (live.len() > 0 ==> head == live[0] && tail == live.last())
}

proof fn lemma_seqs_remove(live: Seq<int>, free: Seq<int>, k: int, idx: int)
    requires
        seqs_ok(live, free, k, -1),
        0 <= idx < live.len(),
    ensures
        seqs_ok(live.remove(idx), seq![live[idx]] + free, k, -1),
{
    let nlive = live.remove(idx);
    let nfree = seq![live[idx]] + free;
    live.remove_ensures(idx);
    assert forall|i: int, j: int| 0 <= i < j < nlive.len() implies nlive[i] != nlive[j] by {
        let oi = if i < idx { i } else { i + 1 };
        let oj = if j < idx { j } else { j + 1 };
        assert(nlive[i] == live[oi]);
        assert(nlive[j] == live[oj]);
    }
    assert(nlive.no_duplicates());
    assert forall|i: int, j: int| 0 <= i < j < nfree.len() implies nfree[i] != nfree[j] by {
        if i == 0 {
            assert(nfree[j] == free[j - 1]);
            assert(live[idx] != free[j - 1]);
        } else {
            assert(nfree[i] == free[i - 1]);
            assert(nfree[j] == free[j - 1]);
        }
    }
    assert(nfree.no_duplicates());
    assert forall|i: int| 0 <= i < nlive.len() implies 0 <= #[trigger] nlive[i] < k && nlive[i] != -1 by {
        if i < idx {
            assert(nlive[i] == live[i]);
        } else {
            assert(nlive[i] == live[i + 1]);
        }
    }
    assert forall|i: int| 0 <= i < nfree.len() implies 0 <= #[trigger] nfree[i] < k && nfree[i] != -1 by {
        if i > 0 {
            assert(nfree[i] == free[i - 1]);
        }
    }
    assert forall|i: int, j: int|
        0 <= i < nlive.len() && 0 <= j < nfree.len() implies #[trigger] nlive[i] != #[trigger] nfree[j] by {
        let oi = if i < idx { i } else { i + 1 };
        assert(nlive[i] == live[oi]);
        if j == 0 {
            assert(oi != idx);
        } else {
            assert(nfree[j] == free[j - 1]);
        }
    }
    assert forall|s: int| 0 <= s < k implies #[trigger] nlive.contains(s) || nfree.contains(s) || s == -1 by {
        if s == live[idx] {
            assert(nfree[0] == s);
        } else if live.contains(s) {
            let i = choose|i: int| 0 <= i < live.len() && live[i] == s;
            if i < idx {
                assert(nlive[i] == s);
            } else {
                assert(nlive[i - 1] == s);
            }
        } else {
            assert(free.contains(s));
            let j = choose|j: int| 0 <= j < free.len() && free[j] == s;
            assert(nfree[j + 1] == s);
        }
    }
}

proof fn lemma_seqs_take_free(live: Seq<int>, free: Seq<int>, k: int)
    requires
        seqs_ok(live, free, k, -1),
        free.len() > 0,
    ensures
        seqs_ok(live, free.drop_first(), k, free[0]),
{
    let nfree = free.drop_first();
    assert forall|i: int, j: int| 0 <= i < j < nfree.len() implies nfree[i] != nfree[j] by {
        assert(nfree[i] == free[i + 1]);
        assert(nfree[j] == free[j + 1]);
    }
    assert forall|i: int| 0 <= i < live.len() implies 0 <= #[trigger] live[i] < k && live[i] != free[0] by {
        assert(live[i] != free[0]);
    }
    assert forall|i: int| 0 <= i < nfree.len() implies 0 <= #[trigger] nfree[i] < k && nfree[i] != free[0] by {
        assert(nfree[i] == free[i + 1]);
    }
    assert forall|i: int, j: int|
        0 <= i < live.len() && 0 <= j < nfree.len() implies #[trigger] live[i] != #[trigger] nfree[j] by {
        assert(nfree[j] == free[j + 1]);
    }
    assert forall|s: int| 0 <= s < k implies #[trigger] live.contains(s) || nfree.contains(s) || s == free[0] by {
        if !live.contains(s) && s != free[0] {
            assert(free.contains(s));
            let j = choose|j: int| 0 <= j < free.len() && free[j] == s;
            assert(nfree[j - 1] == s);
        }
    }
}

proof fn lemma_seqs_take_fresh(live: Seq<int>, free: Seq<int>, k: int)
    requires
        seqs_ok(live, free, k, -1),
        free.len() == 0,
        k < max_orders(),
    ensures
        seqs_ok(live, free, k + 1, k),
{
    assert forall|s: int| 0 <= s < k + 1 implies #[trigger] live.contains(s) || free.contains(s) || s == k by {
        if s < k {
            assert(live.contains(s) || free.contains(s) || s == -1);
        }
    }
}

proof fn lemma_seqs_place(live: Seq<int>, free: Seq<int>, k: int, r: int, idx: int)
    requires
        seqs_ok(live, free, k, r),
        r >= 0,
        0 <= idx <= live.len(),
    ensures
        seqs_ok(live.insert(idx, r), free, k, -1),
{
    let nlive = live.insert(idx, r);
    live.insert_ensures(idx, r);
    assert forall|i: int, j: int| 0 <= i < j < nlive.len() implies nlive[i] != nlive[j] by {
        if i != idx && j != idx {
            let oi = if i < idx { i } else { i - 1 };
            let oj = if j < idx { j } else { j - 1 };
            assert(nlive[i] == live[oi]);
            assert(nlive[j] == live[oj]);
        } else if i == idx {
            assert(nlive[j] == live[j - 1]);
        } else {
            assert(nlive[i] == live[i]);
        }
    }
    assert(nlive.no_duplicates());
    assert forall|i: int| 0 <= i < nlive.len() implies 0 <= #[trigger] nlive[i] < k && nlive[i] != -1 by {
        if i < idx {
            assert(nlive[i] == live[i]);
        } else if i > idx {
            assert(nlive[i] == live[i - 1]);
        }
    }
    assert forall|i: int, j: int|
        0 <= i < nlive.len() && 0 <= j < free.len() implies #[trigger] nlive[i] != #[trigger] free[j] by {
        if i < idx {
            assert(nlive[i] == live[i]);
        } else if i > idx {
            assert(nlive[i] == live[i - 1]);
        }
    }
    assert forall|s: int| 0 <= s < k implies #[trigger] nlive.contains(s) || free.contains(s) || s == -1 by {
        assert(live.contains(s) || free.contains(s) || s == r);
        if s == r {
            assert(nlive[idx] == s);
        } else if live.contains(s) {
            let i = choose|i: int| 0 <= i < live.len() && live[i] == s;
            if i < idx {
                assert(nlive[i] == s);
            } else {
                assert(nlive[i + 1] == s);
            }
        }
    }
}

/// After unlinking the order at `idx`, the remaining orders are linked in
/// order, given the two neighbours were relinked to each other and nothing
/// else of the remaining slots changed.
proof fn lemma_links_remove(o0: Seq<OrderHeader>, o1: Seq<OrderHeader>, live: Seq<int>, idx: int)
    requires
        links_ok(o0, live),
        live.no_duplicates(),
        0 <= idx < live.len(),
        idx > 0 ==> o1[live[idx - 1]].next as int == (if idx + 1 < live.len() {
            live[idx + 1]
        } else {
            live[idx - 1]
        }),
        idx + 1 < live.len() ==> o1[live[idx + 1]].prev as int == (if idx > 0 {
            live[idx - 1]
        } else {
            live[idx + 1]
        }),
        forall|i: int|
            0 <= i < live.len() && i != idx && i != idx - 1 ==> (#[trigger] o1[live[i]]).next
                == o0[live[i]].next,
        forall|i: int|
            0 <= i < live.len() && i != idx && i != idx + 1 ==> (#[trigger] o1[live[i]]).prev
                == o0[live[i]].prev,
    ensures
        links_ok(o1, live.remove(idx)),
{
    let nlive = live.remove(idx);
    live.remove_ensures(idx);
    assert forall|i: int| 0 <= i < nlive.len() implies (#[trigger] o1[nlive[i]]).next as int == (if i + 1
        < nlive.len() {
        nlive[i + 1]
    } else {
        nlive[i]
    }) by {
        if i < idx - 1 {
            assert(nlive[i] == live[i]);
            assert(o1[live[i]].next == o0[live[i]].next);
        } else if i == idx - 1 {
            assert(nlive[i] == live[i]);
        } else {
            assert(nlive[i] == live[i + 1]);
            assert(o1[live[i + 1]].next == o0[live[i + 1]].next);
        }
    }
    assert forall|i: int| 0 <= i < nlive.len() implies (#[trigger] o1[nlive[i]]).prev as int == (if i > 0 {
        nlive[i - 1]
    } else {
        nlive[i]
    }) by {
        if i < idx {
            assert(nlive[i] == live[i]);
            assert(o1[live[i]].prev == o0[live[i]].prev);
        } else if i == idx {
            assert(nlive[i] == live[i + 1]);
        } else {
            assert(nlive[i] == live[i + 1]);
            assert(o1[live[i + 1]].prev == o0[live[i + 1]].prev);
        }
    }
}

/// After linking slot `r` in at `idx`, the orders are linked in order, given
/// `r` points at its neighbours, they point back at it, and nothing else of
/// the resting slots changed.
proof fn lemma_links_insert(o0: Seq<OrderHeader>, o1: Seq<OrderHeader>, live: Seq<int>, idx: int, r: int)
    requires
        links_ok(o0, live),
        0 <= idx <= live.len(),
        forall|i: int| 0 <= i < live.len() ==> #[trigger] live[i] != r,
        o1[r].next as int == (if idx < live.len() { live[idx] } else { r }),
        o1[r].prev as int == (if idx > 0 { live[idx - 1] } else { r }),
        idx > 0 ==> o1[live[idx - 1]].next as int == r,
        idx < live.len() ==> o1[live[idx]].prev as int == r,
        forall|i: int| 0 <= i < live.len() && i != idx - 1 ==> (#[trigger] o1[live[i]]).next == o0[live[i]].next,
        forall|i: int| 0 <= i < live.len() && i != idx ==> (#[trigger] o1[live[i]]).prev == o0[live[i]].prev,
    ensures
        links_ok(o1, live.insert(idx, r)),
{
    let nlive = live.insert(idx, r);
    live.insert_ensures(idx, r);
    assert forall|i: int| 0 <= i < nlive.len() implies (#[trigger] o1[nlive[i]]).next as int == (if i + 1
        < nlive.len() {
        nlive[i + 1]
    } else {
        nlive[i]
    }) by {
        if i < idx - 1 {
            assert(nlive[i] == live[i]);
            assert(nlive[i + 1] == live[i + 1]);
            assert(o1[live[i]].next == o0[live[i]].next);
        } else if i == idx - 1 {
            assert(nlive[i] == live[i]);
        } else if i == idx {
            if idx < live.len() {
                assert(nlive[i + 1] == live[idx]);
            }
        } else {
            assert(nlive[i] == live[i - 1]);
            assert(o1[live[i - 1]].next == o0[live[i - 1]].next);
            if i + 1 < nlive.len() {
                assert(nlive[i + 1] == live[i]);
            }
        }
    }
    assert forall|i: int| 0 <= i < nlive.len() implies (#[trigger] o1[nlive[i]]).prev as int == (if i > 0 {
        nlive[i - 1]
    } else {
        nlive[i]
    }) by {
        if i < idx {
            assert(nlive[i] == live[i]);
            assert(o1[live[i]].prev == o0[live[i]].prev);
            if i > 0 {
                assert(nlive[i - 1] == live[i - 1]);
            }
        } else if i == idx {
            if idx > 0 {
                assert(nlive[i - 1] == live[idx - 1]);
            }
        } else if i == idx + 1 {
            assert(nlive[i] == live[idx]);
        } else {
            assert(nlive[i] == live[i - 1]);
            assert(nlive[i - 1] == live[i - 2]);
            assert(o1[live[i - 1]].prev == o0[live[i - 1]].prev);
        }
    }
}

/// The layout invariant of a side over its raw parts and bookkeeping, with
/// slot `r` (when `r >= 0`) taken out of the free slots but not yet linked in.
spec fn parts_ok(
    o: Seq<OrderHeader>,
    tombstone: u16,
    head: u16,
    tail: u16,
    live: Seq<int>,
    free: Seq<int>,
    k: int,
    r: int,
) -> bool {
    &&& head < 2048 && tail < 2048
    &&& tombstone as int == (if free.len() > 0 { free[0] } else { k })
    &&& seqs_ok(live, free, k, r)
    &&& free_ok(o, free, k)
    &&& fresh_ok(o, k)
    &&& links_ok(o, live)
    &&& resting_all(o, live)
    &&& ends_ok(head as int, tail as int, live, if r >= 0 { r } else { tombstone as int })
}

/// One side of a book: a doubly linked list of resting orders, best first,
/// threaded through a fixed array of slots, and a chain of freed slots.
pub struct Side {
    pub orders: [OrderHeader; 2048],
    /// First free slot (2048 when none is free).
    pub tombstone: u16,
    pub head: u16,
    pub tail: u16,
    /// Vault holding the deposits of this side's orders.
    pub vault: Key,
    /// Slots of the resting orders, best first.
    pub live: Ghost<Seq<int>>,
    /// Freed slots, in the order they will be handed out again.
    pub free: Ghost<Seq<int>>,
    /// Every slot at or above this one has never held an order.
    pub ladder: Ghost<int>,
}

impl View for Side {
    type V = Seq<Order>;

    closed spec fn view(&self) -> Seq<Order> {
        self.live@.map_values(|s: int| self.orders@[s].order)
    }
}

impl Side {
    /// Slot of each resting order, best first.
    pub closed spec fn slots(&self) -> Seq<int> {
        self.live@
    }

    /// The slot the next order will be placed in (2048 when none is free).
    pub closed spec fn spec_tombstone(&self) -> u16 {
        self.tombstone
    }

    /// The bookkeeping of `self` and `other` agree.
    pub closed spec fn same_bookkeeping(&self, other: &Side) -> bool {
        &&& self.live@ == other.live@
        &&& self.free@ == other.free@
        &&& self.ladder@ == other.ladder@
    }

    /// The layout invariant, with slot `r` (when `r >= 0`) taken out of the
    /// free slots but not yet linked in.
    closed spec fn inv(&self, r: int) -> bool {
        parts_ok(self.orders@, self.tombstone, self.head, self.tail, self.live@, self.free@, self.ladder@, r)
    }

    /// The side is well formed.
    pub closed spec fn wf(&self) -> bool {
        self.inv(-1)
    }

    /// The slots that hold no order, in the order they will be handed out:
    /// the freed ones, the most recently freed first, then the never used
    /// ones from the lowest up.
    pub closed spec fn vacant(&self) -> Seq<int> {
        self.free@ + Seq::new((max_orders() - self.ladder@) as nat, |i: int| self.ladder@ + i)
    }

    /// What a well-formed side gives away about its vacant slots: they are
    /// the slots that hold no order; the free pointer is the first of them,
    /// and handing it out moves the pointer to the second (2048 when there
    /// is none).
    pub proof fn lemma_vacant(&self)
        requires
            self.wf(),
        ensures
            self.vacant().len() == max_orders() - self@.len(),
            self.vacant().no_duplicates(),
            forall|i: int|
                0 <= i < self.vacant().len() ==> 0 <= #[trigger] self.vacant()[i] < max_orders()
                    && !self.slots().contains(self.vacant()[i]) && slot_clear(
                    self.orders@[self.vacant()[i]].order,
                ),
            self.spec_tombstone() as int == (if self.vacant().len() > 0 {
                self.vacant()[0]
            } else {
                max_orders()
            }),
            self.vacant().len() > 0 ==> tombstone_after(self.orders@, self.vacant()[0]) == (if self.vacant().len()
                > 1 {
                self.vacant()[1]
            } else {
                max_orders()
            }),
    {
        let live = self.live@;
        let free = self.free@;
        let k = self.ladder@;
        let o = self.orders@;
        let v = self.vacant();
        let fresh = Seq::new((max_orders() - k) as nat, |i: int| k + i);
        assert(v == free + fresh);
        assert forall|i: int| 0 <= i < v.len() implies 0 <= #[trigger] v[i] < max_orders()
            && !self.slots().contains(v[i]) && slot_clear(o[v[i]].order) by {
            if i < free.len() {
                assert(v[i] == free[i]);
                if live.contains(free[i]) {
                    let j = choose|j: int| 0 <= j < live.len() && live[j] == free[i];
                }
            } else {
                assert(v[i] == k + (i - free.len()));
                if live.contains(v[i]) {
                    let j = choose|j: int| 0 <= j < live.len() && live[j] == v[i];
                }
            }
        }
        assert forall|a: int, b: int| 0 <= a < b < v.len() implies v[a] != v[b] by {
            if b < free.len() {
                assert(v[a] == free[a] && v[b] == free[b]);
            } else if a < free.len() {
                assert(v[a] == free[a]);
            }
        }
        if v.len() > 0 {
            let t = v[0];
            if free.len() > 1 {
                assert(t == free[0] && v[1] == free[1]);
                assert(o[free[0]].next as int == free[1]);
                assert(slot_clear(o[free[1]].order));
            } else if free.len() == 1 {
                assert(t == free[0]);
                assert(o[free[0]].next as int == k);
                if k < max_orders() {
                    assert(v[1] == k);
                    assert(slot_clear(o[k].order));
                }
            } else {
                assert(t == k);
                assert(o[k].next == 0);
                if k > 0 {
                    assert(live.contains(0) || free.contains(0) || 0 == -1);
                    let j = choose|j: int| 0 <= j < live.len() && live[j] == 0;
                    assert(resting_ok(o[live[j]].order));
                }
                if k + 1 < max_orders() {
                    assert(v[1] == k + 1);
                }
            }
        }
    }

    /// What a well-formed side gives away about its slots.
    pub proof fn lemma_wf(&self)
        requires
            self.wf(),
        ensures
            self@.len() == self.slots().len() <= max_orders(),
            self.slots().no_duplicates(),
            forall|i: int|
                0 <= i < self.slots().len() ==> 0 <= #[trigger] self.slots()[i] < max_orders()
                    && self.orders@[self.slots()[i]].order == self@[i] && resting_ok(self@[i]),
            forall|s: int|
                0 <= s < max_orders() && !self.slots().contains(s) ==> slot_clear(
                    #[trigger] self.orders@[s].order,
                ),
            self@.len() > 0 ==> self.head as int == self.slots()[0] && self.tail as int
                == self.slots().last(),
            self@.len() == 0 ==> slot_clear(self.orders@[self.head as int].order),
            self@.len() == 0 ==> self.head == self.tail && self.head == self.spec_tombstone(),
            self.head < max_orders(),
            self.tail < max_orders(),
            self.spec_tombstone() <= max_orders(),
            self.spec_tombstone() == max_orders() <==> self@.len() == max_orders(),
    {
        let live = self.live@;
        let free = self.free@;
        assert forall|s: int|
            0 <= s < max_orders() && !self.slots().contains(s) implies slot_clear(
            #[trigger] self.orders@[s].order,
        ) by {
            if s < self.ladder@ {
                assert(live.contains(s) || free.contains(s) || s == -1);
                let j = choose|j: int| 0 <= j < free.len() && free[j] == s;
                assert(slot_clear(self.orders@[free[j]].order));
            }
        }
        if live.len() == 0 {
            if free.len() > 0 {
                assert(slot_clear(self.orders@[free[0]].order));
            }
        }
    }

    /// The links of a well-formed side: each resting slot links to its
    /// neighbours in the list; the head is its own predecessor and the tail
    /// its own successor.
    pub proof fn lemma_links(&self)
        requires
            self.wf(),
        ensures
            forall|i: int|
                0 <= i < self.slots().len() ==> (#[trigger] self.orders@[self.slots()[i]]).next as int
                    == (if i + 1 < self.slots().len() {
                    self.slots()[i + 1]
                } else {
                    self.slots()[i]
                }) && self.orders@[self.slots()[i]].prev as int == (if i > 0 {
                    self.slots()[i - 1]
                } else {
                    self.slots()[i]
                }),
    {
    }

    /// Length and end facts of a well-formed side.
    pub proof fn lemma_shape(&self)
        requires
            self.wf(),
        ensures
            self@.len() == self.slots().len() <= max_orders(),
            self.slots().no_duplicates(),
            self@.len() > 0 ==> self.head as int == self.slots()[0] && self.tail as int
                == self.slots().last(),
            self.spec_tombstone() == max_orders() <==> self@.len() == max_orders(),
    {
    }

    /// An empty side.
    pub fn new() -> (s: Side)
        ensures
            s.wf(),
            s@.len() == 0,
            s.vault == zero_key(),
            s.head == 0,
            s.tail == 0,
            s.spec_tombstone() == 0,
            s.slots().len() == 0,
            s.vacant() == Seq::new(2048, |i: int| i),
            forall|i: int| 0 <= i < 2048 ==> #[trigger] s.orders@[i] == empty_header(),
    {
        let s = Side {
            orders: [OrderHeader::new(); 2048],
            tombstone: 0,
            head: 0,
            tail: 0,
            vault: Key::zero(),
            live: Ghost(Seq::empty()),
            free: Ghost(Seq::empty()),
            ladder: Ghost(0),
        };
        assert(s@ =~= Seq::<Order>::empty());
        assert(s.vacant() =~= Seq::new(2048, |i: int| i));
        s
    }

    pub fn get_tombstone(&self) -> (r: u16)
        ensures
            r == self.spec_tombstone(),
    {
        self.tombstone
    }

    /// Limit of the best order, 0 for an empty side.
    pub fn best_offer(&self) -> (r: u64)
        requires
            self.wf(),
        ensures
            r == best_limit(self@),
    {
        proof {
            self.lemma_wf();
        }
        self.orders[self.head as usize].order.limit
    }

    /// Whether `new_order` would go to the front of the side.
    pub fn is_better_than_best(&self, new_order: &Order, is_buy: bool) -> (r: bool)
        requires
            self.wf(),
        ensures
            r == (self@.len() == 0 || ranks_ahead(*new_order, self@[0], is_buy)),
    {
        proof {
            self.lemma_wf();
        }
        let price = self.orders[self.head as usize].order.limit;
        if price == 0 {
            return true;
        }
        if is_buy {
            new_order.limit > price
        } else {
            new_order.limit < price
        }
    }

    /// Whether `new_order` would go to the back of the side.
    pub fn is_worse_than_worst(&self, new_order: Order, is_buy: bool) -> (r: bool)
        requires
            self.wf(),
        ensures
            r == (self@.len() > 0 && !ranks_ahead(new_order, self@.last(), is_buy)),
    {
        proof {
            self.lemma_wf();
            if self@.len() > 0 {
                assert(self.orders@[self.slots()[self@.len() - 1]].order == self@[self@.len() - 1]);
            } else {
                assert(self.tail == self.head);
            }
        }
        let price = self.orders[self.tail as usize].order.limit;
        if price == 0 {
            return false;
        }
        if is_buy {
            price >= new_order.limit
        } else {
            price <= new_order.limit
        }
    }

    pub fn is_empty(&self) -> (r: bool)
        requires
            self.wf(),
        ensures
            r == (self@.len() == 0),
    {
        proof {
            self.lemma_wf();
        }
        self.orders[self.head as usize].order.is_tombstone()
    }

    /// Whether no slot is free.
    pub fn is_full(&self) -> (r: bool)
        requires
            self.wf(),
        ensures
            r == (self@.len() == max_orders()),
    {
        proof {
            self.lemma_wf();
        }
        self.tombstone == MAX_ORDERS
    }

    pub fn is_head(&self, pos: u16) -> (r: bool)
        ensures
            r == (self.head == pos),
    {
        self.head == pos
    }

    pub fn is_tail(&self, pos: u16) -> (r: bool)
        ensures
            r == (self.tail == pos),
    {
        self.tail == pos
    }

    /// Whether slot `pos` holds no resting order.
    pub fn is_tombstone(&self, pos: u16) -> (r: bool)
        requires
            self.wf(),
            pos < MAX_ORDERS,
        ensures
            r == !self.slots().contains(pos as int),
    {
        proof {
            self.lemma_wf();
            if self.slots().contains(pos as int) {
                let i = choose|i: int| 0 <= i < self.slots().len() && self.slots()[i] == pos as int;
                assert(resting_ok(self@[i]));
            }
        }
        self.orders[pos as usize].order.is_tombstone()
    }

    /// The best order.
    pub fn head_order(&self) -> (o: Order)
        requires
            self.wf(),
            self@.len() > 0,
        ensures
            o == self@[0],
    {
        proof {
            self.lemma_wf();
        }
        self.orders[self.head as usize].order
    }

    /// The last order.
    pub fn tail_order(&self) -> (o: Order)
        requires
            self.wf(),
            self@.len() > 0,
        ensures
            o == self@.last(),
    {
        proof {
            self.lemma_wf();
        }
        self.orders[self.tail as usize].order
    }

    /// The order in slot `pos`.
    pub fn order_at(&self, pos: u16) -> (o: Order)
        requires
            pos < MAX_ORDERS,
        ensures
            o == self.orders@[pos as int].order,
    {
        self.orders[pos as usize].order
    }

    /// Gets the next order index if exists.
    pub fn next_order(&self, pos: u16) -> (r: Option<u16>)
        requires
            self.wf(),
            pos < MAX_ORDERS,
        ensures
            r == (if self.orders@[pos as int].next >= MAX_ORDERS || self.orders@[pos as int].next == pos
                || self.orders@[self.orders@[pos as int].next as int].order.leaves_qty == 0 {
                None::<u16>
            } else {
                Some(self.orders@[pos as int].next)
            }),
            forall|i: int|
                0 <= i < self.slots().len() && #[trigger] self.slots()[i] == pos as int ==> r == (if i + 1
                    < self.slots().len() {
                    Some(self.slots()[i + 1] as u16)
                } else {
                    None::<u16>
                }),
    {
        proof {
            self.lemma_wf();
        }
        let next = self.orders[pos as usize].next;
        if next >= MAX_ORDERS || next == pos {
            return None;
        }
        if self.orders[next as usize].order.is_tombstone() {
            return None;
        }
        proof {
            assert forall|i: int|
                0 <= i < self.slots().len() && #[trigger] self.slots()[i] == pos as int implies i + 1
                < self.slots().len() && self.slots()[i + 1] == next as int by {
                if i + 1 >= self.slots().len() {
                    assert(self.orders@[self.live@[i]].next as int == self.live@[i]);
                }
            }
        }
        Some(next)
    }

    /// Hands out the slot the free pointer is at and moves the pointer on.
    /// On a well-formed side that is the first vacant slot, and the pointer
    /// moves to the next vacant slot (2048 when there is none).
    pub fn next_tombstone(&mut self) -> (r: Option<u16>)
        requires
            old(self).spec_tombstone() <= MAX_ORDERS,
        ensures
            final(self).orders@ == old(self).orders@,
            final(self).head == old(self).head,
            final(self).tail == old(self).tail,
            final(self).vault == old(self).vault,
            final(self).same_bookkeeping(old(self)),
            r is None <==> old(self).spec_tombstone() == MAX_ORDERS,
            r is None ==> final(self).spec_tombstone() == old(self).spec_tombstone(),
            r matches Some(p) ==> p == old(self).spec_tombstone() && final(self).spec_tombstone()
                == tombstone_after(old(self).orders@, p as int),
            old(self).wf() ==> {
                &&& r is None <==> old(self).vacant().len() == 0
                &&& r matches Some(p) ==> {
                    &&& p as int == old(self).vacant()[0]
                    &&& final(self).spec_tombstone() as int == (if old(self).vacant().len() > 1 {
                        old(self).vacant()[1]
                    } else {
                        max_orders()
                    })
                }
            },
    {
        proof {
            if self.wf() {
                self.lemma_vacant();
            }
        }
        if self.tombstone == MAX_ORDERS {
            return None;
        }
        let ret = self.tombstone;
        let tombstone = self.orders[self.tombstone as usize];
        if ret == tombstone.next {
            self.tombstone = self.tombstone + 1;
        } else if tombstone.next >= MAX_ORDERS {
            self.tombstone = MAX_ORDERS;
        } else if self.orders[tombstone.next as usize].order.is_tombstone() {
            self.tombstone = tombstone.next;
        } else {
            self.tombstone = self.tombstone + 1;
        }
        Some(ret)
    }

    /// Links slot `pos` in front of the free chain.
    pub fn new_tombstone(&mut self, pos: u16)
        requires
            pos < MAX_ORDERS,
        ensures
            final(self).orders@ == with_next(old(self).orders@, pos as int, old(self).spec_tombstone()),
            final(self).spec_tombstone() == pos,
            final(self).head == old(self).head,
            final(self).tail == old(self).tail,
            final(self).vault == old(self).vault,
            final(self).same_bookkeeping(old(self)),
    {
        let mut h = self.orders[pos as usize];
        h.next = self.tombstone;
        self.orders[pos as usize] = h;
        self.tombstone = pos;
    }

    /// Links slot `pos` in front of the head.
    pub fn new_head(&mut self, pos: u16)
        requires
            pos < MAX_ORDERS,
            old(self).head < MAX_ORDERS,
        ensures
            final(self).orders@ == with_prev(
                with_next(with_prev(old(self).orders@, pos as int, pos), pos as int, old(self).head),
                old(self).head as int,
                pos,
            ),
            final(self).head == pos,
            final(self).tail == old(self).tail,
            final(self).spec_tombstone() == old(self).spec_tombstone(),
            final(self).vault == old(self).vault,
            final(self).same_bookkeeping(old(self)),
    {
        let mut h = self.orders[pos as usize];
        h.prev = pos;
        h.next = self.head;
        self.orders[pos as usize] = h;
        let head = self.head;
        let mut hh = self.orders[head as usize];
        hh.prev = pos;
        self.orders[head as usize] = hh;
        self.head = pos;
    }

    /// Links slot `pos` behind the tail.
    pub fn new_tail(&mut self, pos: u16)
        requires
            pos < MAX_ORDERS,
            old(self).tail < MAX_ORDERS,
        ensures
            final(self).orders@ == with_next(
                with_prev(with_next(old(self).orders@, pos as int, pos), pos as int, old(self).tail),
                old(self).tail as int,
                pos,
            ),
            final(self).tail == pos,
            final(self).head == old(self).head,
            final(self).spec_tombstone() == old(self).spec_tombstone(),
            final(self).vault == old(self).vault,
            final(self).same_bookkeeping(old(self)),
    {
        let mut h = self.orders[pos as usize];
        h.next = pos;
        h.prev = self.tail;
        self.orders[pos as usize] = h;
        let tail = self.tail;
        let mut ht = self.orders[tail as usize];
        ht.next = pos;
        self.orders[tail as usize] = ht;
        self.tail = pos;
    }

    /// Links slot `new` in just before slot `before`.
    pub fn new_before(&mut self, new: u16, before: u16)
        requires
            new < MAX_ORDERS,
            before < MAX_ORDERS,
            old(self).orders@[before as int].prev < MAX_ORDERS,
        ensures
            final(self).orders@ == ({
                let o = old(self).orders@;
                let prev = o[before as int].prev;
                with_prev(
                    with_next(with_prev(with_next(o, new as int, before), new as int, prev), prev as int, new),
                    before as int,
                    new,
                )
            }),
            final(self).head == old(self).head,
            final(self).tail == old(self).tail,
            final(self).spec_tombstone() == old(self).spec_tombstone(),
            final(self).vault == old(self).vault,
            final(self).same_bookkeeping(old(self)),
    {
        let prev = self.orders[before as usize].prev;
        let mut hn = self.orders[new as usize];
        hn.next = before;
        hn.prev = prev;
        self.orders[new as usize] = hn;
        let mut hp = self.orders[prev as usize];
        hp.next = new;
        self.orders[prev as usize] = hp;
        let mut hb = self.orders[before as usize];
        hb.prev = new;
        self.orders[before as usize] = hb;
    }
}


impl Side {
    /// Takes the order in slot `ord_pos` out of the side, returns it, and
    /// gives its slot back to the free chain. Constant time.
    #[verifier::spinoff_prover]
    #[verifier::rlimit(40)]
    pub fn remove_order(&mut self, ord_pos: u16) -> (removed: Order)
        requires
            old(self).wf(),
            old(self).slots().contains(ord_pos as int),
        ensures
            final(self).wf(),
            final(self).vault == old(self).vault,
            final(self).vacant() == seq![ord_pos as int] + old(self).vacant(),
            final(self).spec_tombstone() == ord_pos,
            final(self).orders@[ord_pos as int].order == cleared(removed),
            forall|s: int|
                0 <= s < max_orders() && s != ord_pos as int ==> (#[trigger] final(self).orders@[s]).order
                    == old(self).orders@[s].order,
            forall|i: int|
                0 <= i < old(self).slots().len() && #[trigger] old(self).slots()[i] == ord_pos as int
                    ==> {
                    &&& removed == old(self)@[i]
                    &&& final(self)@ == old(self)@.remove(i)
                    &&& final(self).slots() == old(self).slots().remove(i)
                },
    {
        let ghost live = self.live@;
        let ghost free = self.free@;
        let ghost k = self.ladder@;
        let ghost o0 = self.orders@;
        let ghost idx = choose|i: int| 0 <= i < live.len() && live[i] == ord_pos as int;
        let ghost v0 = self@;
        let ghost tomb = self.tombstone;
        proof {
            self.lemma_wf();
            live.remove_ensures(idx);
        }
        let removed = self.orders[ord_pos as usize].order;
        if self.is_head(ord_pos) {
            let next = self.orders[ord_pos as usize].next;
            let mut h = self.orders[next as usize];
            h.prev = next;
            self.orders[next as usize] = h;
            self.head = next;
        } else if self.is_tail(ord_pos) {
            let prev = self.orders[ord_pos as usize].prev;
            let mut h = self.orders[prev as usize];
            h.next = prev;
            self.orders[prev as usize] = h;
            self.tail = prev;
        } else {
            let prev = self.orders[ord_pos as usize].prev;
            let next = self.orders[ord_pos as usize].next;
            let mut hp = self.orders[prev as usize];
            hp.next = next;
            self.orders[prev as usize] = hp;
            let mut hn = self.orders[next as usize];
            hn.prev = prev;
            self.orders[next as usize] = hn;
        }
        let ghost o1 = self.orders@;
        proof {
            assert(idx == 0 <==> self.head == ord_pos || old(self).head == ord_pos);
            assert forall|s: int| 0 <= s < max_orders() && !live.contains(s) implies #[trigger] o1[s] == o0[s] by {
                if idx > 0 {
                    assert(live.contains(live[idx - 1]));
                }
                if idx + 1 < live.len() {
                    assert(live.contains(live[idx + 1]));
                }
            }
            assert forall|s: int| 0 <= s < max_orders() implies (#[trigger] o1[s]).order == o0[s].order by {}
            lemma_links_remove(o0, o1, live, idx);
        }
        self.new_tombstone(ord_pos);
        let mut hc = self.orders[ord_pos as usize];
        hc.order.clear();
        self.orders[ord_pos as usize] = hc;
        self.live = Ghost(live.remove(idx));
        self.free = Ghost(seq![ord_pos as int] + free);
        proof {
            assert(self.vacant() =~= seq![ord_pos as int] + old(self).vacant());
            assert forall|s: int| 0 <= s < max_orders() && s != ord_pos as int implies (
            #[trigger] self.orders@[s]).order == o0[s].order by {
                assert(o1[s].order == o0[s].order);
            }
            let nlive = self.live@;
            let nfree = self.free@;
            let o = self.orders@;
            lemma_seqs_remove(live, free, k, idx);
            assert forall|i: int| 0 <= i < nlive.len() implies #[trigger] nlive[i] != ord_pos as int by {
                if i < idx {
                    assert(nlive[i] == live[i]);
                } else {
                    assert(nlive[i] == live[i + 1]);
                }
            }
            assert forall|i: int| 0 <= i < nlive.len() implies (#[trigger] o[nlive[i]]) == o1[nlive[i]] by {}
            assert(links_ok(o, nlive)) by {
                assert forall|i: int| 0 <= i < nlive.len() implies (#[trigger] o[nlive[i]]).next == o1[nlive[i]].next by {}
            }
            assert(resting_all(o, nlive)) by {
                assert forall|i: int| 0 <= i < nlive.len() implies resting_ok((#[trigger] o[nlive[i]]).order) by {
                    if i < idx {
                        assert(nlive[i] == live[i]);
                    } else {
                        assert(nlive[i] == live[i + 1]);
                    }
                }
            }
            assert(free_ok(o, nfree, k)) by {
                assert forall|i: int| 1 <= i < nfree.len() implies #[trigger] o[nfree[i]] == o0[nfree[i]] by {
                    assert(nfree[i] == free[i - 1]);
                    assert(!live.contains(free[i - 1]));
                }
                assert forall|i: int| 0 <= i < nfree.len() implies (#[trigger] o[nfree[i]]).next as int == (if i
                    + 1 < nfree.len() {
                    nfree[i + 1]
                } else {
                    k
                }) by {
                    if i > 0 {
                        assert(nfree[i] == free[i - 1]);
                        if i < nfree.len() - 1 {
                            assert(nfree[i + 1] == free[i]);
                        }
                    } else if nfree.len() > 1 {
                        assert(nfree[1] == free[0]);
                    }
                }
                assert forall|i: int| 0 <= i < nfree.len() implies slot_clear((#[trigger] o[nfree[i]]).order) by {
                    if i > 0 {
                        assert(nfree[i] == free[i - 1]);
                    }
                }
            }
            assert(fresh_ok(o, k)) by {
                assert forall|s: int| k <= s < max_orders() implies #[trigger] o[s] == o0[s] by {
                    assert(!live.contains(s));
                }
            }
            if nlive.len() > 0 {
                if idx == 0 {
                    assert(nlive[0] == live[1]);
                } else {
                    assert(nlive[0] == live[0]);
                }
                if idx == live.len() - 1 {
                    assert(nlive.last() == live[live.len() - 2]);
                } else {
                    assert(nlive.last() == live.last());
                }
            }
            assert(self@ =~= v0.remove(idx)) by {
                assert forall|i: int| 0 <= i < nlive.len() implies #[trigger] self@[i] == v0.remove(idx)[i] by {
                    if i < idx {
                        assert(nlive[i] == live[i]);
                    } else {
                        assert(nlive[i] == live[i + 1]);
                    }
                }
            }
            assert forall|i: int|
                0 <= i < live.len() && #[trigger] live[i] == ord_pos as int implies i == idx by {}
        }
        removed
    }
}

proof fn lemma_first_ahead_is(list: Seq<Order>, o: Order, is_buy: bool, j: int, i: int)
    requires
        0 <= j <= i < list.len(),
        forall|m: int| 0 <= m < i ==> !ranks_ahead(o, #[trigger] list[m], is_buy),
        ranks_ahead(o, list[i], is_buy),
    ensures
        first_ahead(list, o, is_buy, j) == i,
    decreases i - j,
{
    if j < i {
        lemma_first_ahead_is(list, o, is_buy, j + 1, i);
    }
}

/// Relinking around a reserved slot `p` that now sits at `idx`: the side is
/// well formed again and its orders gained `p`'s order at `idx`.
proof fn lemma_after_link(s0: &Side, s1: &Side, p: int, idx: int)
    requires
        s0.inv(p),
        0 <= p < max_orders(),
        resting_ok(s0.orders@[p].order),
        0 <= idx <= s0.live@.len(),
        s1.live@ == s0.live@.insert(idx, p),
        s1.free@ == s0.free@,
        s1.ladder@ == s0.ladder@,
        s1.tombstone == s0.tombstone,
        forall|s: int| 0 <= s < max_orders() ==> (#[trigger] s1.orders@[s]).order == s0.orders@[s].order,
        forall|s: int|
            0 <= s < max_orders() && s != p && !s0.live@.contains(s) ==> #[trigger] s1.orders@[s]
                == s0.orders@[s],
        s1.orders@[p].next as int == (if idx < s0.live@.len() { s0.live@[idx] } else { p }),
        s1.orders@[p].prev as int == (if idx > 0 { s0.live@[idx - 1] } else { p }),
        idx > 0 ==> s1.orders@[s0.live@[idx - 1]].next as int == p,
        idx < s0.live@.len() ==> s1.orders@[s0.live@[idx]].prev as int == p,
        forall|i: int|
            0 <= i < s0.live@.len() && i != idx - 1 ==> (#[trigger] s1.orders@[s0.live@[i]]).next
                == s0.orders@[s0.live@[i]].next,
        forall|i: int|
            0 <= i < s0.live@.len() && i != idx ==> (#[trigger] s1.orders@[s0.live@[i]]).prev
                == s0.orders@[s0.live@[i]].prev,
        s1.head as int == (if idx == 0 { p } else { s0.head as int }),
        s1.tail as int == (if idx == s0.live@.len() { p } else { s0.tail as int }),
    ensures
        s1.wf(),
        s1@ == s0@.insert(idx, s0.orders@[p].order),
        s1.slots() == s0.slots().insert(idx, p),
{
    let live = s0.live@;
    let free = s0.free@;
    let k = s0.ladder@;
    let o0 = s0.orders@;
    let o1 = s1.orders@;
    let nlive = s1.live@;
    live.insert_ensures(idx, p);
    lemma_seqs_place(live, free, k, p, idx);
    lemma_links_insert(o0, o1, live, idx, p);
    assert(free_ok(o1, free, k)) by {
        assert forall|i: int| 0 <= i < free.len() implies #[trigger] o1[free[i]] == o0[free[i]] by {
            assert(free[i] != p);
            if live.contains(free[i]) {
                let j = choose|j: int| 0 <= j < live.len() && live[j] == free[i];
            }
        }
    }
    assert(fresh_ok(o1, k)) by {
        assert forall|s: int| k <= s < max_orders() implies #[trigger] o1[s] == o0[s] by {
            if live.contains(s) {
                let j = choose|j: int| 0 <= j < live.len() && live[j] == s;
            }
        }
    }
    assert(resting_all(o1, nlive)) by {
        assert forall|i: int| 0 <= i < nlive.len() implies resting_ok((#[trigger] o1[nlive[i]]).order) by {
            if i < idx {
                assert(nlive[i] == live[i]);
            } else if i > idx {
                assert(nlive[i] == live[i - 1]);
            }
        }
    }
    if live.len() > 0 {
        if idx < live.len() {
            assert(nlive.last() == live.last());
        }
        if idx > 0 {
            assert(nlive[0] == live[0]);
        }
    }
    assert(s1@ =~= s0@.insert(idx, o0[p].order)) by {
        assert forall|i: int| 0 <= i < nlive.len() implies #[trigger] s1@[i] == s0@.insert(idx, o0[p].order)[i] by {
            if i < idx {
                assert(nlive[i] == live[i]);
            } else if i > idx {
                assert(nlive[i] == live[i - 1]);
            }
        }
    }
}

impl Side {
    /// Takes a free slot out of the free chain (the side must not be full):
    /// the first vacant slot.
    #[verifier::spinoff_prover]
    #[verifier::rlimit(40)]
    fn alloc_slot(&mut self) -> (p: u16)
        requires
            old(self).wf(),
            old(self)@.len() < max_orders(),
        ensures
            final(self).inv(p as int),
            p < MAX_ORDERS,
            p as int == old(self).vacant()[0],
            final(self).vacant() == old(self).vacant().drop_first(),
            final(self).live@ == old(self).live@,
            final(self).orders@ == old(self).orders@,
            final(self).head == old(self).head,
            final(self).tail == old(self).tail,
            final(self).vault == old(self).vault,
            final(self)@ == old(self)@,
    {
        let ghost live = self.live@;
        let ghost free = self.free@;
        let ghost k = self.ladder@;
        let ghost o = self.orders@;
        let ghost v = self.vacant();
        proof {
            self.lemma_vacant();
        }
        let r = self.next_tombstone();
        let p = match r {
            Some(p) => p,
            None => {
                proof {
                    assert(false);
                }
                0
            },
        };
        proof {
            let fresh = Seq::new((max_orders() - k) as nat, |i: int| k + i);
            assert(v == free + fresh);
            if free.len() > 0 {
                self.free@ = free.drop_first();
                lemma_seqs_take_free(live, free, k);
                let nfree = self.free@;
                assert(self.vacant() =~= v.drop_first());
                assert forall|i: int| 0 <= i < nfree.len() implies (#[trigger] o[nfree[i]]).next as int == (if i
                    + 1 < nfree.len() {
                    nfree[i + 1]
                } else {
                    k
                }) by {
                    assert(nfree[i] == free[i + 1]);
                }
                assert forall|i: int| 0 <= i < nfree.len() implies slot_clear((#[trigger] o[nfree[i]]).order) by {
                    assert(nfree[i] == free[i + 1]);
                }
                if free.len() > 1 {
                    assert(v[1] == free[1]);
                }
            } else {
                self.ladder@ = k + 1;
                lemma_seqs_take_fresh(live, free, k);
                assert(self.vacant() =~= v.drop_first());
                if k + 1 < max_orders() {
                    assert(v[1] == k + 1);
                }
            }
        }
        p
    }

    /// Writes `new_order` into the reserved slot `p`.
    fn place(&mut self, p: u16, new_order: Order)
        requires
            old(self).inv(p as int),
            p < MAX_ORDERS,
        ensures
            final(self).inv(p as int),
            final(self).orders@ == old(self).orders@.update(
                p as int,
                OrderHeader { order: new_order, ..old(self).orders@[p as int] },
            ),
            final(self).live@ == old(self).live@,
            final(self).free@ == old(self).free@,
            final(self).ladder@ == old(self).ladder@,
            final(self).tombstone == old(self).tombstone,
            final(self).head == old(self).head,
            final(self).tail == old(self).tail,
            final(self).vault == old(self).vault,
    {
        let ghost live = self.live@;
        let ghost free = self.free@;
        let ghost o0 = self.orders@;
        let mut h = self.orders[p as usize];
        h.order = new_order;
        self.orders[p as usize] = h;
        proof {
            let o = self.orders@;
            assert forall|i: int| 0 <= i < live.len() implies #[trigger] o[live[i]] == o0[live[i]] by {}
            assert forall|i: int| 0 <= i < free.len() implies #[trigger] o[free[i]] == o0[free[i]] by {}
            assert forall|s: int| self.ladder@ <= s < max_orders() implies #[trigger] o[s] == o0[s] by {}
        }
    }

    /// Links the reserved slot `p` in as the new best order.
    fn link_head(&mut self, p: u16)
        requires
            old(self).inv(p as int),
            p < MAX_ORDERS,
            resting_ok(old(self).orders@[p as int].order),
        ensures
            final(self).wf(),
            final(self)@ == old(self)@.insert(0, old(self).orders@[p as int].order),
            final(self).vault == old(self).vault,
            final(self).slots() == old(self).slots().insert(0, p as int),
            final(self).vacant() == old(self).vacant(),
            forall|s: int| 0 <= s < max_orders() ==> (#[trigger] final(self).orders@[s]).order
                == old(self).orders@[s].order,
    {
        let ghost s0 = *self;
        let ghost live = self.live@;
        self.new_head(p);
        self.live = Ghost(live.insert(0, p as int));
        proof {
            if live.len() > 0 {
                assert(live.contains(live[0]));
            }
            assert forall|s: int|
                0 <= s < max_orders() && s != p as int && !live.contains(s) implies #[trigger] self.orders@[s]
                == s0.orders@[s] by {
                if live.len() > 0 && s == live[0] {
                    assert(live.contains(live[0]));
                }
            }
            assert forall|i: int| 0 <= i < live.len() && i != -1 implies (#[trigger] self.orders@[live[i]]).next
                == s0.orders@[live[i]].next by {}
            assert forall|i: int| 0 <= i < live.len() && i != 0 implies (#[trigger] self.orders@[live[i]]).prev
                == s0.orders@[live[i]].prev by {
                assert(live[i] != live[0]);
            }
            lemma_after_link(&s0, self, p as int, 0);
        }
    }

    /// Links the reserved slot `p` in behind the last order.
    fn link_tail(&mut self, p: u16)
        requires
            old(self).inv(p as int),
            p < MAX_ORDERS,
            old(self).live@.len() > 0,
            resting_ok(old(self).orders@[p as int].order),
        ensures
            final(self).wf(),
            final(self)@ == old(self)@.push(old(self).orders@[p as int].order),
            final(self).vault == old(self).vault,
            final(self).slots() == old(self).slots().insert(old(self).live@.len() as int, p as int),
            final(self).vacant() == old(self).vacant(),
            forall|s: int| 0 <= s < max_orders() ==> (#[trigger] final(self).orders@[s]).order
                == old(self).orders@[s].order,
    {
        let ghost s0 = *self;
        let ghost live = self.live@;
        let ghost n = live.len() as int;
        self.new_tail(p);
        self.live = Ghost(live.insert(n, p as int));
        proof {
            assert(live.contains(live[n - 1]));
            assert forall|s: int|
                0 <= s < max_orders() && s != p as int && !live.contains(s) implies #[trigger] self.orders@[s]
                == s0.orders@[s] by {}
            assert forall|i: int| 0 <= i < live.len() && i != n - 1 implies (#[trigger] self.orders@[live[i]]).next
                == s0.orders@[live[i]].next by {
                assert(live[i] != live[n - 1]);
            }
            assert forall|i: int| 0 <= i < live.len() && i != n implies (#[trigger] self.orders@[live[i]]).prev
                == s0.orders@[live[i]].prev by {}
            lemma_after_link(&s0, self, p as int, n);
            assert(s0@.insert(n, s0.orders@[p as int].order) =~= s0@.push(s0.orders@[p as int].order));
        }
    }

    /// Links the reserved slot `p` in just before slot `before`, the order at
    /// index `idx`.
    fn link_before(&mut self, p: u16, before: u16, idx: Ghost<int>)
        requires
            old(self).inv(p as int),
            p < MAX_ORDERS,
            0 < idx@ < old(self).live@.len(),
            old(self).live@[idx@] == before as int,
            resting_ok(old(self).orders@[p as int].order),
        ensures
            final(self).wf(),
            final(self)@ == old(self)@.insert(idx@, old(self).orders@[p as int].order),
            final(self).vault == old(self).vault,
            final(self).slots() == old(self).slots().insert(idx@, p as int),
            final(self).vacant() == old(self).vacant(),
            forall|s: int| 0 <= s < max_orders() ==> (#[trigger] final(self).orders@[s]).order
                == old(self).orders@[s].order,
    {
        let ghost s0 = *self;
        let ghost live = self.live@;
        let ghost i0 = idx@;
        proof {
            assert(live.contains(live[i0]));
            assert(live.contains(live[i0 - 1]));
            assert(s0.orders@[before as int].prev as int == live[i0 - 1]);
        }
        self.new_before(p, before);
        self.live = Ghost(live.insert(i0, p as int));
        proof {
            assert forall|s: int|
                0 <= s < max_orders() && s != p as int && !live.contains(s) implies #[trigger] self.orders@[s]
                == s0.orders@[s] by {}
            assert forall|i: int| 0 <= i < live.len() && i != i0 - 1 implies (#[trigger] self.orders@[live[i]]).next
                == s0.orders@[live[i]].next by {
                assert(live[i] != live[i0 - 1]);
            }
            assert forall|i: int| 0 <= i < live.len() && i != i0 implies (#[trigger] self.orders@[live[i]]).prev
                == s0.orders@[live[i]].prev by {
                assert(live[i] != live[i0]);
            }
            lemma_after_link(&s0, self, p as int, i0);
        }
    }
}

impl Side {
    /// The best order trades with `taker` (see `Order::execute_trade_at`);
    /// once fully executed it leaves the side.
    pub fn fill_best(&mut self, taker: &mut Order, is_buy: bool, slot: u64, transact_time: i64) -> (r:
        FilledExecReport)
        requires
            old(self).wf(),
            old(self)@.len() > 0,
            trade_fits(old(self)@[0], *old(taker)),
        ensures
            final(self).wf(),
            final(self).vault == old(self).vault,
            *final(taker) == taker_after(
                *old(taker),
                fill_qty(old(self)@[0], *old(taker)),
                old(self)@[0].limit,
            ),
            r == report_of(
                old(self)@[0].maker,
                old(taker).maker,
                fill_qty(old(self)@[0], *old(taker)),
                old(self)@[0].limit,
                is_buy,
                slot,
                transact_time,
            ),
            final(self)@ == (if maker_after(old(self)@[0], fill_qty(old(self)@[0], *old(taker))).leaves_qty
                == 0 {
                old(self)@.drop_first()
            } else {
                old(self)@.update(0, maker_after(old(self)@[0], fill_qty(old(self)@[0], *old(taker))))
            }),
            final(self).slots() == (if maker_after(old(self)@[0], fill_qty(old(self)@[0], *old(taker))).leaves_qty
                == 0 {
                old(self).slots().drop_first()
            } else {
                old(self).slots()
            }),
            final(self).vacant() == (if maker_after(old(self)@[0], fill_qty(old(self)@[0], *old(taker))).leaves_qty
                == 0 {
                seq![old(self).slots()[0]] + old(self).vacant()
            } else {
                old(self).vacant()
            }),
            maker_after(old(self)@[0], fill_qty(old(self)@[0], *old(taker))).leaves_qty == 0
                ==> final(self).orders@[old(self).slots()[0]].order == cleared(old(self)@[0]),
            forall|s: int|
                0 <= s < max_orders() && s != old(self).slots()[0] ==> (#[trigger] final(self).orders@[s]).order
                    == old(self).orders@[s].order,
    {
        proof {
            self.lemma_wf();
        }
        let h = self.head;
        let mut m = self.orders[h as usize].order;
        if taker.leaves_qty >= m.leaves_qty {
            let ghost v0 = self@;
            proof {
                assert(self.slots()[0] == h as int);
                assert(self.slots().contains(h as int));
            }
            let ghost sl0 = self.slots();
            let _ = self.remove_order(h);
            proof {
                assert(v0.remove(0) =~= v0.drop_first());
                assert(sl0.remove(0) =~= sl0.drop_first());
            }
            m.execute_trade_at(taker, is_buy, slot, transact_time)
        } else {
            let ghost s0 = *self;
            let mut hdr = self.orders[h as usize];
            let rep = hdr.order.execute_trade_at(taker, is_buy, slot, transact_time);
            self.orders[h as usize] = hdr;
            proof {
                let live = s0.live@;
                let o0 = s0.orders@;
                let o1 = self.orders@;
                assert(live[0] == h as int);
                assert(resting_ok(o1[h as int].order));
                assert forall|i: int| 0 <= i < live.len() && i > 0 implies #[trigger] o1[live[i]] == o0[live[i]] by {
                    assert(live[i] != live[0]);
                }
                assert forall|i: int| 0 <= i < s0.free@.len() implies #[trigger] o1[s0.free@[i]] == o0[s0.free@[i]] by {
                    assert(s0.free@[i] != live[0]);
                }
                assert forall|s: int| s0.ladder@ <= s < max_orders() implies #[trigger] o1[s] == o0[s] by {}
                assert(links_ok(o1, live));
                assert(resting_all(o1, live));
                assert(self@ =~= s0@.update(0, hdr.order)) by {
                    assert forall|i: int| 0 <= i < live.len() implies #[trigger] self@[i] == s0@.update(0, hdr.order)[i] by {
                        if i > 0 {
                            assert(live[i] != live[0]);
                        }
                    }
                }
            }
            rep
        }
    }

    /// Drops the last order of a full side to make room, recording the
    /// refund of its deposit in the crank ring.
    fn evict_tail(&mut self, is_buy: bool, rb_crank: &mut RingBufferCrank)
        requires
            old(self).wf(),
            old(self)@.len() == max_orders(),
            old(rb_crank).wf(),
            ring_room(old(rb_crank)@) > 0,
            is_buy ==> old(self)@.last().leaves_qty + old(self)@.last().limit <= u64::MAX,
        ensures
            final(self).wf(),
            final(self).vault == old(self).vault,
            final(self)@ == old(self)@.drop_last(),
            final(self).slots() == old(self).slots().drop_last(),
            final(self).vacant() == seq![old(self).slots().last()] + old(self).vacant(),
            forall|s: int|
                0 <= s < max_orders() && s != old(self).slots().last() ==> (#[trigger] final(self).orders@[s]).order
                    == old(self).orders@[s].order,
            final(rb_crank).wf(),
            final(rb_crank).instrmt_grp == old(rb_crank).instrmt_grp,
            final(rb_crank)@ == ring_push(
                old(rb_crank)@,
                crank_for(
                    old(self).vault,
                    old(self)@.last().payment_acc,
                    is_buy,
                    old(self)@.last().maker,
                    old(self)@.last().leaves_qty,
                    old(self)@.last().limit,
                ),
            ),
    {
        proof {
            self.lemma_shape();
        }
        let ghost v0 = self@;
        let ghost sl0 = self.slots();
        let tail = self.tail;
        proof {
            assert(sl0[sl0.len() - 1] == tail as int);
            assert(sl0.contains(tail as int));
        }
        let removed = self.remove_order(tail);
        proof {
            assert(v0.remove(v0.len() - 1) =~= v0.drop_last());
            assert(sl0.remove(sl0.len() - 1) =~= sl0.drop_last());
        }
        rb_crank.insert(
            self.vault,
            removed.payment_acc,
            is_buy,
            removed.maker,
            removed.leaves_qty,
            removed.limit,
        );
    }

    /// Places `new_order` in price-time priority: at the front when it already
    /// traded or ranks ahead of the best (constant time), at the back when it
    /// does not rank ahead of the last (constant time), else before the first
    /// order it ranks ahead of (linear time). A full side gives up its last
    /// order, whose deposit is owed back through the crank ring.
    #[verifier::spinoff_prover]
    pub fn insert_order(&mut self, new_order: Order, is_buy: bool, rb_crank: &mut RingBufferCrank)
        requires
            old(self).wf(),
            resting_ok(new_order),
            placement_ok(old(self)@, new_order, is_buy),
            old(rb_crank).wf(),
            old(self)@.len() == max_orders() ==> ring_room(old(rb_crank)@) > 0 && (is_buy
                ==> old(self)@.last().leaves_qty + old(self)@.last().limit <= u64::MAX),
        ensures
            final(self).wf(),
            final(self).vault == old(self).vault,
            final(self)@ == placed(old(self)@, new_order, is_buy),
            final(self).slots() == placed_slots(old(self).slots(), old(self).vacant(), insert_index(old(self)@, new_order, is_buy)),
            final(self).vacant() == placed_vacant(old(self).vacant()),
            forall|s: int|
                0 <= s < max_orders() && s != taken_slot(old(self).slots(), old(self).vacant()) ==> (
                #[trigger] final(self).orders@[s]).order == old(self).orders@[s].order,
            final(rb_crank).wf(),
            final(rb_crank).instrmt_grp == old(rb_crank).instrmt_grp,
            final(rb_crank)@ == (if old(self)@.len() == max_orders() {
                ring_push(
                    old(rb_crank)@,
                    crank_for(
                        old(self).vault,
                        old(self)@.last().payment_acc,
                        is_buy,
                        old(self)@.last().maker,
                        old(self)@.last().leaves_qty,
                        old(self)@.last().limit,
                    ),
                )
            } else {
                old(rb_crank)@
            }),
    {
        proof {
            self.lemma_shape();
        }
        let ghost v0 = self@;
        let ghost idx = insert_index(v0, new_order, is_buy);
        if new_order.is_partially_filed() || self.is_better_than_best(&new_order, is_buy) {
            // Insert in constant time O(1)
            self.insert_front(new_order, is_buy, rb_crank);
            proof {
                assert(idx == 0);
            }
        } else if self.is_worse_than_worst(new_order, is_buy) {
            // Insert in constant time O(1)
            self.insert_back(new_order);
            proof {
                assert(idx == v0.len());
                assert(v0.insert(v0.len() as int, new_order) =~= v0.push(new_order));
            }
        } else {
            // Insert in linear time O(n)
            let (pos, i) = self.scan_position(&new_order, is_buy);
            self.insert_middle(new_order, is_buy, pos, i, rb_crank);
        }
    }

    /// Evicts the last order when the side is full.
    fn make_room(&mut self, is_buy: bool, rb_crank: &mut RingBufferCrank)
        requires
            old(self).wf(),
            old(rb_crank).wf(),
            old(self)@.len() == max_orders() ==> ring_room(old(rb_crank)@) > 0 && (is_buy
                ==> old(self)@.last().leaves_qty + old(self)@.last().limit <= u64::MAX),
        ensures
            final(self).wf(),
            final(self)@.len() < max_orders(),
            final(self).vault == old(self).vault,
            final(self)@ == (if old(self)@.len() == max_orders() {
                old(self)@.drop_last()
            } else {
                old(self)@
            }),
            final(self).slots() == (if old(self)@.len() == max_orders() {
                old(self).slots().drop_last()
            } else {
                old(self).slots()
            }),
            final(self).vacant() == (if old(self)@.len() == max_orders() {
                seq![old(self).slots().last()] + old(self).vacant()
            } else {
                old(self).vacant()
            }),
            forall|s: int|
                0 <= s < max_orders() && (old(self)@.len() < max_orders() || s != old(self).slots().last())
                    ==> (#[trigger] final(self).orders@[s]).order == old(self).orders@[s].order,
            final(rb_crank).wf(),
            final(rb_crank).instrmt_grp == old(rb_crank).instrmt_grp,
            final(rb_crank)@ == (if old(self)@.len() == max_orders() {
                ring_push(
                    old(rb_crank)@,
                    crank_for(
                        old(self).vault,
                        old(self)@.last().payment_acc,
                        is_buy,
                        old(self)@.last().maker,
                        old(self)@.last().leaves_qty,
                        old(self)@.last().limit,
                    ),
                )
            } else {
                old(rb_crank)@
            }),
    {
        proof {
            self.lemma_shape();
        }
        if self.is_full() {
            self.evict_tail(is_buy, rb_crank);
        }
        proof {
            self.lemma_shape();
        }
    }

    /// Places `new_order` in front of the best order.
    fn insert_front(&mut self, new_order: Order, is_buy: bool, rb_crank: &mut RingBufferCrank)
        requires
            old(self).wf(),
            resting_ok(new_order),
            old(rb_crank).wf(),
            old(self)@.len() == max_orders() ==> ring_room(old(rb_crank)@) > 0 && (is_buy
                ==> old(self)@.last().leaves_qty + old(self)@.last().limit <= u64::MAX),
        ensures
            final(self).wf(),
            final(self).vault == old(self).vault,
            final(self)@ == (if old(self)@.len() == max_orders() {
                old(self)@.drop_last()
            } else {
                old(self)@
            }).insert(0, new_order),
            final(self).slots() == placed_slots(old(self).slots(), old(self).vacant(), 0),
            final(self).vacant() == placed_vacant(old(self).vacant()),
            forall|s: int|
                0 <= s < max_orders() && s != taken_slot(old(self).slots(), old(self).vacant()) ==> (
                #[trigger] final(self).orders@[s]).order == old(self).orders@[s].order,
            final(rb_crank).wf(),
            final(rb_crank).instrmt_grp == old(rb_crank).instrmt_grp,
            final(rb_crank)@ == (if old(self)@.len() == max_orders() {
                ring_push(
                    old(rb_crank)@,
                    crank_for(
                        old(self).vault,
                        old(self)@.last().payment_acc,
                        is_buy,
                        old(self)@.last().maker,
                        old(self)@.last().leaves_qty,
                        old(self)@.last().limit,
                    ),
                )
            } else {
                old(rb_crank)@
            }),
    {
        self.make_room(is_buy, rb_crank);
        let p = self.alloc_slot();
        self.place(p, new_order);
        self.link_head(p);
    }

    /// Places `new_order` behind the last order of a side with room.
    fn insert_back(&mut self, new_order: Order)
        requires
            old(self).wf(),
            resting_ok(new_order),
            0 < old(self)@.len() < max_orders(),
        ensures
            final(self).wf(),
            final(self).vault == old(self).vault,
            final(self)@ == old(self)@.push(new_order),
            final(self).slots() == placed_slots(old(self).slots(), old(self).vacant(), old(self)@.len() as int),
            final(self).vacant() == placed_vacant(old(self).vacant()),
            forall|s: int|
                0 <= s < max_orders() && s != taken_slot(old(self).slots(), old(self).vacant()) ==> (
                #[trigger] final(self).orders@[s]).order == old(self).orders@[s].order,
    {
        proof {
            self.lemma_shape();
        }
        let p = self.alloc_slot();
        self.place(p, new_order);
        proof {
            self.lemma_wf_reserved_nonempty(p as int);
        }
        self.link_tail(p);
    }

    /// Places `new_order` just before the order at index `i` (in slot `pos`),
    /// the last order giving way when the side is full.
    fn insert_middle(
        &mut self,
        new_order: Order,
        is_buy: bool,
        pos: u16,
        i: Ghost<int>,
        rb_crank: &mut RingBufferCrank,
    )
        requires
            old(self).wf(),
            resting_ok(new_order),
            0 < i@ < old(self)@.len(),
            old(self).slots()[i@] == pos as int,
            old(rb_crank).wf(),
            old(self)@.len() == max_orders() ==> ring_room(old(rb_crank)@) > 0 && (is_buy
                ==> old(self)@.last().leaves_qty + old(self)@.last().limit <= u64::MAX),
        ensures
            final(self).wf(),
            final(self).vault == old(self).vault,
            final(self)@ == (if old(self)@.len() == max_orders() {
                old(self)@.drop_last()
            } else {
                old(self)@
            }).insert(i@, new_order),
            final(self).slots() == placed_slots(old(self).slots(), old(self).vacant(), i@),
            final(self).vacant() == placed_vacant(old(self).vacant()),
            forall|s: int|
                0 <= s < max_orders() && s != taken_slot(old(self).slots(), old(self).vacant()) ==> (
                #[trigger] final(self).orders@[s]).order == old(self).orders@[s].order,
            final(rb_crank).wf(),
            final(rb_crank).instrmt_grp == old(rb_crank).instrmt_grp,
            final(rb_crank)@ == (if old(self)@.len() == max_orders() {
                ring_push(
                    old(rb_crank)@,
                    crank_for(
                        old(self).vault,
                        old(self)@.last().payment_acc,
                        is_buy,
                        old(self)@.last().maker,
                        old(self)@.last().leaves_qty,
                        old(self)@.last().limit,
                    ),
                )
            } else {
                old(rb_crank)@
            }),
    {
        let ghost v0 = self@;
        let ghost sl0 = self.slots();
        proof {
            self.lemma_shape();
        }
        let tail = self.tail;
        let was_full = self.is_full();
        self.make_room(is_buy, rb_crank);
        let p = self.alloc_slot();
        self.place(p, new_order);
        proof {
            self.lemma_wf_reserved_nonempty(p as int);
        }
        if pos == tail && was_full {
            proof {
                assert(i@ == v0.len() - 1) by {
                    assert(sl0[i@] == sl0[sl0.len() - 1]);
                }
            }
            self.link_tail(p);
            proof {
                assert(v0.drop_last().insert(i@, new_order) =~= v0.drop_last().push(new_order));
            }
        } else {
            proof {
                if v0.len() == max_orders() {
                    assert(i@ < v0.len() - 1);
                }
            }
            self.link_before(p, pos, i);
        }
    }

    /// Finds, walking from the best order, the slot of the first order that
    /// `new_order` ranks ahead of, given it does not rank ahead of the best
    /// but does rank ahead of the last.
    fn scan_position(&self, new_order: &Order, is_buy: bool) -> (r: (u16, Ghost<int>))
        requires
            self.wf(),
            self@.len() > 0,
            new_order.cum_qty == 0,
            !ranks_ahead(*new_order, self@[0], is_buy),
            ranks_ahead(*new_order, self@.last(), is_buy),
        ensures
            r.1@ == insert_index(self@, *new_order, is_buy),
            0 < r.1@ < self@.len(),
            self.slots()[r.1@] == r.0 as int,
            r.0 < MAX_ORDERS,
    {
        let ghost v0 = self@;
        proof {
            self.lemma_wf();
        }
        let mut pos = self.head;
        let ghost mut i: int = 0;
        loop
            invariant
                self.wf(),
                self@ == v0,
                v0.len() > 0,
                !ranks_ahead(*new_order, v0[0], is_buy),
                ranks_ahead(*new_order, v0.last(), is_buy),
                0 <= i < v0.len(),
                self.slots()[i] == pos as int,
                pos < MAX_ORDERS,
                forall|j: int| 0 <= j < i ==> !ranks_ahead(*new_order, #[trigger] v0[j], is_buy),
            ensures
                0 <= i < v0.len(),
                self.slots()[i] == pos as int,
                pos < MAX_ORDERS,
                ranks_ahead(*new_order, v0[i], is_buy),
                forall|j: int| 0 <= j < i ==> !ranks_ahead(*new_order, #[trigger] v0[j], is_buy),
            decreases v0.len() - i,
        {
            proof {
                self.lemma_wf();
            }
            let other = self.order_at(pos);
            if new_order.is_better_than(&other, is_buy) {
                break;
            }
            proof {
                assert(i != v0.len() - 1);
            }
            pos = match self.next_order(pos) {
                Some(next_pos) => next_pos,
                None => {
                    proof {
                        assert(false);
                    }
                    0
                },
            };
            proof {
                i = i + 1;
            }
        }
        proof {
            lemma_first_ahead_is(v0, *new_order, is_buy, 0, i);
        }
        (pos, Ghost(i))
    }

    proof fn lemma_wf_reserved_nonempty(&self, p: int)
        requires
            self.inv(p),
        ensures
            self@.len() == self.live@.len(),
    {
    }
}

impl Side {
    /// Sets the vault holding this side's deposits.
    pub fn set_vault(&mut self, vault: Key)
        ensures
            *final(self) == (Side { vault, ..*old(self) }),
            final(self).wf() == old(self).wf(),
            final(self)@ == old(self)@,
            final(self).slots() == old(self).slots(),
    {
        self.vault = vault;
    }
}


/// The slot numbers of `v` as integers.
pub open spec fn slot_ints(v: Seq<u16>) -> Seq<int> {
    v.map_values(|x: u16| x as int)
}

/// Whether `lv` and `fv` split the slots below `k` exactly, as `seqs_ok`
/// asks of the resting and the free slots.
fn check_partition(lv: &Vec<u16>, fv: &Vec<u16>, k: u16) -> (r: bool)
    ensures
        r == seqs_ok(slot_ints(lv@), slot_ints(fv@), k as int, -1),
{
    let ghost live = slot_ints(lv@);
    let ghost free = slot_ints(fv@);
    if k > 2048 || lv.len() > 2048 || fv.len() > 2048 || lv.len() + fv.len() != k as usize {
        return false;
    }
    let mut marks: Vec<u8> = Vec::new();
    let mut s: usize = 0;
    while s < 2048
        invariant
            marks.len() == s,
            s <= 2048,
            forall|t: int| 0 <= t < s ==> marks@[t] == 0,
        decreases 2048 - s,
    {
        marks.push(0);
        s = s + 1;
    }
    let mut i: usize = 0;
    while i < lv.len()
        invariant
            marks.len() == 2048,
            k <= 2048,
            i <= lv.len(),
            live == slot_ints(lv@),
            free == slot_ints(fv@),
            live.len() + free.len() == k,
            forall|j: int| 0 <= j < i ==> 0 <= #[trigger] live[j] < k,
            forall|j: int| 0 <= j < i ==> marks@[#[trigger] live[j]] == 1,
            forall|a: int, b: int| 0 <= a < b < i ==> #[trigger] live[a] != #[trigger] live[b],
            forall|t: int|
                0 <= t < 2048 && #[trigger] marks@[t] != 0 ==> marks@[t] == 1 && exists|j: int|
                    0 <= j < i && live[j] == t,
        decreases lv.len() - i,
    {
        let x = lv[i];
        assert(live[i as int] == x as int);
        if x >= k {
            return false;
        }
        if marks[x as usize] != 0 {
            let ghost j = choose|j: int| 0 <= j < i && live[j] == x as int;
            assert(live[j] == live[i as int]);
            assert(!live.no_duplicates());
            return false;
        }
        marks.set(x as usize, 1);
        i = i + 1;
    }
    let mut m: usize = 0;
    while m < fv.len()
        invariant
            marks.len() == 2048,
            k <= 2048,
            m <= fv.len(),
            live == slot_ints(lv@),
            free == slot_ints(fv@),
            live.len() + free.len() == k,
            live.no_duplicates(),
            forall|j: int| 0 <= j < live.len() ==> 0 <= #[trigger] live[j] < k,
            forall|j: int| 0 <= j < live.len() ==> marks@[#[trigger] live[j]] == 1,
            forall|j: int| 0 <= j < m ==> 0 <= #[trigger] free[j] < k,
            forall|j: int| 0 <= j < m ==> marks@[#[trigger] free[j]] == 2,
            forall|a: int, b: int| 0 <= a < b < m ==> #[trigger] free[a] != #[trigger] free[b],
            forall|t: int|
                0 <= t < 2048 && #[trigger] marks@[t] == 1 ==> exists|j: int|
                    0 <= j < live.len() && live[j] == t,
            forall|t: int|
                0 <= t < 2048 && #[trigger] marks@[t] == 2 ==> exists|j: int|
                    0 <= j < m && free[j] == t,
            forall|t: int| 0 <= t < 2048 ==> #[trigger] marks@[t] <= 2,
        decreases fv.len() - m,
    {
        let x = fv[m];
        assert(free[m as int] == x as int);
        if x >= k {
            return false;
        }
        if marks[x as usize] == 1 {
            let ghost j = choose|j: int| 0 <= j < live.len() && live[j] == x as int;
            assert(live[j] == free[m as int]);
            return false;
        }
        if marks[x as usize] == 2 {
            let ghost j = choose|j: int| 0 <= j < m && free[j] == x as int;
            assert(free[j] == free[m as int]);
            assert(!free.no_duplicates());
            return false;
        }
        marks.set(x as usize, 2);
        m = m + 1;
    }
    let mut t: usize = 0;
    while t < k as usize
        invariant
            marks.len() == 2048,
            k <= 2048,
            t <= k,
            live == slot_ints(lv@),
            free == slot_ints(fv@),
            forall|j: int| 0 <= j < live.len() ==> marks@[#[trigger] live[j]] == 1,
            forall|j: int| 0 <= j < free.len() ==> marks@[#[trigger] free[j]] == 2,
            forall|u: int|
                0 <= u < 2048 && #[trigger] marks@[u] == 1 ==> exists|j: int|
                    0 <= j < live.len() && live[j] == u,
            forall|u: int|
                0 <= u < 2048 && #[trigger] marks@[u] == 2 ==> exists|j: int|
                    0 <= j < free.len() && free[j] == u,
            forall|u: int| 0 <= u < t ==> #[trigger] marks@[u] != 0,
        decreases k - t,
    {
        if marks[t] == 0 {
            assert(!live.contains(t as int)) by {
                if live.contains(t as int) {
                    let j = choose|j: int| 0 <= j < live.len() && live[j] == t as int;
                    assert(marks@[live[j]] == 1);
                }
            }
            assert(!free.contains(t as int)) by {
                if free.contains(t as int) {
                    let j = choose|j: int| 0 <= j < free.len() && free[j] == t as int;
                    assert(marks@[free[j]] == 2);
                }
            }
            return false;
        }
        t = t + 1;
    }
    assert forall|s: int| 0 <= s < k implies #[trigger] live.contains(s) || free.contains(s) || s == -1 by {
        assert(marks@[s] != 0);
        if marks@[s] == 1 {
            let j = choose|j: int| 0 <= j < live.len() && live[j] == s;
            assert(live[j] == s);
        } else {
            let j = choose|j: int| 0 <= j < free.len() && free[j] == s;
            assert(free[j] == s);
        }
    }
    assert forall|a: int, b: int|
        0 <= a < live.len() && 0 <= b < free.len() implies #[trigger] live[a] != #[trigger] free[b] by {
        assert(marks@[live[a]] == 1);
        assert(marks@[free[b]] == 2);
    }
    true
}

/// Whether every slot from `k` on is untouched.
fn check_fresh(orders: &[OrderHeader; 2048], k: u16) -> (r: bool)
    ensures
        r == fresh_ok(orders@, k as int),
{
    let mut s: usize = k as usize;
    while s < 2048
        invariant
            k <= s,
            forall|u: int| k <= u < s && u < 2048 ==> slot_clear((#[trigger] orders@[u]).order)
                && orders@[u].next == 0,
        decreases 2048 - s,
    {
        let h = orders[s];
        if !(h.order.leaves_qty == 0 && h.order.limit == 0 && h.next == 0) {
            assert(!fresh_ok(orders@, k as int)) by {
                assert(k <= s < max_orders());
                assert(orders@[s as int] == h);
            }
            return false;
        }
        s = s + 1;
    }
    true
}


/// Follows the resting list from `head`, checking each slot as it goes: the
/// slots in list order, or `None` when they do not form a valid list. When
/// `known`, `target` is a valid list from `head` and the walk returns it.
fn walk_live(
    orders: &[OrderHeader; 2048],
    head: u16,
    Ghost(target): Ghost<Seq<int>>,
    Ghost(known): Ghost<bool>,
) -> (r: Option<Vec<u16>>)
    requires
        head < 2048,
        known ==> target.len() > 0 && target[0] == head as int && links_ok(orders@, target)
            && resting_all(orders@, target) && target.no_duplicates() && target.len() <= 2048
            && forall|i: int| 0 <= i < target.len() ==> 0 <= #[trigger] target[i] < 2048,
    ensures
        r matches Some(lv) ==> {
            &&& 1 <= lv.len() <= 2048
            &&& lv@[0] == head
            &&& forall|i: int| 0 <= i < lv.len() ==> #[trigger] lv@[i] < 2048
            &&& links_ok(orders@, slot_ints(lv@))
            &&& resting_all(orders@, slot_ints(lv@))
        },
        known ==> (r matches Some(lv) && slot_ints(lv@) == target),
{
    let mut lv: Vec<u16> = Vec::new();
    let mut cur: u16 = head;
    let mut prev: u16 = head;
    loop
        invariant
            cur < 2048,
            prev < 2048,
            lv.len() < 2048,
            lv.len() == 0 ==> cur == head && prev == head,
            lv.len() > 0 ==> lv@[0] == head && prev == lv@.last() && orders@[prev as int].next == cur
                && cur != prev,
            forall|i: int| 0 <= i < lv.len() ==> #[trigger] lv@[i] < 2048,
            forall|i: int| 0 <= i < lv.len() ==> resting_ok(orders@[#[trigger] lv@[i] as int].order),
            forall|i: int|
                0 <= i && i + 1 < lv.len() ==> orders@[#[trigger] lv@[i] as int].next == lv@[i + 1],
            forall|i: int|
                0 <= i < lv.len() ==> orders@[#[trigger] lv@[i] as int].prev == (if i > 0 {
                    lv@[i - 1]
                } else {
                    lv@[i]
                }),
            known ==> target.len() > 0 && target[0] == head as int && links_ok(orders@, target)
                && resting_all(orders@, target) && target.no_duplicates() && target.len() <= 2048
                && forall|i: int| 0 <= i < target.len() ==> 0 <= #[trigger] target[i] < 2048,
            known ==> lv.len() < target.len() && slot_ints(lv@) == target.take(lv.len() as int)
                && cur as int == target[lv.len() as int],
        decreases 2048 - lv.len(),
    {
        let ghost n = lv.len() as int;
        let h = orders[cur as usize];
        proof {
            if known {
                assert(orders@[target[n]] == h);
                assert(n > 0 ==> target[n - 1] == slot_ints(lv@)[n - 1]);
            }
        }
        if !(h.order.limit > 0 && h.order.leaves_qty > 0 && h.order.cum_qty <= u64::MAX
            - h.order.leaves_qty) {
            return None;
        }
        if h.prev != prev {
            return None;
        }
        let ghost lv0 = lv@;
        lv.push(cur);
        proof {
            assert(lv@ == lv0.push(cur));
            if known {
                assert(slot_ints(lv@) =~= target.take(n + 1));
            }
        }
        if h.next == cur {
            proof {
                if known {
                    if n + 1 < target.len() {
                        assert(target[n] != target[n + 1]);
                    }
                    assert(slot_ints(lv@) =~= target);
                }
                assert forall|i: int| 0 <= i < lv.len() implies (#[trigger] orders@[slot_ints(
                    lv@,
                )[i]]).next as int == (if i + 1 < lv.len() {
                    slot_ints(lv@)[i + 1]
                } else {
                    slot_ints(lv@)[i]
                }) by {
                    assert(slot_ints(lv@)[i] == lv@[i] as int);
                    if i + 1 < lv.len() {
                        assert(slot_ints(lv@)[i + 1] == lv@[i + 1] as int);
                    }
                }
                assert forall|i: int| 0 <= i < lv.len() implies (#[trigger] orders@[slot_ints(
                    lv@,
                )[i]]).prev as int == (if i > 0 {
                    slot_ints(lv@)[i - 1]
                } else {
                    slot_ints(lv@)[i]
                }) by {
                    assert(slot_ints(lv@)[i] == lv@[i] as int);
                    if i > 0 {
                        assert(slot_ints(lv@)[i - 1] == lv@[i - 1] as int);
                    }
                }
                assert forall|i: int| 0 <= i < lv.len() implies resting_ok(
                    (#[trigger] orders@[slot_ints(lv@)[i]]).order,
                ) by {
                    assert(slot_ints(lv@)[i] == lv@[i] as int);
                }
            }
            return Some(lv);
        }
        proof {
            if known {
                assert(n + 1 < target.len());
                assert(target[n + 1] < 2048);
            }
        }
        if h.next >= 2048 || lv.len() >= 2048 {
            return None;
        }
        prev = cur;
        cur = h.next;
    }
}


/// Follows the chain of free slots from `tombstone` until the resting slots
/// `lv` and the free slots seen so far fill every slot below the current
/// link, and the slots from that link on are untouched: that link is the
/// ladder. `None` when no such point is reached. When `known`, `free0` and
/// `k0` are a valid chain and ladder, and the walk finds a valid one.
fn walk_free(
    orders: &[OrderHeader; 2048],
    tombstone: u16,
    lv: &Vec<u16>,
    Ghost(free0): Ghost<Seq<int>>,
    Ghost(k0): Ghost<int>,
    Ghost(known): Ghost<bool>,
) -> (r: Option<(Vec<u16>, u16)>)
    requires
        known ==> seqs_ok(slot_ints(lv@), free0, k0, -1) && free_ok(orders@, free0, k0)
            && fresh_ok(orders@, k0) && tombstone as int == (if free0.len() > 0 {
            free0[0]
        } else {
            k0
        }),
    ensures
        r matches Some((fv, k)) ==> {
            &&& seqs_ok(slot_ints(lv@), slot_ints(fv@), k as int, -1)
            &&& free_ok(orders@, slot_ints(fv@), k as int)
            &&& fresh_ok(orders@, k as int)
            &&& tombstone as int == (if fv.len() > 0 {
                fv@[0] as int
            } else {
                k as int
            })
        },
        known ==> r is Some,
{
    let mut fv: Vec<u16> = Vec::new();
    let mut v: u16 = tombstone;
    loop
        invariant
            fv.len() <= 2048,
            fv.len() == 0 ==> v == tombstone,
            fv.len() > 0 ==> fv@[0] == tombstone && orders@[fv@.last() as int].next == v,
            forall|i: int| 0 <= i < fv.len() ==> #[trigger] fv@[i] < 2048,
            forall|i: int|
                0 <= i && i + 1 < fv.len() ==> orders@[#[trigger] fv@[i] as int].next == fv@[i + 1],
            forall|i: int| 0 <= i < fv.len() ==> slot_clear(orders@[#[trigger] fv@[i] as int].order),
            known ==> seqs_ok(slot_ints(lv@), free0, k0, -1) && free_ok(orders@, free0, k0)
                && fresh_ok(orders@, k0),
            known ==> fv.len() <= free0.len() && slot_ints(fv@) == free0.take(fv.len() as int)
                && v as int == (if fv.len() < free0.len() {
                free0[fv.len() as int]
            } else {
                k0
            }),
        decreases 2048 - fv.len(),
    {
        proof {
            if known && fv.len() == free0.len() {
                assert(slot_ints(fv@) =~= free0);
            }
        }
        if lv.len() <= 2048 && v as usize == lv.len() + fv.len() && check_partition(lv, &fv, v)
            && check_fresh(orders, v) {
            proof {
                let f = slot_ints(fv@);
                assert forall|i: int| 0 <= i < f.len() implies (#[trigger] orders@[f[i]]).next as int
                    == (if i + 1 < f.len() {
                    f[i + 1]
                } else {
                    v as int
                }) by {
                    assert(f[i] == fv@[i] as int);
                    if i + 1 < f.len() {
                        assert(f[i + 1] == fv@[i + 1] as int);
                    }
                }
                assert forall|i: int| 0 <= i < f.len() implies slot_clear(
                    (#[trigger] orders@[f[i]]).order,
                ) by {
                    assert(f[i] == fv@[i] as int);
                }
            }
            return Some((fv, v));
        }
        let ghost m = fv.len() as int;
        proof {
            if known {
                assert(m < free0.len());
                assert(0 <= free0[m] < k0);
                assert(slot_clear(orders@[free0[m]].order));
                assert(orders@[free0[m]].next as int == (if m + 1 < free0.len() {
                    free0[m + 1]
                } else {
                    k0
                }));
            }
        }
        if v >= 2048 || fv.len() >= 2048 {
            return None;
        }
        let h = orders[v as usize];
        if !(h.order.leaves_qty == 0 && h.order.limit == 0) {
            return None;
        }
        let ghost fv0 = fv@;
        fv.push(v);
        proof {
            assert(fv@ == fv0.push(v));
            if known {
                assert(slot_ints(fv@) =~= free0.take(m + 1));
            }
        }
        v = h.next;
    }
}

/// On a valid layout, the list is empty exactly when the head slot holds
/// nothing to execute.
proof fn lemma_empty_head(
    o: Seq<OrderHeader>,
    tombstone: u16,
    head: u16,
    tail: u16,
    live: Seq<int>,
    free: Seq<int>,
    k: int,
)
    requires
        o.len() == max_orders(),
        parts_ok(o, tombstone, head, tail, live, free, k, -1),
    ensures
        live.len() > 0 <==> o[head as int].order.leaves_qty > 0,
{
    if live.len() > 0 {
        assert(resting_ok(o[live[0]].order));
    } else if free.len() > 0 {
        assert(slot_clear(o[free[0]].order));
    } else {
        assert(slot_clear(o[0].order));
    }
}

/// Two valid layouts of the same slots, head, tail and free-slot pointer
/// list the same resting slots.
proof fn lemma_live_unique(
    o: Seq<OrderHeader>,
    tombstone: u16,
    head: u16,
    tail: u16,
    l1: Seq<int>,
    f1: Seq<int>,
    k1: int,
    l2: Seq<int>,
    f2: Seq<int>,
    k2: int,
)
    requires
        o.len() == max_orders(),
        parts_ok(o, tombstone, head, tail, l1, f1, k1, -1),
        parts_ok(o, tombstone, head, tail, l2, f2, k2, -1),
    ensures
        l1 == l2,
{
    lemma_empty_head(o, tombstone, head, tail, l1, f1, k1);
    lemma_empty_head(o, tombstone, head, tail, l2, f2, k2);
    if l1.len() > 0 {
        let n = if l1.len() < l2.len() { l1.len() as int } else { l2.len() as int };
        assert forall|i: int| 0 <= i < n implies l1[i] == l2[i] by {
            lemma_prefix_eq(o, l1, l2, i);
        }
        if l1.len() < l2.len() {
            let x = l1.len() - 1;
            assert(o[l1[x]].next as int == l1[x]);
            assert(o[l2[x]].next as int == l2[x + 1]);
            assert(l2[x] != l2[x + 1]);
        } else if l2.len() < l1.len() {
            let x = l2.len() - 1;
            assert(o[l2[x]].next as int == l2[x]);
            assert(o[l1[x]].next as int == l1[x + 1]);
            assert(l1[x] != l1[x + 1]);
        }
        assert(l1 =~= l2);
    } else {
        assert(l1 =~= l2);
    }
}

proof fn lemma_prefix_eq(o: Seq<OrderHeader>, l1: Seq<int>, l2: Seq<int>, i: int)
    requires
        links_ok(o, l1),
        links_ok(o, l2),
        l1.len() > 0,
        l2.len() > 0,
        l1[0] == l2[0],
        0 <= i < l1.len(),
        i < l2.len(),
    ensures
        l1[i] == l2[i],
    decreases i,
{
    if i > 0 {
        lemma_prefix_eq(o, l1, l2, i - 1);
        assert(o[l1[i - 1]].next as int == l1[i]);
        assert(o[l2[i - 1]].next as int == l2[i]);
    }
}

impl Side {
    /// The raw parts of some well-formed side: slots, free-slot pointer,
    /// head and tail.
    pub closed spec fn layout_ok(orders: Seq<OrderHeader>, tombstone: u16, head: u16, tail: u16) -> bool {
        exists|live: Seq<int>, free: Seq<int>, k: int|
            #[trigger] parts_ok(orders, tombstone, head, tail, live, free, k, -1)
    }

    /// The raw parts of a well-formed side are a valid layout.
    pub proof fn lemma_wf_layout(&self)
        requires
            self.wf(),
        ensures
            Side::layout_ok(self.orders@, self.tombstone, self.head, self.tail),
    {
        assert(parts_ok(
            self.orders@,
            self.tombstone,
            self.head,
            self.tail,
            self.live@,
            self.free@,
            self.ladder@,
            -1,
        ));
    }

    /// Law: the raw parts of a side determine its orders. Two well-formed
    /// sides with the same slots, free-slot pointer, head and tail rest the
    /// same orders in the same slots.
    pub proof fn law_layout_determines(a: &Side, b: &Side)
        requires
            a.wf(),
            b.wf(),
            a.orders == b.orders,
            a.tombstone == b.tombstone,
            a.head == b.head,
            a.tail == b.tail,
        ensures
            a.slots() == b.slots(),
            a@ == b@,
    {
        lemma_live_unique(
            a.orders@,
            a.tombstone,
            a.head,
            a.tail,
            a.live@,
            a.free@,
            a.ladder@,
            b.live@,
            b.free@,
            b.ladder@,
        );
        assert(a@ =~= b@);
    }

    /// Reads a side back from its raw parts: `Some` exactly when they form a
    /// well-formed side, which then holds them unchanged.
    pub fn from_layout(
        orders: &[OrderHeader; 2048],
        tombstone: u16,
        head: u16,
        tail: u16,
        vault: Key,
    ) -> (r: Option<Side>)
        ensures
            r is Some <==> Side::layout_ok(orders@, tombstone, head, tail),
            r matches Some(s) ==> {
                &&& s.wf()
                &&& s.orders == *orders
                &&& s.tombstone == tombstone
                &&& s.head == head
                &&& s.tail == tail
                &&& s.vault == vault
            },
    {
        let ghost known = Side::layout_ok(orders@, tombstone, head, tail);
        let ghost (live0, free0, k0) = choose|live: Seq<int>, free: Seq<int>, k: int|
            #[trigger] parts_ok(orders@, tombstone, head, tail, live, free, k, -1);
        if head >= 2048 || tail >= 2048 {
            return None;
        }
        proof {
            if known {
                lemma_empty_head(orders@, tombstone, head, tail, live0, free0, k0);
            }
        }
        let lv: Vec<u16> = if orders[head as usize].order.leaves_qty > 0 {
            match walk_live(orders, head, Ghost(live0), Ghost(known)) {
                Some(lv) => {
                    if lv[lv.len() - 1] != tail {
                        return None;
                    }
                    lv
                },
                None => {
                    return None;
                },
            }
        } else {
            if head != tail || head != tombstone {
                return None;
            }
            let lv: Vec<u16> = Vec::new();
            proof {
                if known {
                    assert(slot_ints(lv@) =~= live0);
                }
            }
            lv
        };
        match walk_free(orders, tombstone, &lv, Ghost(free0), Ghost(k0), Ghost(known)) {
            Some((fv, k)) => {
                let s = Side {
                    orders: *orders,
                    tombstone,
                    head,
                    tail,
                    vault,
                    live: Ghost(slot_ints(lv@)),
                    free: Ghost(slot_ints(fv@)),
                    ladder: Ghost(k as int),
                };
                proof {
                    let l = slot_ints(lv@);
                    if lv.len() > 0 {
                        assert(l[0] == lv@[0] as int);
                        assert(l.last() == lv@[lv.len() - 1] as int);
                    }
                    if fv.len() > 0 {
                        assert(slot_ints(fv@)[0] == fv@[0] as int);
                    }
                    assert(parts_ok(orders@, tombstone, head, tail, l, slot_ints(fv@), k as int, -1));
                }
                Some(s)
            },
            None => None,
        }
    }
}

} // verus!

verus! {

/// Each side of `sides` comes from the one before by taking its first
/// vacant slot, of which it has at least one.
pub open spec fn takes_vacant_in_turn(sides: Seq<Side>) -> bool {
    forall|k: int|
        0 <= k < sides.len() - 1 ==> (#[trigger] sides[k]).vacant().len() > 0 && sides[k + 1].vacant()
            == sides[k].vacant().drop_first()
}

/// Law: free slots are handed out one at a time, never twice and never one
/// that holds an order. Along a run of sides, each one the next after an
/// order was placed on a side with room (which takes the first vacant slot
/// and leaves the others vacant, in order, as `insert_order` states), the
/// slots taken are the first vacant slots of the first side, in order: they
/// are distinct, none of them held an order in the first side, and there
/// are at most as many of them as the first side had vacant slots, 2048 less
/// its orders.
pub proof fn law_vacant_handout(sides: Seq<Side>)
    requires
        sides.len() > 0,
        sides[0].wf(),
        takes_vacant_in_turn(sides),
    ensures
        sides.len() - 1 <= max_orders() - sides[0]@.len(),
        forall|i: int|
            0 <= i < sides.len() - 1 ==> #[trigger] taken_slot(sides[i].slots(), sides[i].vacant())
                == sides[0].vacant()[i],
        forall|i: int, j: int|
            0 <= i < j < sides.len() - 1 ==> #[trigger] taken_slot(sides[i].slots(), sides[i].vacant())
                != #[trigger] taken_slot(sides[j].slots(), sides[j].vacant()),
        forall|i: int|
            0 <= i < sides.len() - 1 ==> !sides[0].slots().contains(
                #[trigger] taken_slot(sides[i].slots(), sides[i].vacant()),
            ),
{
    let v0 = sides[0].vacant();
    sides[0].lemma_vacant();
    assert forall|i: int| 0 <= i < sides.len() implies #[trigger] sides[i].vacant() == v0.skip(i)
        && (i < sides.len() - 1 ==> i < v0.len()) by {
        lemma_vacant_run(sides, i);
    }
    if sides.len() > 1 {
        let n = sides.len() - 1;
        assert(sides[n - 1].vacant() == v0.skip(n - 1));
    }
    assert forall|i: int|
        0 <= i < sides.len() - 1 implies #[trigger] taken_slot(sides[i].slots(), sides[i].vacant())
        == v0[i] by {
        assert(sides[i].vacant() == v0.skip(i));
    }
}

proof fn lemma_vacant_run(sides: Seq<Side>, i: int)
    requires
        sides.len() > 0,
        0 <= i < sides.len(),
        takes_vacant_in_turn(sides),
    ensures
        i <= sides[0].vacant().len(),
        sides[i].vacant() == sides[0].vacant().skip(i),
        i < sides.len() - 1 ==> i < sides[0].vacant().len(),
    decreases i,
{
    if i > 0 {
        lemma_vacant_run(sides, i - 1);
        assert(sides[i].vacant() == sides[i - 1].vacant().drop_first());
        assert(sides[0].vacant().skip(i - 1).drop_first() =~= sides[0].vacant().skip(i));
    } else {
        assert(sides[0].vacant().skip(0) =~= sides[0].vacant());
    }
    if i < sides.len() - 1 {
        assert(sides[i].vacant().len() > 0);
    }
}

} // verus!
