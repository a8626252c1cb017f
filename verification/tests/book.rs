use nft_clob::account_states::book::{Book, MAX_ORDERS};
use nft_clob::account_states::crank::RingBufferCrank;
use nft_clob::account_states::filled_exec_report::RingBufferFilledExecReport;
use nft_clob::account_states::order::Order;
use nft_clob::account_states::order_header::OrderHeader;
use nft_clob::account_states::side::Side;
use nft_clob::enums::OrderType;

const GTC: OrderType = OrderType::GTC;

/// Places an order with its trades stamped at slot 1, time 2.
fn place(
    book: &mut Book,
    order: Order,
    order_type: OrderType,
    is_buy: bool,
    rb: &mut RingBufferFilledExecReport,
    rb_crank: &mut RingBufferCrank,
) -> Order {
    book.new_limit_at(order, order_type, is_buy, rb, rb_crank, 1, 2)
}

/// The resting orders of a side, best first, as (limit, leaves quantity).
fn walk(book: &Book, bids: bool) -> Vec<(u64, u64)> {
    let side = if bids { &book.bids } else { &book.asks };
    let mut out = Vec::new();
    if side.orders[side.head as usize].order.get_leaves_qty() == 0 {
        return out;
    }
    let mut pos = side.head;
    loop {
        let o = side.orders[pos as usize].order;
        out.push((o.limit, o.get_leaves_qty()));
        if pos == side.tail {
            break;
        }
        pos = side.orders[pos as usize].next;
    }
    out
}

#[test]
fn it_should_add_single_order_to_both_sides() {
    let mut book = Book::new();
    let mut rb = RingBufferFilledExecReport::new();
    let mut rb_crank = RingBufferCrank::new();

    let sell_nos = Order::new_test(10, 3);
    let buy_nos = Order::new_test(9, 2);

    place(&mut book, sell_nos, GTC, false, &mut rb, &mut rb_crank);
    place(&mut book, buy_nos, GTC, true, &mut rb, &mut rb_crank);

    assert_eq!(book.ask_min, 10);
    assert_eq!(book.asks.orders[0].order.limit, 10);
    assert_eq!(book.asks.orders[0].order.get_leaves_qty(), 3);
    assert_eq!(book.asks.orders[0].order.get_cum_qty(), 0);

    assert_eq!(book.bid_max, 9);
    assert_eq!(book.bids.orders[0].order.limit, 9);
    assert_eq!(book.bids.orders[0].order.get_leaves_qty(), 2);
    assert_eq!(book.bids.orders[0].order.get_cum_qty(), 0);
}

#[test]
fn it_should_add_many_orders_to_asks_side() {
    let mut book = Book::new();
    let mut rb = RingBufferFilledExecReport::new();
    let mut rb_crank = RingBufferCrank::new();
    let size = 2;
    let mut sell_limits: Vec<u64> = vec![17, 3, 0, 99, 3, 42, 5, 1, 0, 64, 17, 8, 1000, 2, 7];
    for i in sell_limits.iter() {
        if *i == 0 {
            continue;
        }
        let sell_nos = Order::new_test(*i, size);
        place(&mut book, sell_nos, GTC, false, &mut rb, &mut rb_crank);
    }

    sell_limits.sort();
    let mut cur_order_pos = book.asks.head;
    for i in sell_limits.into_iter() {
        if i == 0 {
            continue;
        }
        let order = book.asks.orders[cur_order_pos as usize];
        assert_eq!(order.order.limit, i);
        cur_order_pos = order.next;
    }
}

#[test]
fn it_should_add_many_orders_to_bids_side() {
    let mut book = Book::new();
    let mut rb = RingBufferFilledExecReport::new();
    let mut rb_crank = RingBufferCrank::new();
    let size = 2;

    let mut buy_limits = [10, 11, 12, 13, 14, 15, 16, 9, 25, 12, 8, 7, 8, 6, 6, 19];
    for i in buy_limits {
        let buy_nos = Order::new_test(i, size);
        place(&mut book, buy_nos, GTC, true, &mut rb, &mut rb_crank);
    }

    buy_limits.sort_by(|a, b| b.cmp(a));
    let mut cur_order_pos = book.bids.head;
    for i in buy_limits {
        let order = book.bids.orders[cur_order_pos as usize];
        assert_eq!(order.order.limit, i);
        cur_order_pos = order.next;
    }
}

#[test]
fn it_should_add_many_orders_with_incremental_price() {
    let mut book = Book::new();
    let mut rb = RingBufferFilledExecReport::new();
    let mut rb_crank = RingBufferCrank::new();
    let size = 2;

    for i in 1..MAX_ORDERS {
        let buy_nos = Order::new_test(i as u64, size);
        place(&mut book, buy_nos, GTC, true, &mut rb, &mut rb_crank);
    }

    for i in 1..MAX_ORDERS {
        let sell_nos = Order::new_test(i as u64, size);
        place(&mut book, sell_nos, GTC, false, &mut rb, &mut rb_crank);
    }
}

#[test]
fn it_should_match_a_few_orders() {
    let mut book = Book::new();
    let mut rb = RingBufferFilledExecReport::new();
    let mut rb_crank = RingBufferCrank::new();

    let buy_nos_1 = Order::new_test(11 as u64, 2);
    place(&mut book, buy_nos_1, GTC, true, &mut rb, &mut rb_crank);
    let buy_nos_2 = Order::new_test(10, 4);
    place(&mut book, buy_nos_2, GTC, true, &mut rb, &mut rb_crank);

    let sell_nos_1 = Order::new_test(10, 1);
    place(&mut book, sell_nos_1, GTC, false, &mut rb, &mut rb_crank);

    assert_eq!(book.asks.orders[0].order.get_leaves_qty(), 0);
    assert_eq!(book.asks.orders[0].order.get_cum_qty(), 0);

    assert_eq!(book.bids.orders[0].order.get_leaves_qty(), 1);
    assert_eq!(book.bids.orders[0].order.get_cum_qty(), 1);
    assert_eq!(book.bids.orders[0].order.limit, 11);

    assert_eq!(book.bids.orders[1].order.get_leaves_qty(), 4);
    assert_eq!(book.bids.orders[1].order.get_cum_qty(), 0);
    assert_eq!(book.bids.orders[1].order.limit, 10);

    let sell_nos_2 = Order::new_test(10, 2);
    place(&mut book, sell_nos_2, GTC, false, &mut rb, &mut rb_crank);

    assert_eq!(book.bids.orders[0].order.get_leaves_qty(), 0);
    assert_eq!(book.bids.orders[0].order.get_cum_qty(), 0);
    assert_eq!(book.bids.orders[0].order.limit, 0);

    assert_eq!(book.bids.orders[1].order.get_leaves_qty(), 3);
    assert_eq!(book.bids.orders[1].order.get_cum_qty(), 1);
    assert_eq!(book.bids.orders[1].order.limit, 10);
}

#[test]
fn it_should_place_a_few_orders_1() {
    let mut book = Book::new();
    let mut rb = RingBufferFilledExecReport::new();
    let mut rb_crank = RingBufferCrank::new();

    let buy_nos_1 = Order::new_test(182, 123);
    let buy_nos_2 = Order::new_test(255, 184);
    let sell_nos_1 = Order::new_test(23, 33);
    let sell_nos_2 = Order::new_test(189, 31);

    place(&mut book, buy_nos_1, GTC, true, &mut rb, &mut rb_crank);
    place(&mut book, sell_nos_1, GTC, false, &mut rb, &mut rb_crank);
    place(&mut book, buy_nos_2, GTC, true, &mut rb, &mut rb_crank);
    place(&mut book, sell_nos_2, GTC, false, &mut rb, &mut rb_crank);

    assert_eq!(book.bids.tail, 0);
    assert_eq!(book.bids.head, 1);
    assert_eq!(book.bids.orders[0].order.limit, 182);
    assert_eq!(book.bids.orders[0].order.get_leaves_qty(), 90);
    assert_eq!(book.bids.orders[1].order.limit, 255);
    assert_eq!(book.bids.orders[1].order.get_leaves_qty(), 153);
}

fn place_alternating(buy_orders: &[(u64, u64)], sell_orders: &[(u64, u64)]) -> Book {
    let mut book = Book::new();
    let mut rb = RingBufferFilledExecReport::new();
    let mut rb_crank = RingBufferCrank::new();
    let mut buy_orders = buy_orders.to_vec();
    let mut sell_orders = sell_orders.to_vec();
    loop {
        let (price, size) = buy_orders.remove(0);
        println!("price {}", price);
        let buy_nos = Order::new_test(price, size);
        place(&mut book, buy_nos, GTC, true, &mut rb, &mut rb_crank);

        let (price, size) = sell_orders.remove(0);
        let sell_nos = Order::new_test(price, size);
        place(&mut book, sell_nos, GTC, false, &mut rb, &mut rb_crank);

        if buy_orders.len() == 0 && sell_orders.len() == 0 {
            break;
        }
    }
    book
}

#[test]
fn it_should_place_a_few_orders_2() {
    let book = place_alternating(&[(12, 216), (179, 98)], &[(22, 100), (51, 147)]);

    assert_eq!(book.bids.tail, 0);
    assert_eq!(book.bids.head, 0);
    assert_eq!(book.bids.orders[0].order.limit, 12);
    assert_eq!(book.bids.orders[0].order.get_leaves_qty(), 216);

    assert_eq!(book.asks.tail, 1);
    assert_eq!(book.asks.head, 0);
    assert_eq!(book.asks.orders[0].order.limit, 22);
    assert_eq!(book.asks.orders[0].order.get_leaves_qty(), 2);
    assert_eq!(book.asks.orders[1].order.limit, 51);
    assert_eq!(book.asks.orders[1].order.get_leaves_qty(), 147);
}

#[test]
fn it_should_place_a_few_orders_3() {
    let book = place_alternating(&[(255, 95), (197, 236)], &[(199, 196), (91, 3)]);

    assert_eq!(book.bids.tail, 0);
    assert_eq!(book.bids.head, 0);
    assert_eq!(book.bids.orders[0].order.limit, 197);
    assert_eq!(book.bids.orders[0].order.get_leaves_qty(), 233);

    assert_eq!(book.asks.tail, 0);
    assert_eq!(book.asks.head, 0);
    assert_eq!(book.asks.orders[0].order.limit, 199);
    assert_eq!(book.asks.orders[0].order.get_leaves_qty(), 101);
}

#[test]
fn it_should_place_a_few_orders_4() {
    let book = place_alternating(&[(226, 135), (183, 46)], &[(38, 157), (1, 148)]);

    assert_eq!(book.bids.tail, 0);
    assert_eq!(book.bids.head, 0);
    assert_eq!(book.bids.orders[0].order.limit, 0);
    assert_eq!(book.bids.orders[0].order.get_leaves_qty(), 0);

    assert_eq!(book.asks.tail, 0);
    assert_eq!(book.asks.head, 0);
    assert_eq!(book.asks.orders[0].order.limit, 1);
    assert_eq!(book.asks.orders[0].order.get_leaves_qty(), 124);

    println!(
        "{:?},{:?},{:?}",
        book.bids.orders[0], book.bids.orders[1], book.bids.orders[2]
    );
}

/// A reference model of the book: both sides as sorted lists, matched by hand.
fn model_match(buy: &[(u16, u32)], sell: &[(u16, u32)]) -> (Vec<(u64, u64)>, Vec<(u64, u64)>) {
    let mut clone_buy = buy.to_vec();
    let mut clone_sell = sell.to_vec();
    let mut sort_buy: Vec<(u16, u32, u32)> = Vec::new();
    let mut sort_sell: Vec<(u16, u32, u32)> = Vec::new();
    let mut sort_buy_rank = 0;
    let mut sort_sell_rank = 0;
    loop {
        if clone_buy.len() > 0 {
            let (bid_price, mut bid_size) = clone_buy.remove(0);
            for (ask_price, ask_size, _) in sort_sell.iter_mut() {
                if *ask_size == 0 {
                    continue;
                }
                if bid_price >= *ask_price {
                    if *ask_size >= bid_size {
                        *ask_size -= bid_size;
                        bid_size = 0;
                    } else {
                        bid_size -= *ask_size;
                        *ask_size = 0;
                    }
                } else {
                    break;
                }
                if bid_size == 0 {
                    break;
                }
            }
            sort_buy.push((bid_price, bid_size, sort_buy_rank));
            sort_buy_rank += 1;
            sort_buy.sort_by(|(ax, _, cx), (ay, _, cy)| if ax == ay { cx.cmp(cy) } else { ay.cmp(ax) });
        }
        if clone_sell.len() > 0 {
            let (ask_price, mut ask_size) = clone_sell.remove(0);
            for (bid_price, bid_size, _) in sort_buy.iter_mut() {
                if *bid_size == 0 {
                    continue;
                }
                if ask_price <= *bid_price {
                    if ask_size >= *bid_size {
                        ask_size -= *bid_size;
                        *bid_size = 0;
                    } else {
                        *bid_size -= ask_size;
                        ask_size = 0;
                    }
                } else {
                    break;
                }
                if ask_size == 0 {
                    break;
                }
            }
            sort_sell.push((ask_price, ask_size, sort_sell_rank));
            sort_sell_rank += 1;
            sort_sell.sort_by(|(ax, _, cx), (ay, _, cy)| if ax == ay { cx.cmp(cy) } else { ax.cmp(ay) });
        }
        if clone_buy.len() == 0 && clone_sell.len() == 0 {
            break;
        }
    }
    let bids = sort_buy.into_iter().filter(|(_, s, _)| *s != 0).map(|(p, s, _)| (p as u64, s as u64)).collect();
    let asks = sort_sell.into_iter().filter(|(_, s, _)| *s != 0).map(|(p, s, _)| (p as u64, s as u64)).collect();
    (bids, asks)
}

fn run_against_model(buy: Vec<(u16, u32)>, sell: Vec<(u16, u32)>) {
    let buy: Vec<(u16, u32)> = buy.into_iter().filter(|(x, y)| *x != 0 && *y != 0).collect();
    let sell: Vec<(u16, u32)> = sell.into_iter().filter(|(x, y)| *x != 0 && *y != 0).collect();
    let (model_bids, model_asks) = model_match(&buy, &sell);

    let mut book = Book::new();
    let mut rb = RingBufferFilledExecReport::new();
    let mut rb_crank = RingBufferCrank::new();
    let mut buy = buy;
    let mut sell = sell;
    loop {
        if buy.len() > 0 {
            let (bid_price, bid_size) = buy.remove(0);
            let buy_nos = Order::new_test(bid_price as u64, bid_size as u64);
            place(&mut book, buy_nos, GTC, true, &mut rb, &mut rb_crank);
        }
        if sell.len() > 0 {
            let (ask_price, ask_size) = sell.remove(0);
            let sell_nos = Order::new_test(ask_price as u64, ask_size as u64);
            place(&mut book, sell_nos, GTC, false, &mut rb, &mut rb_crank);
        }
        if buy.len() == 0 && sell.len() == 0 {
            break;
        }
    }
    assert_eq!(walk(&book, true), model_bids);
    assert_eq!(walk(&book, false), model_asks);
}

#[test]
fn it_should_match_many_orders() {
    run_against_model(
        vec![(10, 5), (12, 3), (0, 4), (9, 7), (15, 1), (11, 0), (13, 9), (8, 2)],
        vec![(14, 2), (11, 6), (9, 4), (16, 5), (7, 30), (12, 1)],
    );
    run_against_model(
        vec![(100, 1), (101, 2), (102, 3), (103, 4), (99, 10)],
        vec![(105, 1), (104, 2), (103, 3), (102, 4), (101, 5), (100, 6), (99, 7)],
    );
    // a pseudo-random run
    let mut seed: u32 = 12345;
    let mut next = move || {
        seed = seed.wrapping_mul(1103515245).wrapping_add(12345);
        (seed >> 16) & 0x7fff
    };
    let buy: Vec<(u16, u32)> = (0..200).map(|_| ((next() % 50) as u16, next() % 20)).collect();
    let sell: Vec<(u16, u32)> = (0..200).map(|_| ((next() % 50 + 20) as u16, next() % 20)).collect();
    run_against_model(buy, sell);
}

/// The ask side of a book after the given sell orders, then the given buys.
fn asks_after(sells: &[(u64, u64)], buys: &[(u64, u64)]) -> Side {
    let mut book = Book::new();
    let mut rb = RingBufferFilledExecReport::new();
    let mut rb_crank = RingBufferCrank::new();
    for &(limit, qty) in sells {
        place(&mut book, Order::new_test(limit, qty), GTC, false, &mut rb, &mut rb_crank);
    }
    for &(limit, qty) in buys {
        place(&mut book, Order::new_test(limit, qty), GTC, true, &mut rb, &mut rb_crank);
    }
    book.asks
}

/// The resting orders of a side, best first, as (limit, leaves quantity).
fn walk_side(side: &Side) -> Vec<(u64, u64)> {
    let mut out = Vec::new();
    if side.orders[side.head as usize].order.get_leaves_qty() == 0 {
        return out;
    }
    let mut pos = side.head;
    loop {
        let o = side.orders[pos as usize].order;
        out.push((o.limit, o.get_leaves_qty()));
        if pos == side.tail {
            break;
        }
        pos = side.orders[pos as usize].next;
    }
    out
}

/// Reads `a` back from its raw parts and returns what the result rests.
fn read_back(a: &Side) -> Option<(u16, u16, u16, Vec<(u64, u64)>)> {
    Side::from_layout(&a.orders, a.tombstone, a.head, a.tail, a.vault)
        .map(|s| (s.head, s.tail, s.tombstone, walk_side(&s)))
}

/// Whether the parts of `a`, with slot `slot` changed by `edit`, are refused.
fn refused_after_edit(a: &Side, slot: usize, edit: fn(&mut OrderHeader, &Side)) -> bool {
    let mut orders = Box::new(a.orders);
    edit(&mut orders[slot], a);
    Side::from_layout(&orders, a.tombstone, a.head, a.tail, a.vault).is_none()
}

#[test]
fn side_read_back_from_its_parts_keeps_its_orders() {
    // a buy that takes the best ask frees its slot
    let a = Box::new(asks_after(&[(12, 3), (10, 2), (11, 4), (10, 1)], &[(10, 2)]));
    let before = walk_side(&a);
    assert_eq!(before, vec![(10, 1), (11, 4), (12, 3)]);
    let (head, tail, tombstone, rests) = read_back(&a).expect("a side's own parts are a valid layout");
    assert_eq!((head, tail, tombstone), (a.head, a.tail, a.tombstone));
    assert_eq!(rests, before);
}

#[test]
fn empty_side_reads_back() {
    let s = Box::new(Side::new());
    assert_eq!(read_back(&s).map(|r| r.3), Some(vec![]));
}

#[test]
fn broken_layouts_are_refused() {
    let a = Box::new(asks_after(&[(12, 3), (10, 2), (11, 4)], &[]));
    assert!(read_back(&a).is_some());
    // tail that is not the end of the list
    assert!(Side::from_layout(&a.orders, a.tombstone, a.head, a.head, a.vault).is_none());
    // head out of range
    assert!(Side::from_layout(&a.orders, a.tombstone, 2048, a.tail, a.vault).is_none());
    // a free-slot pointer into the list
    assert!(Side::from_layout(&a.orders, a.head, a.head, a.tail, a.vault).is_none());
    // a list that loops back on itself
    assert!(refused_after_edit(&a, a.tail as usize, |h, a| h.next = a.head));
    // a resting slot with nothing left to execute
    assert!(refused_after_edit(&a, a.head as usize, |h, _| h.order.leaves_qty = 0));
}

#[test]
fn removed_order_frees_its_slot_for_reuse() {
    // slots: 12 in 0, 10 in 1 (best), 11 in 2
    let mut a = Box::new(asks_after(&[(12, 3), (10, 2), (11, 4)], &[]));
    assert_eq!((a.head, a.tail, a.get_tombstone()), (1, 0, 3));
    let removed = a.remove_order(2);
    assert_eq!((removed.limit, removed.get_leaves_qty()), (11, 4));
    assert_eq!(a.get_tombstone(), 2);
    let cleared = a.orders[2].order;
    assert_eq!((cleared.limit, cleared.get_leaves_qty(), cleared.get_cum_qty()), (0, 0, 0));
    assert_eq!(walk_side(&a), vec![(10, 2), (12, 3)]);
    // the freed slot is handed out first, then the never used ones
    assert_eq!(a.next_tombstone(), Some(2));
    assert_eq!(a.get_tombstone(), 3);
}

/// Places a sell of 2 at each nonzero limit of `limits` in a fresh book and
/// checks that the ask side then lists them sorted ascending.
fn asks_rest_sorted(limits: &[u64]) {
    let mut book = Book::new();
    let mut rb = RingBufferFilledExecReport::new();
    let mut rb_crank = RingBufferCrank::new();
    for &l in limits {
        if l != 0 {
            place(&mut book, Order::new_test(l, 2), GTC, false, &mut rb, &mut rb_crank);
        }
    }
    let mut expected: Vec<(u64, u64)> = limits.iter().filter(|l| **l != 0).map(|l| (*l, 2)).collect();
    expected.sort();
    assert_eq!(walk(&book, false), expected);
    assert!(walk(&book, true).is_empty());
}

#[test]
fn asks_rest_sorted_for_empty_input() {
    asks_rest_sorted(&[]);
    asks_rest_sorted(&[0, 0]);
}

#[test]
fn asks_rest_sorted_with_duplicates() {
    asks_rest_sorted(&[5, 5, 5, 3, 5, 3]);
}

#[test]
fn asks_rest_sorted_from_reverse_order() {
    asks_rest_sorted(&[90, 80, 70, 60, 50, 40, 30, 20, 10]);
}

#[test]
fn asks_rest_sorted_from_sorted_order() {
    asks_rest_sorted(&[1, 2, 3, 4, 5, 6, 7, 8]);
}
