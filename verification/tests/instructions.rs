use nft_clob::account_states::book::{Book, MAX_ORDERS};
use nft_clob::account_states::crank::{Crank, RingBufferCrank};
use nft_clob::account_states::filled_exec_report::{FilledExecReport, RingBufferFilledExecReport};
use nft_clob::account_states::instrmt::{Instrmt, InstrmtBumps};
use nft_clob::account_states::instrmt_grp::InstrmtGrp;
use nft_clob::account_states::master_cfg::MasterCfg;
use nft_clob::account_states::nft_pool::NftPool;
use nft_clob::account_states::order::Order;
use nft_clob::enums::OrderType;
use nft_clob::errors::ErrorCode;
use nft_clob::instructions::cancel_order::{self, CancelOrderIx};
use nft_clob::instructions::crank as crank_ix;
use nft_clob::instructions::init_master_cfg::{self, InitMasterCfgIx};
use nft_clob::instructions::new_instrmt::{self, NewInstrmtAccounts, NewInstrmtIx};
use nft_clob::instructions::new_instrmt_grp;
use nft_clob::instructions::new_nft_pool::{self, NewNftPoolIx};
use nft_clob::instructions::new_order_single::{self, NewOrderSingleIx, Settlement};
use nft_clob::instructions::swap_nft::{self, SwapNftIx};
use nft_clob::key::Key;

fn key(n: u64) -> Key {
    Key { w0: n, w1: 0, w2: 0, w3: 0 }
}

fn order(limit: u64, qty: u64, maker: u64) -> Order {
    Order::new(limit, qty, key(maker), key(100 + maker), key(200 + maker))
}

#[test]
fn test_trade_at_resting_price_and_cranks() {
    let mut book = Book::new();
    book.set_base_vault(key(7));
    book.set_quote_vault(key(8));
    let mut rb = RingBufferFilledExecReport::new();
    let mut rb_crank = RingBufferCrank::new();
    book.new_limit_at(order(10, 5, 1), OrderType::GTC, false, &mut rb, &mut rb_crank, 1, 2);
    let taken = book.new_limit_at(order(12, 3, 2), OrderType::GTC, true, &mut rb, &mut rb_crank, 11, 22);
    // executed at the resting price, fully
    assert_eq!(taken.get_cum_qty(), 3);
    assert_eq!(taken.get_leaves_qty(), 0);
    assert_eq!(taken.get_cum_cost(), 30);
    assert_eq!(book.asks.orders[0].order.get_leaves_qty(), 2);
    assert_eq!(book.asks.orders[0].order.get_cum_qty(), 3);
    // one report, stamped with the given slot and time
    assert_eq!(rb.next_index, 1);
    let rep = rb.filled_exec_reports[0];
    assert_eq!((rep.quantity, rep.avg_px, rep.slot, rep.transact_time, rep.side), (3, 10, 11, 22, 0));
    assert_eq!(rep.maker, key(1));
    assert_eq!(rep.taker, key(2));
    // the maker is owed quantity plus price out of the quote vault
    assert_eq!(rb_crank.next, 2);
    let c = rb_crank.cranks[1];
    assert_eq!(c.get_quantity(), 13);
    assert_eq!(c.get_vault(), key(8));
    assert_eq!(c.get_token_account(), key(101));
    assert_eq!(c.get_maker(), key(1));
}

#[test]
fn test_sell_crank_is_quantity() {
    let mut book = Book::new();
    book.set_base_vault(key(7));
    let mut rb = RingBufferFilledExecReport::new();
    let mut rb_crank = RingBufferCrank::new();
    book.new_limit_at(order(10, 5, 1), OrderType::GTC, true, &mut rb, &mut rb_crank, 1, 2);
    let taken = book.new_limit_at(order(9, 2, 2), OrderType::GTC, false, &mut rb, &mut rb_crank, 1, 2);
    assert_eq!(taken.get_cum_cost(), 20);
    assert_eq!(rb_crank.cranks[1].get_quantity(), 2);
    assert_eq!(rb_crank.cranks[1].get_vault(), key(7));
    assert_eq!(rb.filled_exec_reports[0].side, 1);
    assert_eq!(book.bid_max, 10);
}

#[test]
fn test_ioc_cancels_the_rest() {
    let mut book = Book::new();
    let mut rb = RingBufferFilledExecReport::new();
    let mut rb_crank = RingBufferCrank::new();
    book.new_limit_at(order(10, 2, 1), OrderType::GTC, false, &mut rb, &mut rb_crank, 1, 2);
    let o = book.new_limit_at(order(11, 5, 2), OrderType::IOC, true, &mut rb, &mut rb_crank, 1, 2);
    assert_eq!(o.get_cum_qty(), 2);
    assert_eq!(o.get_leaves_qty(), 0);
    assert!(book.bids.is_empty());
    assert!(book.asks.is_empty());
    assert_eq!(book.ask_min, 0);
}

#[test]
fn test_best_prices_follow_the_book() {
    let mut book = Book::new();
    let mut rb = RingBufferFilledExecReport::new();
    let mut rb_crank = RingBufferCrank::new();
    book.new_limit_at(order(20, 1, 1), OrderType::GTC, false, &mut rb, &mut rb_crank, 1, 2);
    book.new_limit_at(order(15, 1, 1), OrderType::GTC, false, &mut rb, &mut rb_crank, 1, 2);
    book.new_limit_at(order(30, 1, 1), OrderType::GTC, false, &mut rb, &mut rb_crank, 1, 2);
    assert_eq!(book.ask_min, 15);
    book.new_limit_at(order(5, 1, 1), OrderType::GTC, true, &mut rb, &mut rb_crank, 1, 2);
    book.new_limit_at(order(7, 1, 1), OrderType::GTC, true, &mut rb, &mut rb_crank, 1, 2);
    assert_eq!(book.bid_max, 7);
    // a buy that takes the two best asks
    let o = book.new_limit_at(order(25, 2, 2), OrderType::GTC, true, &mut rb, &mut rb_crank, 1, 2);
    assert_eq!(o.get_cum_cost(), 35);
    assert_eq!(book.ask_min, 30);
    assert_eq!(book.asks.best_offer(), 30);
    assert_eq!(book.bids.best_offer(), 7);
}

#[test]
fn test_equal_prices_keep_arrival_order() {
    let mut book = Book::new();
    let mut rb = RingBufferFilledExecReport::new();
    let mut rb_crank = RingBufferCrank::new();
    for maker in 1..6u64 {
        book.new_limit_at(order(10, 1, maker), OrderType::GTC, true, &mut rb, &mut rb_crank, 1, 2);
    }
    book.new_limit_at(order(11, 1, 9), OrderType::GTC, true, &mut rb, &mut rb_crank, 1, 2);
    book.new_limit_at(order(9, 1, 8), OrderType::GTC, true, &mut rb, &mut rb_crank, 1, 2);
    let mut pos = book.bids.head;
    let mut makers = Vec::new();
    loop {
        makers.push(book.bids.orders[pos as usize].order.maker.w0);
        if pos == book.bids.tail {
            break;
        }
        pos = book.bids.orders[pos as usize].next;
    }
    assert_eq!(makers, vec![9, 1, 2, 3, 4, 5, 8]);
}

#[test]
fn test_full_side_evicts_or_rejects() {
    let mut book = Book::new();
    book.set_quote_vault(key(8));
    let mut rb = RingBufferFilledExecReport::new();
    let mut rb_crank = RingBufferCrank::new();
    for i in 0..MAX_ORDERS as u64 {
        book.new_limit_at(order(100 + i, 1, i), OrderType::GTC, true, &mut rb, &mut rb_crank, 1, 2);
    }
    assert!(book.bids.is_full());
    // worse than the worst: refused, nothing changes
    let worst = order(50, 1, 5000);
    assert!(!book.admits_order(&worst, OrderType::GTC, true, &rb_crank));
    let r = book.new_limit(worst, OrderType::GTC, true, &mut rb, &mut rb_crank);
    assert_eq!(r.unwrap_err(), ErrorCode::OrderRejected);
    assert_eq!(book.bids.tail_order().limit, 100);
    // better than the worst: the worst gives way and is refunded
    let better = order(150, 1, 6000);
    assert!(book.admits_order(&better, OrderType::GTC, true, &rb_crank));
    let r = book.new_limit(better, OrderType::GTC, true, &mut rb, &mut rb_crank);
    assert!(r.is_ok());
    assert_eq!(book.bids.tail_order().limit, 101);
    assert!(book.bids.is_full());
    let refund = rb_crank.cranks[1];
    assert_eq!(refund.get_maker(), key(0));
    assert_eq!(refund.get_token_account(), key(200));
    assert_eq!(refund.get_vault(), key(8));
    assert_eq!(refund.get_quantity(), 101);
}

#[test]
fn test_clock_needed_only_for_trades() {
    let mut book = Book::new();
    let mut rb = RingBufferFilledExecReport::new();
    let mut rb_crank = RingBufferCrank::new();
    // no trade: placed without the clock
    let r = book.new_limit(order(10, 2, 1), OrderType::GTC, false, &mut rb, &mut rb_crank);
    assert_eq!(r.unwrap().get_leaves_qty(), 2);
    // a trade off-chain: the clock cannot be read and nothing changes
    let r = book.new_limit(order(10, 1, 2), OrderType::GTC, true, &mut rb, &mut rb_crank);
    assert_eq!(r.unwrap_err(), ErrorCode::ClockUnavailable);
    assert_eq!(book.asks.head_order().get_leaves_qty(), 2);
    assert!(book.bids.is_empty());
    assert_eq!(rb.next_index, 0);
}

#[test]
fn test_execute_trade_without_clock() {
    let mut maker = order(10, 5, 1);
    let mut taker = order(12, 3, 2);
    let r = maker.execute_trade(&mut taker, true);
    assert_eq!(r.unwrap_err(), ErrorCode::ClockUnavailable);
    assert_eq!(maker.get_leaves_qty(), 2);
    assert_eq!(maker.get_cum_qty(), 3);
    assert_eq!(taker.get_leaves_qty(), 0);
    assert_eq!(taker.get_cum_cost(), 30);
}

#[test]
fn test_order_helpers() {
    let mut o = order(7, 4, 1);
    assert_eq!(o.get_leaves_cost(), Some(28));
    assert!(!o.is_partially_filed());
    assert!(!o.is_filled());
    assert!(!o.is_tombstone());
    assert!(o.is_better_than(&order(6, 1, 2), true));
    assert!(!o.is_better_than(&order(7, 1, 2), true));
    assert!(o.is_better_than(&order(8, 1, 2), false));
    assert!(o.is_better_than(&Order::new_test(0, 0), false));
    o.clear_leaves_qty();
    assert!(o.is_filled());
    let mut big = Order::new_test(u64::MAX, 2);
    assert_eq!(big.get_leaves_cost(), None);
    big.clear();
    assert_eq!((big.limit, big.get_leaves_qty(), big.get_cum_qty()), (0, 0, 0));
    assert!(big.maker.is_zero());
    assert_eq!(Order::space(), 72);
}

#[test]
fn test_cancel_order() {
    let mut book = Book::new();
    book.set_quote_vault(key(8));
    let mut rb = RingBufferFilledExecReport::new();
    let mut rb_crank = RingBufferCrank::new();
    book.new_limit_at(order(10, 4, 1), OrderType::GTC, true, &mut rb, &mut rb_crank, 1, 2);
    book.new_limit_at(order(9, 3, 2), OrderType::GTC, true, &mut rb, &mut rb_crank, 1, 2);
    // an empty slot
    let r = cancel_order::handler(&mut book, &mut rb_crank, key(1), &CancelOrderIx { order_pos: 5, is_buy: true });
    assert_eq!(r, Err(ErrorCode::TombstoneOrder));
    // someone else's order
    let r = cancel_order::handler(&mut book, &mut rb_crank, key(2), &CancelOrderIx { order_pos: 0, is_buy: true });
    assert_eq!(r, Err(ErrorCode::UnauthorizedOrderCancellation));
    assert_eq!(book.bids.head_order().limit, 10);
    // the maker cancels: refund owed out of the quote vault
    let r = cancel_order::handler(&mut book, &mut rb_crank, key(1), &CancelOrderIx { order_pos: 0, is_buy: true });
    assert_eq!(r, Ok(()));
    assert_eq!(book.bids.head_order().limit, 9);
    assert!(book.bids.is_tombstone(0));
    let c = rb_crank.cranks[1];
    assert_eq!((c.get_maker(), c.get_vault(), c.get_token_account(), c.get_quantity()), (key(1), key(8), key(201), 14));
}

#[test]
fn test_crank_handler() {
    let mut rb_crank = RingBufferCrank::new();
    // the head slot is empty
    assert_eq!(crank_ix::handler(&mut rb_crank, key(1), key(2)).unwrap_err(), ErrorCode::RbCrankEmpty);
    rb_crank.insert(key(2), key(1), false, key(9), 5, 3);
    rb_crank.head = 1;
    assert_eq!(crank_ix::handler(&mut rb_crank, key(3), key(2)).unwrap_err(), ErrorCode::WrongTokenAccount);
    assert_eq!(crank_ix::handler(&mut rb_crank, key(1), key(3)).unwrap_err(), ErrorCode::WrongVaultAccount);
    assert_eq!(rb_crank.head, 1);
    let c = crank_ix::handler(&mut rb_crank, key(1), key(2)).unwrap();
    assert_eq!(c.get_quantity(), 5);
    assert_eq!(c.get_maker(), key(9));
    assert_eq!(rb_crank.head, 2);
    assert!(rb_crank.cranks[1].is_empty());
}

#[test]
fn test_crank_ring_is_fifo() {
    let mut rb_crank = RingBufferCrank::new();
    rb_crank.insert(key(2), key(1), false, key(9), 5, 3);
    rb_crank.insert(key(2), key(1), true, key(9), 6, 3);
    assert!(rb_crank.remove_head().is_empty());
    assert_eq!(rb_crank.remove_head().get_quantity(), 5);
    assert_eq!(rb_crank.remove_head().get_quantity(), 9);
    assert_eq!(rb_crank.head, 3);
    assert_eq!(rb_crank.next, 3);
    let mut c = Crank::new(key(1), key(2), key(3), 4);
    assert!(!c.is_empty());
    c.clear();
    assert!(c.is_empty());
    assert!(Crank::new_empty().is_empty());
}

#[test]
fn test_crank_ring_wraps() {
    let mut rb_crank = RingBufferCrank::new();
    for i in 0..4095u64 {
        rb_crank.insert(key(2), key(1), false, key(9), i + 1, 0);
    }
    assert_eq!(rb_crank.next, 0);
    assert_eq!(rb_crank.cranks[4095].get_quantity(), 4095);
}

#[test]
fn test_report_ring_wraps() {
    let mut rb = RingBufferFilledExecReport::new();
    for i in 0..201u64 {
        rb.insert(FilledExecReport::new(key(1), key(2), i, 5, true, 0, 0));
    }
    assert_eq!(rb.next_index, 1);
    assert_eq!(rb.filled_exec_reports[0].quantity, 200);
    assert_eq!(rb.filled_exec_reports[199].quantity, 199);
}

fn nos(is_buy: bool, limit: u64, size: u64, order_type: OrderType) -> NewOrderSingleIx {
    let mut ix = NewOrderSingleIx::new(is_buy, limit, size);
    ix.order_type = order_type;
    ix
}

#[test]
fn test_new_order_single_settlement() {
    let mut book = Book::new();
    let mut rb = RingBufferFilledExecReport::new();
    let mut rb_crank = RingBufferCrank::new();
    // a resting buy deposits its cost in quote and receives nothing yet
    let r = new_order_single::handler(&mut book, &mut rb, &mut rb_crank, &nos(true, 10, 3, OrderType::GTC), key(1), key(11), key(12));
    assert_eq!(r, Ok(Settlement { deposit: 30, payout: 0 }));
    // the order pays out into the base account and was paid from the quote account
    let resting = book.bids.head_order();
    assert_eq!((resting.payout_acc, resting.payment_acc), (key(11), key(12)));
    // a resting sell deposits its size in base
    let r = new_order_single::handler(&mut book, &mut rb, &mut rb_crank, &nos(false, 12, 4, OrderType::MO), key(2), key(21), key(22));
    assert_eq!(r, Ok(Settlement { deposit: 4, payout: 0 }));
    let resting = book.asks.head_order();
    assert_eq!((resting.payout_acc, resting.payment_acc), (key(22), key(21)));
}

#[test]
fn test_new_order_single_order_types() {
    let mut book = Book::new();
    let mut rb = RingBufferFilledExecReport::new();
    let mut rb_crank = RingBufferCrank::new();
    new_order_single::handler(&mut book, &mut rb, &mut rb_crank, &nos(false, 12, 4, OrderType::GTC), key(2), key(21), key(22)).unwrap();
    // fill-or-kill cannot trade without the clock off-chain, nor can maker-only
    let r = new_order_single::handler(&mut book, &mut rb, &mut rb_crank, &nos(true, 12, 5, OrderType::FOK), key(1), key(11), key(12));
    assert_eq!(r, Err(ErrorCode::ClockUnavailable));
    let r = new_order_single::handler(&mut book, &mut rb, &mut rb_crank, &nos(true, 12, 5, OrderType::MO), key(1), key(11), key(12));
    assert_eq!(r, Err(ErrorCode::ClockUnavailable));
    // a fill-or-kill order that does not reach the book's price rests unfilled and is refused
    let r = new_order_single::handler(&mut book, &mut rb, &mut rb_crank, &nos(true, 11, 5, OrderType::FOK), key(1), key(11), key(12));
    assert_eq!(r, Err(ErrorCode::FillOrKillFailed));
    // an immediate-or-cancel order that does not reach it is cancelled
    let r = new_order_single::handler(&mut book, &mut rb, &mut rb_crank, &nos(false, 20, 5, OrderType::IOC), key(1), key(11), key(12));
    assert_eq!(r, Ok(Settlement { deposit: 0, payout: 0 }));
}

#[test]
fn test_new_instrmt() {
    let mut grp = InstrmtGrp { admin: key(1), instrmts: Vec::new(), bump: 0 };
    new_instrmt_grp::handler(&mut grp, key(1), 254);
    assert_eq!((grp.admin, grp.bump), (key(1), 254));
    let mut instrmt = Instrmt {
        base_symbol: [0; 10],
        quote_symbol: [0; 10],
        instrmt_grp: Key::zero(),
        base_mint: Key::zero(),
        base_vault: Key::zero(),
        quote_mint: Key::zero(),
        quote_vault: Key::zero(),
        book: Key::zero(),
        rb_filled_exec_reports: Key::zero(),
        bumps: InstrmtBumps { base_vault_bump: 0, quote_vault_bump: 0, instrmt_bump: 0 },
    };
    let mut rb = RingBufferFilledExecReport::new();
    rb.next_index = 7;
    let mut book = Book::new();
    let accounts = NewInstrmtAccounts {
        authority: key(1),
        instrmt_grp: key(2),
        instrmt: key(3),
        rb_filled_exec_reports: key(4),
        book: key(5),
        base_mint: key(6),
        base_vault: key(7),
        quote_mint: key(8),
        quote_vault: key(9),
    };
    let bumps = InstrmtBumps { base_vault_bump: 1, quote_vault_bump: 2, instrmt_bump: 3 };
    let ix = NewInstrmtIx { base_symbol: "BTC".to_string(), quote_symbol: "USD".to_string() };
    let mut other = accounts;
    other.authority = key(99);
    let r = new_instrmt::handler(&other, &mut grp, &mut instrmt, &mut rb, &mut book, bumps, NewInstrmtIx { base_symbol: "A".to_string(), quote_symbol: "B".to_string() });
    assert_eq!(r, Err(ErrorCode::NotAdmin));
    assert_eq!(grp.instrmts.len(), 0);
    let r = new_instrmt::handler(&accounts, &mut grp, &mut instrmt, &mut rb, &mut book, bumps, ix);
    assert_eq!(r, Ok(()));
    assert_eq!(grp.instrmts, vec![key(3)]);
    assert_eq!(instrmt.base_symbol, [66, 84, 67, 0, 0, 0, 0, 0, 0, 0]);
    assert_eq!(instrmt.quote_symbol, [85, 83, 68, 0, 0, 0, 0, 0, 0, 0]);
    assert_eq!((instrmt.instrmt_grp, instrmt.book, instrmt.rb_filled_exec_reports), (key(2), key(5), key(4)));
    assert_eq!(instrmt.bumps, bumps);
    assert_eq!(rb.next_index, 0);
    assert_eq!(book.instrmt, key(3));
    assert_eq!(book.get_base_vault(), key(7));
    assert_eq!(book.get_quote_vault(), key(9));
}

#[test]
fn test_to_u8_array() {
    assert_eq!(Instrmt::to_u8_array("SOL".to_string()), [83, 79, 76, 0, 0, 0, 0, 0, 0, 0]);
    assert_eq!(Instrmt::to_u8_array("0123456789".to_string()), *b"0123456789");
    assert_eq!(Instrmt::to_u8_array(String::new()), [0; 10]);
}

#[test]
fn test_master_cfg_and_pool() {
    let mut cfg = MasterCfg { maker_fee_bps: 0, taker_fee_bps: 0, fee_exempt: vec![key(4)], fee_treasury: Key::zero(), bump: 0 };
    let ix = InitMasterCfgIx { maker_fee_bps: 5, taker_fee_bps: 7, fee_treasury: key(3) };
    assert_eq!(init_master_cfg::handler(&mut cfg, &ix, 9, key(2), key(1)), Err(ErrorCode::NotAdmin));
    assert_eq!(cfg.maker_fee_bps, 0);
    assert_eq!(init_master_cfg::handler(&mut cfg, &ix, 9, key(1), key(1)), Ok(()));
    assert_eq!((cfg.maker_fee_bps, cfg.taker_fee_bps, cfg.fee_treasury, cfg.bump), (5, 7, key(3), 9));
    assert_eq!(cfg.fee_exempt, vec![key(4)]);
    let mut pool = NftPool { verified_creators: Vec::new(), mint: Key::zero(), bump: 0 };
    new_nft_pool::handler(&mut pool, key(5), 3, NewNftPoolIx { verified_creators: vec![key(1), key(2)] });
    assert_eq!((pool.mint, pool.bump), (key(5), 3));
    assert_eq!(pool.verified_creators, vec![key(1), key(2)]);
    assert_eq!(swap_nft::handler(SwapNftIx {}), Ok(()));
}

#[test]
fn test_spaces() {
    assert_eq!(Instrmt::space(), 255);
    assert_eq!(InstrmtBumps::space(), 3);
    assert_eq!(InstrmtGrp::space(2), 77);
    assert_eq!(MasterCfg::space(0), 45);
    assert_eq!(NftPool::space(1), 77);
    assert_eq!(Crank::space(), 72);
    assert_eq!(RingBufferCrank::space(), 4096 * 72 + 8);
    assert_eq!(FilledExecReport::space(), 104);
    assert_eq!(RingBufferFilledExecReport::space(), 20808);
}

/// A book resting a sell of 4 at 12, and the order `o` placed against it
/// with the given type at slot 7, time 8: what it stands as, and the book.
fn place_against_sell(o: Order, order_type: OrderType, is_buy: bool) -> (Order, Vec<u64>, Vec<u64>) {
    let mut book = Book::new();
    let mut rb = RingBufferFilledExecReport::new();
    let mut rb_crank = RingBufferCrank::new();
    book.new_limit_at(order(12, 4, 2), OrderType::GTC, false, &mut rb, &mut rb_crank, 7, 8);
    let placed = book.new_limit_at(o, order_type, is_buy, &mut rb, &mut rb_crank, 7, 8);
    let asks = if book.asks.is_empty() { vec![] } else { vec![book.asks.head_order().get_leaves_qty()] };
    let bids = if book.bids.is_empty() { vec![] } else { vec![book.bids.head_order().get_leaves_qty()] };
    (placed, asks, bids)
}

#[test]
fn test_fill_or_kill_executes_in_full_or_is_refused() {
    // 5 wanted, 4 on offer: not filled in full
    let (placed, _, _) = place_against_sell(order(12, 5, 1), OrderType::FOK, true);
    assert_eq!((placed.get_cum_qty(), placed.get_leaves_qty()), (4, 1));
    assert_eq!(new_order_single::settle_order(OrderType::FOK, true, &placed), Err(ErrorCode::FillOrKillFailed));
    // 3 wanted: filled in full, paying 3 at 12
    let (placed, asks, _) = place_against_sell(order(12, 3, 1), OrderType::FOK, true);
    assert_eq!(asks, vec![1]);
    assert_eq!(
        new_order_single::settle_order(OrderType::FOK, true, &placed),
        Ok(Settlement { deposit: 36, payout: 3 })
    );
}

#[test]
fn test_immediate_or_cancel_never_rests() {
    let (placed, asks, bids) = place_against_sell(order(12, 5, 1), OrderType::IOC, true);
    assert_eq!((placed.get_cum_qty(), placed.get_leaves_qty()), (4, 0));
    assert!(asks.is_empty() && bids.is_empty());
    assert_eq!(
        new_order_single::settle_order(OrderType::IOC, true, &placed),
        Ok(Settlement { deposit: 48, payout: 4 })
    );
}

#[test]
fn test_maker_only_refused_when_it_would_trade() {
    let (placed, asks, _) = place_against_sell(order(13, 2, 1), OrderType::MO, true);
    assert_eq!(asks, vec![2]);
    assert_eq!(new_order_single::settle_order(OrderType::MO, true, &placed), Err(ErrorCode::MakerOnlyFailed));
    // below the best ask it rests untouched
    let (placed, asks, bids) = place_against_sell(order(11, 2, 1), OrderType::MO, true);
    assert_eq!((asks, bids), (vec![4], vec![2]));
    assert_eq!(
        new_order_single::settle_order(OrderType::MO, true, &placed),
        Ok(Settlement { deposit: 22, payout: 0 })
    );
}

#[test]
fn test_good_til_cancelled_rests_the_rest() {
    let (placed, asks, bids) = place_against_sell(order(12, 6, 1), OrderType::GTC, true);
    assert_eq!((placed.get_cum_qty(), placed.get_leaves_qty()), (4, 2));
    assert_eq!((asks, bids), (vec![], vec![2]));
    assert_eq!(
        new_order_single::settle_order(OrderType::GTC, true, &placed),
        Ok(Settlement { deposit: 2 * 12 + 48, payout: 4 })
    );
    // a sell deposits its whole size and receives what its trades fetched
    let sell = Order::new(12, 3, key(1), key(101), key(201));
    assert_eq!(
        new_order_single::settle_order(OrderType::GTC, false, &sell),
        Ok(Settlement { deposit: 3, payout: 0 })
    );
}
