use optimized_lob::level::LevelId;
use optimized_lob::market::MarketConfig;
use optimized_lob::matching::MatchingEngine;
use optimized_lob::order::OrderId;
use optimized_lob::orderbook_manager::OrderBookManager;
use optimized_lob::pool::LevelPool;
use optimized_lob::price::Price;
use optimized_lob::quantity::Qty;
use optimized_lob::translator::translate_matches;
use optimized_lob::utils::BookId;

fn add(m: &mut OrderBookManager, id: u32, qty: u32, price: u32, is_bid: bool) {
    m.add_order(OrderId(id), BookId(0), Qty(qty), price, is_bid, None, None, None, None);
}

fn level_size(m: &OrderBookManager, id: u32) -> u32 {
    let o = m.oid_map.get(OrderId(id)).unwrap();
    let book = m.books[o.book_id().value() as usize].as_ref().unwrap();
    book.level_pool.get(o.level_id()).unwrap().size().value()
}

#[test]
fn basic_fill_leaves_rest_of_maker() {
    let mut e = MatchingEngine::new();
    add(&mut e.orderbook_manager, 1, 100, 100, false);
    let (remaining, ms) =
        e.match_order(OrderId(2), BookId(0), Qty(60), 100, true, None, None, None, None);
    assert_eq!(remaining.value(), 0);
    assert_eq!(e.orderbook_manager.oid_map.get(OrderId(1)).unwrap().qty().value(), 40);
    assert_eq!(ms.len(), 1);
    assert_eq!(ms[0].exec_qty.value(), 60);
    assert_eq!(ms[0].exec_price, 100);
    assert!(!ms[0].maker_is_buyer);
}

#[test]
fn no_cross_rests_taker() {
    let mut e = MatchingEngine::new();
    add(&mut e.orderbook_manager, 1, 100, 100, false);
    let (remaining, ms) =
        e.match_order(OrderId(2), BookId(0), Qty(60), 99, true, None, None, None, None);
    assert_eq!(remaining.value(), 60);
    assert!(ms.is_empty());
    assert_eq!(e.orderbook_manager.get_best_bid(BookId(0)), Some(Price(99)));
    assert_eq!(e.orderbook_manager.oid_map.get(OrderId(2)).unwrap().qty().value(), 60);
    assert_eq!(e.orderbook_manager.get_best_ask(BookId(0)), Some(Price(-100)));
}

#[test]
fn walk_the_book_in_price_order() {
    let mut e = MatchingEngine::new();
    add(&mut e.orderbook_manager, 1, 50, 100, false);
    add(&mut e.orderbook_manager, 2, 40, 101, false);
    let (remaining, ms) =
        e.match_order(OrderId(4), BookId(0), Qty(90), 102, true, None, None, None, None);
    assert_eq!(remaining.value(), 0);
    assert_eq!(ms.len(), 2);
    assert_eq!(ms[0].maker_order.qty().value(), 50);
    assert_eq!(ms[0].exec_qty.value(), 50);
    assert_eq!(ms[1].maker_order.qty().value(), 40);
    assert_eq!(ms[1].exec_qty.value(), 40);
    assert_eq!(ms[0].exec_price, 102);
    assert!(e.orderbook_manager.oid_map.get(OrderId(1)).is_none());
    assert!(e.orderbook_manager.oid_map.get(OrderId(2)).is_none());
    assert_eq!(e.orderbook_manager.get_best_ask(BookId(0)), None);
    assert!(e.orderbook_manager.oid_map.get(OrderId(4)).is_none());
}

#[test]
fn time_priority_at_one_level() {
    let mut e = MatchingEngine::new();
    e.orderbook_manager.add_order(OrderId(1), BookId(0), Qty(30), 100, false, Some([1; 20]), None, None, None);
    e.orderbook_manager.add_order(OrderId(2), BookId(0), Qty(30), 100, false, Some([2; 20]), None, None, None);
    let (remaining, ms) =
        e.match_order(OrderId(3), BookId(0), Qty(30), 100, true, None, None, None, None);
    assert_eq!(remaining.value(), 0);
    assert_eq!(ms.len(), 1);
    assert_eq!(ms[0].maker_order.trader(), Some([1; 20]));
    assert!(e.orderbook_manager.oid_map.get(OrderId(1)).is_none());
    assert_eq!(e.orderbook_manager.oid_map.get(OrderId(2)).unwrap().qty().value(), 30);
    assert_eq!(level_size(&e.orderbook_manager, 2), 30);
}

#[test]
fn replace_keeps_side_and_drops_authentication() {
    let mut m = OrderBookManager::new();
    m.add_order(OrderId(1), BookId(0), Qty(10), 50, true, Some([9; 20]), Some(4), Some(5), Some([6; 65]));
    m.replace_order(OrderId(1), OrderId(2), Qty(20), 55);
    assert!(m.oid_map.get(OrderId(1)).is_none());
    let o = *m.oid_map.get(OrderId(2)).unwrap();
    assert_eq!(o.qty().value(), 20);
    assert_eq!(m.get_best_bid(BookId(0)), Some(Price(55)));
    assert_eq!(m.get_best_ask(BookId(0)), None);
    assert_eq!(o.trader(), None);
    assert_eq!(o.nonce(), None);
    assert_eq!(o.expiry(), None);
    assert_eq!(o.signature(), None);
}

#[test]
fn replace_of_unknown_order_changes_nothing() {
    let mut m = OrderBookManager::new();
    m.replace_order(OrderId(7), OrderId(8), Qty(20), 55);
    assert!(m.oid_map.get(OrderId(8)).is_none());
    assert_eq!(m.get_best_bid(BookId(0)), None);
}

#[test]
fn translate_scenario() {
    let mut e = MatchingEngine::new();
    let config = MarketConfig {
        base_token: [1; 20],
        security_token: [2; 20],
        fee_recipient: [3; 20],
        pool: [4; 20],
        signature_type: 1,
    };
    e.market_manager.add_market(BookId(0), config);
    e.orderbook_manager.add_order(OrderId(1), BookId(0), Qty(50), 100, false, Some([5; 20]), Some(1), Some(u64::MAX), Some([1; 65]));
    let (_, ms) = e.match_order(OrderId(3), BookId(0), Qty(30), 100, true, Some([7; 20]), Some(3), Some(u64::MAX), Some([3; 65]));
    let s = translate_matches(ms, e.market_manager.get_config(BookId(0)).unwrap());
    assert_eq!(s.len(), 1);
    assert_eq!(s[0].maker_token, [2; 20]);
    assert_eq!(s[0].taker_token, [1; 20]);
    assert_eq!(s[0].maker_amount, 30);
    assert_eq!(s[0].taker_amount, 3000);
    assert!(!s[0].maker_is_buyer);
    assert_eq!(s[0].maker, [5; 20]);
    assert_eq!(s[0].taker, [7; 20]);
    assert_eq!(s[0].expiration, u64::MAX);
    assert_eq!(s[0].salt, 1);
    assert_eq!((s[0].maker_signature.signature_type, s[0].maker_signature.v), (1, 1));
    assert_eq!((s[0].maker_signature.r, s[0].maker_signature.s), ([1; 32], [1; 32]));
    assert_eq!((s[0].taker_signature.signature_type, s[0].taker_signature.v), (1, 3));
    assert_eq!((s[0].taker_signature.r, s[0].taker_signature.s), ([3; 32], [3; 32]));
}

#[test]
fn translate_buyer_maker_and_dropped_match() {
    let mut e = MatchingEngine::new();
    let config = MarketConfig {
        base_token: [1; 20],
        security_token: [2; 20],
        fee_recipient: [3; 20],
        pool: [4; 20],
        signature_type: 2,
    };
    e.orderbook_manager.add_order(OrderId(1), BookId(0), Qty(10), 7, true, Some([5; 20]), Some(11), Some(99), Some([8; 65]));
    e.orderbook_manager.add_order(OrderId(2), BookId(0), Qty(10), 7, true, Some([5; 20]), None, Some(99), Some([8; 65]));
    let (_, ms) = e.match_order(OrderId(3), BookId(0), Qty(20), 7, false, Some([7; 20]), Some(3), Some(5), Some([3; 65]));
    assert_eq!(ms.len(), 2);
    let s = translate_matches(ms, &config);
    assert_eq!(s.len(), 1);
    assert!(s[0].maker_is_buyer);
    assert_eq!(s[0].maker_token, [1; 20]);
    assert_eq!(s[0].taker_token, [2; 20]);
    assert_eq!(s[0].maker_amount, 70);
    assert_eq!(s[0].taker_amount, 10);
    assert_eq!(s[0].expiration, 99);
    assert_eq!(s[0].salt, 11);
    assert_eq!(s[0].maker_signature.signature_type, 2);
}

#[test]
fn self_match_at_equal_price_emits_one_match_at_that_price() {
    let mut e = MatchingEngine::new();
    add(&mut e.orderbook_manager, 1, 10, 100, true);
    let (remaining, ms) =
        e.match_order(OrderId(2), BookId(0), Qty(10), 100, false, None, None, None, None);
    assert_eq!(remaining.value(), 0);
    assert_eq!(ms.len(), 1);
    assert_eq!(ms[0].exec_price, 100);
    assert!(ms[0].maker_is_buyer);
    assert_eq!(e.orderbook_manager.get_best_bid(BookId(0)), None);
}

#[test]
fn level_size_is_sum_of_its_orders() {
    let mut m = OrderBookManager::new();
    add(&mut m, 1, 10, 100, true);
    add(&mut m, 2, 15, 100, true);
    add(&mut m, 3, 7, 100, true);
    assert_eq!(level_size(&m, 1), 32);
    m.execute_order(OrderId(2), Qty(5));
    assert_eq!(level_size(&m, 1), 27);
    m.cancel_order(OrderId(3), Qty(7));
    assert!(m.oid_map.get(OrderId(3)).is_none());
    assert_eq!(level_size(&m, 1), 20);
}

#[test]
fn sides_are_sorted_best_first() {
    let mut m = OrderBookManager::new();
    for (id, p) in [(1u32, 5u32), (2, 9), (3, 7), (4, 1)] {
        add(&mut m, id, 1, p, true);
    }
    for (id, p) in [(5u32, 20u32), (6, 12), (7, 15)] {
        add(&mut m, id, 1, p, false);
    }
    let book = m.books[0].as_ref().unwrap();
    let bids: Vec<i32> = book.bids.iter().map(|l| l.price().value()).collect();
    let asks: Vec<i32> = book.asks.iter().map(|l| l.price().value()).collect();
    assert_eq!(bids, vec![9, 7, 5, 1]);
    assert_eq!(asks, vec![-12, -15, -20]);
    assert_eq!(m.get_best_bid(BookId(0)), Some(Price(9)));
    assert_eq!(m.get_best_ask(BookId(0)), Some(Price(-12)));
}

#[test]
fn side_total_matches_order_quantities() {
    let mut m = OrderBookManager::new();
    add(&mut m, 1, 10, 100, true);
    add(&mut m, 2, 20, 101, true);
    add(&mut m, 3, 30, 100, true);
    add(&mut m, 4, 5, 120, false);
    m.execute_order(OrderId(3), Qty(12));
    m.remove_order(OrderId(2));
    let book = m.books[0].as_ref().unwrap();
    let side_sum: u32 = book
        .bids
        .iter()
        .map(|l| book.level_pool.get(l.level_id()).unwrap().size().value())
        .sum();
    let order_sum: u32 = m
        .oid_map
        .iter()
        .iter()
        .filter(|(_, o)| book.level_pool.get(o.level_id()).unwrap().price().is_bid())
        .map(|(_, o)| o.qty().value())
        .sum();
    assert_eq!(side_sum, 28);
    assert_eq!(order_sum, 28);
}

#[test]
fn emptied_level_is_unlinked_and_freed() {
    let mut m = OrderBookManager::new();
    add(&mut m, 1, 10, 100, false);
    add(&mut m, 2, 10, 101, false);
    let lid = m.oid_map.get(OrderId(1)).unwrap().level_id();
    m.execute_order(OrderId(1), Qty(10));
    let book = m.books[0].as_ref().unwrap();
    assert_eq!(book.asks.len(), 1);
    assert_eq!(book.level_pool.free_list, vec![lid]);
    assert_eq!(m.get_best_ask(BookId(0)), Some(Price(-101)));
    add(&mut m, 3, 4, 99, false);
    assert_eq!(m.oid_map.get(OrderId(3)).unwrap().level_id(), lid);
}

#[test]
fn add_then_remove_restores_the_book() {
    let mut m = OrderBookManager::new();
    add(&mut m, 1, 10, 100, true);
    add(&mut m, 2, 10, 90, false);
    let before_bids: Vec<(i32, u32)> = bid_view(&m);
    add(&mut m, 3, 5, 100, true);
    add(&mut m, 4, 5, 95, true);
    m.remove_order(OrderId(4));
    m.remove_order(OrderId(3));
    assert_eq!(bid_view(&m), before_bids);
    assert!(m.oid_map.get(OrderId(3)).is_none());
    assert_eq!(m.oid_map.iter().len(), 2);
}

fn bid_view(m: &OrderBookManager) -> Vec<(i32, u32)> {
    let book = m.books[0].as_ref().unwrap();
    book.bids
        .iter()
        .map(|l| (l.price().value(), book.level_pool.get(l.level_id()).unwrap().size().value()))
        .collect()
}

#[test]
fn disjoint_adds_commute() {
    let mut a = OrderBookManager::new();
    add(&mut a, 1, 10, 100, true);
    add(&mut a, 2, 7, 98, true);
    let mut b = OrderBookManager::new();
    add(&mut b, 2, 7, 98, true);
    add(&mut b, 1, 10, 100, true);
    assert_eq!(bid_view(&a), bid_view(&b));
    assert_eq!(a.oid_map.get(OrderId(1)).unwrap().qty(), b.oid_map.get(OrderId(1)).unwrap().qty());
    assert_eq!(a.oid_map.get(OrderId(2)).unwrap().qty(), b.oid_map.get(OrderId(2)).unwrap().qty());
}

#[test]
fn matching_conserves_resting_quantity() {
    let mut e = MatchingEngine::new();
    add(&mut e.orderbook_manager, 1, 10, 100, false);
    add(&mut e.orderbook_manager, 2, 10, 101, false);
    add(&mut e.orderbook_manager, 3, 10, 105, false);
    let (remaining, ms) =
        e.match_order(OrderId(4), BookId(0), Qty(15), 101, true, None, None, None, None);
    let executed: u32 = ms.iter().map(|m| m.exec_qty.value()).sum();
    assert_eq!(executed, 15);
    assert_eq!(remaining.value(), 0);
    let book = e.orderbook_manager.books[0].as_ref().unwrap();
    let asks: u32 = book
        .asks
        .iter()
        .map(|l| book.level_pool.get(l.level_id()).unwrap().size().value())
        .sum();
    assert_eq!(asks, 30 - 15);
}

#[test]
fn resting_taker_leaves_book_uncrossed() {
    let mut e = MatchingEngine::new();
    add(&mut e.orderbook_manager, 1, 10, 100, false);
    add(&mut e.orderbook_manager, 2, 10, 103, false);
    let (remaining, ms) =
        e.match_order(OrderId(3), BookId(0), Qty(25), 101, true, None, None, None, None);
    assert_eq!(ms.len(), 1);
    assert_eq!(remaining.value(), 15);
    let bid = e.orderbook_manager.get_best_bid(BookId(0)).unwrap();
    let ask = e.orderbook_manager.get_best_ask(BookId(0)).unwrap();
    assert_eq!(bid, Price(101));
    assert_eq!(ask, Price(-103));
    assert!(bid.absolute() < ask.absolute());
}

#[test]
fn next_match_is_earliest_at_best_level() {
    let mut m = OrderBookManager::new();
    add(&mut m, 5, 10, 100, false);
    add(&mut m, 3, 20, 100, false);
    add(&mut m, 1, 30, 101, false);
    assert_eq!(m.get_next_match(BookId(0), true, Price(100)), Some((OrderId(3), Qty(20))));
    assert_eq!(m.get_next_match(BookId(0), true, Price(99)), None);
    assert_eq!(m.get_next_match(BookId(0), false, Price(-1)), None);
    assert_eq!(m.get_next_match(BookId(1), true, Price(100)), None);
}

#[test]
fn price_sign_convention() {
    assert_eq!(Price::from_u32(42, true), Price(42));
    assert_eq!(Price::from_u32(42, false), Price(-42));
    assert_eq!(Price(-42).absolute(), 42);
    assert!(Price(1).is_bid());
    assert!(!Price(0).is_bid());
    assert!(!Price(-3).is_bid());
}

#[test]
fn level_pool_reuses_freed_ids_last_first() {
    let mut p = LevelPool::new();
    let a = p.allocate();
    let b = p.allocate();
    assert_eq!((a, b), (LevelId(0), LevelId(1)));
    p.free(a);
    p.free(b);
    assert_eq!(p.allocate(), LevelId(1));
    assert_eq!(p.allocate(), LevelId(0));
    assert_eq!(p.allocate(), LevelId(2));
}

#[test]
fn book_beyond_initial_capacity_is_created() {
    let mut e = MatchingEngine::new();
    let far = BookId(100_000);
    e.orderbook_manager.add_order(OrderId(1), far, Qty(10), 50, false, None, None, None, None);
    assert!(e.orderbook_manager.books.len() > 100_000);
    assert_eq!(e.orderbook_manager.get_best_ask(far), Some(Price(-50)));
    let (remaining, ms) = e.match_order(OrderId(2), far, Qty(4), 50, true, None, None, None, None);
    assert_eq!(remaining.value(), 0);
    assert_eq!(ms.len(), 1);
    assert_eq!(e.orderbook_manager.oid_map.get(OrderId(1)).unwrap().qty().value(), 6);
}

#[test]
fn removing_unknown_order_changes_nothing() {
    let mut m = OrderBookManager::new();
    add(&mut m, 1, 10, 100, true);
    let before = bid_view(&m);
    m.remove_order(OrderId(9));
    m.execute_order(OrderId(9), Qty(1));
    m.cancel_order(OrderId(9), Qty(1));
    assert_eq!(bid_view(&m), before);
    assert_eq!(m.oid_map.get(OrderId(1)).unwrap().qty().value(), 10);
}

#[test]
fn manager_execution_sizes_and_frees_levels() {
    let mut m = OrderBookManager::new();
    add(&mut m, 1, 10, 100, true);
    add(&mut m, 2, 6, 100, true);
    let lid = m.oid_map.get(OrderId(1)).unwrap().level_id();
    m.execute_order(OrderId(1), Qty(3));
    assert_eq!(level_size(&m, 2), 13);
    m.remove_order(OrderId(1));
    assert_eq!(level_size(&m, 2), 6);
    m.remove_order(OrderId(2));
    let book = m.books[0].as_ref().unwrap();
    assert!(book.bids.is_empty());
    assert_eq!(book.level_pool.free_list, vec![lid]);
}
