use optimized_lob::matching::MatchingEngine;
use optimized_lob::order::{Order, OrderId};
use optimized_lob::quantity::Qty;
use optimized_lob::utils::BookId;
use rand::Rng;
use std::time::{Duration, Instant};

fn print_match_details(
    maker_order: &Order,
    taker_id: OrderId,
    taker_trader: Option<[u8; 20]>,
    taker_nonce: Option<u64>,
    exec_qty: Qty,
    price: u32,
    is_bid: bool,
) {
    println!("\nMATCH DETAILS:");
    println!("---------------");
    println!("Execution Quantity: {}", exec_qty.value());
    println!("Price: {}", price);
    println!("Direction: {}", if is_bid { "BUY" } else { "SELL" });
    println!("Taker Order ID: {}", taker_id.0);
    println!("\nMAKER DETAILS:");
    if let Some(trader) = maker_order.trader() {
        println!("Address: 0x{}", hex::encode(trader));
    }
    if let Some(nonce) = maker_order.nonce() {
        println!("Nonce: {}", nonce);
    }
    if let Some(expiry) = maker_order.expiry() {
        println!("Expiry: {}", expiry);
    }
    println!("\nTAKER DETAILS:");
    if let Some(trader) = taker_trader {
        println!("Address: 0x{}", hex::encode(trader));
    }
    if let Some(nonce) = taker_nonce {
        println!("Nonce: {}", nonce);
    }
    println!("---------------\n");
}

#[test]
fn test_basic_matching() {
    let mut engine = MatchingEngine::new();

    println!("\nStarting basic matching test...");

    engine.orderbook_manager.add_order(
        OrderId(1),
        BookId(0),
        Qty(100),
        100,
        false,
        Some([1; 20]),
        Some(1),
        Some(u64::MAX),
        Some([0; 65]),
    );

    println!("Added resting sell order: ID(1), Qty(100), Price(100)");

    let (remaining, _details) = engine.match_order(
        OrderId(2),
        BookId(0),
        Qty(60),
        100,
        true,
        Some([2; 20]),
        Some(2),
        Some(u64::MAX),
        Some([0; 65]),
    );

    if let Some(maker_order) = engine.orderbook_manager.oid_map.get(OrderId(1)) {
        print_match_details(maker_order, OrderId(2), Some([2; 20]), Some(2), Qty(60), 100, true);
    }

    assert_eq!(remaining.value(), 0);
    println!("Remaining quantity: {}", remaining.value());

    if let Some(order) = engine.orderbook_manager.oid_map.get(OrderId(1)) {
        assert_eq!(order.qty().value(), 40);
        println!("Remaining resting order quantity: {}", order.qty().value());
    }
}

#[test]
fn test_no_match_price() {
    let mut engine = MatchingEngine::new();

    println!("\nStarting no-match price test...");

    engine.orderbook_manager.add_order(
        OrderId(1),
        BookId(0),
        Qty(100),
        100,
        false,
        Some([1; 20]),
        Some(1),
        Some(u64::MAX),
        Some([0; 65]),
    );

    println!("Added resting sell order: ID(1), Qty(100), Price(100)");

    let (remaining, _) = engine.match_order(
        OrderId(2),
        BookId(0),
        Qty(60),
        99,
        true,
        Some([2; 20]),
        Some(2),
        Some(u64::MAX),
        Some([0; 65]),
    );

    println!("Attempted match with buy order: ID(2), Qty(60), Price(99)");
    println!("No match occurred due to price mismatch");
    println!("Remaining quantity: {}", remaining.value());

    assert_eq!(remaining.value(), 60);
}

#[test]
fn test_multiple_matches() {
    let mut engine = MatchingEngine::new();

    engine.orderbook_manager.add_order(
        OrderId(1), BookId(0), Qty(50), 100, false,
        Some([1; 20]), Some(1), Some(u64::MAX), Some([0; 65]),
    );
    engine.orderbook_manager.add_order(
        OrderId(2), BookId(0), Qty(40), 101, false,
        Some([1; 20]), Some(1), Some(u64::MAX), Some([0; 65]),
    );

    let (remaining, _) = engine.match_order(
        OrderId(4), BookId(0), Qty(90), 102, true,
        Some([2; 20]), Some(2), Some(u64::MAX), Some([0; 65]),
    );

    assert_eq!(remaining.value(), 0);
}

#[test]
fn test_matching_performance() {
    let mut engine = MatchingEngine::new();
    let num_orders = 100;
    let mut rng = rand::thread_rng();
    let mut latencies = Vec::with_capacity(num_orders);

    for i in 0..1000 {
        engine.orderbook_manager.add_order(
            OrderId(i as u32),
            BookId(0),
            Qty(rng.gen_range(1..=100)),
            rng.gen_range(90..110),
            rng.gen_bool(0.5),
            Some([1; 20]),
            Some(i as u64),
            Some(u64::MAX),
            Some([0; 65]),
        );
    }

    println!("\nMATCHING ENGINE PERFORMANCE TEST");
    println!("===============================");
    println!("Processing {} orders...\n", num_orders);

    let start_time = Instant::now();
    let mut total_matches = 0;

    for i in 1000..(1000 + num_orders) {
        let order_start = Instant::now();
        let (remaining, _) = engine.match_order(
            OrderId(i as u32),
            BookId(0),
            Qty(rng.gen_range(1..=100)),
            rng.gen_range(90..110),
            rng.gen_bool(0.5),
            Some([1; 20]),
            Some(i as u64),
            Some(u64::MAX),
            Some([0; 65]),
        );
        latencies.push(order_start.elapsed());

        if remaining.value() == 0 {
            total_matches += 1;
        }
    }

    let total_time = start_time.elapsed();
    let avg_latency = latencies.iter().sum::<Duration>() / latencies.len() as u32;
    let max_latency = latencies.iter().max().unwrap();
    let min_latency = latencies.iter().min().unwrap();
    let throughput = num_orders as f64 / total_time.as_secs_f64();

    println!("PERFORMANCE RESULTS");
    println!("-----------------");
    println!("Total Orders: {}", num_orders);
    println!("Full Matches: {}", total_matches);
    println!("Total Time: {:?}", total_time);
    println!("Throughput: {:.2} orders/sec", throughput);
    println!("\nLATENCY STATISTICS");
    println!("Average: {:?}", avg_latency);
    println!("Maximum: {:?}", max_latency);
    println!("Minimum: {:?}", min_latency);

    assert!(throughput > 0.0);
    assert!(total_matches > 0);
}
