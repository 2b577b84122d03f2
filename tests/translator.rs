use optimized_lob::market::MarketConfig;
use optimized_lob::matching::MatchingEngine;
use optimized_lob::order::OrderId;
use optimized_lob::quantity::Qty;
use optimized_lob::translator::translate_matches;
use optimized_lob::utils::BookId;

#[test]
fn test_full_match_and_translate_flow() {
    let mut engine = MatchingEngine::new();

    let market_config = MarketConfig {
        base_token: [1; 20],
        security_token: [2; 20],
        fee_recipient: [3; 20],
        pool: [4; 20],
        signature_type: 1,
    };
    engine.market_manager.add_market(BookId(0), market_config.clone());

    engine.orderbook_manager.add_order(
        OrderId(1),
        BookId(0),
        Qty(50),
        100,
        false,
        Some([5; 20]),
        Some(1),
        Some(u64::MAX),
        Some([1; 65]),
    );

    let (remaining, matches) = engine.match_order(
        OrderId(3),
        BookId(0),
        Qty(30),
        100,
        true,
        Some([7; 20]),
        Some(3),
        Some(u64::MAX),
        Some([3; 65]),
    );

    let market_config = engine
        .market_manager
        .get_config(BookId(0))
        .expect("Market config should exist");
    let settlements = translate_matches(matches, market_config);

    println!("\nSETTLEMENT DETAILS:");
    for (i, settlement) in settlements.iter().enumerate() {
        println!("Settlement {}:", i + 1);
        println!("---------------");
        println!("Maker: 0x{}", hex::encode(settlement.maker));
        println!("Taker: 0x{}", hex::encode(settlement.taker));
        println!("Maker Token: 0x{}", hex::encode(settlement.maker_token));
        println!("Taker Token: 0x{}", hex::encode(settlement.taker_token));
        println!("Fee Recipient: 0x{}", hex::encode(settlement.fee_recipient));
        println!("Pool: 0x{}", hex::encode(settlement.pool));
        println!("Maker Amount: {}", settlement.maker_amount);
        println!("Taker Amount: {}", settlement.taker_amount);
        println!("Maker is Buyer: {}", settlement.maker_is_buyer);
        println!("\nMaker Signature:");
        println!("  Type: {}", settlement.maker_signature.signature_type);
        println!("  v: {}", settlement.maker_signature.v);
        println!("  r: 0x{}", hex::encode(settlement.maker_signature.r));
        println!("  s: 0x{}", hex::encode(settlement.maker_signature.s));
        println!("\nTaker Signature:");
        println!("  Type: {}", settlement.taker_signature.signature_type);
        println!("  v: {}", settlement.taker_signature.v);
        println!("  r: 0x{}", hex::encode(settlement.taker_signature.r));
        println!("  s: 0x{}", hex::encode(settlement.taker_signature.s));
        println!("---------------\n");
    }

    assert_eq!(remaining.value(), 0);
    assert_eq!(settlements.len(), 1);

    let settlement = &settlements[0];
    assert_eq!(settlement.maker_amount, 30);
    assert_eq!(settlement.taker_amount, 3000);
    assert_eq!(settlement.maker_is_buyer, false);
    assert_eq!(settlement.maker_signature.signature_type, 1);
    assert_eq!(settlement.fee_recipient, [3; 20]);
    assert_eq!(settlement.pool, [4; 20]);
    assert_eq!(settlement.maker_signature.v, 1);
    assert_eq!(settlement.maker_signature.r, [1; 32]);
    assert_eq!(settlement.maker_signature.s, [1; 32]);
    assert_eq!(settlement.taker_signature.v, 3);
    assert_eq!(settlement.taker_signature.r, [3; 32]);
    assert_eq!(settlement.taker_signature.s, [3; 32]);
}
