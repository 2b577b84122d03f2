use optimized_lob::book_registry::{BookRegistry, BookRegistryError};
use optimized_lob::order_intake::{OrderIntakeError, OrderSubmission};
use optimized_lob::price::Price;
use optimized_lob::utils::BookId;

fn submission(quantity: u32, price: i32, trader: &str, signature: &str, expiry: Option<u64>) -> OrderSubmission {
    OrderSubmission {
        book_id: "ETH-USD".to_string(),
        price,
        quantity,
        trader: trader.to_string(),
        nonce: 9,
        expiry,
        signature: signature.to_string(),
    }
}

const TRADER: &str = "0xabababababababababababababababababababab";

#[test]
fn accepted_submission_carries_decoded_fields() {
    let v = submission(100, -1000, TRADER, "0x0102ff", None).into_order().unwrap();
    assert_eq!(v.price, Price(-1000));
    assert_eq!(v.order.qty().value(), 100);
    assert_eq!(v.order.trader(), Some([0xab; 20]));
    let mut sig = [0u8; 65];
    sig[0] = 1;
    sig[1] = 2;
    sig[2] = 0xff;
    assert_eq!(v.order.signature(), Some(sig));
    assert_eq!(v.order.nonce(), Some(9));
    assert_eq!(v.order.expiry(), Some(u64::MAX));
    assert_eq!(v.order.book_id(), BookId::from_str("ETH-USD").unwrap());
}

#[test]
fn expiry_is_kept_when_given() {
    let v = submission(1, 1, TRADER, "", Some(77)).into_order().unwrap();
    assert_eq!(v.order.expiry(), Some(77));
    assert_eq!(v.order.signature(), Some([0u8; 65]));
}

#[test]
fn zero_price_is_refused() {
    let r = submission(1, 0, TRADER, "00", None).into_order();
    assert!(matches!(r, Err(OrderIntakeError::InvalidPrice)));
}

#[test]
fn zero_quantity_is_refused_before_price() {
    let r = submission(0, 0, "zz", "zz", None).into_order();
    assert!(matches!(r, Err(OrderIntakeError::InvalidQuantity)));
}

#[test]
fn bad_traders_are_refused() {
    let short = submission(1, 1, "0xabab", "00", None).into_order();
    assert!(matches!(short, Err(OrderIntakeError::InvalidTrader)));
    let not_hex = submission(1, 1, "0xzbababababababababababababababababababab", "00", None).into_order();
    assert!(matches!(not_hex, Err(OrderIntakeError::InvalidTrader)));
}

#[test]
fn bad_signatures_are_refused() {
    let odd = submission(1, 1, TRADER, "0x123", None).into_order();
    assert!(matches!(odd, Err(OrderIntakeError::InvalidSignature)));
    let long = "00".repeat(66);
    let too_long = submission(1, 1, TRADER, &long, None).into_order();
    assert!(matches!(too_long, Err(OrderIntakeError::InvalidSignature)));
    let exact = "11".repeat(65);
    let ok = submission(1, 1, TRADER, &exact, None).into_order().unwrap();
    assert_eq!(ok.order.signature(), Some([0x11; 65]));
}

#[test]
fn repeated_prefixes_are_stripped() {
    let v = submission(1, 1, "0x0xcdcdcdcdcdcdcdcdcdcdcdcdcdcdcdcdcdcdcdcd", "0xAbCd", None)
        .into_order()
        .unwrap();
    assert_eq!(v.order.trader(), Some([0xcd; 20]));
    let sig = v.order.signature().unwrap();
    assert_eq!((sig[0], sig[1], sig[2]), (0xab, 0xcd, 0));
}

#[test]
fn book_id_from_name_is_stable() {
    let a = BookId::from_str("BTC-USD").unwrap();
    let b = BookId::from_str("BTC-USD").unwrap();
    assert_eq!(a, b);
    assert_eq!(BookId::from_hash(0x1_0000_0005), BookId(5));
}

#[test]
fn registry_registers_once_and_looks_up() {
    let mut r = BookRegistry::new();
    let id = r.register_book("ETH-USD".to_string()).unwrap();
    assert_eq!(id, BookId::from_str("ETH-USD").unwrap());
    assert!(matches!(r.register_book("ETH-USD".to_string()), Err(BookRegistryError::BookAlreadyExists)));
    assert_eq!(r.get_book_id("ETH-USD").unwrap(), id);
    assert!(matches!(r.get_book_id("BTC-USD"), Err(BookRegistryError::BookNotFound)));
    r.register_book("BTC-USD".to_string()).unwrap();
    assert_eq!(r.list_books(), vec!["ETH-USD".to_string(), "BTC-USD".to_string()]);
}
