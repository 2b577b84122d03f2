use optimized_lob::order_intake::{OrderIntake, OrderIntakeError, OrderSubmission};

#[test]
fn test_valid_order_submission() {
    let submission = OrderSubmission {
        book_id: "ETH-USD".to_string(),
        price: 1000,
        quantity: 100,
        trader: "0x1234567890123456789012345678901234567890".to_string(),
        nonce: 1,
        expiry: Some(std::time::SystemTime::now()
            .duration_since(std::time::UNIX_EPOCH)
            .unwrap()
            .as_secs() + 3600),
        signature: "0x123456789012345678901234567890123456789012345678901234567890123456789012345678901234567890123456789012345".to_string(),
    };

    let result = OrderIntake::new().process_submission(submission);
    // 105 hex digits: an odd count does not decode to bytes.
    assert!(matches!(result, Err(OrderIntakeError::InvalidSignature)));
}

#[test]
fn test_invalid_quantity() {
    let submission = OrderSubmission {
        book_id: "ETH-USD".to_string(),
        price: 1000,
        quantity: 0,
        trader: "0x1234567890123456789012345678901234567890".to_string(),
        nonce: 1,
        expiry: None,
        signature: "0x123456789012345678901234567890123456789012345678901234567890123456789012345678901234567890123456789012345".to_string(),
    };

    let result = OrderIntake::new().process_submission(submission);
    assert!(matches!(result, Err(OrderIntakeError::InvalidQuantity)));
}
