use polyfill_fill::decimal::{Decimal, MAX_MANTISSA};
use polyfill_fill::errors::{OrderErrorKind, PolyfillError};
use polyfill_fill::ledger::FillLedger;
use polyfill_fill::processor::FillProcessor;
use polyfill_fill::types::{Address, FillEvent, Side, Timestamp};

fn fill(id: &str, order_id: &str, size: Decimal) -> FillEvent {
    FillEvent {
        id: id.to_string(),
        order_id: order_id.to_string(),
        token_id: "token".to_string(),
        side: Side::SELL,
        price: Decimal::new(5, 1),
        size,
        timestamp: Timestamp { secs: 1_700_000_000, nanos: 1 },
        maker_address: Address::zero(),
        taker_address: Address::zero(),
        fee: Decimal::new(1, 2),
    }
}

fn refusal(r: Result<(), PolyfillError>) -> (OrderErrorKind, String) {
    match r {
        Ok(()) => panic!("not refused"),
        Err(PolyfillError::Order { message, kind }) => (kind, message),
    }
}

fn ids(fills: Option<&[FillEvent]>) -> Vec<String> {
    fills.unwrap().iter().map(|f| f.id.clone()).collect()
}

#[test]
fn test_fill_processor() {
    let mut processor = FillProcessor::new(100);

    let fill = FillEvent {
        id: "fill1".to_string(),
        order_id: "order1".to_string(),
        token_id: "test".to_string(),
        side: Side::BUY,
        price: Decimal::new(5, 1),
        size: Decimal::new(100, 0),
        timestamp: Timestamp { secs: 1_700_000_000, nanos: 0 },
        maker_address: Address::zero(),
        taker_address: Address::zero(),
        fee: Decimal::new(1, 1),
    };

    assert!(processor.process_fill(fill).is_ok());
    assert_eq!(processor.get_stats().pending_orders, 1);
}

#[test]
fn test_fill_processor_basic_operations() {
    let mut processor = FillProcessor::new(100); // max_pending

    let fill_event = FillEvent {
        id: "fill_1".to_string(),
        order_id: "order_1".to_string(),
        side: Side::BUY,
        size: Decimal::new(25, 0),
        price: Decimal::new(75, 2),
        timestamp: Timestamp { secs: 1_700_000_000, nanos: 0 },
        token_id: "token_1".to_string(),
        maker_address: Address::zero(),
        taker_address: Address::zero(),
        fee: Decimal::new(1, 2),
    };

    let result = processor.process_fill(fill_event);
    assert!(result.is_ok());

    // Check that the fill was added to pending
    assert_eq!(processor.get_stats().pending_orders, 1);
}

#[test]
fn fills_wait_behind_the_earlier_ones_of_their_order() {
    let mut processor = FillProcessor::new(10);
    for (id, order_id) in [("1", "b"), ("2", "a"), ("3", "b")] {
        assert!(processor.process_fill(fill(id, order_id, Decimal::new(1, 0))).is_ok());
    }
    assert_eq!(ids(processor.get_pending_fills("a")), ["2"]);
    assert_eq!(ids(processor.get_pending_fills("b")), ["1", "3"]);
    assert!(processor.get_pending_fills("c").is_none());
    assert!(processor.get_processed_fills().is_empty());
    assert!(!processor.is_order_complete("a"));
}

#[test]
fn the_smallest_ids_are_dropped_first() {
    let mut processor = FillProcessor::new(2);
    for order_id in ["order9", "order10", "order8"] {
        assert!(processor.process_fill(fill("x", order_id, Decimal::new(1, 0))).is_ok());
    }
    assert_eq!(processor.get_stats().pending_orders, 2);
    assert!(processor.get_pending_fills("order10").is_none());
    assert!(processor.get_pending_fills("order8").is_some());
    assert!(processor.get_pending_fills("order9").is_some());

    // A fill of an order with a small id is itself the one to go.
    assert!(processor.process_fill(fill("y", "a", Decimal::new(1, 0))).is_ok());
    assert!(processor.get_pending_fills("a").is_none());
    assert_eq!(processor.get_stats().pending_orders, 2);
}

#[test]
fn no_more_fills_than_the_limit_are_kept() {
    let mut processor = FillProcessor::new(3);
    for (id, order_id) in [("1", "b"), ("2", "b"), ("3", "c")] {
        assert!(processor.process_fill(fill(id, order_id, Decimal::new(1, 0))).is_ok());
    }
    assert_eq!(processor.get_stats().pending_fills, 3);

    // The fourth fill is one too many, and the two fills of the smallest id go.
    assert!(processor.process_fill(fill("4", "c", Decimal::new(1, 0))).is_ok());
    assert!(processor.get_pending_fills("b").is_none());
    assert_eq!(ids(processor.get_pending_fills("c")), ["3", "4"]);
    assert_eq!(processor.get_stats().pending_fills, 2);
    assert_eq!(processor.get_stats().pending_orders, 1);

    // There is room again.
    assert!(processor.process_fill(fill("5", "a", Decimal::new(1, 0))).is_ok());
    assert_eq!(ids(processor.get_pending_fills("a")), ["5"]);
    assert_eq!(processor.get_stats().pending_fills, 3);

    // An order with more fills than the limit cannot be kept.
    for id in ["6", "7"] {
        assert!(processor.process_fill(fill(id, "c", Decimal::new(1, 0))).is_ok());
    }
    assert!(processor.get_pending_fills("a").is_none());
    assert!(processor.get_pending_fills("c").is_none());
    assert_eq!(processor.get_stats().pending_fills, 0);
}

#[test]
fn two_fills_of_one_order_are_more_than_one() {
    let mut processor = FillProcessor::new(1);
    assert!(processor.process_fill(fill("1", "a", Decimal::new(1, 0))).is_ok());
    assert_eq!(processor.get_stats().pending_fills, 1);
    assert!(processor.process_fill(fill("2", "a", Decimal::new(1, 0))).is_ok());
    assert_eq!(processor.get_stats().pending_fills, 0);
}

#[test]
fn a_limit_of_zero_keeps_nothing() {
    let mut processor = FillProcessor::new(0);
    assert!(processor.process_fill(fill("1", "a", Decimal::new(1, 0))).is_ok());
    assert_eq!(processor.get_stats().pending_orders, 0);
    assert!(processor.get_pending_fills("a").is_none());
}

#[test]
fn fills_without_size_or_price_are_refused() {
    let mut processor = FillProcessor::new(10);
    let mut empty = fill("1", "a", Decimal::new(0, 2));
    assert_eq!(
        refusal(processor.process_fill(empty.clone())),
        (OrderErrorKind::InvalidSize, "Fill size cannot be zero".to_string())
    );
    let mut free = fill("2", "a", Decimal::new(1, 0));
    free.price = Decimal::zero();
    assert_eq!(
        refusal(processor.process_fill(free)),
        (OrderErrorKind::InvalidPrice, "Fill price cannot be zero".to_string())
    );
    empty.price = Decimal::zero();
    assert_eq!(refusal(processor.validate_fill(&empty)).0, OrderErrorKind::InvalidSize);
    assert_eq!(processor.get_stats().pending_orders, 0);
}

#[test]
fn negative_sizes_are_taken() {
    let mut processor = FillProcessor::new(10);
    assert!(processor.process_fill(fill("1", "a", Decimal::new(-5, 1))).is_ok());
    assert_eq!(processor.get_stats().pending_volume, Decimal::new(-5, 1));
}

#[test]
fn volumes_of_pending_fills() {
    let mut processor = FillProcessor::new(10);
    assert!(processor.process_fill(fill("1", "b", Decimal::new(15, 1))).is_ok());
    assert!(processor.process_fill(fill("2", "a", Decimal::new(25, 2))).is_ok());
    assert!(processor.process_fill(fill("3", "b", Decimal::new(1, 0))).is_ok());
    let stats = processor.try_get_stats().unwrap();
    assert_eq!(stats.pending_orders, 2);
    assert_eq!(stats.pending_fills, 3);
    assert_eq!(stats.pending_volume, Decimal::new(275, 2));
    assert_eq!(stats.processed_fills, 0);
    assert_eq!(stats.processed_volume, Decimal::zero());
}

#[test]
fn a_volume_that_overflows_has_no_statistics() {
    let largest = Decimal::try_from_i128_with_scale(MAX_MANTISSA, 0).unwrap();
    let mut processor = FillProcessor::new(10);
    assert!(processor.process_fill(fill("1", "a", largest)).is_ok());
    assert_eq!(processor.try_get_stats().unwrap().pending_volume, largest);
    assert!(processor.process_fill(fill("2", "b", largest)).is_ok());
    assert!(processor.try_get_stats().is_none());
}

#[test]
fn a_ledger_keeps_its_orders_in_order() {
    let mut ledger = FillLedger::new();
    for (id, order_id) in [("1", "m"), ("2", "z"), ("3", "a"), ("4", "m")] {
        ledger.append(order_id.to_string(), fill(id, order_id, Decimal::new(1, 0)));
    }
    assert_eq!(ledger.len(), 3);
    let all: Vec<&str> = ledger.all().iter().map(|f| f.id.as_str()).collect();
    assert_eq!(all, ["3", "1", "4", "2"]);

    ledger.insert("m".to_string(), vec![fill("5", "m", Decimal::new(1, 0))]);
    assert_eq!(ids(ledger.get("m")), ["5"]);
    assert_eq!(ids(ledger.get("a")), ["3"]);

    ledger.drop_smallest(1);
    assert!(ledger.get("a").is_none());
    assert_eq!(ledger.len(), 2);

    ledger.keep_within(2);
    assert_eq!(ledger.len(), 2);
    let taken = ledger.remove("z").unwrap();
    assert_eq!(ids(Some(taken.as_slice())), ["2"]);
    assert!(ledger.remove("z").is_none());
    assert_eq!(ledger.len(), 1);
}
