use polyfill_fill::book::OrderBook;
use polyfill_fill::decimal::{Decimal, MAX_MANTISSA};
use polyfill_fill::engine::{FillEngine, FillResult};
use polyfill_fill::errors::{OrderErrorKind, PolyfillError};
use polyfill_fill::quote::{FillStatus, PricedFill, Quote, QuotedFills};
use polyfill_fill::stamp::FillStamp;
use polyfill_fill::types::{
    Address, BookLevel, MarketOrderRequest, OrderRequest, Side, Timestamp,
};

fn level(price: Decimal, size: i64) -> BookLevel {
    BookLevel { price, size: Decimal::new(size, 0) }
}

fn largest() -> Decimal {
    Decimal::try_from_i128_with_scale(MAX_MANTISSA, 0).unwrap()
}

fn asks() -> Vec<BookLevel> {
    vec![level(Decimal::new(50, 2), 100), level(Decimal::new(55, 2), 100)]
}

fn book() -> OrderBook {
    let bids = vec![level(Decimal::new(48, 2), 10), level(Decimal::new(45, 2), 10)];
    OrderBook::from_levels(bids, asks()).unwrap()
}

fn empty_book() -> OrderBook {
    OrderBook::from_levels(vec![], vec![]).unwrap()
}

fn engine() -> FillEngine {
    FillEngine::new(Decimal::new(1, 0), Decimal::new(5, 0), 10)
}

fn market(side: Side, amount: Decimal, client_id: Option<&str>) -> MarketOrderRequest {
    MarketOrderRequest {
        token_id: "token".to_string(),
        side,
        amount,
        slippage_tolerance: None,
        client_id: client_id.map(|id| id.to_string()),
    }
}

fn limit(side: Side, price: Decimal, size: Decimal, client_id: Option<&str>) -> OrderRequest {
    OrderRequest {
        token_id: "token".to_string(),
        side,
        price,
        size,
        client_id: client_id.map(|id| id.to_string()),
    }
}

fn refusal<T>(r: Result<T, PolyfillError>) -> (OrderErrorKind, String) {
    match r {
        Ok(_) => panic!("not refused"),
        Err(PolyfillError::Order { message, kind }) => (kind, message),
    }
}

fn is_random_uuid(id: &str) -> bool {
    let chars: Vec<char> = id.chars().collect();
    chars.len() == 36
        && chars.iter().enumerate().all(|(i, c)| match i {
            8 | 13 | 18 | 23 => *c == '-',
            14 => *c == '4',
            19 => matches!(*c, '8' | '9' | 'a' | 'b'),
            _ => c.is_ascii_digit() || ('a'..='f').contains(c),
        })
}

fn assert_nothing_filled(res: &FillResult, status: FillStatus) {
    assert!(res.fills.is_empty());
    assert!(res.total_size.is_zero());
    assert!(res.average_price.is_zero());
    assert!(res.total_cost.is_zero());
    assert!(res.fees.is_zero());
    assert_eq!(res.status, status);
}

#[test]
fn test_fill_engine_creation() {
    let engine = FillEngine::new(Decimal::new(1, 0), Decimal::new(5, 0), 10);
    assert_eq!(engine.min_fill_size(), Decimal::new(1, 0));
    assert_eq!(engine.max_slippage_pct(), Decimal::new(5, 0));
    assert_eq!(engine.fee_rate_bps(), 10);
}

#[test]
fn test_market_order_validation() {
    let engine = FillEngine::new(Decimal::new(1, 0), Decimal::new(5, 0), 10);

    let valid_order = MarketOrderRequest {
        token_id: "test".to_string(),
        side: Side::BUY,
        amount: Decimal::new(100, 0),
        slippage_tolerance: None,
        client_id: None,
    };
    assert!(engine.validate_market_order(&valid_order).is_ok());

    let invalid_order = MarketOrderRequest {
        token_id: "test".to_string(),
        side: Side::BUY,
        amount: Decimal::new(0, 0),
        slippage_tolerance: None,
        client_id: None,
    };
    assert!(engine.validate_market_order(&invalid_order).is_err());
}

#[test]
fn test_fee_calculation() {
    let engine = FillEngine::new(Decimal::new(1, 0), Decimal::new(5, 0), 10);
    let fee = engine.calculate_fee(Decimal::new(1000, 0));
    assert_eq!(fee, Decimal::new(1, 0)); // 10 bps = 0.1% = 1 on 1000
}

#[test]
fn test_fill_engine_advanced_creation() {
    // min_fill_size, max_slippage, fee_rate_bps
    let _engine = FillEngine::new(Decimal::new(10, 1), Decimal::new(5, 2), 50);
}

#[test]
fn fees_are_so_many_basis_points() {
    let fee = engine().calculate_fee(Decimal::new(1234, 2));
    assert_eq!(fee, Decimal::new(1234, 5));
    let free = FillEngine::new(Decimal::new(1, 0), Decimal::new(5, 0), 0);
    assert_eq!(free.checked_fee(Decimal::new(1000, 0)), Some(Decimal::zero()));
    assert_eq!(engine().checked_fee(Decimal::zero()), Some(Decimal::zero()));
    assert_eq!(engine().checked_fee(Decimal::new(-1000, 0)), Some(Decimal::new(-1, 0)));
    assert_eq!(engine().checked_fee(largest()), None);
    assert_eq!(engine().checked_fee(Decimal::new(24, 0)), Some(Decimal::new(24, 3)));
    assert_eq!(engine().checked_fee(Decimal::new(5, 0)), Some(Decimal::new(5, 3)));
    assert_eq!(engine().checked_fee(Decimal::new(-123, 24)), Some(Decimal::new(-123, 27)));
    let whole = FillEngine::new(Decimal::new(1, 0), Decimal::new(5, 0), 1);
    let fee = Decimal::try_from_i128_with_scale(MAX_MANTISSA, 4).unwrap();
    assert_eq!(whole.checked_fee(largest()), Some(fee));
}

#[test]
fn a_market_order_takes_the_best_level_first() {
    let mut engine = engine();
    let order = market(Side::BUY, Decimal::new(150, 0), Some("mine"));
    let res = engine.execute_market_order(&order, &book()).unwrap();
    assert_eq!(res.order_id, "mine");
    assert_eq!(res.status, FillStatus::Filled);
    assert_eq!(res.total_size, Decimal::new(150, 0));
    assert_eq!(res.total_cost, Decimal::new(775, 1));
    assert_eq!(res.fees, Decimal::new(775, 4));
    let third = Decimal::try_from_i128_with_scale(5_166_666_666_666_666_666_666_666_667, 28);
    assert_eq!(res.average_price, third.unwrap());
    assert!(res.timestamp.nanos < 1_000_000_000);

    assert_eq!(res.fills.len(), 2);
    assert_eq!(res.fills[0].price, Decimal::new(5, 1));
    assert_eq!(res.fills[0].size, Decimal::new(100, 0));
    assert_eq!(res.fills[0].fee, Decimal::new(5, 2));
    assert_eq!(res.fills[1].price, Decimal::new(55, 2));
    assert_eq!(res.fills[1].size, Decimal::new(50, 0));
    assert_eq!(res.fills[1].fee, Decimal::new(275, 4));
    for fill in &res.fills {
        assert_eq!(fill.order_id, "mine");
        assert_eq!(fill.token_id, "token");
        assert_eq!(fill.side, Side::BUY);
        assert_eq!(fill.maker_address, Address::zero());
        assert_eq!(fill.taker_address.bytes, [0; 20]);
        assert!(is_random_uuid(&fill.id));
        assert!(fill.timestamp.secs >= res.timestamp.secs);
        assert!(fill.timestamp.nanos < 1_000_000_000);
    }
    assert_ne!(res.fills[0].id, res.fills[1].id);
}

#[test]
fn a_market_order_that_sells_goes_down_the_bids() {
    let mut engine = engine();
    let order = market(Side::SELL, Decimal::new(12, 0), None);
    let res = engine.execute_market_order(&order, &book()).unwrap();
    assert_eq!(res.order_id, "market_order");
    assert_eq!(res.status, FillStatus::Filled);
    assert_eq!(res.fills.len(), 2);
    assert_eq!(res.fills[0].price, Decimal::new(48, 2));
    assert_eq!(res.fills[1].price, Decimal::new(45, 2));
    assert_eq!(res.fills[1].size, Decimal::new(2, 0));
    assert_eq!(res.total_cost, Decimal::new(57, 1));
    assert_eq!(res.average_price, Decimal::new(475, 3));
}

#[test]
fn an_amount_that_the_best_level_covers_is_filled_there() {
    let mut engine = engine();
    let order = market(Side::BUY, Decimal::new(100, 0), None);
    let res = engine.execute_market_order(&order, &book()).unwrap();
    assert_eq!(res.status, FillStatus::Filled);
    assert_eq!(res.fills.len(), 1);
    assert_eq!(res.average_price, Decimal::new(5, 1));
    assert_eq!(res.total_cost, Decimal::new(50, 0));
    assert_eq!(res.fees, Decimal::new(5, 2));
}

#[test]
fn a_market_order_beyond_the_book_is_filled_in_part() {
    // The average price of 0.525 is exactly as much worse as is tolerated.
    let mut engine = engine();
    let order = market(Side::BUY, Decimal::new(300, 0), None);
    let res = engine.execute_market_order(&order, &book()).unwrap();
    assert_eq!(res.status, FillStatus::Partial);
    assert_eq!(res.total_size, Decimal::new(200, 0));
    assert_eq!(res.total_cost, Decimal::new(105, 0));
    assert_eq!(res.average_price, Decimal::new(525, 3));
    assert_eq!(res.fees, Decimal::new(105, 3));
    assert_eq!(engine.get_fills("market_order").unwrap().len(), 2);
}

#[test]
fn a_market_order_with_too_much_slippage_is_rejected() {
    let mut engine = FillEngine::new(Decimal::new(1, 0), Decimal::new(49, 1), 10);
    let order = market(Side::BUY, Decimal::new(300, 0), None);
    let res = engine.execute_market_order(&order, &book()).unwrap();
    assert_nothing_filled(&res, FillStatus::Rejected);
    assert_eq!(res.order_id, "market_order");
    assert!(engine.get_fills("market_order").is_none());
    assert_eq!(engine.get_stats().total_orders, 0);
}

#[test]
fn no_slippage_can_be_more_than_is_tolerated() {
    let mut engine = FillEngine::new(Decimal::new(1, 0), Decimal::new(-1, 0), 10);
    let order = market(Side::BUY, Decimal::new(1, 0), None);
    let res = engine.execute_market_order(&order, &book()).unwrap();
    assert_nothing_filled(&res, FillStatus::Rejected);
}

#[test]
fn an_order_that_less_than_the_minimum_is_offered_for_is_unfilled() {
    let mut engine = FillEngine::new(Decimal::new(250, 0), Decimal::new(5, 0), 10);
    let order = market(Side::BUY, Decimal::new(300, 0), Some("large"));
    let res = engine.execute_market_order(&order, &book()).unwrap();
    assert_nothing_filled(&res, FillStatus::Unfilled);
    assert_eq!(res.order_id, "large");
    assert!(engine.get_fills("large").is_none());
    assert_eq!(engine.get_stats().total_orders, 0);

    let mut engine = FillEngine::new(Decimal::new(10, 0), Decimal::new(5, 0), 0);
    let ask = vec![level(Decimal::new(50, 2), 5)];
    let book = OrderBook::from_levels(vec![], ask).unwrap();
    let order = market(Side::BUY, Decimal::new(100, 0), None);
    let res = engine.execute_market_order(&order, &book).unwrap();
    assert_nothing_filled(&res, FillStatus::Unfilled);
    assert!(engine.get_fills("market_order").is_none());
}

#[test]
fn an_order_that_just_the_minimum_is_offered_for_is_filled_in_part() {
    let mut engine = FillEngine::new(Decimal::new(200, 0), Decimal::new(5, 0), 10);
    let order = market(Side::BUY, Decimal::new(300, 0), Some("large"));
    let res = engine.execute_market_order(&order, &book()).unwrap();
    assert_eq!(res.status, FillStatus::Partial);
    assert_eq!(res.total_size, Decimal::new(200, 0));
    assert_eq!(engine.get_fills("large").unwrap().len(), 2);
}

#[test]
fn no_other_way_to_take_the_same_size_is_better() {
    // 150 from the asks, 100 at 0.50 and 50 at 0.55, against 50 and 100.
    let mut engine = engine();
    let buy = market(Side::BUY, Decimal::new(150, 0), None);
    let bought = engine.execute_market_order(&buy, &book()).unwrap();
    assert_eq!(bought.total_cost, Decimal::new(775, 1));
    assert_eq!(bought.total_cost.min(Decimal::new(800, 1)), bought.total_cost);
    // 12 into the bids, 10 at 0.48 and 2 at 0.45, against 2 and 10.
    let sell = market(Side::SELL, Decimal::new(12, 0), None);
    let sold = engine.execute_market_order(&sell, &book()).unwrap();
    assert_eq!(sold.total_cost, Decimal::new(570, 2));
    assert_eq!(sold.total_cost.min(Decimal::new(546, 2)), Decimal::new(546, 2));
}

#[test]
fn a_market_order_without_liquidity_is_unfilled() {
    let mut engine = engine();
    let order = market(Side::SELL, Decimal::new(5, 0), None);
    let res = engine.execute_market_order(&order, &empty_book()).unwrap();
    assert_nothing_filled(&res, FillStatus::Unfilled);
    assert!(engine.get_fills("market_order").is_none());
}

#[test]
fn market_orders_are_refused_with_their_reason() {
    let mut engine = engine();
    let none = market(Side::BUY, Decimal::new(0, 2), None);
    assert_eq!(
        refusal(engine.execute_market_order(&none, &book())),
        (OrderErrorKind::InvalidSize, "Market order amount cannot be zero".to_string())
    );
    let little = market(Side::BUY, Decimal::new(5, 1), None);
    assert_eq!(
        refusal(engine.execute_market_order(&little, &book())),
        (OrderErrorKind::SizeConstraint, "Order size 0.5 below minimum 1".to_string())
    );
    let negative = market(Side::BUY, Decimal::new(-1205, 3), None);
    assert_eq!(
        refusal(engine.validate_market_order(&negative)),
        (OrderErrorKind::SizeConstraint, "Order size -1.205 below minimum 1".to_string())
    );
    assert!(engine.validate_market_order(&market(Side::BUY, Decimal::new(100, 2), None)).is_ok());
    assert_eq!(engine.get_stats().total_orders, 0);
}

#[test]
fn limit_orders_are_refused_with_their_reason() {
    let mut engine = engine();
    let (zero, one) = (Decimal::zero(), Decimal::new(1, 0));
    assert_eq!(
        refusal(engine.execute_limit_order(&limit(Side::BUY, zero, zero, None), &book())),
        (OrderErrorKind::InvalidSize, "Limit order size cannot be zero".to_string())
    );
    assert_eq!(
        refusal(engine.execute_limit_order(&limit(Side::BUY, zero, one, None), &book())),
        (OrderErrorKind::InvalidPrice, "Limit order price cannot be zero".to_string())
    );
    let little = limit(Side::BUY, one, Decimal::new(9990, 4), None);
    assert_eq!(
        refusal(engine.execute_limit_order(&little, &book())),
        (OrderErrorKind::SizeConstraint, "Order size 0.9990 below minimum 1".to_string())
    );
    assert!(engine.validate_limit_order(&limit(Side::BUY, one, one, None)).is_ok());
}

#[test]
fn a_crossed_limit_order_is_filled_whole_at_its_own_price() {
    let mut engine = engine();
    let order = limit(Side::BUY, Decimal::new(52, 2), Decimal::new(1000, 0), None);
    let res = engine.execute_limit_order(&order, &book()).unwrap();
    assert_eq!(res.order_id, "limit_order");
    assert_eq!(res.status, FillStatus::Filled);
    assert_eq!(res.total_size, Decimal::new(1000, 0));
    assert_eq!(res.average_price, Decimal::new(52, 2));
    assert_eq!(res.total_cost, Decimal::new(520, 0));
    assert_eq!(res.fees, Decimal::new(52, 2));
    assert_eq!(res.fills.len(), 1);
    assert_eq!(res.fills[0].price, Decimal::new(52, 2));
    assert_eq!(res.fills[0].size, Decimal::new(1000, 0));
    assert_eq!(res.fills[0].fee, Decimal::new(52, 2));
    assert!(is_random_uuid(&res.fills[0].id));
    let recorded = engine.get_fills("limit_order").unwrap();
    assert_eq!(recorded.len(), 1);
    assert_eq!(recorded[0].id, res.fills[0].id);
}

#[test]
fn a_limit_order_crosses_at_the_best_price_itself() {
    let mut engine = engine();
    let size = Decimal::new(2, 0);
    for (side, price, status) in [
        (Side::BUY, Decimal::new(500, 3), FillStatus::Filled),
        (Side::BUY, Decimal::new(499, 3), FillStatus::Unfilled),
        (Side::SELL, Decimal::new(480, 3), FillStatus::Filled),
        (Side::SELL, Decimal::new(481, 3), FillStatus::Unfilled),
    ] {
        let res = engine.execute_limit_order(&limit(side, price, size, None), &book()).unwrap();
        assert_eq!(res.status, status);
    }
}

#[test]
fn an_uncrossed_limit_order_leaves_no_trace() {
    let mut engine = engine();
    let order = limit(Side::BUY, Decimal::new(1, 2), Decimal::new(2, 0), Some("low"));
    let res = engine.execute_limit_order(&order, &book()).unwrap();
    assert_nothing_filled(&res, FillStatus::Unfilled);
    assert_eq!(res.order_id, "low");
    for side in [Side::BUY, Side::SELL] {
        let order = limit(side, Decimal::new(5, 1), Decimal::new(2, 0), None);
        let res = engine.execute_limit_order(&order, &empty_book()).unwrap();
        assert_nothing_filled(&res, FillStatus::Unfilled);
    }
    assert!(engine.get_all_fills().is_empty());
}

#[test]
fn a_further_order_under_an_id_takes_its_place() {
    let mut engine = engine();
    let first = market(Side::BUY, Decimal::new(150, 0), Some("a"));
    engine.execute_market_order(&first, &book()).unwrap();
    let second = market(Side::BUY, Decimal::new(5, 0), Some("a"));
    let res = engine.execute_market_order(&second, &book()).unwrap();
    let recorded = engine.get_fills("a").unwrap();
    assert_eq!(recorded.len(), 1);
    assert_eq!(recorded[0].id, res.fills[0].id);
    assert_eq!(engine.get_stats().total_orders, 1);

    // One without fills leaves what is recorded.
    let third = market(Side::BUY, Decimal::new(5, 0), Some("a"));
    engine.execute_market_order(&third, &empty_book()).unwrap();
    assert_eq!(engine.get_fills("a").unwrap()[0].id, res.fills[0].id);
}

#[test]
fn recorded_fills_are_read_back_and_cleared() {
    let mut engine = engine();
    let b = engine
        .execute_market_order(&market(Side::BUY, Decimal::new(150, 0), Some("b")), &book())
        .unwrap();
    let a = engine
        .execute_market_order(&market(Side::SELL, Decimal::new(3, 0), Some("a")), &book())
        .unwrap();
    let listed: Vec<String> = engine.get_all_fills().iter().map(|f| f.id.clone()).collect();
    assert_eq!(listed, [a.fills[0].id.as_str(), b.fills[0].id.as_str(), b.fills[1].id.as_str()]);

    engine.clear_fills("c");
    assert_eq!(engine.get_all_fills().len(), 3);
    engine.clear_fills("b");
    assert!(engine.get_fills("b").is_none());
    assert_eq!(engine.get_fills("a").unwrap()[0].id, a.fills[0].id);
    engine.clear_fills("b");
    assert_eq!(engine.get_all_fills().len(), 1);
}

#[test]
fn statistics_of_recorded_fills() {
    let mut engine = engine();
    let stats = engine.get_stats();
    assert_eq!((stats.total_orders, stats.total_fills), (0, 0));
    assert!(stats.total_volume.is_zero() && stats.total_fees.is_zero());

    let buy = market(Side::BUY, Decimal::new(150, 0), Some("b"));
    engine.execute_market_order(&buy, &book()).unwrap();
    let sell = limit(Side::SELL, Decimal::new(4, 1), Decimal::new(25, 1), Some("a"));
    engine.execute_limit_order(&sell, &book()).unwrap();
    let stats = engine.try_get_stats().unwrap();
    assert_eq!(stats.total_orders, 2);
    assert_eq!(stats.total_fills, 3);
    assert_eq!(stats.total_volume, Decimal::new(1525, 1));
    assert_eq!(stats.total_fees, Decimal::new(785, 4));
}

#[test]
fn totals_that_overflow_have_no_statistics() {
    let free = FillEngine::new(Decimal::new(1, 0), Decimal::new(5, 0), 0);
    let mut engine = free;
    let ask = BookLevel { price: Decimal::new(1, 0), size: largest() };
    let book = OrderBook::from_levels(vec![], vec![ask]).unwrap();
    for id in ["a", "b"] {
        assert!(engine.try_get_stats().is_some());
        let order = market(Side::BUY, largest(), Some(id));
        let res = engine.try_execute_market_order(&order, &book).unwrap().unwrap();
        assert_eq!(res.status, FillStatus::Filled);
    }
    assert!(engine.try_get_stats().is_none());
}

#[test]
fn orders_whose_numbers_overflow_change_nothing() {
    let mut engine = engine();
    let ask = BookLevel { price: Decimal::new(2, 0), size: largest() };
    let book = OrderBook::from_levels(vec![], vec![ask]).unwrap();
    let order = market(Side::BUY, largest(), None);
    assert!(engine.try_execute_market_order(&order, &book).is_none());
    let order = limit(Side::BUY, Decimal::new(2, 0), largest(), None);
    assert!(engine.try_execute_limit_order(&order, &book).is_none());
    // The cost fits, the fee does not.
    let order = limit(Side::BUY, Decimal::new(20, 1), Decimal::new(1, 0), None);
    assert!(engine.try_execute_limit_order(&order, &book).is_some());
    engine.clear_fills("limit_order");
    let half = Decimal::try_from_i128_with_scale(MAX_MANTISSA / 2, 0).unwrap();
    let order = limit(Side::BUY, Decimal::new(2, 0), half, None);
    assert!(engine.try_execute_limit_order(&order, &book).is_none());
    assert_eq!(engine.get_stats().total_orders, 0);
}

#[test]
fn a_book_of_empty_levels_cannot_be_averaged() {
    let mut engine = engine();
    let book = OrderBook::from_levels(vec![], vec![level(Decimal::new(5, 1), 0)]).unwrap();
    let order = market(Side::BUY, Decimal::new(5, 0), None);
    assert!(engine.try_execute_market_order(&order, &book).is_none());
}

#[test]
fn refused_orders_are_tried_all_the_same() {
    let mut engine = engine();
    let order = market(Side::BUY, Decimal::zero(), None);
    let r = engine.try_execute_market_order(&order, &book()).unwrap();
    assert_eq!(refusal(r).0, OrderErrorKind::InvalidSize);
    let order = limit(Side::BUY, Decimal::zero(), Decimal::new(1, 0), None);
    let r = engine.try_execute_limit_order(&order, &book()).unwrap();
    assert_eq!(refusal(r).0, OrderErrorKind::InvalidPrice);
}

#[test]
fn quotes_tell_what_would_become_of_an_order() {
    let engine = engine();
    let amount = Decimal::new(150, 0);
    match engine.quote_market_order(Side::BUY, amount, &asks()) {
        Some(Quote::Executable(q)) => {
            assert_eq!(q.status, FillStatus::Filled);
            assert_eq!(q.total_size, amount);
            assert_eq!(q.fills.len(), 2);
        },
        _ => panic!("not executable"),
    }
    let none = engine.quote_market_order(Side::BUY, amount, &vec![]);
    assert!(matches!(none, Some(Quote::NoLiquidity)));
    let steep = vec![level(Decimal::new(1, 1), 1), level(Decimal::new(9, 1), 500)];
    let slipped = engine.quote_market_order(Side::BUY, amount, &steep);
    match slipped {
        // The average of 0.1 for 1 and 0.9 for 149.
        Some(Quote::SlippageExceeded(slippage)) => {
            let least = Decimal::new(79_466, 2);
            assert_eq!(slippage.min(least), least);
            assert_eq!(slippage.min(Decimal::new(79_467, 2)), slippage);
        },
        _ => panic!("not exceeded"),
    }
    let few = vec![level(Decimal::new(5, 1), 0), level(Decimal::new(6, 1), 1)];
    let dear = FillEngine::new(Decimal::new(2, 0), Decimal::new(100, 0), 10);
    let unfilled = dear.quote_market_order(Side::BUY, amount, &few);
    assert!(matches!(unfilled, Some(Quote::NoLiquidity)));
}

#[test]
fn settled_fills_carry_their_stamps() {
    let mut engine = engine();
    let quote = Quote::Executable(QuotedFills {
        fills: vec![PricedFill {
            price: Decimal::new(5, 1),
            size: Decimal::new(2, 0),
            fee: Decimal::new(1, 3),
        }],
        total_size: Decimal::new(2, 0),
        average_price: Decimal::new(5, 1),
        total_cost: Decimal::new(1, 0),
        fees: Decimal::new(1, 3),
        status: FillStatus::Filled,
    });
    let start = Timestamp { secs: 7, nanos: 8 };
    let stamps = vec![FillStamp {
        id: "first".to_string(),
        timestamp: Timestamp { secs: 9, nanos: 10 },
    }];
    let token = "token".to_string();
    let res = engine.settle("order".to_string(), &token, Side::SELL, quote, start, &stamps);
    assert_eq!(res.timestamp, start);
    assert_eq!(res.fills[0].id, "first");
    assert_eq!(res.fills[0].timestamp, Timestamp { secs: 9, nanos: 10 });
    assert_eq!(res.fills[0].side, Side::SELL);
    assert_eq!(res.fills[0].fee, Decimal::new(1, 3));
    assert_eq!(engine.get_fills("order").unwrap()[0].id, "first");

    let none =
        engine.settle("x".to_string(), &token, Side::BUY, Quote::NoLiquidity, start, &vec![]);
    assert_nothing_filled(&none, FillStatus::Unfilled);
    let slipped = Quote::SlippageExceeded(Decimal::new(7, 0));
    let refused = engine.settle("x".to_string(), &token, Side::BUY, slipped, start, &vec![]);
    assert_nothing_filled(&refused, FillStatus::Rejected);
    assert!(engine.get_fills("x").is_none());
}
