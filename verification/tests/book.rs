use polyfill_fill::book::OrderBook;
use polyfill_fill::decimal::Decimal;
use polyfill_fill::types::BookLevel;

fn level(price: Decimal, size: i64) -> BookLevel {
    BookLevel { price, size: Decimal::new(size, 0) }
}

#[test]
fn best_levels_come_first() {
    let bids = vec![level(Decimal::new(49, 2), 1), level(Decimal::new(48, 2), 2)];
    let asks = vec![level(Decimal::new(5, 1), 3), level(Decimal::new(51, 2), 4)];
    let book = OrderBook::from_levels(bids, asks).unwrap();
    assert_eq!(book.best_bid().unwrap().price, Decimal::new(49, 2));
    assert_eq!(book.best_bid().unwrap().size, Decimal::new(1, 0));
    assert_eq!(book.best_ask().unwrap().price, Decimal::new(5, 1));
    assert_eq!(book.best_ask().unwrap().size, Decimal::new(3, 0));
    assert_eq!(book.bids().len(), 2);
    assert_eq!(book.asks()[1].size, Decimal::new(4, 0));
}

#[test]
fn an_empty_book_has_no_best_levels() {
    let book = OrderBook::from_levels(vec![], vec![]).unwrap();
    assert!(book.best_bid().is_none());
    assert!(book.best_ask().is_none());
}

#[test]
fn levels_out_of_order_make_no_book() {
    let (low, high) = (level(Decimal::new(5, 1), 1), level(Decimal::new(6, 1), 1));
    assert!(OrderBook::from_levels(vec![low, high], vec![]).is_none());
    assert!(OrderBook::from_levels(vec![], vec![high, low]).is_none());
    assert!(OrderBook::from_levels(vec![high, low], vec![low, high]).is_some());
}

#[test]
fn one_price_makes_one_level() {
    let same = vec![level(Decimal::new(5, 1), 1), level(Decimal::new(50, 2), 1)];
    assert!(OrderBook::from_levels(same.clone(), vec![]).is_none());
    assert!(OrderBook::from_levels(vec![], same).is_none());
}
