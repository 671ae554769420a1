use polyfill_fill::decimal::{Decimal, MAX_MANTISSA};
use polyfill_fill::engine::FillEngine;
use polyfill_fill::math::calculate_slippage;
use polyfill_fill::quote::PricedFill;
use polyfill_fill::types::Side;

fn fill(price: Decimal, size: Decimal) -> PricedFill {
    PricedFill { price, size, fee: Decimal::zero() }
}

fn engine() -> FillEngine {
    FillEngine::new(Decimal::new(1, 0), Decimal::new(5, 0), 10)
}

#[test]
fn buying_dearer_and_selling_cheaper_slips() {
    let (low, high) = (Decimal::new(5, 1), Decimal::new(6, 1));
    assert_eq!(calculate_slippage(low, high, Side::BUY), Some(Decimal::new(20, 0)));
    assert_eq!(
        calculate_slippage(Decimal::new(8, 1), high, Side::SELL),
        Some(Decimal::new(25, 0))
    );
}

#[test]
fn no_worse_price_no_slippage() {
    let (low, high) = (Decimal::new(5, 1), Decimal::new(6, 1));
    assert_eq!(calculate_slippage(high, low, Side::BUY), Some(Decimal::zero()));
    assert_eq!(calculate_slippage(low, high, Side::SELL), Some(Decimal::zero()));
    assert_eq!(calculate_slippage(low, low, Side::BUY), Some(Decimal::zero()));
    assert_eq!(calculate_slippage(low, low, Side::SELL), Some(Decimal::zero()));
}

#[test]
fn slippage_that_cannot_be_computed() {
    let zero = Decimal::zero();
    assert_eq!(calculate_slippage(zero, Decimal::new(1, 0), Side::BUY), None);
    let largest = Decimal::try_from_i128_with_scale(MAX_MANTISSA, 0).unwrap();
    assert_eq!(calculate_slippage(Decimal::new(1, 28), largest, Side::BUY), None);
    let smallest = Decimal::try_from_i128_with_scale(-MAX_MANTISSA, 0).unwrap();
    assert_eq!(calculate_slippage(smallest, largest, Side::BUY), None);
}

#[test]
fn slippage_of_fills_goes_by_their_average() {
    let fills = vec![
        fill(Decimal::new(5, 1), Decimal::new(100, 0)),
        fill(Decimal::new(6, 1), Decimal::new(100, 0)),
    ];
    let slippage = engine().calculate_slippage(Side::BUY, &fills).unwrap();
    assert_eq!(slippage, Some(Decimal::new(10, 0)));
    let slippage = engine().calculate_slippage(Side::SELL, &fills).unwrap();
    assert_eq!(slippage, Some(Decimal::zero()));
}

#[test]
fn slippage_of_permuted_or_scaled_fills() {
    let (low, high) = (Decimal::new(5, 1), Decimal::new(6, 1));
    let fills = vec![
        fill(low, Decimal::new(100, 0)),
        fill(high, Decimal::new(50, 0)),
        fill(low, Decimal::new(50, 0)),
    ];
    let permuted = vec![
        fill(low, Decimal::new(50, 0)),
        fill(low, Decimal::new(100, 0)),
        fill(high, Decimal::new(50, 0)),
    ];
    let scaled = vec![
        fill(low, Decimal::new(25, 0)),
        fill(high, Decimal::new(125, 1)),
        fill(Decimal::new(50, 2), Decimal::new(1250, 2)),
    ];
    for fills in [fills, permuted, scaled] {
        let slippage = engine().calculate_slippage(Side::BUY, &fills).unwrap();
        assert_eq!(slippage, Some(Decimal::new(5, 0)));
    }
}

#[test]
fn slippage_of_one_fill_or_none() {
    let one = vec![fill(Decimal::new(37, 2), Decimal::new(3, 0))];
    assert_eq!(engine().calculate_slippage(Side::BUY, &one), Some(Some(Decimal::zero())));
    assert_eq!(engine().calculate_slippage(Side::SELL, &one), Some(Some(Decimal::zero())));
    assert_eq!(engine().calculate_slippage(Side::BUY, &vec![]), Some(None));
}

#[test]
fn slippage_of_fills_without_size_cannot_be_computed() {
    let empty = vec![fill(Decimal::new(5, 1), Decimal::zero())];
    assert_eq!(engine().calculate_slippage(Side::BUY, &empty), None);
}
