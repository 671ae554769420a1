//! The execution of orders against an order book.
use crate::book::{falling_prices, rising_prices, OrderBook};
use crate::decimal::{
    alignable, at_scale, checked_sum, common_scale, dec_lt, dec_min, dec_opt, dec_same, dec_text,
    dec_zero, decimal_product, decimal_quotient, exact_difference, exact_sum, fits, lemma_added,
    lemma_at_scale_twice, lemma_exact_at_scale, lemma_lt_at_scale, lemma_lt_from,
    lemma_lt_rewritten, lemma_lt_transitive, lemma_lt_until, lemma_product_at_scale, shifts_by,
    sum_of, summable, sums_exactly, total_at, Dec, Decimal, MAX_SCALE,
};
use crate::errors::{refused_with, OrderErrorKind, PolyfillError};
use crate::ledger::{all_fills, holds_own_fills, lemma_orders_at_most_fills, FillLedger};
use crate::math;
use crate::quote::{
    allocated, basis_points_of, cost_at, cost_of, costs_of, covered_by_best, depth_at, exact_at,
    exact_fee, exact_fee_of, exact_notional, exact_prices, fee_of, fill_costs, fill_sizes,
    fills_slippage, is_allocation, lemma_allocated, lemma_costs_at_least, lemma_fills_within_depth,
    lemma_negated_cost, lemma_walk_fills, lemma_walk_stops, limit_quote, market_quote, notional_of,
    priced_views, prices_at, size_of, take_level, takes_in_order, unrounded_fee, walk, FillStatus,
    PricedFill, PricedView, Quote, QuoteView, QuotedFills, Terms, Walk,
};
use crate::stamp::{current_time, is_fresh, new_stamps, FillStamp};
use crate::totals::{fees, sizes, targets, total_fee, total_size};
use crate::types::{
    id_or, level_views, order_id_or, Address, BookLevel, FillEvent, MarketOrderRequest,
    OrderRequest, Side, Timestamp,
};
use vstd::prelude::*;

verus! {

/// How far an order has been filled.
struct MarketWalk {
    fills: Vec<PricedFill>,
    total_cost: Decimal,
    total_size: Decimal,
    remaining: Decimal,
}

impl View for MarketWalk {
    type V = Walk;

    closed spec fn view(&self) -> Walk {
        Walk {
            fills: priced_views(self.fills@),
            total_cost: self.total_cost@,
            total_size: self.total_size@,
            remaining: self.remaining@,
        }
    }
}

/// With `scale` digits after the point, what is filled from the first `n` levels and what is left
/// make up the amount, and as long as something is left, the levels are taken whole.
spec fn walked(w: Walk, levels: Seq<(Dec, Dec)>, amount: Dec, scale: nat, n: nat) -> bool {
    &&& w.remaining.0 >= 0
    &&& w.total_size.0 >= 0
    &&& w.remaining.1 <= scale
    &&& w.total_size.1 <= scale
    &&& at_scale(w.total_size, scale) + at_scale(w.remaining, scale) == at_scale(amount, scale)
    &&& takes_in_order(w.fills, levels, scale)
    &&& total_at(fill_sizes(w.fills), scale) == at_scale(w.total_size, scale)
    &&& w.remaining.0 != 0 ==> w.fills.len() == n && forall|i: int|
        0 <= i < n ==> (#[trigger] w.fills[i]).size == levels[i].1
}

/// One more level is taken.
proof fn lemma_walked_step(
    before: Walk,
    after: Walk,
    levels: Seq<(Dec, Dec)>,
    amount: Dec,
    scale: nat,
    n: nat,
)
    requires
        exact_at(levels, amount, scale),
        walked(before, levels, amount, scale, n),
        before.remaining.0 != 0,
        n < levels.len(),
        ({
            let size = dec_min(before.remaining, levels[n as int].1);
            &&& after.fills.len() == n + 1
            &&& after.fills.drop_last() == before.fills
            &&& after.fills.last().price == levels[n as int].0
            &&& after.fills.last().size == size
            &&& before.total_size.0 == 0 ==> after.total_size == size
            &&& before.total_size.0 != 0 && size.0 == 0 ==> after.total_size == before.total_size
            &&& before.total_size.0 != 0 && size.0 != 0 && alignable(before.total_size, size)
                && fits(exact_sum(before.total_size, size).0) ==> after.total_size == exact_sum(
                before.total_size,
                size,
            )
            &&& size.0 == 0 ==> after.remaining == before.remaining
            &&& size.0 != 0 && alignable(before.remaining, size) && fits(
                exact_difference(before.remaining, size).0,
            ) ==> after.remaining == exact_difference(before.remaining, size)
        }),
    ensures
        walked(after, levels, amount, scale, n + 1),
        at_scale(after.total_size, scale) == at_scale(before.total_size, scale) + at_scale(
            after.fills.last().size,
            scale,
        ),
{
    let level_size = levels[n as int].1;
    assert(0 <= level_size.0 && level_size.1 <= scale);
    let size = dec_min(before.remaining, level_size);
    lemma_lt_at_scale(level_size, before.remaining, scale);
    lemma_at_scale_twice(before.remaining, before.remaining.1, scale);
    lemma_at_scale_twice(before.total_size, before.total_size.1, scale);
    lemma_at_scale_twice(level_size, level_size.1, scale);
    assert(0 <= at_scale(size, scale) <= at_scale(before.remaining, scale));
    lemma_exact_at_scale(before.remaining, size, scale);
    lemma_exact_at_scale(before.total_size, size, scale);
    lemma_at_scale_twice(size, size.1, scale);
    lemma_nonnegative(exact_difference(before.remaining, size), scale);
    lemma_nonnegative(exact_sum(before.total_size, size), scale);
    lemma_at_scale_twice(after.remaining, scale, scale);
    assert(fill_sizes(after.fills).drop_last() =~= fill_sizes(before.fills));
    assert(fill_sizes(after.fills).last() == size);
    assert forall|i: int| 0 <= i < n implies (#[trigger] after.fills[i]) == before.fills[i] by {
        assert(after.fills.drop_last()[i] == after.fills[i]);
    }
    assert(at_scale(size, scale) <= at_scale(level_size, scale));
    assert(takes_in_order(after.fills, levels, scale));
}

/// What was filled once all levels were looked at is what is wanted or all that they offer.
spec fn walk_has_depth(
    w: Walk,
    terms: Terms,
    levels: Seq<(Dec, Dec)>,
    amount: Dec,
    scale: nat,
) -> bool {
    let (wanted, depth) = (at_scale(amount, scale), depth_at(levels, scale));
    &&& at_scale(w.total_size, scale) == lesser(wanted, depth)
    &&& w.remaining.0 == 0 <==> wanted <= depth
    &&& w.remaining.0 != 0 ==> (dec_lt(w.total_size, terms.min_fill_size) <==> dec_lt(
        (depth, scale),
        terms.min_fill_size,
    ))
}

proof fn lemma_walk_has_depth(
    w: Walk,
    terms: Terms,
    levels: Seq<(Dec, Dec)>,
    amount: Dec,
    scale: nat,
)
    requires
        exact_at(levels, amount, scale),
        walked(w, levels, amount, scale, levels.len()),
    ensures
        walk_has_depth(w, terms, levels, amount, scale),
{
    lemma_fills_within_depth(w.fills, levels, scale);
    lemma_at_scale_twice(w.remaining, scale, scale);
    if w.remaining.0 != 0 {
        lemma_lt_rewritten(w.total_size, terms.min_fill_size, scale);
    }
}

/// The cost is the sum over the fills, written out in full, and no more than `top` for each.
spec fn costed(w: Walk, scale: nat, price_scale: nat, top: int) -> bool {
    &&& 0 <= w.total_cost.0
    &&& w.total_cost.1 <= scale + price_scale
    &&& at_scale(w.total_cost, scale + price_scale) == cost_at(w.fills, scale, price_scale)
    &&& cost_at(w.fills, scale, price_scale) <= at_scale(w.total_size, scale) * top
}

/// One more level is paid for.
proof fn lemma_costed_step(
    before: Walk,
    after: Walk,
    cost: Dec,
    levels: Seq<(Dec, Dec)>,
    amount: Dec,
    scale: nat,
    price_scale: nat,
    top: int,
    n: nat,
)
    requires
        exact_prices(levels, amount, scale, price_scale, top),
        n < levels.len(),
        walked(after, levels, amount, scale, n + 1),
        costed(before, scale, price_scale, top),
        after.fills.len() == n + 1,
        after.fills.drop_last() == before.fills,
        at_scale(after.total_size, scale) == at_scale(before.total_size, scale) + at_scale(
            after.fills.last().size,
            scale,
        ),
        ({
            let (size, price) = (after.fills.last().size, levels[n as int].0);
            &&& 0 <= size.0
            &&& size.0 == 0 || price.0 == 0 ==> cost == dec_zero()
            &&& size.0 != 0 && price.0 != 0 && fits(size.0 * price.0) && size.1 + price.1
                <= MAX_SCALE ==> cost == notional_of(size, price)
        }),
        before.total_cost.0 == 0 ==> after.total_cost == cost,
        before.total_cost.0 != 0 && cost.0 == 0 ==> after.total_cost == before.total_cost,
        before.total_cost.0 != 0 && cost.0 != 0 && alignable(before.total_cost, cost) && fits(
            exact_sum(before.total_cost, cost).0,
        ) ==> after.total_cost == exact_sum(before.total_cost, cost),
    ensures
        costed(after, scale, price_scale, top),
{
    let (size, price) = (after.fills.last().size, levels[n as int].0);
    assert(after.fills[n as int].price == price);
    assert(0 <= price.0 && price.1 <= price_scale && at_scale(price, price_scale) <= top);
    let (a, b) = (at_scale(size, scale), at_scale(price, price_scale));
    let (t, m) = (at_scale(before.total_size, scale), at_scale(amount, scale));
    let all = scale + price_scale;
    lemma_at_scale_twice(size, scale, scale);
    lemma_at_scale_twice(price, price_scale, price_scale);
    lemma_product_at_scale(size, price, scale, price_scale);
    lemma_at_scale_twice(after.remaining, scale, scale);
    lemma_at_scale_twice(before.total_cost, all, all);
    lemma_at_scale_twice(dec_zero(), all, all);
    assert(a == 0 || b == 0 ==> a * b == 0) by (nonlinear_arith);
    assert(0 <= a * b <= a * top) by (nonlinear_arith)
        requires
            0 <= a,
            0 <= b <= top,
    ;
    assert((t + a) * top == t * top + a * top) by (nonlinear_arith);
    assert((t + a) * top <= m * top) by (nonlinear_arith)
        requires
            t + a <= m,
            0 <= top,
    ;
    let c = cost_at(before.fills, scale, price_scale);
    assert(c + a * b <= m * top);
    assert(at_scale(cost, all) == a * b);
    lemma_added(before.total_cost, cost, Some(after.total_cost), all);
}

/// The whole of an amount is filled at one price.
spec fn whole_at_best(w: Walk, amount: Dec, price: Dec, fee_rate_bps: u32) -> bool {
    let cost = notional_of(amount, price);
    &&& w.fills.len() == 1
    &&& w.fills[0].price == price
    &&& w.fills[0].size == amount
    &&& fair_fee(cost, fee_rate_bps, Some(w.fills[0].fee))
    &&& w.total_cost == cost
    &&& w.total_size == amount
    &&& w.remaining.0 == 0
}

/// A number less itself is zero.
proof fn lemma_subtract_from_itself(d: Dec)
    ensures
        common_scale(d, d) == d.1,
        at_scale(d, d.1) == d.0,
        exact_difference(d, d) == (0int, d.1),
{
    vstd::arithmetic::power::lemma_pow0(10);
}

/// The sign of a number does not change with the digits it is written with.
proof fn lemma_nonnegative(d: Dec, scale: nat)
    requires
        d.1 <= scale,
        at_scale(d, scale) >= 0,
    ensures
        d.0 >= 0,
{
    vstd::arithmetic::power::lemma_pow_positive(10, (scale - d.1) as nat);
    let (m, p) = (d.0, vstd::arithmetic::power::pow(10, (scale - d.1) as nat));
    assert(m >= 0) by (nonlinear_arith)
        requires
            m * p >= 0,
            p > 0,
    ;
}

/// A product divides by either factor.
proof fn lemma_divides(a: int, b: int)
    requires
        b != 0,
    ensures
        (a * b) % b == 0,
        (a * b) / b == a,
        (b * a) % b == 0,
        (b * a) / b == a,
        a != 0 ==> a * b != 0,
{
    assert((a * b) % b == 0 && (a * b) / b == a) by (nonlinear_arith)
        requires
            b != 0,
    ;
    assert(a * b == b * a) by (nonlinear_arith);
    assert(a != 0 ==> a * b != 0) by (nonlinear_arith)
        requires
            b != 0,
    ;
}

/// Dividing by ten thousand moves the point by four digits.
proof fn lemma_ten_thousand()
    ensures
        shifts_by((10_000, 0), 4),
{
    reveal_with_fuel(vstd::arithmetic::power::pow, 5);
}

/// A quotient of mantissas that divide evenly, times the divisor, is the dividend.
proof fn lemma_even_quotient(a: Dec, b: Dec)
    requires
        b.0 != 0,
    ensures
        a.0 % b.0 == 0 && a.1 >= b.1 ==> dec_same(
            ((a.0 / b.0) * b.0, ((a.1 - b.1) as nat) + b.1),
            a,
        ),
        dec_same((0 * b.0, 0 + b.1), (0, a.1)),
{
    let (m, n) = (a.0, b.0);
    assert(m % n == 0 ==> (m / n) * n == m) by (nonlinear_arith)
        requires
            n != 0,
    ;
    assert(0 * n == 0);
    let (x, y) = (vstd::arithmetic::power::pow(10, a.1), vstd::arithmetic::power::pow(10, b.1));
    assert(0 * x == 0 && 0 * y == 0);
}

/// Only a negative number is smaller than zero.
proof fn lemma_negative(d: Dec)
    requires
        dec_lt(d, dec_zero()),
    ensures
        d.0 < 0,
{
    vstd::arithmetic::power::lemma_pow0(10);
}

/// The smaller of two integers.
pub open spec fn lesser(a: int, b: int) -> int {
    if a <= b {
        a
    } else {
        b
    }
}

/// With `scale` digits after the point, as much is filled as is wanted or, where that is less, as
/// the levels offer together: `Filled` if they offer enough, otherwise `Partial` if they offer the
/// minimum, and nothing if not. The levels are taken in their order.
pub open spec fn filled_by_depth(
    quote: QuoteView,
    terms: Terms,
    levels: Seq<(Dec, Dec)>,
    amount: Dec,
    scale: nat,
) -> bool {
    let wanted = at_scale(amount, scale);
    let depth = depth_at(levels, scale);
    match quote {
        QuoteView::Executable { fills, total_size, status, .. } => {
            &&& total_size.1 <= scale
            &&& at_scale(total_size, scale) == lesser(wanted, depth)
            &&& total_at(fill_sizes(fills), scale) == lesser(wanted, depth)
            &&& takes_in_order(fills, levels, scale)
            &&& status == if wanted <= depth {
                FillStatus::Filled
            } else {
                FillStatus::Partial
            }
            &&& wanted <= depth || !dec_lt((depth, scale), terms.min_fill_size)
        },
        QuoteView::SlippageExceeded { .. } => levels.len() > 0,
        QuoteView::NoLiquidity => levels.len() == 0 || depth < wanted && dec_lt(
            (depth, scale),
            terms.min_fill_size,
        ),
    }
}

/// The cost is the sum of size times price over the fills, written out in full.
pub open spec fn costs_in_full(quote: QuoteView, scale: nat, price_scale: nat) -> bool {
    quote matches QuoteView::Executable { fills, total_cost, .. } ==> {
        &&& total_cost.1 <= scale + price_scale
        &&& at_scale(total_cost, scale + price_scale) == cost_at(fills, scale, price_scale)
    }
}

/// Where the mantissa of the cost divides by that of the size, the average price times the size is
/// the cost.
pub open spec fn divides_evenly(quote: QuoteView) -> bool {
    quote matches QuoteView::Executable { total_size, average_price, total_cost, .. }
        ==> total_size.0 != 0 && total_cost.0 % total_size.0 == 0 && total_cost.1 >= total_size.1
        ==> dec_same((average_price.0 * total_size.0, average_price.1 + total_size.1), total_cost)
}

/// The whole of the amount is filled in one fill at this price, for the fee at this rate.
pub open spec fn filled_at(quote: QuoteView, amount: Dec, price: Dec, fee_rate_bps: u32) -> bool {
    let cost = notional_of(amount, price);
    quote matches QuoteView::Executable {
        fills,
        total_size,
        average_price,
        total_cost,
        fees,
        status,
    } && {
        &&& fills.len() == 1
        &&& fills[0].price == price
        &&& fills[0].size == amount
        &&& fees == fills[0].fee
        &&& fair_fee(cost, fee_rate_bps, Some(fees))
        &&& total_size == amount
        &&& average_price == price
        &&& total_cost == cost
        &&& status is Filled
    }
}

/// The best level alone offers the whole of a positive amount, and every number on the way can be
/// written out in full.
pub open spec fn surely_filled(levels: Seq<(Dec, Dec)>, amount: Dec, fee_rate_bps: u32) -> bool {
    &&& covered_by_best(levels, amount)
    &&& sure_fee(notional_of(amount, levels[0].0), fee_rate_bps)
}

/// The fee for a notional can be written out in full or computed without rounding.
pub open spec fn sure_fee(notional: Dec, fee_rate_bps: u32) -> bool {
    exact_fee(notional, fee_rate_bps) || unrounded_fee(notional, fee_rate_bps)
}

/// A fee that can be written out in full is computed so, one that can be computed without rounding
/// is so many hundredths of a per cent of the notional, and no fee is negative for a notional that
/// is not.
pub open spec fn fair_fee(notional: Dec, fee_rate_bps: u32, fee: Option<Dec>) -> bool {
    &&& exact_fee(notional, fee_rate_bps) ==> fee == Some(exact_fee_of(notional, fee_rate_bps))
    &&& unrounded_fee(notional, fee_rate_bps) ==> fee is Some && dec_same(
        fee->0,
        basis_points_of(notional, fee_rate_bps),
    )
    &&& fee matches Some(fee) ==> notional.0 >= 0 ==> fee.0 >= 0
}

/// Fill execution result.
#[derive(Clone, Debug)]
pub struct FillResult {
    pub order_id: String,
    pub fills: Vec<FillEvent>,
    pub total_size: Decimal,
    pub average_price: Decimal,
    pub total_cost: Decimal,
    pub fees: Decimal,
    pub status: FillStatus,
    pub timestamp: Timestamp,
}

/// Nothing is filled, and the result says why.
pub open spec fn nothing_filled(res: FillResult, status: FillStatus) -> bool {
    &&& res.fills@.len() == 0
    &&& res.total_size@ == dec_zero()
    &&& res.average_price@ == dec_zero()
    &&& res.total_cost@ == dec_zero()
    &&& res.fees@ == dec_zero()
    &&& res.status == status
}

/// `event` is a fill of this order with this price, size and fee, between unknown parties.
pub open spec fn is_fill_of(
    event: FillEvent,
    order_id: Seq<char>,
    token_id: Seq<char>,
    side: Side,
    fill: PricedView,
) -> bool {
    &&& event.order_id@ == order_id
    &&& event.token_id@ == token_id
    &&& event.side == side
    &&& event.price@ == fill.price
    &&& event.size@ == fill.size
    &&& event.fee@ == fill.fee
    &&& event.maker_address.is_zero()
    &&& event.taker_address.is_zero()
}

/// `res` tells what the quote says of the order.
pub open spec fn is_result_of(
    res: FillResult,
    order_id: Seq<char>,
    token_id: Seq<char>,
    side: Side,
    quote: QuoteView,
) -> bool {
    &&& res.order_id@ == order_id
    &&& match quote {
        QuoteView::NoLiquidity => nothing_filled(res, FillStatus::Unfilled),
        QuoteView::SlippageExceeded { .. } => nothing_filled(res, FillStatus::Rejected),
        QuoteView::Executable {
            fills,
            total_size,
            average_price,
            total_cost,
            fees,
            status,
        } => {
            &&& res.fills@.len() == fills.len()
            &&& forall|i: int|
                0 <= i < fills.len() ==> is_fill_of(
                    #[trigger] res.fills@[i],
                    order_id,
                    token_id,
                    side,
                    fills[i],
                )
            &&& res.total_size@ == total_size
            &&& res.average_price@ == average_price
            &&& res.total_cost@ == total_cost
            &&& res.fees@ == fees
            &&& res.status == status
        },
    }
}

/// The prices, sizes and fees of fills.
pub open spec fn priced(fills: Seq<FillEvent>) -> Seq<PricedView> {
    fills.map_values(|f: FillEvent| PricedView { price: f.price@, size: f.size@, fee: f.fee@ })
}

/// The fills carry these ids and times.
pub open spec fn stamped(fills: Seq<FillEvent>, stamps: Seq<FillStamp>) -> bool {
    forall|i: int|
        0 <= i < fills.len() ==> (#[trigger] fills[i]).id@ == stamps[i].id@ && fills[i].timestamp
            == stamps[i].timestamp
}

/// The fills carry fresh ids and clock times, and the result a clock time.
pub open spec fn freshly_stamped(res: FillResult) -> bool {
    &&& res.timestamp.nanos < 1_000_000_000
    &&& forall|i: int|
        0 <= i < res.fills@.len() ==> is_fresh(
            (#[trigger] res.fills@[i]).id@,
            res.fills@[i].timestamp,
        )
}

/// The recorded fills once those of a result are put under its order, if it has any.
pub open spec fn recorded_with(
    recorded: Map<Seq<char>, Seq<FillEvent>>,
    res: FillResult,
) -> Map<Seq<char>, Seq<FillEvent>> {
    if res.fills@.len() == 0 {
        recorded
    } else {
        recorded.insert(res.order_id@, res.fills@)
    }
}

/// An order that was not filled or was rejected has no fills, costs nothing and leaves the records
/// as they were.
pub open spec fn leaves_no_trace(
    res: FillResult,
    before: Map<Seq<char>, Seq<FillEvent>>,
    after: Map<Seq<char>, Seq<FillEvent>>,
) -> bool {
    res.status is Unfilled || res.status is Rejected ==> nothing_filled(res, res.status) && after
        == before
}

/// How an order is refused that is too small.
pub open spec fn below_minimum(size: Dec, minimum: Dec) -> Seq<char> {
    "Order size "@ + dec_text(size) + " below minimum "@ + dec_text(minimum)
}

/// Why a market order is refused, if it is.
pub open spec fn market_refusal(terms: Terms, amount: Dec) -> Option<(OrderErrorKind, Seq<char>)> {
    if amount.0 == 0 {
        Some((OrderErrorKind::InvalidSize, "Market order amount cannot be zero"@))
    } else if dec_lt(amount, terms.min_fill_size) {
        Some((OrderErrorKind::SizeConstraint, below_minimum(amount, terms.min_fill_size)))
    } else {
        None
    }
}

/// Why a limit order is refused, if it is.
pub open spec fn limit_refusal(terms: Terms, price: Dec, size: Dec) -> Option<
    (OrderErrorKind, Seq<char>),
> {
    if size.0 == 0 {
        Some((OrderErrorKind::InvalidSize, "Limit order size cannot be zero"@))
    } else if price.0 == 0 {
        Some((OrderErrorKind::InvalidPrice, "Limit order price cannot be zero"@))
    } else if dec_lt(size, terms.min_fill_size) {
        Some((OrderErrorKind::SizeConstraint, below_minimum(size, terms.min_fill_size)))
    } else {
        None
    }
}

/// The levels that an order of this side is filled from.
pub open spec fn opposite_levels(book: OrderBook, side: Side) -> Seq<BookLevel> {
    match side {
        Side::BUY => book.ask_levels(),
        Side::SELL => book.bid_levels(),
    }
}

/// The best price of the other side is as good as the price or better.
pub open spec fn crosses(book: OrderBook, side: Side, price: Dec) -> bool {
    match side {
        Side::BUY => book.ask_levels().len() > 0 && !dec_lt(price, book.ask_levels()[0].price@),
        Side::SELL => book.bid_levels().len() > 0 && !dec_lt(book.bid_levels()[0].price@, price),
    }
}

/// A price crosses the book exactly if some level of the other side is as good: an ask that is no
/// dearer for an order that buys, a bid that is no cheaper for one that sells.
pub proof fn lemma_crosses_if_some_level_does(book: OrderBook, side: Side, price: Dec)
    requires
        rising_prices(book.ask_levels()),
        falling_prices(book.bid_levels()),
    ensures
        match side {
            Side::BUY => crosses(book, side, price) <==> exists|i: int|
                0 <= i < book.ask_levels().len() && !dec_lt(
                    price,
                    (#[trigger] book.ask_levels()[i]).price@,
                ),
            Side::SELL => crosses(book, side, price) <==> exists|i: int|
                0 <= i < book.bid_levels().len() && !dec_lt(
                    (#[trigger] book.bid_levels()[i]).price@,
                    price,
                ),
        },
{
    let (asks, bids) = (book.ask_levels(), book.bid_levels());
    assert forall|i: int|
        0 <= i < asks.len() && !dec_lt(price, (#[trigger] asks[i]).price@) implies !dec_lt(
        price,
        asks[0].price@,
    ) by {
        if i > 0 && dec_lt(price, asks[0].price@) {
            lemma_lt_transitive(price, asks[0].price@, asks[i].price@);
        }
    }
    assert forall|i: int|
        0 <= i < bids.len() && !dec_lt((#[trigger] bids[i]).price@, price) implies !dec_lt(
        bids[0].price@,
        price,
    ) by {
        if i > 0 && dec_lt(bids[0].price@, price) {
            lemma_lt_transitive(bids[i].price@, bids[0].price@, price);
        }
    }
    if crosses(book, side, price) {
        match side {
            Side::BUY => {
                assert(!dec_lt(price, asks[0].price@));
            },
            Side::SELL => {
                assert(!dec_lt(bids[0].price@, price));
            },
        }
    }
}

/// A price that crosses still does when it is higher for an order that buys, or lower for one that
/// sells.
pub proof fn lemma_crossing_is_monotone(book: OrderBook, side: Side, price: Dec, other: Dec)
    requires
        crosses(book, side, price),
        side is BUY ==> !dec_lt(other, price),
        side is SELL ==> !dec_lt(price, other),
    ensures
        crosses(book, side, other),
{
    match side {
        Side::BUY => {
            let best = book.ask_levels()[0].price@;
            if dec_lt(other, best) {
                lemma_lt_from(price, other, best);
            }
        },
        Side::SELL => {
            let best = book.bid_levels()[0].price@;
            if dec_lt(best, other) {
                if !dec_lt(best, price) {
                    lemma_lt_until(best, other, price);
                }
            }
        },
    }
}

/// The id that a market order goes by.
pub open spec fn market_order_id(order: MarketOrderRequest) -> Seq<char> {
    id_or(order.client_id, "market_order"@)
}

/// The id that a limit order goes by.
pub open spec fn limit_order_id(order: OrderRequest) -> Seq<char> {
    id_or(order.client_id, "limit_order"@)
}

fn size_below_minimum(size: Decimal, minimum: Decimal) -> (r: PolyfillError)
    ensures
        r@ == (OrderErrorKind::SizeConstraint, below_minimum(size@, minimum@)),
{
    let mut message = "Order size ".to_string();
    message.append(size.to_text().as_str());
    message.append(" below minimum ");
    message.append(minimum.to_text().as_str());
    PolyfillError::order(message, OrderErrorKind::SizeConstraint)
}

/// Fill execution engine.
#[derive(Debug)]
pub struct FillEngine {
    /// Minimum fill size for market orders
    min_fill_size: Decimal,
    /// Maximum slippage tolerance (as percentage)
    max_slippage_pct: Decimal,
    /// Fee rate in basis points
    fee_rate_bps: u32,
    /// Fills by order id
    fills: FillLedger,
}

impl FillEngine {
    /// The terms on which the engine fills orders.
    pub closed spec fn terms(&self) -> Terms {
        Terms {
            min_fill_size: self.min_fill_size@,
            max_slippage_pct: self.max_slippage_pct@,
            fee_rate_bps: self.fee_rate_bps,
        }
    }

    /// The recorded fills of each order.
    pub closed spec fn recorded(&self) -> Map<Seq<char>, Seq<FillEvent>> {
        self.fills@
    }

    /// The recorded fills are kept in the order of their order ids.
    pub closed spec fn ordered(&self) -> bool {
        self.fills.wf()
    }

    /// Finitely many orders have recorded fills; each has at least one, and all of them are its
    /// own.
    pub open spec fn wf(&self) -> bool {
        &&& self.ordered()
        &&& self.recorded().dom().finite()
        &&& holds_own_fills(self.recorded())
    }

    /// An engine without recorded fills.
    pub fn new(min_fill_size: Decimal, max_slippage_pct: Decimal, fee_rate_bps: u32) -> (r:
        FillEngine)
        ensures
            r.wf(),
            r.terms() == (Terms {
                min_fill_size: min_fill_size@,
                max_slippage_pct: max_slippage_pct@,
                fee_rate_bps,
            }),
            r.recorded() == Map::<Seq<char>, Seq<FillEvent>>::empty(),
    {
        FillEngine { min_fill_size, max_slippage_pct, fee_rate_bps, fills: FillLedger::new() }
    }

    /// The fee for a notional; `None` if it cannot be computed.
    pub fn checked_fee(&self, notional: Decimal) -> (r: Option<Decimal>)
        ensures
            dec_opt(r) == fee_of(notional@, self.terms().fee_rate_bps),
            match decimal_product(notional@, (self.terms().fee_rate_bps as int, 0)) {
                Some(product) => dec_opt(r) == decimal_quotient(product, (10_000, 0)),
                None => r is None,
            },
            notional@.1 <= 24 && fits(notional@.0 * self.terms().fee_rate_bps) ==> r is Some
                && dec_same(
                r->0@,
                (notional@.0 * self.terms().fee_rate_bps, notional@.1 + 4),
            ),
            fair_fee(notional@, self.terms().fee_rate_bps, dec_opt(r)),
    {
        proof {
            use_type_invariant(&notional);
            let (n, rate) = (notional@.0, self.fee_rate_bps as int);
            assert(n != 0 && rate != 0 ==> n * rate != 0) by (nonlinear_arith);
            assert(n == 0 || rate == 0 ==> n * rate == 0) by (nonlinear_arith);
            lemma_ten_thousand();
        }
        match notional.checked_mul(Decimal::from_u32(self.fee_rate_bps)) {
            Some(product) => product.checked_div(Decimal::from_u32(10_000)),
            None => None,
        }
    }

    /// Fills an amount from the levels, one after the other, until nothing is left of it.
    fn walk_levels(&self, levels: &Vec<BookLevel>, amount: Decimal) -> (r: Option<MarketWalk>)
        ensures
            match r {
                Some(w) => walk(
                    level_views(levels@),
                    amount@,
                    self.terms().fee_rate_bps,
                    levels@.len(),
                ) == Some(w@),
                None => walk(
                    level_views(levels@),
                    amount@,
                    self.terms().fee_rate_bps,
                    levels@.len(),
                ) is None,
            },
            r matches Some(w) ==> forall|scale: nat| #[trigger]
                exact_at(level_views(levels@), amount@, scale) ==> walked(
                    w@,
                    level_views(levels@),
                    amount@,
                    scale,
                    levels@.len(),
                ),
            r matches Some(w) ==> forall|scale: nat, price_scale: nat, top: int| #[trigger]
                exact_prices(level_views(levels@), amount@, scale, price_scale, top) ==> costed(
                    w@,
                    scale,
                    price_scale,
                    top,
                ),
            r matches Some(w) ==> covered_by_best(level_views(levels@), amount@)
                ==> whole_at_best(
                w@,
                amount@,
                level_views(levels@)[0].0,
                self.terms().fee_rate_bps,
            ),
            surely_filled(level_views(levels@), amount@, self.terms().fee_rate_bps) ==> r is Some,
    {
        let ghost lv = level_views(levels@);
        let ghost bps = self.terms().fee_rate_bps;
        let mut w = MarketWalk {
            fills: Vec::new(),
            total_cost: Decimal::zero(),
            total_size: Decimal::zero(),
            remaining: amount,
        };
        proof {
            assert(priced_views(w.fills@) =~= Seq::<PricedView>::empty());
            assert forall|scale: nat| #[trigger] exact_at(lv, amount@, scale) implies walked(
                w@,
                lv,
                amount@,
                scale,
                0,
            ) by {
                lemma_at_scale_twice(dec_zero(), 0, scale);
                lemma_at_scale_twice(dec_zero(), scale, scale);
            }
            assert forall|scale: nat, price_scale: nat, top: int| #[trigger]
                exact_prices(lv, amount@, scale, price_scale, top) implies costed(
                w@,
                scale,
                price_scale,
                top,
            ) by {
                let all = scale + price_scale;
                lemma_at_scale_twice(dec_zero(), all, all);
                lemma_at_scale_twice(dec_zero(), scale, scale);
            }
        }
        let mut i: usize = 0;
        while i < levels.len() && !w.remaining.is_zero()
            invariant
                0 <= i <= levels@.len(),
                lv == level_views(levels@),
                bps == self.terms().fee_rate_bps,
                walk(lv, amount@, bps, i as nat) == Some(w@),
                forall|scale: nat| #[trigger]
                    exact_at(lv, amount@, scale) ==> walked(w@, lv, amount@, scale, i as nat),
                forall|scale: nat, price_scale: nat, top: int| #[trigger]
                    exact_prices(lv, amount@, scale, price_scale, top) ==> costed(
                        w@,
                        scale,
                        price_scale,
                        top,
                    ),
                i == 0 ==> w@.fills.len() == 0 && w@.total_cost == dec_zero() && w@.total_size
                    == dec_zero() && w@.remaining == amount@,
                covered_by_best(lv, amount@) && i > 0 ==> whole_at_best(
                    w@,
                    amount@,
                    lv[0].0,
                    bps,
                ),
            decreases levels@.len() - i,
        {
            let level = levels[i];
            assert(lv[i as int] == level@);
            let ghost before = w@;
            proof {
                // Without a number on the way, the walk ends in `None`.
                if take_level(before, lv[i as int], bps) is None {
                    lemma_walk_stops(lv, amount@, bps, (i + 1) as nat, levels@.len());
                }
                if covered_by_best(lv, amount@) {
                    lemma_subtract_from_itself(amount@);
                    use_type_invariant(&amount);
                    let (p, z) = (lv[0].0.0, amount@.0);
                    assert(p * z == z * p) by (nonlinear_arith);
                }
            }
            let size = w.remaining.min(level.size);
            let cost = match size.checked_mul(level.price) {
                Some(cost) => cost,
                None => {
                    return None;
                },
            };
            let fee = match self.checked_fee(cost) {
                Some(fee) => fee,
                None => {
                    return None;
                },
            };
            let total_cost = match w.total_cost.checked_add(cost) {
                Some(total) => total,
                None => {
                    return None;
                },
            };
            let total_size = match w.total_size.checked_add(size) {
                Some(total) => total,
                None => {
                    return None;
                },
            };
            let remaining = match w.remaining.checked_sub(size) {
                Some(left) => left,
                None => {
                    return None;
                },
            };
            let fill = PricedFill { price: level.price, size, fee };
            w.fills.push(fill);
            w.total_cost = total_cost;
            w.total_size = total_size;
            w.remaining = remaining;
            proof {
                assert(priced_views(w.fills@) =~= before.fills.push(fill@));
                assert(w@.fills.drop_last() =~= before.fills);
                assert forall|scale: nat| #[trigger] exact_at(lv, amount@, scale) implies walked(
                    w@,
                    lv,
                    amount@,
                    scale,
                    (i + 1) as nat,
                ) by {
                    lemma_walked_step(before, w@, lv, amount@, scale, i as nat);
                }
                assert forall|scale: nat, price_scale: nat, top: int| #[trigger]
                    exact_prices(lv, amount@, scale, price_scale, top) implies costed(
                    w@,
                    scale,
                    price_scale,
                    top,
                ) by {
                    assert(exact_at(lv, amount@, scale));
                    assert(0 <= lv[i as int].1.0);
                    lemma_walked_step(before, w@, lv, amount@, scale, i as nat);
                    lemma_costed_step(
                        before,
                        w@,
                        cost@,
                        lv,
                        amount@,
                        scale,
                        price_scale,
                        top,
                        i as nat,
                    );
                }
            }
            i += 1;
        }
        proof {
            if i < levels@.len() {
                lemma_walk_stops(lv, amount@, bps, i as nat, levels@.len());
            }
        }
        Some(w)
    }

    /// How much worse than the first price the average price of fills is, in per cent; nothing
    /// if there are no fills. `None` if it cannot be computed. A single fill has no slippage,
    /// and where the first price is positive, the slippage is never negative.
    pub fn calculate_slippage(&self, side: Side, fills: &Vec<PricedFill>) -> (r: Option<
        Option<Decimal>,
    >)
        ensures
            match r {
                Some(slippage) => fills_slippage(side, priced_views(fills@)) == Some(
                    dec_opt(slippage),
                ),
                None => fills_slippage(side, priced_views(fills@)) is None,
            },
            fills@.len() == 1 && exact_notional(fills@[0].price@, fills@[0].size@) ==> r is Some
                && dec_opt(r->0) == Some(dec_zero()),
            r matches Some(Some(slippage)) ==> fills@[0].price@.0 > 0 ==> slippage@.0 >= 0,
    {
        if fills.len() == 0 {
            return Some(None);
        }
        let ghost pv = priced_views(fills@);
        let mut costs: Vec<Decimal> = Vec::new();
        let mut sizes: Vec<Decimal> = Vec::new();
        let mut i: usize = 0;
        while i < fills.len()
            invariant
                0 <= i <= fills@.len(),
                pv == priced_views(fills@),
                costs@.len() == i,
                sizes@.len() == i,
                forall|k: int| 0 <= k < i ==> costs_of(pv)[k] == Some((#[trigger] costs@[k])@),
                forall|k: int| 0 <= k < i ==> (#[trigger] sizes@[k])@ == pv[k].size,
                i > 0 && exact_notional(pv[0].price, pv[0].size) ==> costs@[0]@ == (
                    pv[0].price.0 * pv[0].size.0,
                    pv[0].price.1 + pv[0].size.1,
                ),
            decreases fills@.len() - i,
        {
            assert(pv[i as int] == fills@[i as int]@);
            match fills[i].price.checked_mul(fills[i].size) {
                Some(cost) => {
                    costs.push(cost);
                },
                None => {
                    assert(costs_of(pv)[i as int] is None);
                    return None;
                },
            }
            sizes.push(fills[i].size);
            i += 1;
        }
        proof {
            assert(costs_of(pv).map_values(|d: Option<Dec>| d->0) =~= costs@.map_values(
                |d: Decimal| d@,
            ));
            assert(pv.map_values(|f: PricedView| f.size) =~= sizes@.map_values(|d: Decimal| d@));
            assert forall|k: int| 0 <= k < costs_of(pv).len() implies (#[trigger] costs_of(
                pv,
            )[k]) is Some by {
                assert(costs_of(pv)[k] == Some(costs@[k]@));
            }
        }
        let average_price = match (checked_sum(&costs), checked_sum(&sizes)) {
            (Some(total_cost), Some(total_size)) => {
                proof {
                    if fills@.len() == 1 && exact_notional(pv[0].price, pv[0].size) {
                        lemma_divides(pv[0].price.0, pv[0].size.0);
                    }
                }
                total_cost.checked_div(total_size)
            },
            _ => None,
        };
        match average_price {
            Some(average_price) => match math::calculate_slippage(
                fills[0].price,
                average_price,
                side,
            ) {
                Some(slippage) => Some(Some(slippage)),
                None => None,
            },
            None => None,
        }
    }

    /// What would become of a market order on this side for this amount against these levels,
    /// the best first; `None` if a number on the way cannot be computed.
    ///
    /// Where the sizes can be written out in full, as much is filled as is wanted and offered, and
    /// the status says how much that is. An amount that the best level alone covers is filled
    /// there, at its price, unless the tolerated slippage is negative.
    pub fn quote_market_order(
        &self,
        side: Side,
        amount: Decimal,
        levels: &Vec<BookLevel>,
    ) -> (r: Option<Quote>)
        ensures
            match r {
                Some(quote) => market_quote(
                    self.terms(),
                    side,
                    amount@,
                    level_views(levels@),
                ) == Some(quote@),
                None => market_quote(
                    self.terms(),
                    side,
                    amount@,
                    level_views(levels@),
                ) is None,
            },
            r matches Some(quote) ==> forall|scale: nat| #[trigger]
                exact_at(level_views(levels@), amount@, scale) ==> filled_by_depth(
                    quote@,
                    self.terms(),
                    level_views(levels@),
                    amount@,
                    scale,
                ),
            r matches Some(quote) ==> forall|scale: nat, price_scale: nat, top: int| #[trigger]
                exact_prices(level_views(levels@), amount@, scale, price_scale, top)
                    ==> costs_in_full(quote@, scale, price_scale),
            r matches Some(quote) ==> divides_evenly(quote@),
            r matches Some(quote) ==> covered_by_best(level_views(levels@), amount@)
                && self.terms().max_slippage_pct.0 >= 0 ==> filled_at(
                quote@,
                amount@,
                level_views(levels@)[0].0,
                self.terms().fee_rate_bps,
            ),
            surely_filled(level_views(levels@), amount@, self.terms().fee_rate_bps) ==> r is Some,
    {
        if levels.len() == 0 {
            return Some(Quote::NoLiquidity);
        }
        let w = match self.walk_levels(levels, amount) {
            Some(w) => w,
            None => {
                return None;
            },
        };
        let ghost covered = covered_by_best(level_views(levels@), amount@);
        let ghost price = level_views(levels@)[0].0;
        proof {
            if covered {
                let (p, z) = (price.0, amount@.0);
                assert(p * z == z * p) by (nonlinear_arith);
                assert(priced_views(w.fills@)[0] == w.fills@[0]@);
                lemma_divides(p, z);
            }
        }
        let slippage = match self.calculate_slippage(side, &w.fills) {
            Some(slippage) => slippage,
            None => {
                return None;
            },
        };
        match slippage {
            Some(slippage) => {
                if self.max_slippage_pct.less_than(slippage) {
                    proof {
                        if covered {
                            lemma_negative(self.max_slippage_pct@);
                        }
                    }
                    return Some(Quote::SlippageExceeded(slippage));
                }
            },
            None => {},
        }
        proof {
            assert forall|scale: nat| #[trigger]
                exact_at(level_views(levels@), amount@, scale) implies walk_has_depth(
                w@,
                self.terms(),
                level_views(levels@),
                amount@,
                scale,
            ) by {
                lemma_walk_has_depth(
                    w@,
                    self.terms(),
                    level_views(levels@),
                    amount@,
                    scale,
                );
            }
        }
        let status = if w.remaining.is_zero() {
            FillStatus::Filled
        } else if !w.total_size.less_than(self.min_fill_size) {
            FillStatus::Partial
        } else {
            return Some(Quote::NoLiquidity);
        };
        let average_price = if w.total_size.is_zero() {
            Decimal::zero()
        } else {
            match w.total_cost.checked_div(w.total_size) {
                Some(average) => {
                    proof {
                        lemma_even_quotient(w.total_cost@, w.total_size@);
                    }
                    average
                },
                None => {
                    return None;
                },
            }
        };
        let fees = match Self::sum_fees(&w.fills) {
            Some(fees) => fees,
            None => {
                return None;
            },
        };
        let MarketWalk { fills, total_cost, total_size, .. } = w;
        assert(priced_views(fills@) == w@.fills);
        Some(
            Quote::Executable(
                QuotedFills { fills, total_size, average_price, total_cost, fees, status },
            ),
        )
    }

    /// The fees of fills together; `None` if they overflow.
    fn sum_fees(fills: &Vec<PricedFill>) -> (r: Option<Decimal>)
        ensures
            dec_opt(r) == sum_of(priced_views(fills@).map_values(|f: PricedView| f.fee)),
            fills@.len() == 1 ==> dec_opt(r) == Some(fills@[0].fee@),
    {
        let mut fees: Vec<Decimal> = Vec::new();
        let mut i: usize = 0;
        while i < fills.len()
            invariant
                0 <= i <= fills@.len(),
                fees@.len() == i,
                forall|k: int| 0 <= k < i ==> (#[trigger] fees@[k]) == fills@[k].fee,
            decreases fills@.len() - i,
        {
            fees.push(fills[i].fee);
            i += 1;
        }
        assert(fees@.map_values(|d: Decimal| d@) =~= priced_views(fills@).map_values(
            |f: PricedView| f.fee,
        ));
        checked_sum(&fees)
    }

    /// Refuses a market order of no amount or of less than the minimum.
    pub fn validate_market_order(&self, order: &MarketOrderRequest) -> (r: Result<
        (),
        PolyfillError,
    >)
        ensures
            refused_with(r, market_refusal(self.terms(), order.amount@)),
            r is Ok <==> order.amount@.0 != 0 && !dec_lt(
                order.amount@,
                self.terms().min_fill_size,
            ),
    {
        if order.amount.is_zero() {
            return Err(
                PolyfillError::order(
                    "Market order amount cannot be zero".to_string(),
                    OrderErrorKind::InvalidSize,
                ),
            );
        }
        if order.amount.less_than(self.min_fill_size) {
            return Err(size_below_minimum(order.amount, self.min_fill_size));
        }
        Ok(())
    }

    /// Refuses a limit order of no size or price or of less than the minimum.
    pub fn validate_limit_order(&self, order: &OrderRequest) -> (r: Result<(), PolyfillError>)
        ensures
            refused_with(r, limit_refusal(self.terms(), order.price@, order.size@)),
            r is Ok <==> order.size@.0 != 0 && order.price@.0 != 0 && !dec_lt(
                order.size@,
                self.terms().min_fill_size,
            ),
    {
        if order.size.is_zero() {
            return Err(
                PolyfillError::order(
                    "Limit order size cannot be zero".to_string(),
                    OrderErrorKind::InvalidSize,
                ),
            );
        }
        if order.price.is_zero() {
            return Err(
                PolyfillError::order(
                    "Limit order price cannot be zero".to_string(),
                    OrderErrorKind::InvalidPrice,
                ),
            );
        }
        if order.size.less_than(self.min_fill_size) {
            return Err(size_below_minimum(order.size, self.min_fill_size));
        }
        Ok(())
    }

    /// Fills an order as quoted: makes a fill event of each quoted fill, with the id and the time
    /// of its stamp, and records the fills under the order, in place of any it had.
    pub fn settle(
        &mut self,
        order_id: String,
        token_id: &String,
        side: Side,
        quote: Quote,
        start_time: Timestamp,
        stamps: &Vec<FillStamp>,
    ) -> (r: FillResult)
        requires
            old(self).wf(),
            quote matches Quote::Executable(q) ==> q.fills@.len() == stamps@.len(),
        ensures
            final(self).wf(),
            final(self).terms() == old(self).terms(),
            is_result_of(r, order_id@, token_id@, side, quote@),
            r.timestamp == start_time,
            stamped(r.fills@, stamps@),
            final(self).recorded() == recorded_with(old(self).recorded(), r),
    {
        let (q, status) = match quote {
            Quote::NoLiquidity => (None, FillStatus::Unfilled),
            Quote::SlippageExceeded(_) => (None, FillStatus::Rejected),
            Quote::Executable(q) => {
                let status = q.status;
                (Some(q), status)
            },
        };
        match q {
            None => FillResult {
                order_id,
                fills: Vec::new(),
                total_size: Decimal::zero(),
                average_price: Decimal::zero(),
                total_cost: Decimal::zero(),
                fees: Decimal::zero(),
                status,
                timestamp: start_time,
            },
            Some(q) => {
                let mut fills: Vec<FillEvent> = Vec::new();
                let mut i: usize = 0;
                while i < q.fills.len()
                    invariant
                        0 <= i <= q.fills@.len(),
                        q.fills@.len() == stamps@.len(),
                        fills@.len() == i,
                        forall|k: int|
                            0 <= k < i ==> is_fill_of(
                                #[trigger] fills@[k],
                                order_id@,
                                token_id@,
                                side,
                                q.fills@[k]@,
                            ),
                        stamped(fills@, stamps@),
                    decreases q.fills@.len() - i,
                {
                    fills.push(
                        FillEvent {
                            id: stamps[i].id.clone(),
                            order_id: order_id.clone(),
                            token_id: token_id.clone(),
                            side,
                            price: q.fills[i].price,
                            size: q.fills[i].size,
                            timestamp: stamps[i].timestamp,
                            maker_address: Address::zero(),
                            taker_address: Address::zero(),
                            fee: q.fills[i].fee,
                        },
                    );
                    i += 1;
                }
                if fills.len() > 0 {
                    let copy = fills.clone();
                    assert(copy@ =~= fills@);
                    self.fills.insert(order_id.clone(), copy);
                }
                FillResult {
                    order_id,
                    fills,
                    total_size: q.total_size,
                    average_price: q.average_price,
                    total_cost: q.total_cost,
                    fees: q.fees,
                    status,
                    timestamp: start_time,
                }
            },
        }
    }

    /// The numbers that a market order leads to can all be computed.
    pub open spec fn market_order_fits(&self, order: MarketOrderRequest, book: OrderBook) -> bool {
        market_refusal(self.terms(), order.amount@) is None ==> market_quote(
            self.terms(),
            order.side,
            order.amount@,
            level_views(opposite_levels(book, order.side)),
        ) is Some
    }

    /// `self` and `r` are what executing a market order makes of the engine `before`.
    pub open spec fn has_executed_market_order(
        &self,
        before: FillEngine,
        order: MarketOrderRequest,
        book: OrderBook,
        r: Result<FillResult, PolyfillError>,
    ) -> bool {
        let levels = level_views(opposite_levels(book, order.side));
        let quote = market_quote(before.terms(), order.side, order.amount@, levels);
        &&& self.terms() == before.terms()
        &&& refused_with(r, market_refusal(before.terms(), order.amount@))
        &&& match r {
            Err(_) => self.recorded() == before.recorded(),
            Ok(res) => {
                &&& is_result_of(
                    res,
                    market_order_id(order),
                    order.token_id@,
                    order.side,
                    quote->0,
                )
                &&& freshly_stamped(res)
                &&& self.recorded() == recorded_with(before.recorded(), res)
                &&& leaves_no_trace(res, before.recorded(), self.recorded())
                &&& forall|scale: nat| #[trigger]
                    exact_at(levels, order.amount@, scale) ==> filled_by_depth(
                        quote->0,
                        before.terms(),
                        levels,
                        order.amount@,
                        scale,
                    )
                &&& forall|scale: nat, price_scale: nat, top: int| #[trigger]
                    exact_prices(levels, order.amount@, scale, price_scale, top) ==> costs_in_full(
                        quote->0,
                        scale,
                        price_scale,
                    )
                &&& divides_evenly(quote->0)
                &&& covered_by_best(levels, order.amount@) && before.terms().max_slippage_pct.0
                    >= 0 ==> filled_at(
                    quote->0,
                    order.amount@,
                    levels[0].0,
                    before.terms().fee_rate_bps,
                )
            },
        }
    }

    /// Executes a market order against an order book: fills it from the other side of the book,
    /// level by level from the best price on, unless it is refused or its average price would be
    /// too much worse than the best price.
    pub fn execute_market_order(&mut self, order: &MarketOrderRequest, book: &OrderBook) -> (r:
        Result<FillResult, PolyfillError>)
        requires
            old(self).wf(),
            old(self).market_order_fits(*order, *book),
        ensures
            final(self).wf(),
            final(self).has_executed_market_order(*old(self), *order, *book, r),
    {
        let start_time = current_time();
        match self.validate_market_order(order) {
            Err(e) => {
                return Err(e);
            },
            Ok(_) => {},
        }
        let levels = match order.side {
            Side::BUY => book.asks(),
            Side::SELL => book.bids(),
        };
        let quote = self.quote_market_order(order.side, order.amount, levels).unwrap();
        let count: usize = match &quote {
            Quote::Executable(q) => q.fills.len(),
            _ => 0,
        };
        let stamps = new_stamps(count);
        let order_id = order_id_or(&order.client_id, "market_order");
        let res = self.settle(order_id, &order.token_id, order.side, quote, start_time, &stamps);
        Ok(res)
    }

    /// Executes a market order as [`FillEngine::execute_market_order`] does; `None`, and nothing
    /// changes, if a number on the way cannot be computed.
    pub fn try_execute_market_order(
        &mut self,
        order: &MarketOrderRequest,
        book: &OrderBook,
    ) -> (r: Option<Result<FillResult, PolyfillError>>)
        requires
            old(self).wf(),
        ensures
            final(self).wf(),
            r is Some <==> old(self).market_order_fits(*order, *book),
            surely_filled(
                level_views(opposite_levels(*book, order.side)),
                order.amount@,
                old(self).terms().fee_rate_bps,
            ) ==> r is Some,
            match r {
                Some(executed) => final(self).has_executed_market_order(
                    *old(self),
                    *order,
                    *book,
                    executed,
                ),
                None => *final(self) == *old(self),
            },
    {
        if self.validate_market_order(order).is_ok() {
            let levels = match order.side {
                Side::BUY => book.asks(),
                Side::SELL => book.bids(),
            };
            if self.quote_market_order(order.side, order.amount, levels).is_none() {
                return None;
            }
        }
        Some(self.execute_market_order(order, book))
    }

    /// The fee for a notional.
    pub fn calculate_fee(&self, notional: Decimal) -> (r: Decimal)
        requires
            fee_of(notional@, self.terms().fee_rate_bps) is Some,
        ensures
            fee_of(notional@, self.terms().fee_rate_bps) == Some(r@),
            decimal_product(notional@, (self.terms().fee_rate_bps as int, 0)) matches Some(product)
                && decimal_quotient(product, (10_000, 0)) == Some(r@),
            notional@.1 <= 24 && fits(notional@.0 * self.terms().fee_rate_bps) ==> dec_same(
                r@,
                (notional@.0 * self.terms().fee_rate_bps, notional@.1 + 4),
            ),
            fair_fee(notional@, self.terms().fee_rate_bps, Some(r@)),
    {
        self.checked_fee(notional).unwrap()
    }

    /// Whether the best price of the other side is as good as the price of a limit order or
    /// better.
    fn is_crossed(&self, order: &OrderRequest, book: &OrderBook) -> (r: bool)
        ensures
            r == crosses(*book, order.side, order.price@),
    {
        match order.side {
            Side::BUY => match book.best_ask() {
                Some(best_ask) => !order.price.less_than(best_ask.price),
                None => false,
            },
            Side::SELL => match book.best_bid() {
                Some(best_bid) => !best_bid.price.less_than(order.price),
                None => false,
            },
        }
    }

    /// The numbers that a limit order leads to can all be computed.
    pub open spec fn limit_order_fits(&self, order: OrderRequest, book: OrderBook) -> bool {
        limit_refusal(self.terms(), order.price@, order.size@) is None ==> limit_quote(
            self.terms(),
            crosses(book, order.side, order.price@),
            order.price@,
            order.size@,
        ) is Some
    }

    /// `self` and `r` are what executing a limit order makes of the engine `before`.
    pub open spec fn has_executed_limit_order(
        &self,
        before: FillEngine,
        order: OrderRequest,
        book: OrderBook,
        r: Result<FillResult, PolyfillError>,
    ) -> bool {
        let crossed = crosses(book, order.side, order.price@);
        let quote = limit_quote(before.terms(), crossed, order.price@, order.size@);
        &&& self.terms() == before.terms()
        &&& refused_with(r, limit_refusal(before.terms(), order.price@, order.size@))
        &&& match r {
            Err(_) => self.recorded() == before.recorded(),
            Ok(res) => {
                &&& is_result_of(
                    res,
                    limit_order_id(order),
                    order.token_id@,
                    order.side,
                    quote->0,
                )
                &&& freshly_stamped(res)
                &&& self.recorded() == recorded_with(before.recorded(), res)
                &&& leaves_no_trace(res, before.recorded(), self.recorded())
                &&& crossed && exact_notional(order.price@, order.size@) ==> filled_at(
                    quote->0,
                    order.size@,
                    order.price@,
                    before.terms().fee_rate_bps,
                )
            },
        }
    }

    /// Executes a limit order (simulation): fills it whole, at its own price, if the best price
    /// of the other side of the book is as good or better.
    pub fn execute_limit_order(&mut self, order: &OrderRequest, book: &OrderBook) -> (r: Result<
        FillResult,
        PolyfillError,
    >)
        requires
            old(self).wf(),
            old(self).limit_order_fits(*order, *book),
        ensures
            final(self).wf(),
            final(self).has_executed_limit_order(*old(self), *order, *book, r),
            r matches Ok(res) ==> match order.side {
                Side::BUY => res.status is Filled <==> exists|i: int|
                    0 <= i < book.ask_levels().len() && !dec_lt(
                        order.price@,
                        (#[trigger] book.ask_levels()[i]).price@,
                    ),
                Side::SELL => res.status is Filled <==> exists|i: int|
                    0 <= i < book.bid_levels().len() && !dec_lt(
                        (#[trigger] book.bid_levels()[i]).price@,
                        order.price@,
                    ),
            },
    {
        proof {
            use_type_invariant(book);
            lemma_crosses_if_some_level_does(*book, order.side, order.price@);
        }
        let start_time = current_time();
        match self.validate_limit_order(order) {
            Err(e) => {
                return Err(e);
            },
            Ok(_) => {},
        }
        let quote = if self.is_crossed(order, book) {
            proof {
                let (p, z) = (order.price@.0, order.size@.0);
                assert(p * z == z * p) by (nonlinear_arith);
            }
            let cost = order.price.checked_mul(order.size).unwrap();
            let fee = self.calculate_fee(cost);
            let mut fills: Vec<PricedFill> = Vec::new();
            fills.push(PricedFill { price: order.price, size: order.size, fee });
            assert(priced_views(fills@) =~= seq![
                PricedView { price: order.price@, size: order.size@, fee: fee@ },
            ]);
            Quote::Executable(
                QuotedFills {
                    fills,
                    total_size: order.size,
                    average_price: order.price,
                    total_cost: cost,
                    fees: fee,
                    status: FillStatus::Filled,
                },
            )
        } else {
            Quote::NoLiquidity
        };
        let count: usize = match &quote {
            Quote::Executable(q) => q.fills.len(),
            _ => 0,
        };
        let stamps = new_stamps(count);
        let order_id = order_id_or(&order.client_id, "limit_order");
        let res = self.settle(order_id, &order.token_id, order.side, quote, start_time, &stamps);
        Ok(res)
    }

    /// Executes a limit order as [`FillEngine::execute_limit_order`] does; `None`, and nothing
    /// changes, if a number on the way cannot be computed.
    pub fn try_execute_limit_order(&mut self, order: &OrderRequest, book: &OrderBook) -> (r: Option<
        Result<FillResult, PolyfillError>,
    >)
        requires
            old(self).wf(),
        ensures
            final(self).wf(),
            r is Some <==> old(self).limit_order_fits(*order, *book),
            exact_notional(order.price@, order.size@) && sure_fee(
                notional_of(order.price@, order.size@),
                old(self).terms().fee_rate_bps,
            ) ==> r is Some,
            match r {
                Some(executed) => final(self).has_executed_limit_order(
                    *old(self),
                    *order,
                    *book,
                    executed,
                ),
                None => *final(self) == *old(self),
            },
            r matches Some(Ok(res)) ==> match order.side {
                Side::BUY => res.status is Filled <==> exists|i: int|
                    0 <= i < book.ask_levels().len() && !dec_lt(
                        order.price@,
                        (#[trigger] book.ask_levels()[i]).price@,
                    ),
                Side::SELL => res.status is Filled <==> exists|i: int|
                    0 <= i < book.bid_levels().len() && !dec_lt(
                        (#[trigger] book.bid_levels()[i]).price@,
                        order.price@,
                    ),
            },
    {
        if self.validate_limit_order(order).is_ok() && self.is_crossed(order, book) {
            match order.price.checked_mul(order.size) {
                Some(cost) => {
                    if self.checked_fee(cost).is_none() {
                        return None;
                    }
                },
                None => {
                    return None;
                },
            }
        }
        Some(self.execute_limit_order(order, book))
    }

    /// The recorded fills of an order.
    pub fn get_fills(&self, order_id: &str) -> (r: Option<&[FillEvent]>)
        requires
            self.wf(),
        ensures
            r is Some <==> self.recorded().contains_key(order_id@),
            r matches Some(fills) ==> fills@ == self.recorded()[order_id@],
    {
        self.fills.get(order_id)
    }

    /// A fill is listed among all fills exactly if it is recorded under some order.
    pub proof fn lemma_listed_iff_recorded(&self, fill: FillEvent)
        requires
            self.wf(),
        ensures
            all_fills(self.recorded()).contains(fill) <==> exists|id: Seq<char>| #[trigger]
                self.recorded().contains_key(id) && self.recorded()[id].contains(fill),
    {
        self.fills.lemma_listed(fill);
    }

    /// Recording the fills of an order counts it once, however often that happens.
    pub proof fn lemma_order_counts_once(&self, res: FillResult)
        requires
            self.wf(),
        ensures
            recorded_with(self.recorded(), res).len() == if res.fills@.len() == 0
                || self.recorded().contains_key(res.order_id@) {
                self.recorded().len()
            } else {
                self.recorded().len() + 1
            },
    {
        if self.recorded().contains_key(res.order_id@) {
            assert(self.recorded().insert(res.order_id@, res.fills@).dom()
                =~= self.recorded().dom());
        }
    }

    /// No more orders have recorded fills than there are recorded fills.
    pub proof fn lemma_orders_at_most_fills(&self)
        requires
            self.wf(),
        ensures
            self.recorded().len() <= all_fills(self.recorded()).len(),
    {
        lemma_orders_at_most_fills(self.recorded());
    }

    /// All recorded fills, in the order of their order ids.
    pub fn get_all_fills(&self) -> (r: Vec<&FillEvent>)
        requires
            self.wf(),
        ensures
            targets(r@) == all_fills(self.recorded()),
    {
        self.fills.all()
    }

    /// Forgets the fills of an order.
    pub fn clear_fills(&mut self, order_id: &str)
        requires
            old(self).wf(),
        ensures
            final(self).wf(),
            final(self).terms() == old(self).terms(),
            final(self).recorded() == old(self).recorded().remove(order_id@),
    {
        let _ = self.fills.remove(order_id);
    }

    /// The sizes and the fees of the recorded fills can be added up without overflow.
    pub open spec fn totals_fit(&self) -> bool {
        &&& sum_of(sizes(all_fills(self.recorded()))) is Some
        &&& sum_of(fees(all_fills(self.recorded()))) is Some
    }

    /// `stats` counts the orders and fills and adds up their sizes and fees, in the order of
    /// their order ids. Where the totals can be written out in full, they are exact.
    pub open spec fn has_stats(&self, stats: FillStats) -> bool {
        &&& stats.total_orders == self.recorded().len()
        &&& stats.total_fills == all_fills(self.recorded()).len()
        &&& sum_of(sizes(all_fills(self.recorded()))) == Some(stats.total_volume@)
        &&& sum_of(fees(all_fills(self.recorded()))) == Some(stats.total_fees@)
        &&& sums_exactly(sizes(all_fills(self.recorded())), Some(stats.total_volume@))
        &&& sums_exactly(fees(all_fills(self.recorded())), Some(stats.total_fees@))
    }

    /// Counts and totals of the recorded fills.
    pub fn get_stats(&self) -> (r: FillStats)
        requires
            self.wf(),
            self.totals_fit(),
        ensures
            self.has_stats(r),
    {
        let all = self.fills.all();
        FillStats {
            total_orders: self.fills.len(),
            total_fills: all.len(),
            total_volume: total_size(&all).unwrap(),
            total_fees: total_fee(&all).unwrap(),
        }
    }

    /// Counts and totals of the recorded fills; `None` if a total overflows.
    pub fn try_get_stats(&self) -> (r: Option<FillStats>)
        requires
            self.wf(),
        ensures
            r is Some <==> self.totals_fit(),
            (exists|scale: nat| #[trigger] summable(sizes(all_fills(self.recorded())), scale)) && (
            exists|scale: nat| #[trigger] summable(fees(all_fills(self.recorded())), scale))
                ==> r is Some,
            r matches Some(stats) ==> self.has_stats(stats),
    {
        let all = self.fills.all();
        if total_size(&all).is_some() && total_fee(&all).is_some() {
            Some(self.get_stats())
        } else {
            None
        }
    }

    /// The minimum fill size.
    pub fn min_fill_size(&self) -> (r: Decimal)
        ensures
            r@ == self.terms().min_fill_size,
    {
        self.min_fill_size
    }

    /// The maximum slippage tolerance (as percentage).
    pub fn max_slippage_pct(&self) -> (r: Decimal)
        ensures
            r@ == self.terms().max_slippage_pct,
    {
        self.max_slippage_pct
    }

    /// The fee rate in basis points.
    pub fn fee_rate_bps(&self) -> (r: u32)
        ensures
            r == self.terms().fee_rate_bps,
    {
        self.fee_rate_bps
    }
}

/// Fill statistics.
#[derive(Clone, Debug)]
pub struct FillStats {
    pub total_orders: usize,
    pub total_fills: usize,
    pub total_volume: Decimal,
    pub total_fees: Decimal,
}

/// A market order is rejected for its slippage alone, and a rejected order has no fills and
/// leaves the records as they were.
pub proof fn lemma_rejected_order_leaves_no_trace(
    recorded: Map<Seq<char>, Seq<FillEvent>>,
    terms: Terms,
    order: MarketOrderRequest,
    levels: Seq<(Dec, Dec)>,
    res: FillResult,
)
    requires
        market_quote(terms, order.side, order.amount@, levels) matches Some(quote) && is_result_of(
            res,
            market_order_id(order),
            order.token_id@,
            order.side,
            quote,
        ),
    ensures
        res.status is Rejected <==> market_quote(
            terms,
            order.side,
            order.amount@,
            levels,
        )->0 is SlippageExceeded,
        res.status is Rejected ==> nothing_filled(res, FillStatus::Rejected) && recorded_with(
            recorded,
            res,
        ) == recorded,
{
}

/// The status of a market order tells how much of it was filled: a partly filled order has at
/// least the minimum and a fill from every level of the book, and an unfilled or rejected one has
/// no fills, costs nothing and leaves the records as they were.
pub proof fn lemma_status_tells_how_much(
    recorded: Map<Seq<char>, Seq<FillEvent>>,
    terms: Terms,
    order: MarketOrderRequest,
    levels: Seq<(Dec, Dec)>,
    res: FillResult,
)
    requires
        market_quote(terms, order.side, order.amount@, levels) matches Some(quote) && is_result_of(
            res,
            market_order_id(order),
            order.token_id@,
            order.side,
            quote,
        ),
    ensures
        res.status is Partial ==> !dec_lt(res.total_size@, terms.min_fill_size)
            && res.fills@.len() == levels.len(),
        res.status is Unfilled ==> nothing_filled(res, FillStatus::Unfilled),
        res.status is Rejected ==> nothing_filled(res, FillStatus::Rejected),
        res.status is Unfilled || res.status is Rejected ==> recorded_with(recorded, res)
            == recorded,
{
    if levels.len() > 0 {
        let w = walk(levels, order.amount@, terms.fee_rate_bps, levels.len())->0;
        lemma_walk_fills(levels, order.amount@, terms.fee_rate_bps, levels.len(), w);
    }
}

/// The size and the fees of a market order are the sums over its fills, and so is its cost: what
/// is given for each fill is its size times its price.
pub proof fn lemma_totals_are_sums_over_fills(
    terms: Terms,
    order: MarketOrderRequest,
    levels: Seq<(Dec, Dec)>,
    res: FillResult,
)
    requires
        market_quote(terms, order.side, order.amount@, levels) matches Some(quote) && is_result_of(
            res,
            market_order_id(order),
            order.token_id@,
            order.side,
            quote,
        ),
    ensures
        sum_of(sizes(res.fills@)) == Some(res.total_size@),
        sum_of(fees(res.fills@)) == Some(res.fees@),
        sum_of(fill_costs(priced(res.fills@))) == Some(res.total_cost@),
{
    match market_quote(terms, order.side, order.amount@, levels)->0 {
        QuoteView::Executable { fills, .. } => {
            let w = walk(levels, order.amount@, terms.fee_rate_bps, levels.len())->0;
            lemma_walk_fills(levels, order.amount@, terms.fee_rate_bps, levels.len(), w);
            assert(sizes(res.fills@) =~= fills.map_values(|f: PricedView| f.size));
            assert(fees(res.fills@) =~= fills.map_values(|f: PricedView| f.fee));
            assert(priced(res.fills@) =~= fills);
        },
        _ => {},
    }
}

/// A limit order is filled whole, in one fill at its own price, or not at all.
pub proof fn lemma_limit_order_is_all_or_nothing(
    terms: Terms,
    order: OrderRequest,
    book: OrderBook,
    res: FillResult,
)
    requires
        limit_quote(
            terms,
            crosses(book, order.side, order.price@),
            order.price@,
            order.size@,
        ) matches Some(quote) && is_result_of(
            res,
            limit_order_id(order),
            order.token_id@,
            order.side,
            quote,
        ),
    ensures
        if crosses(book, order.side, order.price@) {
            &&& res.status is Filled
            &&& res.total_size@ == order.size@
            &&& res.average_price@ == order.price@
            &&& res.fills@.len() == 1
            &&& res.fills@[0].price@ == order.price@
            &&& res.fills@[0].size@ == order.size@
            &&& res.fees@ == res.fills@[0].fee@
        } else {
            nothing_filled(res, FillStatus::Unfilled)
        },
{
    if crosses(book, order.side, order.price@) {
        assert(is_fill_of(
            res.fills@[0],
            limit_order_id(order),
            order.token_id@,
            order.side,
            limit_quote(terms, true, order.price@, order.size@)->0->Executable_fills[0],
        ));
    }
}

/// The fills of a market order that buys are at rising prices, those of one that sells at
/// falling prices: the best offers go first.
pub proof fn lemma_best_offers_go_first(
    terms: Terms,
    side: Side,
    amount: Dec,
    levels: Seq<BookLevel>,
    i: int,
    j: int,
)
    requires
        side is BUY ==> rising_prices(levels),
        side is SELL ==> falling_prices(levels),
        market_quote(terms, side, amount, level_views(levels)) matches Some(
            QuoteView::Executable { fills, .. },
        ) && 0 <= i < j < fills.len(),
    ensures
        market_quote(terms, side, amount, level_views(levels)) matches Some(
            QuoteView::Executable { fills, .. },
        ) && math::worse_than(fills[i].price, fills[j].price, side),
{
    let lv = level_views(levels);
    let w = walk(lv, amount, terms.fee_rate_bps, lv.len())->0;
    lemma_walk_fills(lv, amount, terms.fee_rate_bps, lv.len(), w);
    assert(w.fills[i].price == levels[i].price@);
    assert(w.fills[j].price == levels[j].price@);
}

/// Best execution: no other way to take the same size from the levels of a book costs less for an
/// order that buys, or brings more for one that sells, than taking the levels in their order.
pub proof fn lemma_best_execution(
    side: Side,
    levels: Seq<BookLevel>,
    fills: Seq<PricedView>,
    other: Seq<int>,
    scale: nat,
    price_scale: nat,
)
    requires
        side is BUY ==> rising_prices(levels),
        side is SELL ==> falling_prices(levels),
        forall|i: int| 0 <= i < levels.len() ==> (#[trigger] levels[i]).price@.1 <= price_scale,
        takes_in_order(fills, level_views(levels), scale),
        is_allocation(other, level_views(levels), scale),
        size_of(other, levels.len()) == total_at(fill_sizes(fills), scale),
    ensures
        ({
            let fills_cost = cost_at(fills, scale, price_scale);
            let other_cost = cost_of(
                other,
                prices_at(level_views(levels), price_scale),
                levels.len(),
            );
            match side {
                Side::BUY => fills_cost <= other_cost,
                Side::SELL => fills_cost >= other_cost,
            }
        }),
{
    let lv = level_views(levels);
    let n = levels.len();
    let taken = allocated(fills, n, scale);
    let prices = prices_at(lv, price_scale);
    let negated = prices.map_values(|p: int| -p);
    lemma_allocated(fills, lv, scale, price_scale, n);
    assert(fills.take(fills.len() as int) =~= fills);
    if n > 0 {
        // The price of the last fill, or the best price if there is no fill.
        let k = if fills.len() > 0 {
            fills.len() - 1
        } else {
            0
        };
        assert forall|i: int| 0 <= i < n implies {
            &&& (i < k ==> other[i] <= taken[i])
            &&& (i > k ==> other[i] >= taken[i])
            &&& (side is BUY && i < k ==> (#[trigger] prices[i]) <= prices[k])
            &&& (side is BUY && i > k ==> prices[i] >= prices[k])
            &&& (side is SELL && i < k ==> prices[i] >= prices[k])
            &&& (side is SELL && i > k ==> prices[i] <= prices[k])
        } by {
            assert(lv[i] == levels[i]@ && lv[k] == levels[k]@);
            assert(levels[i].price@.1 <= price_scale && levels[k].price@.1 <= price_scale);
            lemma_lt_at_scale(levels[i].price@, levels[k].price@, price_scale);
            lemma_lt_at_scale(levels[k].price@, levels[i].price@, price_scale);
            assert(0 <= other[i] <= at_scale(lv[i].1, scale));
            if i < k {
                assert(fills[i].size == lv[i].1);
            }
        }
        if side is BUY {
            lemma_costs_at_least(other, taken, prices, prices[k], n);
            assert(prices[k] * 0 == 0);
        } else {
            assert forall|i: int| 0 <= i < n implies (#[trigger] negated[i]) == -prices[i] by {}
            assert(negated[k] == -prices[k]);
            lemma_costs_at_least(other, taken, negated, negated[k], n);
            lemma_negated_cost(other, prices, n);
            lemma_negated_cost(taken, prices, n);
            assert(negated[k] * 0 == 0);
        }
    }
}

/// The fills of a result can be read back under its order, and no other order is touched.
pub proof fn lemma_recorded_fills_read_back(
    recorded: Map<Seq<char>, Seq<FillEvent>>,
    res: FillResult,
    other: Seq<char>,
)
    requires
        other != res.order_id@,
    ensures
        res.fills@.len() > 0 ==> recorded_with(recorded, res).contains_key(res.order_id@)
            && recorded_with(recorded, res)[res.order_id@] == res.fills@,
        recorded_with(recorded, res).contains_key(other) == recorded.contains_key(other),
        recorded.contains_key(other) ==> recorded_with(recorded, res)[other] == recorded[other],
{
}

/// Clearing an order takes back what was recorded under it, and clearing it again changes
/// nothing.
pub proof fn lemma_clear_takes_back(
    recorded: Map<Seq<char>, Seq<FillEvent>>,
    res: FillResult,
)
    ensures
        recorded_with(recorded, res).remove(res.order_id@) == recorded.remove(res.order_id@),
        !recorded.contains_key(res.order_id@) ==> recorded_with(recorded, res).remove(
            res.order_id@,
        ) == recorded,
        recorded.remove(res.order_id@).remove(res.order_id@) == recorded.remove(res.order_id@),
{
    let id = res.order_id@;
    assert(recorded_with(recorded, res).remove(id) =~= recorded.remove(id));
    assert(recorded.remove(id).remove(id) =~= recorded.remove(id));
    if !recorded.contains_key(id) {
        assert(recorded.remove(id) =~= recorded);
    }
}

} // verus!
