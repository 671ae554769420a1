//! What the execution of orders comes to, told by the order, the book and the result.
use crate::book::OrderBook;
use crate::decimal::{
    at_scale, dec_lt, dec_same, dec_text, dec_valid, decimal_product, decimal_quotient, fits,
    lemma_at_scale_twice, lemma_lt_at_scale, lemma_product_at_scale, lemma_same_at_scale, sum_of,
    summable, total_at, Dec, MAX_SCALE,
};
use crate::engine::{
    crosses, is_result_of, lemma_crosses_if_some_level_does, stamped, FillEngine, FillResult,
    FillStats,
};
use crate::errors::{OrderErrorKind, PolyfillError};
use crate::ledger::all_fills;
use crate::math::{price_gap, slippage_pct, worse_than};
use crate::processor::{FillProcessor, FillProcessorStats};
use crate::quote::{
    cost_at, costs_of, depth_at, exact_at, exact_prices, fill_sizes, level_sizes, market_quote,
    sum_of_all, PricedView, QuoteView,
};
use crate::slippage::{
    average, exact_costs, exact_gap, is_quotient, lemma_difference_at_scale,
    lemma_nonzero_at_scale, lemma_quotient_at_scale, lemma_slippage_of_average, unrounded,
    unrounded_pct, valid_trades,
};
use crate::stamp::{is_random_uuid, FillStamp};
use crate::totals::{fees, sizes};
use crate::trace::{
    comes_to, fill_fees, is_trace, lemma_quote_has_trace, lemma_slippage_of_fills,
    lemma_trace_settles_quote, Outcome,
};
use crate::types::{level_views, BookLevel, FillEvent, MarketOrderRequest, OrderRequest, Side};
use vstd::arithmetic::power::{lemma_pow0, lemma_pow_adds, lemma_pow_positive, pow};
use vstd::prelude::*;

verus! {

/// The levels of the side of the book that an order trades with: all asks for one that buys, all
/// bids for one that sells.
pub open spec fn other_side(book: OrderBook, side: Side) -> Seq<BookLevel> {
    if side == Side::BUY {
        book.ask_levels()
    } else {
        book.bid_levels()
    }
}

/// What levels offer together, with `scale` digits after the point.
pub open spec fn offered(levels: Seq<BookLevel>, scale: nat) -> int
    decreases levels.len(),
{
    if levels.len() == 0 {
        0
    } else {
        levels.last().size@.0 * pow(10, (scale - levels.last().size@.1) as nat) + offered(
            levels.drop_last(),
            scale,
        )
    }
}

/// The size of fills together, with `scale` digits after the point.
pub open spec fn filled(fills: Seq<FillEvent>, scale: nat) -> int
    decreases fills.len(),
{
    if fills.len() == 0 {
        0
    } else {
        fills.last().size@.0 * pow(10, (scale - fills.last().size@.1) as nat) + filled(
            fills.drop_last(),
            scale,
        )
    }
}

/// What fills cost together, with the digits of sizes and prices after the point.
pub open spec fn spent(fills: Seq<FillEvent>, scale: nat, price_scale: nat) -> int
    decreases fills.len(),
{
    if fills.len() == 0 {
        0
    } else {
        (fills.last().size@.0 * pow(10, (scale - fills.last().size@.1) as nat)) * (
        fills.last().price@.0 * pow(10, (price_scale - fills.last().price@.1) as nat)) + spent(
            fills.drop_last(),
            scale,
            price_scale,
        )
    }
}

/// The fields of a fill that come from the order and from the priced fill that it is made of.
pub open spec fn tells(
    event: FillEvent,
    order_id: Seq<char>,
    token_id: Seq<char>,
    side: Side,
    fill: PricedView,
) -> bool {
    &&& event.order_id@ == order_id
    &&& event.token_id@ == token_id
    &&& event.side == side
    &&& event.price@ == fill.price
    &&& event.size@ == fill.size
    &&& event.fee@ == fill.fee
    &&& forall|k: int| 0 <= k < 20 ==> #[trigger] event.maker_address.bytes@[k] == 0
    &&& forall|k: int| 0 <= k < 20 ==> #[trigger] event.taker_address.bytes@[k] == 0
}

/// Nothing is filled and nothing is recorded.
pub open spec fn nothing_done(before: FillEngine, after: FillEngine, res: FillResult) -> bool {
    &&& res.fills@.len() == 0
    &&& res.total_size@ == (0int, 0nat)
    &&& res.average_price@ == (0int, 0nat)
    &&& res.total_cost@ == (0int, 0nat)
    &&& res.fees@ == (0int, 0nat)
    &&& after.recorded() == before.recorded()
}

/// A market order is refused exactly if it has no amount or less than the minimum, whatever else
/// it says and whatever the book holds; a refused order changes nothing.
pub proof fn lemma_market_order_refused(
    before: FillEngine,
    after: FillEngine,
    order: MarketOrderRequest,
    book: OrderBook,
    r: Result<FillResult, PolyfillError>,
)
    requires
        after.has_executed_market_order(before, order, book, r),
    ensures
        r is Ok <==> order.amount@.0 != 0 && !dec_lt(order.amount@, before.terms().min_fill_size),
        r is Err && order.amount@.0 == 0 ==> r->Err_0@ == (
            OrderErrorKind::InvalidSize,
            "Market order amount cannot be zero"@,
        ),
        r is Err && order.amount@.0 != 0 ==> r->Err_0@ == (
            OrderErrorKind::SizeConstraint,
            "Order size "@ + dec_text(order.amount@) + " below minimum "@ + dec_text(
                before.terms().min_fill_size,
            ),
        ),
        r is Err ==> after.recorded() == before.recorded(),
        after.terms() == before.terms(),
{
}

/// An accepted market order goes by the id that its client gave it, or by a stand-in, and its
/// fills are recorded under that id in place of any it had. No other id is touched.
pub proof fn lemma_market_order_recorded(
    before: FillEngine,
    after: FillEngine,
    order: MarketOrderRequest,
    book: OrderBook,
    r: Result<FillResult, PolyfillError>,
    other: Seq<char>,
)
    requires
        after.has_executed_market_order(before, order, book, r),
        r is Ok,
    ensures
        order.client_id matches Some(id) ==> r->Ok_0.order_id@ == id@,
        order.client_id is None ==> r->Ok_0.order_id@ == "market_order"@,
        r->Ok_0.fills@.len() > 0 ==> after.recorded().contains_key(r->Ok_0.order_id@)
            && after.recorded()[r->Ok_0.order_id@] == r->Ok_0.fills@,
        r->Ok_0.fills@.len() == 0 ==> after.recorded() == before.recorded(),
        other != r->Ok_0.order_id@ ==> after.recorded().contains_key(other)
            == before.recorded().contains_key(other),
        other != r->Ok_0.order_id@ && before.recorded().contains_key(other)
            ==> after.recorded()[other] == before.recorded()[other],
        r->Ok_0.timestamp.nanos < 1_000_000_000,
        forall|i: int|
            0 <= i < r->Ok_0.fills@.len() ==> is_random_uuid((#[trigger] r->Ok_0.fills@[i]).id@)
                && r->Ok_0.fills@[i].timestamp.nanos < 1_000_000_000,
{
}

/// An accepted market order on a side of the book that is empty is unfilled.
pub proof fn lemma_market_order_on_empty_side(
    before: FillEngine,
    after: FillEngine,
    order: MarketOrderRequest,
    book: OrderBook,
    r: Result<FillResult, PolyfillError>,
)
    requires
        after.has_executed_market_order(before, order, book, r),
        r is Ok,
        other_side(book, order.side).len() == 0,
    ensures
        r->Ok_0.status is Unfilled,
        nothing_done(before, after, r->Ok_0),
{
}

/// An accepted market order is executed along a trace over the whole other side of the book.
pub proof fn lemma_market_order_has_trace(
    before: FillEngine,
    after: FillEngine,
    order: MarketOrderRequest,
    book: OrderBook,
    r: Result<FillResult, PolyfillError>,
) -> (t: (Seq<PricedView>, Seq<Dec>, Outcome))
    requires
        before.market_order_fits(order, book),
        after.has_executed_market_order(before, order, book, r),
        r is Ok,
        other_side(book, order.side).len() > 0,
    ensures
        is_trace(
            t.0,
            t.1,
            level_views(other_side(book, order.side)),
            order.amount@,
            before.terms().fee_rate_bps,
        ),
        comes_to(t.0, order.side, t.2),
{
    lemma_quote_has_trace(
        before.terms(),
        order.side,
        order.amount@,
        level_views(other_side(book, order.side)),
    )
}

/// The trace of an accepted market order settles what becomes of it. It is rejected exactly if the
/// slippage is more than is tolerated. Otherwise it is unfilled exactly if something is left and
/// less than the minimum was filled. Otherwise each fill of the trace is one of the result, with
/// what the order says; it is `Filled` if nothing is left and `Partial` if something is, and its
/// average price is its cost divided by its size.
pub proof fn lemma_market_order_outcome(
    before: FillEngine,
    after: FillEngine,
    order: MarketOrderRequest,
    book: OrderBook,
    r: Result<FillResult, PolyfillError>,
    fills: Seq<PricedView>,
    left: Seq<Dec>,
    o: Outcome,
)
    requires
        before.market_order_fits(order, book),
        after.has_executed_market_order(before, order, book, r),
        r is Ok,
        is_trace(
            fills,
            left,
            level_views(other_side(book, order.side)),
            order.amount@,
            before.terms().fee_rate_bps,
        ),
        comes_to(fills, order.side, o),
        o.size.0 != 0,
    ensures
        ({
            let res = r->Ok_0;
            let rejected = dec_lt(before.terms().max_slippage_pct, o.pct);
            let unfilled = left.last().0 != 0 && dec_lt(o.size, before.terms().min_fill_size);
            &&& res.status is Rejected <==> rejected
            &&& res.status is Unfilled <==> !rejected && unfilled
            &&& rejected || unfilled ==> nothing_done(before, after, res)
            &&& !rejected && !unfilled ==> {
                &&& res.status is Filled <==> left.last().0 == 0
                &&& res.status is Partial <==> left.last().0 != 0
                &&& res.fills@.len() == fills.len()
                &&& forall|i: int|
                    0 <= i < fills.len() ==> tells(
                        #[trigger] res.fills@[i],
                        res.order_id@,
                        order.token_id@,
                        order.side,
                        fills[i],
                    )
                &&& res.total_size@ == o.size
                &&& res.total_cost@ == o.cost
                &&& decimal_quotient(res.total_cost@, res.total_size@) == Some(res.average_price@)
                &&& sum_of(fill_fees(fills)) == Some(res.fees@)
            }
        }),
{
    lemma_trace_settles_quote(
        before.terms(),
        order.side,
        order.amount@,
        level_views(other_side(book, order.side)),
        fills,
        left,
        o,
    );
}

/// A market order can be executed if it is refused, if the other side of the book is empty, or if
/// the numbers of a trace can be computed; the average price and the fees only count where the
/// order is neither rejected nor unfilled.
pub proof fn lemma_market_order_can_be_executed(
    engine: FillEngine,
    order: MarketOrderRequest,
    book: OrderBook,
    fills: Seq<PricedView>,
    left: Seq<Dec>,
    o: Outcome,
)
    requires
        ({
            ||| order.amount@.0 == 0
            ||| dec_lt(order.amount@, engine.terms().min_fill_size)
            ||| other_side(book, order.side).len() == 0
            ||| {
                &&& is_trace(
                    fills,
                    left,
                    level_views(other_side(book, order.side)),
                    order.amount@,
                    engine.terms().fee_rate_bps,
                )
                &&& comes_to(fills, order.side, o)
                &&& o.size.0 != 0
                &&& {
                    ||| dec_lt(engine.terms().max_slippage_pct, o.pct)
                    ||| left.last().0 != 0 && dec_lt(o.size, engine.terms().min_fill_size)
                    ||| decimal_quotient(o.cost, o.size) is Some && sum_of(
                        fill_fees(fills),
                    ) is Some
                }
            }
        }),
    ensures
        engine.market_order_fits(order, book),
{
    if order.amount@.0 != 0 && !dec_lt(order.amount@, engine.terms().min_fill_size) && other_side(
        book,
        order.side,
    ).len() > 0 {
        lemma_trace_settles_quote(
            engine.terms(),
            order.side,
            order.amount@,
            level_views(other_side(book, order.side)),
            fills,
            left,
            o,
        );
    }
}

proof fn lemma_offered(levels: Seq<BookLevel>, scale: nat)
    ensures
        offered(levels, scale) == depth_at(level_views(levels), scale),
    decreases levels.len(),
{
    if levels.len() > 0 {
        lemma_offered(levels.drop_last(), scale);
        assert(level_sizes(level_views(levels)).drop_last() =~= level_sizes(
            level_views(levels.drop_last()),
        ));
    }
}

proof fn lemma_filled(events: Seq<FillEvent>, fills: Seq<PricedView>, scale: nat, price_scale: nat)
    requires
        events.len() == fills.len(),
        forall|i: int|
            0 <= i < fills.len() ==> (#[trigger] events[i]).size@ == fills[i].size
                && events[i].price@ == fills[i].price,
    ensures
        filled(events, scale) == total_at(fill_sizes(fills), scale),
        spent(events, scale, price_scale) == cost_at(fills, scale, price_scale),
    decreases fills.len(),
{
    if fills.len() > 0 {
        let (e, f) = (events.drop_last(), fills.drop_last());
        assert forall|i: int| 0 <= i < f.len() implies (#[trigger] e[i]).size@ == f[i].size
            && e[i].price@ == f[i].price by {
            assert(e[i] == events[i]);
        }
        lemma_filled(e, f, scale, price_scale);
        assert(fill_sizes(fills).drop_last() =~= fill_sizes(f));
        assert(events[events.len() - 1].size@ == fills[fills.len() - 1].size);
    }
}

/// A market order trades with all that the other side of the book offers. Unless it is rejected,
/// it is `Filled` exactly if all asks together (all bids for one that sells) have the amount, and
/// then the amount is filled; otherwise all that they have is filled, if it is the minimum or
/// more, and nothing if it is less. The first fills take their levels whole, at their prices.
pub proof fn lemma_market_order_takes_what_is_offered(
    before: FillEngine,
    after: FillEngine,
    order: MarketOrderRequest,
    book: OrderBook,
    r: Result<FillResult, PolyfillError>,
    scale: nat,
)
    requires
        before.market_order_fits(order, book),
        after.has_executed_market_order(before, order, book, r),
        r is Ok,
        r->Ok_0.status !is Rejected,
        scale <= 28,
        0 < order.amount@.0,
        order.amount@.1 <= scale,
        fits(at_scale(order.amount@, scale)),
        forall|i: int|
            0 <= i < other_side(book, order.side).len() ==> 0 <= (#[trigger] other_side(
                book,
                order.side,
            )[i]).size@.0 && other_side(book, order.side)[i].size@.1 <= scale,
    ensures
        ({
            let res = r->Ok_0;
            let levels = other_side(book, order.side);
            let wanted = at_scale(order.amount@, scale);
            let there = offered(levels, scale);
            &&& res.status is Filled <==> wanted <= there
            &&& res.status is Partial <==> there < wanted && levels.len() > 0 && !dec_lt(
                (there, scale),
                before.terms().min_fill_size,
            )
            &&& res.status is Filled ==> at_scale(res.total_size@, scale) == wanted
            &&& res.status is Partial ==> at_scale(res.total_size@, scale) == there
            &&& res.status is Unfilled ==> nothing_done(before, after, res)
            &&& res.status !is Unfilled ==> filled(res.fills@, scale) == at_scale(
                res.total_size@,
                scale,
            ) && res.total_size@.1 <= scale
            &&& res.fills@.len() <= levels.len()
            &&& forall|i: int|
                0 <= i < res.fills@.len() ==> (#[trigger] res.fills@[i]).price@ == levels[i].price@
            &&& forall|i: int|
                0 <= i < res.fills@.len() - 1 ==> (#[trigger] res.fills@[i]).size@
                    == levels[i].size@
        }),
{
    let res = r->Ok_0;
    let levels = other_side(book, order.side);
    let lv = level_views(levels);
    assert forall|i: int| 0 <= i < lv.len() implies 0 <= (#[trigger] lv[i]).1.0 && lv[i].1.1
        <= scale by {
        assert(lv[i] == levels[i]@);
        assert(0 <= levels[i].size@.0);
    }
    assert(exact_at(lv, order.amount@, scale));
    lemma_offered(levels, scale);
    if levels.len() == 0 {
        lemma_at_scale_twice(order.amount@, scale, scale);
    }
    match market_quote(before.terms(), order.side, order.amount@, lv)->0 {
        QuoteView::Executable { fills, .. } => {
            lemma_filled(res.fills@, fills, scale, 0);
            assert forall|i: int| 0 <= i < res.fills@.len() implies {
                &&& (#[trigger] res.fills@[i]).price@ == levels[i].price@
                &&& i < res.fills@.len() - 1 ==> res.fills@[i].size@ == levels[i].size@
            } by {
                assert(fills[i].price == lv[i].0);
                assert(lv[i] == levels[i]@);
            }
        },
        _ => {},
    }
}

/// The average of prices, weighted by sizes that are not negative, lies within their bounds, and
/// not at a bound that some fill with a size does not meet.
proof fn lemma_cost_within(
    fills: Seq<PricedView>,
    scale: nat,
    price_scale: nat,
    low: int,
    high: int,
)
    requires
        forall|i: int|
            0 <= i < fills.len() ==> {
                &&& 0 <= at_scale((#[trigger] fills[i]).size, scale)
                &&& low <= at_scale(fills[i].price, price_scale) <= high
            },
    ensures
        low * total_at(fill_sizes(fills), scale) <= cost_at(fills, scale, price_scale),
        cost_at(fills, scale, price_scale) <= high * total_at(fill_sizes(fills), scale),
        0 <= total_at(fill_sizes(fills), scale),
        (exists|i: int|
            0 <= i < fills.len() && 0 < at_scale((#[trigger] fills[i]).size, scale) && at_scale(
                fills[i].price,
                price_scale,
            ) < high) ==> cost_at(fills, scale, price_scale) < high * total_at(
            fill_sizes(fills),
            scale,
        ),
        (exists|i: int|
            0 <= i < fills.len() && 0 < at_scale((#[trigger] fills[i]).size, scale) && low
                < at_scale(fills[i].price, price_scale)) ==> low * total_at(
            fill_sizes(fills),
            scale,
        ) < cost_at(fills, scale, price_scale),
    decreases fills.len(),
{
    if fills.len() == 0 {
        assert(low * 0 == 0 && high * 0 == 0);
    } else {
        let front = fills.drop_last();
        let last = fills.len() - 1;
        assert forall|i: int| 0 <= i < front.len() implies (#[trigger] front[i]) == fills[i] by {}
        lemma_cost_within(front, scale, price_scale, low, high);
        assert(fill_sizes(fills).drop_last() =~= fill_sizes(front));
        let t = total_at(fill_sizes(front), scale);
        let (a, p) = (at_scale(fills[last].size, scale), at_scale(fills[last].price, price_scale));
        assert(low * a <= a * p <= high * a) by (nonlinear_arith)
            requires
                0 <= a,
                low <= p <= high,
        ;
        assert(0 < a && p < high ==> a * p < high * a) by (nonlinear_arith);
        assert(0 < a && low < p ==> low * a < a * p) by (nonlinear_arith);
        assert(low * (t + a) == low * t + low * a) by (nonlinear_arith);
        assert(high * (t + a) == high * t + high * a) by (nonlinear_arith);
        if exists|i: int|
            0 <= i < fills.len() && 0 < at_scale((#[trigger] fills[i]).size, scale) && at_scale(
                fills[i].price,
                price_scale,
            ) < high {
            let i = choose|i: int|
                0 <= i < fills.len() && 0 < at_scale((#[trigger] fills[i]).size, scale)
                    && at_scale(fills[i].price, price_scale) < high;
            if i < last {
                assert(front[i] == fills[i]);
            }
        }
        if exists|i: int|
            0 <= i < fills.len() && 0 < at_scale((#[trigger] fills[i]).size, scale) && low
                < at_scale(fills[i].price, price_scale) {
            let i = choose|i: int|
                0 <= i < fills.len() && 0 < at_scale((#[trigger] fills[i]).size, scale) && low
                    < at_scale(fills[i].price, price_scale);
            if i < last {
                assert(front[i] == fills[i]);
            }
        }
    }
}

/// What a market order costs is the sum of size times price over its fills. Where the mantissas
/// divide evenly, its average price times its size is its cost, and the average price is neither
/// below every price of the fills nor above every one: it lies within any bounds of the prices,
/// and not at a bound that some fill with a size does not meet.
pub proof fn lemma_market_order_average(
    before: FillEngine,
    after: FillEngine,
    order: MarketOrderRequest,
    book: OrderBook,
    r: Result<FillResult, PolyfillError>,
    scale: nat,
    price_scale: nat,
    top: int,
    low: int,
    high: int,
)
    requires
        before.market_order_fits(order, book),
        after.has_executed_market_order(before, order, book, r),
        r is Ok,
        r->Ok_0.fills@.len() > 0,
        scale + price_scale <= 28,
        0 < order.amount@.0,
        order.amount@.1 <= scale,
        0 <= top,
        fits(at_scale(order.amount@, scale)),
        fits(at_scale(order.amount@, scale) * top),
        forall|i: int|
            0 <= i < other_side(book, order.side).len() ==> {
                let level = #[trigger] other_side(book, order.side)[i];
                &&& 0 <= level.size@.0
                &&& level.size@.1 <= scale
                &&& 0 <= level.price@.0
                &&& level.price@.1 <= price_scale
                &&& at_scale(level.price@, price_scale) <= top
            },
        forall|i: int|
            0 <= i < r->Ok_0.fills@.len() ==> low <= at_scale(
                (#[trigger] r->Ok_0.fills@[i]).price@,
                price_scale,
            ) <= high,
    ensures
        ({
            let res = r->Ok_0;
            let (c, z, a) = (res.total_cost@, res.total_size@, res.average_price@);
            &&& c.1 <= scale + price_scale
            &&& at_scale(c, scale + price_scale) == spent(res.fills@, scale, price_scale)
            &&& z.0 != 0 ==> decimal_quotient(c, z) == Some(a)
            &&& z.0 != 0 && c.0 % z.0 == 0 && c.1 >= z.1 ==> {
                &&& dec_same((a.0 * z.0, a.1 + z.1), c)
                &&& !dec_lt(a, (low, price_scale))
                &&& !dec_lt((high, price_scale), a)
                &&& (exists|i: int|
                    0 <= i < res.fills@.len() && 0 < (#[trigger] res.fills@[i]).size@.0 && at_scale(
                        res.fills@[i].price@,
                        price_scale,
                    ) < high) ==> dec_lt(a, (high, price_scale))
                &&& (exists|i: int|
                    0 <= i < res.fills@.len() && 0 < (#[trigger] res.fills@[i]).size@.0 && low
                        < at_scale(res.fills@[i].price@, price_scale)) ==> dec_lt(
                    (low, price_scale),
                    a,
                )
            }
        }),
{
    let res = r->Ok_0;
    let lv = level_views(other_side(book, order.side));
    let (c, z, a) = (res.total_cost@, res.total_size@, res.average_price@);
    let quote = market_quote(before.terms(), order.side, order.amount@, lv)->0;
    assert forall|i: int| 0 <= i < lv.len() implies (#[trigger] lv[i]) == other_side(
        book,
        order.side,
    )[i]@ by {}
    assert(exact_at(lv, order.amount@, scale));
    assert(exact_prices(lv, order.amount@, scale, price_scale, top));
    match quote {
        QuoteView::Executable { fills, .. } => {
            lemma_filled(res.fills@, fills, scale, price_scale);
            assert forall|i: int| 0 <= i < fills.len() implies {
                &&& 0 <= at_scale((#[trigger] fills[i]).size, scale)
                &&& low <= at_scale(fills[i].price, price_scale) <= high
            } by {
                assert(fills[i].price == lv[i].0);
                assert(res.fills@[i].price@ == fills[i].price);
            }
            lemma_cost_within(fills, scale, price_scale, low, high);
            if exists|i: int|
                0 <= i < res.fills@.len() && 0 < (#[trigger] res.fills@[i]).size@.0 && at_scale(
                    res.fills@[i].price@,
                    price_scale,
                ) < high {
                let i = choose|i: int|
                    0 <= i < res.fills@.len() && 0 < (#[trigger] res.fills@[i]).size@.0
                        && at_scale(res.fills@[i].price@, price_scale) < high;
                assert(fills[i].price == lv[i].0);
                lemma_at_scale_twice(fills[i].size, scale, scale);
            }
            if exists|i: int|
                0 <= i < res.fills@.len() && 0 < (#[trigger] res.fills@[i]).size@.0 && low
                    < at_scale(res.fills@[i].price@, price_scale) {
                let i = choose|i: int|
                    0 <= i < res.fills@.len() && 0 < (#[trigger] res.fills@[i]).size@.0 && low
                        < at_scale(res.fills@[i].price@, price_scale);
                assert(fills[i].price == lv[i].0);
                lemma_at_scale_twice(fills[i].size, scale, scale);
            }
            if z.0 != 0 && c.0 % z.0 == 0 && c.1 >= z.1 {
                lemma_average_within(a, c, z, scale, price_scale, low, high);
            }
        },
        _ => {},
    }
}

/// A cost between two prices for each of a size has an average between the prices.
proof fn lemma_average_within(
    a: Dec,
    c: Dec,
    z: Dec,
    scale: nat,
    price_scale: nat,
    low: int,
    high: int,
)
    requires
        z.0 != 0,
        dec_same((a.0 * z.0, a.1 + z.1), c),
        c.1 <= scale + price_scale,
        z.1 <= scale,
        0 <= at_scale(z, scale),
        low * at_scale(z, scale) <= at_scale(c, scale + price_scale) <= high * at_scale(z, scale),
    ensures
        !dec_lt(a, (low, price_scale)),
        !dec_lt((high, price_scale), a),
        at_scale(c, scale + price_scale) < high * at_scale(z, scale) ==> dec_lt(
            a,
            (high, price_scale),
        ),
        low * at_scale(z, scale) < at_scale(c, scale + price_scale) ==> dec_lt(
            (low, price_scale),
            a,
        ),
{
    let (s, p) = (scale, price_scale);
    let t = p + a.1;
    // With `t` digits for the prices and `s` for the size, the cost has `t + s`.
    lemma_product_at_scale(a, z, t, s);
    lemma_same_at_scale((a.0 * z.0, a.1 + z.1), c, t + s);
    lemma_at_scale_twice(c, s + p, t + s);
    lemma_lt_at_scale(a, (low, p), t);
    lemma_lt_at_scale((low, p), a, t);
    lemma_lt_at_scale(a, (high, p), t);
    lemma_lt_at_scale((high, p), a, t);
    lemma_pow_positive(10, (t - p) as nat);
    lemma_nonzero_at_scale(z, s);
    let (q, zs, cs, w) = (at_scale(a, t), at_scale(z, s), at_scale(c, s + p), pow(
        10,
        (t - p) as nat,
    ));
    assert((t + s - (s + p)) as nat == (t - p) as nat);
    assert(q * zs == cs * w);
    assert(low * w <= q <= high * w) by (nonlinear_arith)
        requires
            q * zs == cs * w,
            low * zs <= cs <= high * zs,
            zs > 0,
            w > 0,
    {
        assert((low * zs) * w <= cs * w <= (high * zs) * w);
        assert((low * w) * zs == (low * zs) * w);
        assert((high * w) * zs == (high * zs) * w);
    }
    assert(cs < high * zs ==> q < high * w) by (nonlinear_arith)
        requires
            q * zs == cs * w,
            zs > 0,
            w > 0,
    {
        if cs < high * zs {
            assert(cs * w < (high * zs) * w);
            assert((high * w) * zs == (high * zs) * w);
        }
    }
    assert(low * zs < cs ==> low * w < q) by (nonlinear_arith)
        requires
            q * zs == cs * w,
            zs > 0,
            w > 0,
    {
        if low * zs < cs {
            assert((low * zs) * w < cs * w);
            assert((low * w) * zs == (low * zs) * w);
        }
    }
}

/// The size of fills and what they cost, each price and each size written with as many digits as
/// there can be.
proof fn lemma_exact_cost(fills: Seq<PricedView>)
    requires
        valid_trades(fills),
    ensures
        total_at(exact_costs(fills), 2 * MAX_SCALE as nat) == cost_at(
            fills,
            MAX_SCALE as nat,
            MAX_SCALE as nat,
        ),
    decreases fills.len(),
{
    if fills.len() > 0 {
        let front = fills.drop_last();
        let last = fills[fills.len() - 1];
        let h = MAX_SCALE as nat;
        assert forall|i: int| 0 <= i < front.len() implies dec_valid(
            (#[trigger] front[i]).price,
        ) && dec_valid(front[i].size) by {
            assert(front[i] == fills[i]);
        }
        lemma_exact_cost(front);
        assert(exact_costs(fills).drop_last() =~= exact_costs(front));
        assert(dec_valid(last.price) && dec_valid(last.size));
        lemma_product_at_scale(last.price, last.size, h, h);
        let (x, y) = (at_scale(last.price, h), at_scale(last.size, h));
        assert(x * y == y * x) by (nonlinear_arith);
    }
}

/// How much worse a price is, in products of mantissas: `c` is the cost and `z` the size that the
/// executed price is the quotient of, and `p` the first price.
proof fn lemma_pct_exceeds(
    first: Dec,
    average: Dec,
    side: Side,
    cost: Dec,
    size: Dec,
    max: Dec,
    pct: Dec,
)
    requires
        unrounded_pct(first, average, side),
        slippage_pct(first, average, side) == Some(pct),
        is_quotient(average, cost, size),
        cost.1 <= 2 * MAX_SCALE,
        size.1 <= MAX_SCALE,
        first.1 <= MAX_SCALE,
        0 < first.0,
        0 < at_scale(size, MAX_SCALE as nat),
    ensures
        ({
            let c = at_scale(cost, 2 * MAX_SCALE as nat);
            let z = at_scale(size, MAX_SCALE as nat);
            let p = at_scale(first, MAX_SCALE as nat);
            let worse = match side {
                Side::BUY => c - p * z,
                Side::SELL => p * z - c,
            };
            dec_lt(max, pct) <==> max.0 < 0 || max.0 * (p * z) < worse * 100 * pow(10, max.1)
        }),
{
    let (h, f) = (MAX_SCALE as nat, 2 * MAX_SCALE as nat);
    let gap = price_gap(first, average, side)->0;
    let share = decimal_quotient(gap, first)->0;
    let t = f + average.1 + gap.1 + share.1 + pct.1 + max.1;
    let (c, z, p) = (at_scale(cost, f), at_scale(size, h), at_scale(first, h));
    let (ct, zt, pt, qt) = (
        at_scale(cost, t),
        at_scale(size, t),
        at_scale(first, t),
        at_scale(average, t),
    );
    let (x, y, w, e, u) = (
        pow(10, (t - h) as nat),
        pow(10, (t - f) as nat),
        pow(10, t),
        pow(10, (t - max.1) as nat),
        pow(10, max.1),
    );
    let d = match side {
        Side::BUY => c - p * z,
        Side::SELL => p * z - c,
    };
    lemma_pow_positive(10, (t - h) as nat);
    lemma_pow_positive(10, (t - f) as nat);
    lemma_pow_positive(10, t);
    lemma_pow_positive(10, (t - max.1) as nat);
    lemma_pow_positive(10, max.1);
    lemma_pow_adds(10, h, (t - h) as nat);
    lemma_pow_adds(10, h, (t - f) as nat);
    lemma_pow_adds(10, max.1, (t - max.1) as nat);
    assert((h + (t - f)) as nat == (t - h) as nat);
    lemma_quotient_at_scale(average, cost, size, t);
    lemma_at_scale_twice(cost, f, t);
    lemma_at_scale_twice(size, h, t);
    lemma_at_scale_twice(first, h, t);
    lemma_at_scale_twice(first, t, t);
    let k = pow(10, h);
    assert(ct == c * y && zt == z * x && pt == p * x && w == k * x && x == k * y);
    assert(zt > 0) by (nonlinear_arith)
        requires
            zt == z * x,
            z > 0,
            x > 0,
    ;
    assert(qt * zt == c * (x * x)) by {
        assert(qt * zt == ct * w);
        assert((c * y) * (k * x) == c * ((k * y) * x)) by (nonlinear_arith);
    }
    assert(pt * zt == (p * z) * (x * x)) by (nonlinear_arith)
        requires
            zt == z * x,
            pt == p * x,
    ;
    let xx = x * x;
    assert(xx > 0) by (nonlinear_arith)
        requires
            x > 0,
            xx == x * x,
    ;
    let gt = match side {
        Side::BUY => qt - pt,
        Side::SELL => pt - qt,
    };
    assert(gt * zt == d * xx) by {
        assert((qt - pt) * zt == qt * zt - pt * zt) by (nonlinear_arith);
        assert((pt - qt) * zt == pt * zt - qt * zt) by (nonlinear_arith);
        assert((c - p * z) * xx == c * xx - (p * z) * xx) by (nonlinear_arith);
        assert((p * z - c) * xx == (p * z) * xx - c * xx) by (nonlinear_arith);
    }
    assert((gt > 0) == (d > 0)) by (nonlinear_arith)
        requires
            gt * zt == d * xx,
            zt > 0,
            xx > 0,
    ;
    lemma_lt_at_scale(first, average, t);
    lemma_lt_at_scale(average, first, t);
    assert(p * z > 0) by (nonlinear_arith)
        requires
            pt * zt == (p * z) * xx,
            pt > 0,
            zt > 0,
            xx > 0,
    ;
    let pz = p * z;
    if worse_than(first, average, side) {
        lemma_difference_at_scale(average, first, t);
        lemma_difference_at_scale(first, average, t);
        lemma_same_at_scale(gap, exact_gap(first, average, side), t);
        lemma_quotient_at_scale(share, gap, first, t);
        lemma_product_at_scale(share, (100, 0), t, 0);
        lemma_pow0(10);
        lemma_same_at_scale(pct, (share.0 * 100, share.1), t);
        lemma_lt_at_scale(max, pct, t);
        let (st, kt, mt) = (at_scale(share, t), at_scale(pct, t), at_scale(max, t));
        assert(at_scale((100int, 0nat), 0) == 100);
        assert(kt == st * 100);
        assert(st * pt == gt * w);
        assert(mt == max.0 * e);
        let m = max.0;
        assert(w == u * e);
        // Both sides times the positive `pt * zt`.
        assert((mt < kt) == (mt * (pt * zt) < kt * (pt * zt))) by (nonlinear_arith)
            requires
                pt > 0,
                zt > 0,
        ;
        assert(kt * (pt * zt) == (d * 100 * u) * (e * xx)) by {
            assert((st * 100) * (pt * zt) == ((st * pt) * zt) * 100) by (nonlinear_arith);
            assert((gt * w) * zt == (gt * zt) * w) by (nonlinear_arith);
            assert(((d * xx) * (u * e)) * 100 == (d * 100 * u) * (e * xx)) by (nonlinear_arith);
        }
        assert(mt * (pt * zt) == (m * pz) * (e * xx)) by {
            assert((m * e) * (pz * xx) == (m * pz) * (e * xx)) by (nonlinear_arith);
        }
        let ex = e * xx;
        assert(ex > 0) by (nonlinear_arith)
            requires
                ex == e * xx,
                e > 0,
                xx > 0,
        ;
        let (left, right) = (m * pz, d * 100 * u);
        assert((left < right) == (left * ex < right * ex)) by (nonlinear_arith)
            requires
                ex > 0,
        ;
        assert(m < 0 ==> left < right) by (nonlinear_arith)
            requires
                left == m * pz,
                right == d * 100 * u,
                pz > 0,
                d > 0,
                u > 0,
        ;
    } else {
        lemma_pow0(10);
        let m = max.0;
        assert(0 * u == 0);
        assert(dec_lt(max, pct) == (m < 0));
        let (left, right) = (m * pz, d * 100 * u);
        assert(m >= 0 ==> left >= right) by (nonlinear_arith)
            requires
                left == m * pz,
                right == d * 100 * u,
                pz > 0,
                d <= 0,
                u > 0,
        ;
    }
}

/// A market order is rejected exactly if the average price of its fills is worse than the price of
/// the first one, dearer for an order that buys and cheaper for one that sells, by more than the
/// tolerated per cent of that price. With `c` for what the fills cost, `z` for their size and `p`
/// for the first price, that is `(c - p * z) * 100 > max * p * z` for an order that buys and
/// `(p * z - c) * 100 > max * p * z` for one that sells. This holds where no number is rounded on
/// the way; a negative tolerance rejects every order.
pub proof fn lemma_market_order_rejected_for_price(
    before: FillEngine,
    after: FillEngine,
    order: MarketOrderRequest,
    book: OrderBook,
    r: Result<FillResult, PolyfillError>,
    fills: Seq<PricedView>,
    left: Seq<Dec>,
    o: Outcome,
)
    requires
        before.market_order_fits(order, book),
        after.has_executed_market_order(before, order, book, r),
        r is Ok,
        is_trace(
            fills,
            left,
            level_views(other_side(book, order.side)),
            order.amount@,
            before.terms().fee_rate_bps,
        ),
        comes_to(fills, order.side, o),
        o.size.0 != 0,
        valid_trades(fills),
        unrounded(order.side, fills),
        0 < fills[0].price.0,
        0 < total_at(fill_sizes(fills), 28),
    ensures
        ({
            let c = cost_at(fills, 28, 28);
            let z = total_at(fill_sizes(fills), 28);
            let p = at_scale(fills[0].price, 28);
            let max = before.terms().max_slippage_pct;
            let worse = if order.side == Side::BUY {
                c - p * z
            } else {
                p * z - c
            };
            r->Ok_0.status is Rejected <==> max.0 < 0 || max.0 * (p * z) < worse * 100 * pow(
                10,
                max.1,
            )
        }),
{
    lemma_market_order_outcome(before, after, order, book, r, fills, left, o);
    lemma_slippage_of_fills(fills, order.side, o.size, o.paid, o.average, o.pct);
    lemma_slippage_of_average(order.side, fills);
    lemma_exact_cost(fills);
    assert(dec_valid(fills[0].price));
    lemma_pct_exceeds(
        fills[0].price,
        average(fills),
        order.side,
        sum_of_all(costs_of(fills))->0,
        sum_of(fill_sizes(fills))->0,
        before.terms().max_slippage_pct,
        o.pct,
    );
}

/// The price of a level is as good for an order as its own price: no dearer if it buys, no cheaper
/// if it sells.
pub open spec fn is_as_good(level: BookLevel, side: Side, price: Dec) -> bool {
    &&& side == Side::BUY ==> !dec_lt(price, level.price@)
    &&& side == Side::SELL ==> !dec_lt(level.price@, price)
}

/// A limit order is refused exactly if it has no size, no price or less than the minimum; a refused
/// order changes nothing.
pub proof fn lemma_limit_order_refused(
    before: FillEngine,
    after: FillEngine,
    order: OrderRequest,
    book: OrderBook,
    r: Result<FillResult, PolyfillError>,
)
    requires
        after.has_executed_limit_order(before, order, book, r),
    ensures
        r is Ok <==> order.size@.0 != 0 && order.price@.0 != 0 && !dec_lt(
            order.size@,
            before.terms().min_fill_size,
        ),
        r is Err && order.size@.0 == 0 ==> r->Err_0@ == (
            OrderErrorKind::InvalidSize,
            "Limit order size cannot be zero"@,
        ),
        r is Err && order.size@.0 != 0 && order.price@.0 == 0 ==> r->Err_0@ == (
            OrderErrorKind::InvalidPrice,
            "Limit order price cannot be zero"@,
        ),
        r is Err && order.size@.0 != 0 && order.price@.0 != 0 ==> r->Err_0@ == (
            OrderErrorKind::SizeConstraint,
            "Order size "@ + dec_text(order.size@) + " below minimum "@ + dec_text(
                before.terms().min_fill_size,
            ),
        ),
        r is Err ==> after.recorded() == before.recorded(),
        after.terms() == before.terms(),
{
}

/// An accepted limit order is filled exactly if some level of the other side of the book is as good
/// as its price. It is then filled whole, in one fill at its own price, for price times size and
/// the fee on that, and recorded; otherwise nothing happens.
pub proof fn lemma_limit_order_outcome(
    before: FillEngine,
    after: FillEngine,
    order: OrderRequest,
    book: OrderBook,
    r: Result<FillResult, PolyfillError>,
    other: Seq<char>,
)
    requires
        book.best_first(),
        before.limit_order_fits(order, book),
        after.has_executed_limit_order(before, order, book, r),
        r is Ok,
    ensures
        ({
            let res = r->Ok_0;
            let good = exists|i: int|
                0 <= i < other_side(book, order.side).len() && is_as_good(
                    #[trigger] other_side(book, order.side)[i],
                    order.side,
                    order.price@,
                );
            &&& order.client_id matches Some(id) ==> res.order_id@ == id@
            &&& order.client_id is None ==> res.order_id@ == "limit_order"@
            &&& res.timestamp.nanos < 1_000_000_000
            &&& good ==> {
                &&& res.status is Filled
                &&& res.fills@.len() == 1
                &&& is_random_uuid(res.fills@[0].id@)
                &&& res.fills@[0].timestamp.nanos < 1_000_000_000
                &&& res.fills@[0].order_id@ == res.order_id@
                &&& res.fills@[0].token_id@ == order.token_id@
                &&& res.fills@[0].side == order.side
                &&& res.fills@[0].price@ == order.price@
                &&& res.fills@[0].size@ == order.size@
                &&& forall|k: int|
                    0 <= k < 20 ==> #[trigger] res.fills@[0].maker_address.bytes@[k] == 0
                &&& forall|k: int|
                    0 <= k < 20 ==> #[trigger] res.fills@[0].taker_address.bytes@[k] == 0
                &&& res.total_size@ == order.size@
                &&& res.average_price@ == order.price@
                &&& decimal_product(order.price@, order.size@) == Some(res.total_cost@)
                &&& decimal_product(
                    res.total_cost@,
                    (before.terms().fee_rate_bps as int, 0),
                ) matches Some(product) && decimal_quotient(product, (10_000, 0)) == Some(
                    res.fees@,
                )
                &&& res.fills@[0].fee@ == res.fees@
                &&& after.recorded().contains_key(res.order_id@)
                &&& after.recorded()[res.order_id@] == res.fills@
            }
            &&& !good ==> res.status is Unfilled && nothing_done(before, after, res)
            &&& other != res.order_id@ ==> after.recorded().contains_key(other)
                == before.recorded().contains_key(other)
            &&& other != res.order_id@ && before.recorded().contains_key(other)
                ==> after.recorded()[other] == before.recorded()[other]
        }),
{
    lemma_crosses_if_some_level_does(book, order.side, order.price@);
    let levels = other_side(book, order.side);
    let crossed = crosses(book, order.side, order.price@);
    assert(crossed == exists|i: int|
        0 <= i < levels.len() && is_as_good(#[trigger] levels[i], order.side, order.price@)) by {
        if crossed {
            assert(is_as_good(levels[0], order.side, order.price@));
        }
        if exists|i: int|
            0 <= i < levels.len() && is_as_good(#[trigger] levels[i], order.side, order.price@) {
            let i = choose|i: int|
                0 <= i < levels.len() && is_as_good(
                    #[trigger] levels[i],
                    order.side,
                    order.price@,
                );
            match order.side {
                Side::BUY => assert(!dec_lt(order.price@, book.ask_levels()[i].price@)),
                Side::SELL => assert(!dec_lt(book.bid_levels()[i].price@, order.price@)),
            }
        }
    }
    if crossed {
        assert(tells(
            r->Ok_0.fills@[0],
            r->Ok_0.order_id@,
            order.token_id@,
            order.side,
            PricedView {
                price: order.price@,
                size: order.size@,
                fee: r->Ok_0.fees@,
            },
        ));
    }
}

/// A limit order can be executed if it is refused, if no level is as good as its price, or if its
/// cost and the fee on that can be computed.
pub proof fn lemma_limit_order_can_be_executed(
    engine: FillEngine,
    order: OrderRequest,
    book: OrderBook,
)
    requires
        book.best_first(),
        ({
            ||| order.size@.0 == 0
            ||| order.price@.0 == 0
            ||| dec_lt(order.size@, engine.terms().min_fill_size)
            ||| order.side == Side::BUY && forall|i: int|
                0 <= i < book.ask_levels().len() ==> dec_lt(
                    order.price@,
                    (#[trigger] book.ask_levels()[i]).price@,
                )
            ||| order.side == Side::SELL && forall|i: int|
                0 <= i < book.bid_levels().len() ==> dec_lt(
                    (#[trigger] book.bid_levels()[i]).price@,
                    order.price@,
                )
            ||| decimal_product(order.price@, order.size@) matches Some(cost)
                && decimal_product(cost, (engine.terms().fee_rate_bps as int, 0)) matches Some(
                product,
            ) && decimal_quotient(product, (10_000, 0)) is Some
        }),
    ensures
        engine.limit_order_fits(order, book),
{
    lemma_crosses_if_some_level_does(book, order.side, order.price@);
}

/// A settled order has the fills of its quote, each with the id and the time of its stamp, and the
/// totals that were quoted; without a quote to execute it has none, and is rejected for too much
/// slippage and unfilled otherwise.
pub proof fn lemma_settled_as_quoted(
    res: FillResult,
    order_id: Seq<char>,
    token_id: Seq<char>,
    side: Side,
    quote: QuoteView,
    stamps: Seq<FillStamp>,
    i: int,
)
    requires
        is_result_of(res, order_id, token_id, side, quote),
        stamped(res.fills@, stamps),
    ensures
        res.order_id@ == order_id,
        quote is NoLiquidity ==> res.status is Unfilled,
        quote is SlippageExceeded ==> res.status is Rejected,
        quote !is Executable ==> res.fills@.len() == 0 && res.total_size@ == (0int, 0nat)
            && res.average_price@ == (0int, 0nat) && res.total_cost@ == (0int, 0nat) && res.fees@
            == (0int, 0nat),
        quote matches QuoteView::Executable {
            fills,
            total_size,
            average_price,
            total_cost,
            fees,
            status,
        } ==> {
            &&& res.fills@.len() == fills.len()
            &&& 0 <= i < fills.len() ==> tells(
                res.fills@[i],
                order_id,
                token_id,
                side,
                fills[i],
            ) && res.fills@[i].id@ == stamps[i].id@ && res.fills@[i].timestamp
                == stamps[i].timestamp
            &&& res.total_size@ == total_size
            &&& res.average_price@ == average_price
            &&& res.total_cost@ == total_cost
            &&& res.fees@ == fees
            &&& res.status == status
        },
{
}

/// The fees of fills together, with `scale` digits after the point.
pub open spec fn charged(fills: Seq<FillEvent>, scale: nat) -> int
    decreases fills.len(),
{
    if fills.len() == 0 {
        0
    } else {
        fills.last().fee@.0 * pow(10, (scale - fills.last().fee@.1) as nat) + charged(
            fills.drop_last(),
            scale,
        )
    }
}

proof fn lemma_added_up(fills: Seq<FillEvent>, scale: nat)
    ensures
        filled(fills, scale) == total_at(sizes(fills), scale),
        charged(fills, scale) == total_at(fees(fills), scale),
    decreases fills.len(),
{
    if fills.len() > 0 {
        lemma_added_up(fills.drop_last(), scale);
        assert(sizes(fills).drop_last() =~= sizes(fills.drop_last()));
        assert(fees(fills).drop_last() =~= fees(fills.drop_last()));
    }
}

/// The size of each fill.
pub open spec fn each_size(fills: Seq<FillEvent>) -> Seq<Dec> {
    Seq::new(fills.len(), |i: int| fills[i].size@)
}

/// The fee of each fill.
pub open spec fn each_fee(fills: Seq<FillEvent>) -> Seq<Dec> {
    Seq::new(fills.len(), |i: int| fills[i].fee@)
}

/// The statistics of an engine can be had exactly if the sizes and the fees of all its fills can be
/// added up, and they are those sums.
pub proof fn lemma_engine_stats_are_sums(engine: FillEngine, stats: FillStats)
    ensures
        engine.totals_fit() <==> sum_of(each_size(all_fills(engine.recorded()))) is Some && sum_of(
            each_fee(all_fills(engine.recorded())),
        ) is Some,
        engine.has_stats(stats) ==> sum_of(each_size(all_fills(engine.recorded()))) == Some(
            stats.total_volume@,
        ) && sum_of(each_fee(all_fills(engine.recorded()))) == Some(stats.total_fees@),
{
    let all = all_fills(engine.recorded());
    assert(sizes(all) =~= each_size(all));
    assert(fees(all) =~= each_fee(all));
}

/// The statistics of a processor can be had exactly if the sizes of its pending and of its
/// processed fills can be added up, and they are those sums.
pub proof fn lemma_processor_stats_are_sums(processor: FillProcessor, stats: FillProcessorStats)
    ensures
        processor.volumes_fit() <==> sum_of(each_size(all_fills(processor.pending()))) is Some
            && sum_of(each_size(processor.processed())) is Some,
        processor.has_stats(stats) ==> sum_of(each_size(all_fills(processor.pending()))) == Some(
            stats.pending_volume@,
        ) && sum_of(each_size(processor.processed())) == Some(stats.processed_volume@),
{
    let (all, done) = (all_fills(processor.pending()), processor.processed());
    assert(sizes(all) =~= each_size(all));
    assert(sizes(done) =~= each_size(done));
}

/// The statistics of an engine count its orders and its fills and add up the size and the fee of
/// every fill, on either side.
pub proof fn lemma_engine_stats_add_up(
    engine: FillEngine,
    stats: FillStats,
    scale: nat,
)
    requires
        engine.wf(),
        engine.has_stats(stats),
        scale <= 28,
    ensures
        ({
            let all = all_fills(engine.recorded());
            &&& stats.total_orders == engine.recorded().dom().len()
            &&& stats.total_fills == all.len()
            &&& (forall|i: int|
                0 <= i < all.len() ==> 0 <= (#[trigger] all[i]).size@.0 && all[i].size@.1 <= scale)
                && fits(filled(all, scale)) ==> stats.total_volume@.1 <= scale && at_scale(
                stats.total_volume@,
                scale,
            ) == filled(all, scale)
            &&& (forall|i: int|
                0 <= i < all.len() ==> 0 <= (#[trigger] all[i]).fee@.0 && all[i].fee@.1 <= scale)
                && fits(charged(all, scale)) ==> stats.total_fees@.1 <= scale && at_scale(
                stats.total_fees@,
                scale,
            ) == charged(all, scale)
        }),
{
    let all = all_fills(engine.recorded());
    lemma_added_up(all, scale);
    if (forall|i: int|
        0 <= i < all.len() ==> 0 <= (#[trigger] all[i]).size@.0 && all[i].size@.1 <= scale) && fits(
        filled(all, scale),
    ) {
        assert forall|i: int| 0 <= i < sizes(all).len() implies 0 <= (#[trigger] sizes(all)[i]).0
            && sizes(all)[i].1 <= scale by {
            assert(0 <= all[i].size@.0);
        }
        assert(summable(sizes(all), scale));
    }
    if (forall|i: int|
        0 <= i < all.len() ==> 0 <= (#[trigger] all[i]).fee@.0 && all[i].fee@.1 <= scale) && fits(
        charged(all, scale),
    ) {
        assert forall|i: int| 0 <= i < fees(all).len() implies 0 <= (#[trigger] fees(all)[i]).0
            && fees(all)[i].1 <= scale by {
            assert(0 <= all[i].fee@.0);
        }
        assert(summable(fees(all), scale));
    }
}

/// The statistics of a processor count its orders and its fills and add up the size of every fill,
/// on either side.
pub proof fn lemma_processor_stats_add_up(
    processor: FillProcessor,
    stats: FillProcessorStats,
    scale: nat,
)
    requires
        processor.wf(),
        processor.has_stats(stats),
        scale <= 28,
    ensures
        ({
            let all = all_fills(processor.pending());
            let done = processor.processed();
            &&& stats.pending_orders == processor.pending().dom().len()
            &&& stats.pending_fills == all.len()
            &&& stats.pending_fills <= processor.limit()
            &&& stats.processed_fills == done.len()
            &&& (forall|i: int|
                0 <= i < all.len() ==> 0 <= (#[trigger] all[i]).size@.0 && all[i].size@.1 <= scale)
                && fits(filled(all, scale)) ==> stats.pending_volume@.1 <= scale && at_scale(
                stats.pending_volume@,
                scale,
            ) == filled(all, scale)
            &&& (forall|i: int|
                0 <= i < done.len() ==> 0 <= (#[trigger] done[i]).size@.0 && done[i].size@.1
                    <= scale) && fits(filled(done, scale)) ==> stats.processed_volume@.1 <= scale
                && at_scale(stats.processed_volume@, scale) == filled(done, scale)
        }),
{
    let all = all_fills(processor.pending());
    let done = processor.processed();
    lemma_added_up(all, scale);
    lemma_added_up(done, scale);
    if (forall|i: int|
        0 <= i < all.len() ==> 0 <= (#[trigger] all[i]).size@.0 && all[i].size@.1 <= scale) && fits(
        filled(all, scale),
    ) {
        assert forall|i: int| 0 <= i < sizes(all).len() implies 0 <= (#[trigger] sizes(all)[i]).0
            && sizes(all)[i].1 <= scale by {
            assert(0 <= all[i].size@.0);
        }
        assert(summable(sizes(all), scale));
    }
    if (forall|i: int|
        0 <= i < done.len() ==> 0 <= (#[trigger] done[i]).size@.0 && done[i].size@.1 <= scale)
        && fits(filled(done, scale)) {
        assert forall|i: int| 0 <= i < sizes(done).len() implies 0 <= (#[trigger] sizes(
            done,
        )[i]).0 && sizes(done)[i].1 <= scale by {
            assert(0 <= done[i].size@.0);
        }
        assert(summable(sizes(done), scale));
    }
}

} // verus!
