//! The steps in which a market order is filled, and what they come to.
//!
//! A trace lists the fills of an order together with what is left of it before each of them and
//! after the last. Every order that can be quoted has a trace, and the trace alone settles the
//! quote.
use crate::decimal::{
    dec_lt, dec_zero, decimal_difference, decimal_product, decimal_quotient, lemma_lt_from,
    lemma_sum_of_prefix, sum_of, Dec,
};
use crate::math::slippage_pct;
use crate::quote::{
    costs_of, fills_slippage, lemma_walk_fills, lemma_walk_stops, market_quote, walk, FillStatus,
    PricedView, QuoteView, Terms, Walk,
};
use crate::types::Side;
use vstd::prelude::*;

verus! {

/// The fee of a fill: what the fill costs, times the rate, divided by the number of basis points
/// in a whole.
pub open spec fn carries_fee(fill: PricedView, fee_rate_bps: u32) -> bool {
    &&& decimal_product(fill.size, fill.price) matches Some(cost)
    &&& decimal_product(cost, (fee_rate_bps as int, 0)) matches Some(product)
    &&& decimal_quotient(product, (10_000, 0)) == Some(fill.fee)
}

/// One fill: all of the level if more than that is left, and otherwise all that is left.
pub open spec fn is_step(
    fill: PricedView,
    before: Dec,
    after: Dec,
    level: (Dec, Dec),
    fee_rate_bps: u32,
) -> bool {
    &&& before.0 != 0
    &&& fill.price == level.0
    &&& dec_lt(level.1, before) ==> fill.size == level.1
    &&& !dec_lt(level.1, before) ==> fill.size == before
    &&& decimal_difference(before, fill.size) == Some(after)
    &&& carries_fee(fill, fee_rate_bps)
}

/// The fills of an amount from these levels, from the first on, until nothing is left of it or the
/// levels come to an end.
pub open spec fn is_trace(
    fills: Seq<PricedView>,
    left: Seq<Dec>,
    levels: Seq<(Dec, Dec)>,
    amount: Dec,
    fee_rate_bps: u32,
) -> bool {
    &&& fills.len() <= levels.len()
    &&& left.len() == fills.len() + 1
    &&& left[0] == amount
    &&& forall|i: int|
        0 <= i < fills.len() ==> is_step(
            #[trigger] fills[i],
            left[i],
            left[i + 1],
            levels[i],
            fee_rate_bps,
        )
    &&& left[fills.len() as int].0 == 0 || fills.len() == levels.len()
}

/// What each fill costs, size times price.
pub open spec fn costs(fills: Seq<PricedView>) -> Seq<Dec> {
    Seq::new(fills.len(), |i: int| decimal_product(fills[i].size, fills[i].price)->0)
}

/// What is paid for each fill, price times size.
pub open spec fn payments(fills: Seq<PricedView>) -> Seq<Dec> {
    Seq::new(fills.len(), |i: int| decimal_product(fills[i].price, fills[i].size)->0)
}

/// What is paid can be computed for each fill.
pub open spec fn has_payments(fills: Seq<PricedView>) -> bool {
    forall|i: int|
        0 <= i < fills.len() ==> decimal_product(
            (#[trigger] fills[i]).price,
            fills[i].size,
        ) is Some
}

/// The sizes of fills.
pub open spec fn fill_amounts(fills: Seq<PricedView>) -> Seq<Dec> {
    Seq::new(fills.len(), |i: int| fills[i].size)
}

/// The fees of fills.
pub open spec fn fill_fees(fills: Seq<PricedView>) -> Seq<Dec> {
    Seq::new(fills.len(), |i: int| fills[i].fee)
}

/// `pct` is by how many per cent of the first price the average price is worse: dearer for an
/// order that buys, cheaper for one that sells. It is zero if the average price is not worse.
pub open spec fn is_slippage(first: Dec, average: Dec, side: Side, pct: Dec) -> bool {
    let worse = match side {
        Side::BUY => dec_lt(first, average),
        Side::SELL => dec_lt(average, first),
    };
    let gap = match side {
        Side::BUY => decimal_difference(average, first),
        Side::SELL => decimal_difference(first, average),
    };
    if worse {
        &&& gap is Some
        &&& decimal_quotient(gap->0, first) matches Some(share)
        &&& decimal_product(share, (100, 0)) == Some(pct)
    } else {
        pct == dec_zero()
    }
}

/// The numbers that a trace comes to.
pub struct Outcome {
    /// What the fills cost
    pub cost: Dec,
    /// The size of the fills
    pub size: Dec,
    /// What is paid for the fills
    pub paid: Dec,
    /// The average price that the slippage goes by
    pub average: Dec,
    /// The slippage in per cent
    pub pct: Dec,
}

/// The fills slip by `pct` per cent: their average price is what is paid for all of them divided by
/// their size, and it is held against the first price.
pub open spec fn slip_by(
    fills: Seq<PricedView>,
    side: Side,
    size: Dec,
    paid: Dec,
    average: Dec,
    pct: Dec,
) -> bool {
    &&& fills.len() > 0
    &&& sum_of(fill_amounts(fills)) == Some(size)
    &&& has_payments(fills)
    &&& sum_of(payments(fills)) == Some(paid)
    &&& decimal_quotient(paid, size) == Some(average)
    &&& is_slippage(fills[0].price, average, side, pct)
}

/// `o` is what a trace comes to.
pub open spec fn comes_to(fills: Seq<PricedView>, side: Side, o: Outcome) -> bool {
    &&& sum_of(costs(fills)) == Some(o.cost)
    &&& slip_by(fills, side, o.size, o.paid, o.average, o.pct)
}

/// The first fills of a trace are those of a walk over as many levels.
proof fn lemma_walk_along(
    fills: Seq<PricedView>,
    left: Seq<Dec>,
    levels: Seq<(Dec, Dec)>,
    amount: Dec,
    fee_rate_bps: u32,
    n: nat,
)
    requires
        is_trace(fills, left, levels, amount, fee_rate_bps),
        sum_of(costs(fills)) is Some,
        sum_of(fill_amounts(fills)) is Some,
        n <= fills.len(),
    ensures
        walk(levels, amount, fee_rate_bps, n) == Some(
            Walk {
                fills: fills.take(n as int),
                total_cost: sum_of(costs(fills).take(n as int))->0,
                total_size: sum_of(fill_amounts(fills).take(n as int))->0,
                remaining: left[n as int],
            },
        ),
        sum_of(costs(fills).take(n as int)) is Some,
        sum_of(fill_amounts(fills).take(n as int)) is Some,
    decreases n,
{
    lemma_sum_of_prefix(costs(fills), n as int);
    lemma_sum_of_prefix(fill_amounts(fills), n as int);
    if n == 0 {
        assert(fills.take(0) =~= Seq::<PricedView>::empty());
    } else {
        let m = n - 1;
        lemma_walk_along(fills, left, levels, amount, fee_rate_bps, m as nat);
        assert(is_step(fills[m], left[m], left[m + 1], levels[m], fee_rate_bps));
        assert(costs(fills).take(n as int).drop_last() =~= costs(fills).take(m));
        assert(fill_amounts(fills).take(n as int).drop_last() =~= fill_amounts(fills).take(m));
        assert(fills.take(n as int) =~= fills.take(m).push(fills[m]));
    }
}

/// A trace is the walk over all levels.
proof fn lemma_walk_of_trace(
    fills: Seq<PricedView>,
    left: Seq<Dec>,
    levels: Seq<(Dec, Dec)>,
    amount: Dec,
    fee_rate_bps: u32,
)
    requires
        is_trace(fills, left, levels, amount, fee_rate_bps),
        sum_of(costs(fills)) is Some,
        sum_of(fill_amounts(fills)) is Some,
    ensures
        walk(levels, amount, fee_rate_bps, levels.len()) == Some(
            Walk {
                fills,
                total_cost: sum_of(costs(fills))->0,
                total_size: sum_of(fill_amounts(fills))->0,
                remaining: left[fills.len() as int],
            },
        ),
{
    let n = fills.len();
    lemma_walk_along(fills, left, levels, amount, fee_rate_bps, n);
    assert(fills.take(n as int) =~= fills);
    assert(costs(fills).take(n as int) =~= costs(fills));
    assert(fill_amounts(fills).take(n as int) =~= fill_amounts(fills));
    if n < levels.len() {
        lemma_walk_stops(levels, amount, fee_rate_bps, n, levels.len());
    }
}

/// Every walk has a trace.
proof fn lemma_trace_of_walk(
    levels: Seq<(Dec, Dec)>,
    amount: Dec,
    fee_rate_bps: u32,
    n: nat,
    w: Walk,
) -> (left: Seq<Dec>)
    requires
        n <= levels.len(),
        walk(levels, amount, fee_rate_bps, n) == Some(w),
    ensures
        is_trace(w.fills, left, levels.take(n as int), amount, fee_rate_bps),
        left[w.fills.len() as int] == w.remaining,
        sum_of(costs(w.fills)) == Some(w.total_cost),
        sum_of(fill_amounts(w.fills)) == Some(w.total_size),
    decreases n,
{
    if n == 0 {
        assert(costs(w.fills) =~= Seq::<Dec>::empty());
        assert(fill_amounts(w.fills) =~= Seq::<Dec>::empty());
        seq![amount]
    } else {
        let m = (n - 1) as nat;
        let before = walk(levels, amount, fee_rate_bps, m)->0;
        let left = lemma_trace_of_walk(levels, amount, fee_rate_bps, m, before);
        lemma_walk_fills(levels, amount, fee_rate_bps, m, before);
        let (l, k) = (levels.take(n as int), before.fills.len() as int);
        assert forall|i: int| 0 <= i < k implies is_step(
            #[trigger] before.fills[i],
            left[i],
            left[i + 1],
            l[i],
            fee_rate_bps,
        ) by {
            assert(levels.take(m as int)[i] == l[i]);
        }
        if before.remaining.0 == 0 {
            left
        } else {
            let next = left.push(w.remaining);
            assert(w.fills =~= before.fills.push(w.fills.last()));
            assert(costs(w.fills).drop_last() =~= costs(before.fills));
            assert(fill_amounts(w.fills).drop_last() =~= fill_amounts(before.fills));
            assert forall|i: int| 0 <= i < w.fills.len() implies is_step(
                #[trigger] w.fills[i],
                next[i],
                next[i + 1],
                l[i],
                fee_rate_bps,
            ) by {
                if i < k {
                    assert(w.fills[i] == before.fills[i]);
                    assert(next[i] == left[i] && next[i + 1] == left[i + 1]);
                } else {
                    assert(l[i] == levels[n - 1]);
                }
            }
            next
        }
    }
}

/// The trace of a market order settles its quote. The order is turned down if its slippage is more
/// than is tolerated. Otherwise nothing comes of it if something is left and less than the minimum
/// was filled. Otherwise it is filled as the trace says, at an average price that is its cost
/// divided by its size.
pub proof fn lemma_trace_settles_quote(
    terms: Terms,
    side: Side,
    amount: Dec,
    levels: Seq<(Dec, Dec)>,
    fills: Seq<PricedView>,
    left: Seq<Dec>,
    o: Outcome,
)
    requires
        is_trace(fills, left, levels, amount, terms.fee_rate_bps),
        comes_to(fills, side, o),
    ensures
        dec_lt(terms.max_slippage_pct, o.pct) ==> market_quote(terms, side, amount, levels) == Some(
            QuoteView::SlippageExceeded { slippage: o.pct },
        ),
        !dec_lt(terms.max_slippage_pct, o.pct) && left.last().0 != 0 && dec_lt(
            o.size,
            terms.min_fill_size,
        ) ==> market_quote(terms, side, amount, levels) == Some(QuoteView::NoLiquidity),
        !dec_lt(terms.max_slippage_pct, o.pct) && !(left.last().0 != 0 && dec_lt(
            o.size,
            terms.min_fill_size,
        )) && o.size.0 != 0 ==> match (
            decimal_quotient(o.cost, o.size),
            sum_of(fill_fees(fills)),
        ) {
            (Some(average_price), Some(fees)) => market_quote(terms, side, amount, levels) == Some(
                QuoteView::Executable {
                    fills,
                    total_size: o.size,
                    average_price,
                    total_cost: o.cost,
                    fees,
                    status: if left.last().0 == 0 {
                        FillStatus::Filled
                    } else {
                        FillStatus::Partial
                    },
                },
            ),
            _ => market_quote(terms, side, amount, levels) is None,
        },
{
    lemma_walk_of_trace(fills, left, levels, amount, terms.fee_rate_bps);
    lemma_slippage_of_fills(fills, side, o.size, o.paid, o.average, o.pct);
    assert(fills.map_values(|f: PricedView| f.fee) =~= fill_fees(fills));
}

/// How many per cent worse a price is.
pub proof fn lemma_slippage_of_price(first: Dec, average: Dec, side: Side, pct: Dec)
    ensures
        slippage_pct(first, average, side) == Some(pct) <==> is_slippage(first, average, side, pct),
{
}

/// The slippage of fills is that of their average price against the first price.
pub proof fn lemma_slippage_of_fills(
    fills: Seq<PricedView>,
    side: Side,
    size: Dec,
    paid: Dec,
    average: Dec,
    pct: Dec,
)
    requires
        slip_by(fills, side, size, paid, average, pct),
    ensures
        fills_slippage(side, fills) == Some(Some(pct)),
{
    let c = costs_of(fills);
    assert forall|i: int| 0 <= i < c.len() implies (#[trigger] c[i]) is Some by {
        assert(decimal_product(fills[i].price, fills[i].size) is Some);
    }
    assert(c.map_values(|d: Option<Dec>| d->0) =~= payments(fills));
    assert(fills.map_values(|f: PricedView| f.size) =~= fill_amounts(fills));
}

/// Fills that have a slippage have an average price that it is the slippage of, and only without
/// fills is there none.
pub proof fn lemma_fills_that_slip(fills: Seq<PricedView>, side: Side) -> (r: (Dec, Dec, Dec, Dec))
    requires
        fills_slippage(side, fills) is Some,
    ensures
        fills_slippage(side, fills) == Some(None::<Dec>) <==> fills.len() == 0,
        fills.len() > 0 ==> slip_by(fills, side, r.0, r.1, r.2, r.3) && fills_slippage(side, fills)
            == Some(Some(r.3)),
{
    let c = costs_of(fills);
    if fills.len() > 0 {
        assert(c.map_values(|d: Option<Dec>| d->0) =~= payments(fills));
        assert(fills.map_values(|f: PricedView| f.size) =~= fill_amounts(fills));
        assert forall|i: int| 0 <= i < fills.len() implies decimal_product(
            (#[trigger] fills[i]).price,
            fills[i].size,
        ) is Some by {
            assert(c[i] is Some);
        }
    }
    let size = sum_of(fill_amounts(fills))->0;
    let paid = sum_of(payments(fills))->0;
    let average = decimal_quotient(paid, size)->0;
    (size, paid, average, slippage_pct(fills[0].price, average, side)->0)
}

/// Every market order that can be quoted against levels has a trace.
pub proof fn lemma_quote_has_trace(
    terms: Terms,
    side: Side,
    amount: Dec,
    levels: Seq<(Dec, Dec)>,
) -> (r: (Seq<PricedView>, Seq<Dec>, Outcome))
    requires
        levels.len() > 0,
        amount.0 != 0,
        market_quote(terms, side, amount, levels) is Some,
    ensures
        is_trace(r.0, r.1, levels, amount, terms.fee_rate_bps),
        comes_to(r.0, side, r.2),
        market_quote(terms, side, amount, levels)->0 matches QuoteView::Executable { fills, .. }
            ==> fills == r.0,
{
    let w = walk(levels, amount, terms.fee_rate_bps, levels.len())->0;
    let left = lemma_trace_of_walk(levels, amount, terms.fee_rate_bps, levels.len(), w);
    assert(levels.take(levels.len() as int) =~= levels);
    let fills = w.fills;
    assert(fills.len() > 0);
    let (size, paid, average, pct) = lemma_fills_that_slip(fills, side);
    (fills, left, Outcome { cost: w.total_cost, size, paid, average, pct })
}

/// Tolerating more slippage never turns an order down and changes no order that is not.
pub proof fn lemma_more_tolerance_turns_down_no_more(
    terms: Terms,
    more: Terms,
    side: Side,
    amount: Dec,
    levels: Seq<(Dec, Dec)>,
)
    requires
        more.min_fill_size == terms.min_fill_size,
        more.fee_rate_bps == terms.fee_rate_bps,
        !dec_lt(more.max_slippage_pct, terms.max_slippage_pct),
        market_quote(terms, side, amount, levels) matches Some(quote) && quote
            !is SlippageExceeded,
    ensures
        market_quote(more, side, amount, levels) == market_quote(terms, side, amount, levels),
{
    if levels.len() > 0 {
        let w = walk(levels, amount, terms.fee_rate_bps, levels.len())->0;
        let slippage = fills_slippage(side, w.fills)->0;
        if slippage is Some && dec_lt(more.max_slippage_pct, slippage->0) {
            let (a, b, p) = (terms.max_slippage_pct, more.max_slippage_pct, slippage->0);
            lemma_lt_from(a, b, p);
        }
    }
}

} // verus!
