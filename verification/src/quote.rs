//! What a market order would be filled at.
use crate::decimal::{
    at_scale, dec_lt, dec_min, dec_zero, decimal_difference, decimal_product, decimal_quotient,
    decimal_sum, fits, lemma_at_scale_twice, sum_of, total_at, Dec, Decimal, MAX_SCALE,
};
use crate::math::slippage_pct;
use crate::types::Side;
use vstd::prelude::*;

verus! {

/// Fill execution status.
#[derive(Clone, Copy, Debug, PartialEq, Eq, Structural)]
pub enum FillStatus {
    /// Order was fully filled
    Filled,
    /// Order was partially filled
    Partial,
    /// Order was not filled (insufficient liquidity)
    Unfilled,
    /// Order was rejected
    Rejected,
}

/// The price, the size and the fee of one fill.
#[derive(Clone, Copy, Debug)]
pub struct PricedFill {
    pub price: Decimal,
    pub size: Decimal,
    pub fee: Decimal,
}

/// A fill as a mathematical value: its price, its size and its fee.
pub struct PricedView {
    pub price: Dec,
    pub size: Dec,
    pub fee: Dec,
}

impl View for PricedFill {
    type V = PricedView;

    open spec fn view(&self) -> PricedView {
        PricedView { price: self.price@, size: self.size@, fee: self.fee@ }
    }
}

/// The fills as mathematical values.
pub open spec fn priced_views(fills: Seq<PricedFill>) -> Seq<PricedView> {
    fills.map_values(|f: PricedFill| f@)
}

/// The fee for a notional: so many hundredths of a per cent of it. `None` if it cannot be
/// computed.
pub open spec fn fee_of(notional: Dec, fee_rate_bps: u32) -> Option<Dec> {
    match decimal_product(notional, (fee_rate_bps as int, 0)) {
        Some(product) => decimal_quotient(product, (10_000, 0)),
        None => None,
    }
}

/// The fee for a notional can be written out in full: nothing is charged, or the product of
/// notional and rate fits and divides by the number of basis points in a whole.
pub open spec fn exact_fee(notional: Dec, fee_rate_bps: u32) -> bool {
    ||| fee_rate_bps == 0
    ||| notional.0 == 0
    ||| fits(notional.0 * fee_rate_bps) && (notional.0 * fee_rate_bps) % 10_000 == 0
}

/// The fee for a notional, written out in full.
pub open spec fn exact_fee_of(notional: Dec, fee_rate_bps: u32) -> Dec {
    if fee_rate_bps == 0 || notional.0 == 0 {
        dec_zero()
    } else {
        ((notional.0 * fee_rate_bps) / 10_000, notional.1)
    }
}

/// The fee for a notional can be computed without rounding: the product of notional and rate fits,
/// and there are digits left to move the point by.
pub open spec fn unrounded_fee(notional: Dec, fee_rate_bps: u32) -> bool {
    fits(notional.0 * fee_rate_bps) && notional.1 + 4 <= MAX_SCALE
}

/// So many hundredths of a per cent of a notional.
pub open spec fn basis_points_of(notional: Dec, fee_rate_bps: u32) -> Dec {
    (notional.0 * fee_rate_bps, notional.1 + 4)
}

/// How far an order has been filled.
pub struct Walk {
    /// The fills, in their order
    pub fills: Seq<PricedView>,
    /// What the fills cost
    pub total_cost: Dec,
    /// What has been filled
    pub total_size: Dec,
    /// What is left to fill
    pub remaining: Dec,
}

/// Fills from one level, a price and a size, as much of what is left as the level offers; once
/// nothing is left, nothing. `None` if a number cannot be computed.
pub open spec fn take_level(w: Walk, level: (Dec, Dec), fee_rate_bps: u32) -> Option<Walk> {
    if w.remaining.0 == 0 {
        Some(w)
    } else {
        let size = dec_min(w.remaining, level.1);
        match decimal_product(size, level.0) {
            Some(cost) => match (
                fee_of(cost, fee_rate_bps),
                decimal_sum(w.total_cost, cost),
                decimal_sum(w.total_size, size),
                decimal_difference(w.remaining, size),
            ) {
                (Some(fee), Some(total_cost), Some(total_size), Some(remaining)) => Some(
                    Walk {
                        fills: w.fills.push(PricedView { price: level.0, size, fee }),
                        total_cost,
                        total_size,
                        remaining,
                    },
                ),
                _ => None,
            },
            None => None,
        }
    }
}

/// Fills an amount from the first `n` levels, one after the other.
pub open spec fn walk(
    levels: Seq<(Dec, Dec)>,
    amount: Dec,
    fee_rate_bps: u32,
    n: nat,
) -> Option<Walk>
    decreases n,
{
    if n == 0 {
        Some(
            Walk {
                fills: Seq::empty(),
                total_cost: dec_zero(),
                total_size: dec_zero(),
                remaining: amount,
            },
        )
    } else {
        match walk(levels, amount, fee_rate_bps, (n - 1) as nat) {
            Some(w) => take_level(w, levels[n - 1], fee_rate_bps),
            None => None,
        }
    }
}

/// What each fill costs: its price times its size.
pub open spec fn costs_of(fills: Seq<PricedView>) -> Seq<Option<Dec>> {
    fills.map_values(|f: PricedView| decimal_product(f.price, f.size))
}

/// The sum of numbers of which each must be there.
pub open spec fn sum_of_all(s: Seq<Option<Dec>>) -> Option<Dec> {
    if forall|i: int| 0 <= i < s.len() ==> (#[trigger] s[i]) is Some {
        sum_of(s.map_values(|d: Option<Dec>| d->0))
    } else {
        None
    }
}

/// How much worse than the first price the average price of fills is, in per cent; nothing if
/// there are no fills. `None` if it cannot be computed.
pub open spec fn fills_slippage(side: Side, fills: Seq<PricedView>) -> Option<Option<Dec>> {
    if fills.len() == 0 {
        Some(None)
    } else {
        match (sum_of_all(costs_of(fills)), sum_of(fills.map_values(|f: PricedView| f.size))) {
            (Some(cost), Some(size)) => match decimal_quotient(cost, size) {
                Some(average) => match slippage_pct(fills[0].price, average, side) {
                    Some(slippage) => Some(Some(slippage)),
                    None => None,
                },
                None => None,
            },
            _ => None,
        }
    }
}

/// The fills that an order would have, and what they come to.
#[derive(Debug)]
pub struct QuotedFills {
    pub fills: Vec<PricedFill>,
    pub total_size: Decimal,
    pub average_price: Decimal,
    pub total_cost: Decimal,
    pub fees: Decimal,
    pub status: FillStatus,
}

/// What would become of an order.
#[derive(Debug)]
pub enum Quote {
    /// Nothing, or less than the minimum, is offered that the order can be filled with
    NoLiquidity,
    /// The average price would be worse than the best price by so many per cent, which is too much
    SlippageExceeded(Decimal),
    /// The order would be filled so
    Executable(QuotedFills),
}

/// What would become of an order, as a mathematical value.
pub enum QuoteView {
    NoLiquidity,
    SlippageExceeded { slippage: Dec },
    Executable {
        fills: Seq<PricedView>,
        total_size: Dec,
        average_price: Dec,
        total_cost: Dec,
        fees: Dec,
        status: FillStatus,
    },
}

impl View for Quote {
    type V = QuoteView;

    open spec fn view(&self) -> QuoteView {
        match self {
            Quote::NoLiquidity => QuoteView::NoLiquidity,
            Quote::SlippageExceeded(slippage) => QuoteView::SlippageExceeded {
                slippage: slippage@,
            },
            Quote::Executable(q) => QuoteView::Executable {
                fills: priced_views(q.fills@),
                total_size: q.total_size@,
                average_price: q.average_price@,
                total_cost: q.total_cost@,
                fees: q.fees@,
                status: q.status,
            },
        }
    }
}

/// `Filled` if nothing is left; otherwise `Partial` if at least the minimum could be filled, and
/// `Unfilled` if not.
pub open spec fn status_of(w: Walk, min_fill_size: Dec) -> FillStatus {
    if w.remaining.0 == 0 {
        FillStatus::Filled
    } else if !dec_lt(w.total_size, min_fill_size) {
        FillStatus::Partial
    } else {
        FillStatus::Unfilled
    }
}

/// The price at which a size was had for a cost; zero for no size.
pub open spec fn average_of(w: Walk) -> Option<Dec> {
    if w.total_size.0 == 0 {
        Some(dec_zero())
    } else {
        decimal_quotient(w.total_cost, w.total_size)
    }
}

/// What becomes of a walk whose slippage is known: nothing if that is too much or if less than the
/// minimum could be filled.
pub open spec fn conclude(
    w: Walk,
    slippage: Option<Dec>,
    min_fill_size: Dec,
    max_slippage_pct: Dec,
) -> Option<QuoteView> {
    if slippage is Some && dec_lt(max_slippage_pct, slippage->0) {
        Some(QuoteView::SlippageExceeded { slippage: slippage->0 })
    } else if status_of(w, min_fill_size) is Unfilled {
        Some(QuoteView::NoLiquidity)
    } else {
        match (average_of(w), sum_of(w.fills.map_values(|f: PricedView| f.fee))) {
            (Some(average_price), Some(fees)) => Some(
                QuoteView::Executable {
                    fills: w.fills,
                    total_size: w.total_size,
                    average_price,
                    total_cost: w.total_cost,
                    fees,
                    status: status_of(w, min_fill_size),
                },
            ),
            _ => None,
        }
    }
}

/// The terms on which orders are filled.
pub struct Terms {
    pub min_fill_size: Dec,
    pub max_slippage_pct: Dec,
    pub fee_rate_bps: u32,
}

/// What becomes of a market order on these terms against these levels, the best first. `None`
/// if a number on the way cannot be computed.
pub open spec fn market_quote(
    terms: Terms,
    side: Side,
    amount: Dec,
    levels: Seq<(Dec, Dec)>,
) -> Option<QuoteView> {
    if levels.len() == 0 {
        Some(QuoteView::NoLiquidity)
    } else {
        match walk(levels, amount, terms.fee_rate_bps, levels.len()) {
            Some(w) => match fills_slippage(side, w.fills) {
                Some(slippage) => conclude(
                    w,
                    slippage,
                    terms.min_fill_size,
                    terms.max_slippage_pct,
                ),
                None => None,
            },
            None => None,
        }
    }
}

/// What becomes of a limit order: it is filled whole, at its own price, if the book crosses it.
/// `None` if a number on the way cannot be computed.
pub open spec fn limit_quote(
    terms: Terms,
    crossed: bool,
    price: Dec,
    size: Dec,
) -> Option<QuoteView> {
    if !crossed {
        Some(QuoteView::NoLiquidity)
    } else {
        match decimal_product(price, size) {
            Some(cost) => match fee_of(cost, terms.fee_rate_bps) {
                Some(fee) => Some(
                    QuoteView::Executable {
                        fills: seq![PricedView { price, size, fee }],
                        total_size: size,
                        average_price: price,
                        total_cost: cost,
                        fees: fee,
                        status: FillStatus::Filled,
                    },
                ),
                None => None,
            },
            None => None,
        }
    }
}

/// A positive amount and levels of no negative size that can all be written with `scale` digits
/// after the point.
pub open spec fn exact_at(levels: Seq<(Dec, Dec)>, amount: Dec, scale: nat) -> bool {
    &&& scale <= MAX_SCALE
    &&& 0 < amount.0
    &&& amount.1 <= scale
    &&& fits(at_scale(amount, scale))
    &&& forall|i: int|
        0 <= i < levels.len() ==> 0 <= (#[trigger] levels[i]).1.0 && levels[i].1.1 <= scale
}

/// In addition prices that are not negative, can be written with `price_scale` digits and are no
/// higher than `top`, so that what the amount costs can be written out in full.
pub open spec fn exact_prices(
    levels: Seq<(Dec, Dec)>,
    amount: Dec,
    scale: nat,
    price_scale: nat,
    top: int,
) -> bool {
    &&& exact_at(levels, amount, scale)
    &&& scale + price_scale <= MAX_SCALE
    &&& fits(at_scale(amount, scale) * top)
    &&& 0 <= top
    &&& forall|i: int|
        0 <= i < levels.len() ==> 0 <= (#[trigger] levels[i]).0.0 && levels[i].0.1 <= price_scale
            && at_scale(levels[i].0, price_scale) <= top
}

/// The sizes of levels.
pub open spec fn level_sizes(levels: Seq<(Dec, Dec)>) -> Seq<Dec> {
    levels.map_values(|l: (Dec, Dec)| l.1)
}

/// The sizes of fills.
pub open spec fn fill_sizes(fills: Seq<PricedView>) -> Seq<Dec> {
    fills.map_values(|f: PricedView| f.size)
}

/// What the levels offer together, with `scale` digits after the point.
pub open spec fn depth_at(levels: Seq<(Dec, Dec)>, scale: nat) -> int {
    total_at(level_sizes(levels), scale)
}

/// The fills take the levels in their order: each is at the price of its level and no larger, and
/// all but the last take the whole level.
pub open spec fn takes_in_order(
    fills: Seq<PricedView>,
    levels: Seq<(Dec, Dec)>,
    scale: nat,
) -> bool {
    &&& fills.len() <= levels.len()
    &&& forall|i: int|
        0 <= i < fills.len() ==> {
            &&& (#[trigger] fills[i]).price == levels[i].0
            &&& fills[i].size.1 <= scale
            &&& levels[i].1.1 <= scale
            &&& 0 <= at_scale(fills[i].size, scale) <= at_scale(levels[i].1, scale)
        }
    &&& forall|i: int| 0 <= i < fills.len() - 1 ==> (#[trigger] fills[i]).size == levels[i].1
}

/// What fills cost, with the digits of sizes and prices after the point.
pub open spec fn cost_at(fills: Seq<PricedView>, scale: nat, price_scale: nat) -> int
    decreases fills.len(),
{
    if fills.len() == 0 {
        0
    } else {
        cost_at(fills.drop_last(), scale, price_scale) + at_scale(fills.last().size, scale)
            * at_scale(fills.last().price, price_scale)
    }
}

/// So much of each level, with `scale` digits after the point, as the level offers or less.
pub open spec fn is_allocation(
    allocation: Seq<int>,
    levels: Seq<(Dec, Dec)>,
    scale: nat,
) -> bool {
    &&& allocation.len() == levels.len()
    &&& forall|i: int|
        0 <= i < levels.len() ==> 0 <= #[trigger] allocation[i] <= at_scale(levels[i].1, scale)
}

/// The prices of levels, with `price_scale` digits after the point.
pub open spec fn prices_at(levels: Seq<(Dec, Dec)>, price_scale: nat) -> Seq<int> {
    Seq::new(levels.len(), |i: int| at_scale(levels[i].0, price_scale))
}

/// The sum of the first `n` sizes.
pub open spec fn size_of(allocation: Seq<int>, n: nat) -> int
    decreases n,
{
    if n == 0 {
        0
    } else {
        size_of(allocation, (n - 1) as nat) + allocation[n - 1]
    }
}

/// What the first `n` sizes cost at these prices.
pub open spec fn cost_of(allocation: Seq<int>, prices: Seq<int>, n: nat) -> int
    decreases n,
{
    if n == 0 {
        0
    } else {
        cost_of(allocation, prices, (n - 1) as nat) + allocation[n - 1] * prices[n - 1]
    }
}

/// What fills take of each level.
pub open spec fn allocated(fills: Seq<PricedView>, count: nat, scale: nat) -> Seq<int> {
    Seq::new(
        count,
        |i: int|
            if i < fills.len() {
                at_scale(fills[i].size, scale)
            } else {
                0
            },
    )
}

/// The size and the cost of fills are those of what they take of each level.
pub proof fn lemma_allocated(
    fills: Seq<PricedView>,
    levels: Seq<(Dec, Dec)>,
    scale: nat,
    price_scale: nat,
    n: nat,
)
    requires
        takes_in_order(fills, levels, scale),
        n <= levels.len(),
    ensures
        ({
            let done = fills.take(if n < fills.len() { n as int } else { fills.len() as int });
            let taken = allocated(fills, levels.len(), scale);
            &&& size_of(taken, n) == total_at(fill_sizes(done), scale)
            &&& cost_of(taken, prices_at(levels, price_scale), n) == cost_at(
                done,
                scale,
                price_scale,
            )
        }),
    decreases n,
{
    if n > 0 {
        lemma_allocated(fills, levels, scale, price_scale, (n - 1) as nat);
        if n <= fills.len() {
            let done = fills.take(n as int);
            assert(done.drop_last() =~= fills.take(n - 1));
            assert(fill_sizes(done).drop_last() =~= fill_sizes(fills.take(n - 1)));
            assert(done.last() == fills[n - 1]);
            assert(fills[n - 1].price == levels[n - 1].0);
        } else {
            let price = prices_at(levels, price_scale)[n - 1];
            assert(0 * price == 0);
        }
    }
}

/// Sizes that are no larger where prices are up to `price` and no smaller where they are from
/// `price` on cost at least `price` for each by which they are larger together.
pub proof fn lemma_costs_at_least(
    a: Seq<int>,
    b: Seq<int>,
    prices: Seq<int>,
    price: int,
    n: nat,
)
    requires
        forall|i: int|
            #![trigger prices[i]]
            0 <= i < n ==> prices[i] == price || (prices[i] <= price && a[i] <= b[i]) || (prices[i]
                >= price && a[i] >= b[i]),
    ensures
        cost_of(a, prices, n) - cost_of(b, prices, n) >= price * (size_of(a, n) - size_of(b, n)),
    decreases n,
{
    if n > 0 {
        let m = (n - 1) as nat;
        lemma_costs_at_least(a, b, prices, price, m);
        let (x, y, p) = (a[n - 1], b[n - 1], prices[n - 1]);
        assert(x * p - y * p >= price * (x - y)) by (nonlinear_arith)
            requires
                p == price || (p <= price && x <= y) || (p >= price && x >= y),
        ;
        let d = size_of(a, m) - size_of(b, m);
        assert(price * (d + (x - y)) == price * d + price * (x - y)) by (nonlinear_arith);
    } else {
        assert(price * 0 == 0);
    }
}

/// At negated prices everything costs the negation.
pub proof fn lemma_negated_cost(a: Seq<int>, prices: Seq<int>, n: nat)
    requires
        n <= prices.len(),
    ensures
        cost_of(a, prices.map_values(|p: int| -p), n) == -cost_of(a, prices, n),
    decreases n,
{
    if n > 0 {
        lemma_negated_cost(a, prices, (n - 1) as nat);
        let (x, p) = (a[n - 1], prices[n - 1]);
        assert(x * (-p) == -(x * p)) by (nonlinear_arith);
    }
}

/// Fills that take no more than their levels take no more than all levels offer, and just that if
/// they take every level whole.
pub proof fn lemma_fills_within_depth(
    fills: Seq<PricedView>,
    levels: Seq<(Dec, Dec)>,
    scale: nat,
)
    requires
        takes_in_order(fills, levels, scale),
        forall|i: int| 0 <= i < levels.len() ==> 0 <= (#[trigger] levels[i]).1.0
            && levels[i].1.1 <= scale,
    ensures
        total_at(fill_sizes(fills), scale) <= depth_at(levels, scale),
        fills.len() == levels.len() && (forall|i: int|
            0 <= i < fills.len() ==> (#[trigger] fills[i]).size == levels[i].1) ==> total_at(
            fill_sizes(fills),
            scale,
        ) == depth_at(levels, scale),
    decreases levels.len(),
{
    if levels.len() > 0 {
        let rest = levels.drop_last();
        let last = levels.len() - 1;
        assert forall|i: int| 0 <= i < rest.len() implies 0 <= (#[trigger] rest[i]).1.0
            && rest[i].1.1 <= scale by {
            assert(rest[i] == levels[i]);
        }
        assert(level_sizes(levels).drop_last() =~= level_sizes(rest));
        assert(0 <= levels[last].1.0);
        lemma_at_scale_twice(levels[last].1, scale, scale);
        if fills.len() == levels.len() {
            let front = fills.drop_last();
            assert(fill_sizes(fills).drop_last() =~= fill_sizes(front));
            assert forall|i: int| 0 <= i < front.len() implies (#[trigger] front[i]) == fills[i]
                && rest[i] == levels[i] by {}
            lemma_fills_within_depth(front, rest, scale);
            assert(fills[last].price == levels[last].0);
        } else {
            assert forall|i: int| 0 <= i < fills.len() implies (#[trigger] fills[i]).price
                == rest[i].0 by {
                assert(rest[i] == levels[i]);
            }
            lemma_fills_within_depth(fills, rest, scale);
        }
    } else {
        assert(fill_sizes(fills) =~= level_sizes(levels));
    }
}

/// A price and a size, neither of them zero, whose product can be written out in full.
pub open spec fn exact_notional(price: Dec, size: Dec) -> bool {
    &&& price.0 != 0
    &&& size.0 != 0
    &&& fits(price.0 * size.0)
    &&& price.1 + size.1 <= MAX_SCALE
}

/// A size times a price, written out in full.
pub open spec fn notional_of(size: Dec, price: Dec) -> Dec {
    (size.0 * price.0, size.1 + price.1)
}

/// The best level alone offers the whole of a positive amount.
pub open spec fn covered_by_best(levels: Seq<(Dec, Dec)>, amount: Dec) -> bool {
    &&& levels.len() > 0
    &&& 0 < amount.0
    &&& !dec_lt(levels[0].1, amount)
    &&& exact_notional(levels[0].0, amount)
}

/// Once nothing is left, further levels change nothing.
pub proof fn lemma_walk_stops(
    levels: Seq<(Dec, Dec)>,
    amount: Dec,
    fee_rate_bps: u32,
    n: nat,
    m: nat,
)
    requires
        n <= m,
        walk(levels, amount, fee_rate_bps, n) matches Some(w) ==> w.remaining.0 == 0,
    ensures
        walk(levels, amount, fee_rate_bps, m) == walk(levels, amount, fee_rate_bps, n),
    decreases m,
{
    if n < m {
        lemma_walk_stops(levels, amount, fee_rate_bps, n, (m - 1) as nat);
    }
}

/// What a fill costs, and the fee for it.
pub open spec fn is_charged(fill: PricedView, fee_rate_bps: u32) -> bool {
    decimal_product(fill.size, fill.price) matches Some(cost) && fee_of(cost, fee_rate_bps)
        == Some(fill.fee)
}

/// What each fill costs: its size times its price.
pub open spec fn fill_costs(fills: Seq<PricedView>) -> Seq<Dec> {
    fills.map_values(|f: PricedView| decimal_product(f.size, f.price)->0)
}

/// A market order takes the levels in their order, leaving none out: its fills are at the prices
/// of the first levels, none is larger than its level, each carries the fee for what it costs,
/// and as long as something is left to fill, every level is used. What is filled is the sum of
/// the sizes, and what it costs the sum of the costs.
pub proof fn lemma_walk_fills(
    levels: Seq<(Dec, Dec)>,
    amount: Dec,
    fee_rate_bps: u32,
    n: nat,
    w: Walk,
)
    requires
        n <= levels.len(),
        walk(levels, amount, fee_rate_bps, n) == Some(w),
    ensures
        w.fills.len() <= n,
        w.remaining.0 != 0 ==> w.fills.len() == n,
        forall|i: int|
            0 <= i < w.fills.len() ==> {
                &&& (#[trigger] w.fills[i]).price == levels[i].0
                &&& !dec_lt(levels[i].1, w.fills[i].size)
                &&& is_charged(w.fills[i], fee_rate_bps)
            },
        sum_of(w.fills.map_values(|f: PricedView| f.size)) == Some(w.total_size),
        sum_of(fill_costs(w.fills)) == Some(w.total_cost),
    decreases n,
{
    if n > 0 {
        let before = walk(levels, amount, fee_rate_bps, (n - 1) as nat)->0;
        lemma_walk_fills(levels, amount, fee_rate_bps, (n - 1) as nat, before);
        if before.remaining.0 != 0 {
            let fill = w.fills.last();
            assert(w.fills =~= before.fills.push(fill));
            assert(w.fills.map_values(|f: PricedView| f.size).drop_last()
                =~= before.fills.map_values(|f: PricedView| f.size));
            assert(fill_costs(w.fills).drop_last() =~= fill_costs(before.fills));
        }
    }
}

} // verus!
