//! What the slippage of fills does not depend on.
//!
//! The slippage goes by the average price of the fills and by the first price. Where no number on
//! the way is rounded, it is therefore the same in whatever order the fills stand behind the first
//! price, and for sizes that are all larger or smaller by the same factor.
use crate::decimal::{
    at_scale, common_scale, dec_same, dec_valid, decimal_product, decimal_quotient,
    exact_difference, lemma_at_scale_twice, lemma_lt_at_scale, lemma_product_at_scale,
    lemma_same_at_scale, lemma_total_in_any_order, sum_of, total_at, Dec, MAX_SCALE,
};
use crate::math::{price_gap, slippage_pct, worse_than};
use crate::quote::{costs_of, fill_sizes, fills_slippage, notional_of, sum_of_all, PricedView};
use crate::types::Side;
use vstd::arithmetic::power::{lemma_pow_positive, pow};
use vstd::prelude::*;

verus! {

/// What each fill costs, written out in full.
pub open spec fn exact_costs(fills: Seq<PricedView>) -> Seq<Dec> {
    fills.map_values(|f: PricedView| notional_of(f.price, f.size))
}

/// The price and the size of each fill.
pub open spec fn trades(fills: Seq<PricedView>) -> Seq<(Dec, Dec)> {
    fills.map_values(|f: PricedView| (f.price, f.size))
}

/// The prices and sizes are within the bounds of the representation.
pub open spec fn valid_trades(fills: Seq<PricedView>) -> bool {
    forall|i: int|
        0 <= i < fills.len() ==> dec_valid((#[trigger] fills[i]).price) && dec_valid(fills[i].size)
}

/// `q` is `a / b` without rounding.
pub open spec fn is_quotient(q: Dec, a: Dec, b: Dec) -> bool {
    b.0 != 0 && dec_same((q.0 * b.0, q.1 + b.1), a)
}

/// By how much the executed price is worse, written out in full.
pub open spec fn exact_gap(reference: Dec, executed: Dec, side: Side) -> Dec {
    match side {
        Side::BUY => exact_difference(executed, reference),
        Side::SELL => exact_difference(reference, executed),
    }
}

/// No number is rounded, and none overflows, on the way to how much worse than the reference price
/// the executed price is.
pub open spec fn unrounded_pct(reference: Dec, executed: Dec, side: Side) -> bool {
    worse_than(reference, executed, side) ==> {
        &&& price_gap(reference, executed, side) matches Some(gap)
        &&& dec_same(gap, exact_gap(reference, executed, side))
        &&& decimal_quotient(gap, reference) matches Some(share)
        &&& is_quotient(share, gap, reference)
        &&& decimal_product(share, (100, 0)) matches Some(pct)
        &&& dec_same(pct, (share.0 * 100, share.1))
    }
}

/// No number is rounded, and none overflows, on the way to the slippage of fills.
pub open spec fn unrounded(side: Side, fills: Seq<PricedView>) -> bool {
    &&& fills.len() > 0
    &&& sum_of_all(costs_of(fills)) matches Some(cost)
    &&& sum_of(fill_sizes(fills)) matches Some(size)
    &&& cost.1 <= 2 * MAX_SCALE
    &&& size.1 <= MAX_SCALE
    &&& at_scale(cost, 2 * MAX_SCALE as nat) == total_at(exact_costs(fills), 2 * MAX_SCALE as nat)
    &&& at_scale(size, MAX_SCALE as nat) == total_at(fill_sizes(fills), MAX_SCALE as nat)
    &&& decimal_quotient(cost, size) matches Some(average)
    &&& is_quotient(average, cost, size)
    &&& unrounded_pct(fills[0].price, average, side)
}

/// The average price of fills.
pub open spec fn average(fills: Seq<PricedView>) -> Dec {
    decimal_quotient(
        sum_of_all(costs_of(fills))->0,
        sum_of(fill_sizes(fills))->0,
    )->0
}

/// Writing a difference with more digits gives the difference of the mantissas.
pub proof fn lemma_difference_at_scale(a: Dec, b: Dec, scale: nat)
    requires
        a.1 <= scale,
        b.1 <= scale,
    ensures
        exact_difference(a, b).1 <= scale,
        at_scale(exact_difference(a, b), scale) == at_scale(a, scale) - at_scale(b, scale),
{
    let c = common_scale(a, b);
    lemma_at_scale_twice(a, c, scale);
    lemma_at_scale_twice(b, c, scale);
    let (x, y, p) = (at_scale(a, c), at_scale(b, c), pow(10, (scale - c) as nat));
    assert((x - y) * p == x * p - y * p) by (nonlinear_arith);
}

/// A quotient times its divisor is its dividend, whatever digits they are written with.
pub proof fn lemma_quotient_at_scale(q: Dec, a: Dec, b: Dec, t: nat)
    requires
        is_quotient(q, a, b),
        q.1 <= t,
        a.1 <= t,
        b.1 <= t,
    ensures
        at_scale(q, t) * at_scale(b, t) == at_scale(a, t) * pow(10, t),
        at_scale(b, t) != 0,
{
    lemma_product_at_scale(q, b, t, t);
    lemma_same_at_scale((q.0 * b.0, q.1 + b.1), a, t + t);
    lemma_at_scale_twice(a, t, t + t);
    lemma_nonzero_at_scale(b, t);
}

pub proof fn lemma_nonzero_at_scale(d: Dec, t: nat)
    requires
        d.1 <= t,
        d.0 != 0,
    ensures
        at_scale(d, t) != 0,
{
    lemma_pow_positive(10, (t - d.1) as nat);
    let (m, p) = (d.0, pow(10, (t - d.1) as nat));
    assert(m * p != 0) by (nonlinear_arith)
        requires
            m != 0,
            p > 0,
    ;
}

/// Equal factors can be left out.
pub proof fn lemma_cancel(a: int, b: int, c: int)
    requires
        c != 0,
        a * c == b * c,
    ensures
        a == b,
{
    assert(a == b) by (nonlinear_arith)
        requires
            c != 0,
            a * c == b * c,
    ;
}

/// The same prices have the same slippage.
proof fn lemma_same_pct(ref1: Dec, ref2: Dec, avg1: Dec, avg2: Dec, side: Side)
    requires
        dec_same(ref1, ref2),
        dec_same(avg1, avg2),
        unrounded_pct(ref1, avg1, side),
        unrounded_pct(ref2, avg2, side),
    ensures
        slippage_pct(ref1, avg1, side) matches Some(a) && slippage_pct(
            ref2,
            avg2,
            side,
        ) matches Some(b) && dec_same(a, b),
{
    let t0 = ref1.1 + ref2.1 + avg1.1 + avg2.1;
    lemma_same_at_scale(ref1, ref2, t0);
    lemma_same_at_scale(avg1, avg2, t0);
    lemma_lt_at_scale(ref1, avg1, t0);
    lemma_lt_at_scale(avg1, ref1, t0);
    lemma_lt_at_scale(ref2, avg2, t0);
    lemma_lt_at_scale(avg2, ref2, t0);
    if worse_than(ref1, avg1, side) {
        let (g1, g2) = (price_gap(ref1, avg1, side)->0, price_gap(ref2, avg2, side)->0);
        let (q1, q2) = (decimal_quotient(g1, ref1)->0, decimal_quotient(g2, ref2)->0);
        let (p1, p2) = (decimal_product(q1, (100, 0))->0, decimal_product(q2, (100, 0))->0);
        let t = t0 + g1.1 + g2.1 + q1.1 + q2.1 + p1.1 + p2.1;
        lemma_same_at_scale(ref1, ref2, t);
        lemma_same_at_scale(avg1, avg2, t);
        lemma_difference_at_scale(avg1, ref1, t);
        lemma_difference_at_scale(ref1, avg1, t);
        lemma_difference_at_scale(avg2, ref2, t);
        lemma_difference_at_scale(ref2, avg2, t);
        lemma_same_at_scale(g1, exact_gap(ref1, avg1, side), t);
        lemma_same_at_scale(g2, exact_gap(ref2, avg2, side), t);
        lemma_quotient_at_scale(q1, g1, ref1, t);
        lemma_quotient_at_scale(q2, g2, ref2, t);
        lemma_cancel(at_scale(q1, t), at_scale(q2, t), at_scale(ref1, t));
        lemma_product_at_scale(q1, (100, 0), t, 0);
        lemma_product_at_scale(q2, (100, 0), t, 0);
        lemma_same_at_scale(p1, (q1.0 * 100, q1.1), t);
        lemma_same_at_scale(p2, (q2.0 * 100, q2.1), t);
        lemma_same_at_scale(p1, p2, t);
    } else {
        lemma_same_at_scale((0, 0), (0, 0), 0);
    }
}

/// Costs and sizes in the same proportion have the same average.
proof fn lemma_same_average(side: Side, a: Seq<PricedView>, b: Seq<PricedView>)
    requires
        unrounded(side, a),
        unrounded(side, b),
        total_at(exact_costs(b), 2 * MAX_SCALE as nat) * total_at(fill_sizes(a), MAX_SCALE as nat)
            == total_at(exact_costs(a), 2 * MAX_SCALE as nat) * total_at(
            fill_sizes(b),
            MAX_SCALE as nat,
        ),
    ensures
        dec_same(average(a), average(b)),
{
    let (h, f) = (MAX_SCALE as nat, 2 * MAX_SCALE as nat);
    let (c1, c2) = (sum_of_all(costs_of(a))->0, sum_of_all(costs_of(b))->0);
    let (z1, z2) = (sum_of(fill_sizes(a))->0, sum_of(fill_sizes(b))->0);
    let (a1, a2) = (average(a), average(b));
    let t = f + a1.1 + a2.1;
    lemma_quotient_at_scale(a1, c1, z1, t);
    lemma_quotient_at_scale(a2, c2, z2, t);
    lemma_at_scale_twice(c1, f, t);
    lemma_at_scale_twice(c2, f, t);
    lemma_at_scale_twice(z1, h, t);
    lemma_at_scale_twice(z2, h, t);
    lemma_nonzero_at_scale(z1, h);
    lemma_nonzero_at_scale(z2, h);
    let (q1, q2) = (at_scale(a1, t), at_scale(a2, t));
    let (s1, s2) = (at_scale(z1, h), at_scale(z2, h));
    let (k1, k2) = (at_scale(c1, f), at_scale(c2, f));
    let (x, y, w) = (pow(10, (t - h) as nat), pow(10, (t - f) as nat), pow(10, t));
    lemma_pow_positive(10, (t - h) as nat);
    assert(q1 * (s1 * x) == (k1 * y) * w);
    assert(q2 * (s2 * x) == (k2 * y) * w);
    assert(q1 * (s1 * s2 * x) == (q1 * (s1 * x)) * s2) by (nonlinear_arith);
    assert(((k1 * y) * w) * s2 == (k1 * s2) * (y * w)) by (nonlinear_arith);
    assert(q2 * (s1 * s2 * x) == (q2 * (s2 * x)) * s1) by (nonlinear_arith);
    assert(((k2 * y) * w) * s1 == (k2 * s1) * (y * w)) by (nonlinear_arith);
    assert(s1 * s2 * x != 0) by (nonlinear_arith)
        requires
            s1 != 0,
            s2 != 0,
            x > 0,
    ;
    lemma_cancel(q1, q2, s1 * s2 * x);
    lemma_same_at_scale(a1, a2, t);
}

/// The slippage of fills is that of their average price.
pub proof fn lemma_slippage_of_average(side: Side, fills: Seq<PricedView>)
    requires
        unrounded(side, fills),
    ensures
        fills_slippage(side, fills) == match slippage_pct(fills[0].price, average(fills), side) {
            Some(pct) => Some(Some(pct)),
            None => None,
        },
        unrounded_pct(fills[0].price, average(fills), side),
{
    assert(fills.map_values(|f: PricedView| f.size) =~= fill_sizes(fills));
}

/// The same values give the same results, in whatever order they stand.
proof fn lemma_mapped_in_any_order<A, B>(s: Seq<A>, t: Seq<A>, f: spec_fn(A) -> B)
    requires
        s.to_multiset() == t.to_multiset(),
    ensures
        s.map_values(f).to_multiset() == t.map_values(f).to_multiset(),
    decreases s.len(),
{
    s.to_multiset_ensures();
    t.to_multiset_ensures();
    if s.len() == 0 {
        assert(s.map_values(f) =~= t.map_values(f));
    } else {
        let last = s.len() - 1;
        assert(s.contains(s[last]));
        assert(s.to_multiset().count(s[last]) > 0);
        assert(t.contains(s[last]));
        let j = choose|j: int| 0 <= j < t.len() && t[j] == s[last];
        assert(s.remove(last).to_multiset() =~= t.remove(j).to_multiset());
        lemma_mapped_in_any_order(s.remove(last), t.remove(j), f);
        let (x, y) = (s.map_values(f), t.map_values(f));
        assert(x.remove(last) =~= s.remove(last).map_values(f));
        assert(y.remove(j) =~= t.remove(j).map_values(f));
        assert(x =~= x.remove(last).insert(last, x[last]));
        assert(y =~= y.remove(j).insert(j, y[j]));
        vstd::seq_lib::to_multiset_insert(x.remove(last), last, x[last]);
        vstd::seq_lib::to_multiset_insert(y.remove(j), j, y[j]);
    }
}

/// Where nothing is rounded, fills in another order have the same slippage, given the same first
/// price.
pub proof fn lemma_slippage_of_permuted_fills(
    side: Side,
    fills: Seq<PricedView>,
    permuted: Seq<PricedView>,
)
    requires
        unrounded(side, fills),
        unrounded(side, permuted),
        dec_same(fills[0].price, permuted[0].price),
        trades(fills).to_multiset() == trades(permuted).to_multiset(),
    ensures
        fills_slippage(side, fills) matches Some(Some(a)) && fills_slippage(
            side,
            permuted,
        ) matches Some(Some(b)) && dec_same(a, b),
{
    let cost = |t: (Dec, Dec)| notional_of(t.0, t.1);
    let size = |t: (Dec, Dec)| t.1;
    lemma_mapped_in_any_order(trades(fills), trades(permuted), cost);
    lemma_mapped_in_any_order(trades(fills), trades(permuted), size);
    assert(trades(fills).map_values(cost) =~= exact_costs(fills));
    assert(trades(permuted).map_values(cost) =~= exact_costs(permuted));
    assert(trades(fills).map_values(size) =~= fill_sizes(fills));
    assert(trades(permuted).map_values(size) =~= fill_sizes(permuted));
    lemma_total_in_any_order(exact_costs(fills), exact_costs(permuted), 2 * MAX_SCALE as nat);
    lemma_total_in_any_order(fill_sizes(fills), fill_sizes(permuted), MAX_SCALE as nat);
    lemma_same_average(side, fills, permuted);
    lemma_slippage_of_average(side, fills);
    lemma_slippage_of_average(side, permuted);
    lemma_same_pct(
        fills[0].price,
        permuted[0].price,
        average(fills),
        average(permuted),
        side,
    );
}

/// `b` is `k` times `a`, whatever digits they are written with.
proof fn lemma_multiple_at_scale(a: Dec, b: Dec, k: Dec, t: nat)
    requires
        dec_same(b, notional_of(a, k)),
        a.1 <= t,
        b.1 <= t,
    ensures
        at_scale(b, t) * pow(10, k.1) == at_scale(a, t) * k.0,
{
    let all = t + k.1;
    lemma_same_at_scale(b, notional_of(a, k), all);
    lemma_product_at_scale(a, k, t, k.1);
    vstd::arithmetic::power::lemma_pow0(10);
    assert(at_scale(k, k.1) == k.0);
    lemma_at_scale_twice(b, t, all);
}

/// Multiples of numbers have the same multiple of their total.
proof fn lemma_total_of_multiples(s: Seq<Dec>, t: Seq<Dec>, k: Dec, scale: nat)
    requires
        s.len() == t.len(),
        forall|i: int|
            0 <= i < s.len() ==> at_scale(#[trigger] t[i], scale) * pow(10, k.1) == at_scale(
                s[i],
                scale,
            ) * k.0,
    ensures
        total_at(t, scale) * pow(10, k.1) == total_at(s, scale) * k.0,
    decreases s.len(),
{
    if s.len() > 0 {
        let (x, y) = (s.drop_last(), t.drop_last());
        assert forall|i: int| 0 <= i < x.len() implies at_scale(#[trigger] y[i], scale) * pow(
            10,
            k.1,
        ) == at_scale(x[i], scale) * k.0 by {
            assert(y[i] == t[i] && x[i] == s[i]);
        }
        lemma_total_of_multiples(x, y, k, scale);
        assert(at_scale(t[t.len() - 1], scale) * pow(10, k.1) == at_scale(s[s.len() - 1], scale)
            * k.0);
        let (a, b, c, d, p, m) = (
            total_at(y, scale),
            at_scale(t.last(), scale),
            total_at(x, scale),
            at_scale(s.last(), scale),
            pow(10, k.1),
            k.0,
        );
        assert((a + b) * p == (c + d) * m) by (nonlinear_arith)
            requires
                a * p == c * m,
                b * p == d * m,
        ;
    }
}

/// Where nothing is rounded, fills at the same prices whose sizes are all larger or smaller by the
/// same factor have the same slippage.
pub proof fn lemma_slippage_of_scaled_fills(
    side: Side,
    fills: Seq<PricedView>,
    scaled: Seq<PricedView>,
    factor: Dec,
)
    requires
        valid_trades(fills),
        valid_trades(scaled),
        unrounded(side, fills),
        unrounded(side, scaled),
        factor.0 > 0,
        fills.len() == scaled.len(),
        forall|i: int|
            0 <= i < fills.len() ==> dec_same((#[trigger] fills[i]).price, scaled[i].price)
                && dec_same(scaled[i].size, notional_of(fills[i].size, factor)),
    ensures
        fills_slippage(side, fills) matches Some(Some(a)) && fills_slippage(
            side,
            scaled,
        ) matches Some(Some(b)) && dec_same(a, b),
{
    let (h, f) = (MAX_SCALE as nat, 2 * MAX_SCALE as nat);
    let (z1, z2) = (fill_sizes(fills), fill_sizes(scaled));
    let (c1, c2) = (exact_costs(fills), exact_costs(scaled));
    let p = pow(10, factor.1);
    assert forall|i: int| 0 <= i < fills.len() implies at_scale(#[trigger] z2[i], h) * p
        == at_scale(z1[i], h) * factor.0 && at_scale(c2[i], f) * p == at_scale(c1[i], f)
        * factor.0 by {
        let (x, y) = (fills[i], scaled[i]);
        assert(dec_valid(x.price) && dec_valid(y.price));
        lemma_multiple_at_scale(x.size, y.size, factor, h);
        lemma_same_at_scale(x.price, y.price, h);
        lemma_product_at_scale(x.price, x.size, h, h);
        lemma_product_at_scale(y.price, y.size, h, h);
        let (r, a, b, m) = (
            at_scale(x.price, h),
            at_scale(x.size, h),
            at_scale(y.size, h),
            factor.0,
        );
        assert((r * b) * p == (r * a) * m) by (nonlinear_arith)
            requires
                b * p == a * m,
        ;
    }
    assert forall|i: int| 0 <= i < c1.len() implies at_scale(#[trigger] c2[i], f) * p == at_scale(
        c1[i],
        f,
    ) * factor.0 by {
        assert(at_scale(z2[i], h) * p == at_scale(z1[i], h) * factor.0);
    }
    lemma_total_of_multiples(z1, z2, factor, h);
    lemma_total_of_multiples(c1, c2, factor, f);
    lemma_pow_positive(10, factor.1);
    let (s1, s2, k1, k2, m) = (
        total_at(z1, h),
        total_at(z2, h),
        total_at(c1, f),
        total_at(c2, f),
        factor.0,
    );
    assert((k2 * s1) * p == (k1 * s2) * p) by (nonlinear_arith)
        requires
            s2 * p == s1 * m,
            k2 * p == k1 * m,
    {
        assert((k2 * s1) * p == (k2 * p) * s1);
        assert((k1 * s2) * p == k1 * (s2 * p));
        assert((k1 * m) * s1 == k1 * (s1 * m));
    }
    lemma_cancel(k2 * s1, k1 * s2, p);
    lemma_same_average(side, fills, scaled);
    lemma_slippage_of_average(side, fills);
    lemma_slippage_of_average(side, scaled);
    assert(dec_same(fills[0].price, scaled[0].price));
    lemma_same_pct(fills[0].price, scaled[0].price, average(fills), average(scaled), side);
}

} // verus!
