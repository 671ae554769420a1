//! Totals over fills.
use crate::decimal::{checked_sum, dec_opt, sum_of, sums_exactly, Dec, Decimal};
use crate::types::FillEvent;
use vstd::prelude::*;

verus! {

/// The sizes of fills.
pub open spec fn sizes(fills: Seq<FillEvent>) -> Seq<Dec> {
    fills.map_values(|f: FillEvent| f.size@)
}

/// The fees of fills.
pub open spec fn fees(fills: Seq<FillEvent>) -> Seq<Dec> {
    fills.map_values(|f: FillEvent| f.fee@)
}

/// What references to fills point to.
pub open spec fn targets(fills: Seq<&FillEvent>) -> Seq<FillEvent> {
    fills.map_values(|f: &FillEvent| *f)
}

/// Each reference points to one fill, in their order.
pub proof fn lemma_targets(fills: Seq<&FillEvent>, i: int)
    requires
        0 <= i < fills.len(),
    ensures
        targets(fills).len() == fills.len(),
        targets(fills)[i] == *fills[i],
{
}

/// A reference to each fill.
pub(crate) fn references(fills: &Vec<FillEvent>) -> (r: Vec<&FillEvent>)
    ensures
        targets(r@) == fills@,
{
    let mut r: Vec<&FillEvent> = Vec::new();
    let mut i: usize = 0;
    while i < fills.len()
        invariant
            0 <= i <= fills@.len(),
            targets(r@) =~= fills@.take(i as int),
        decreases fills@.len() - i,
    {
        let ghost before = targets(r@);
        r.push(&fills[i]);
        assert(targets(r@) =~= before.push(fills@[i as int]));
        i += 1;
    }
    r
}

/// The total size of fills; `None` if it overflows.
pub(crate) fn total_size(fills: &Vec<&FillEvent>) -> (r: Option<Decimal>)
    ensures
        dec_opt(r) == sum_of(sizes(targets(fills@))),
        sums_exactly(sizes(targets(fills@)), dec_opt(r)),
{
    let mut numbers: Vec<Decimal> = Vec::new();
    let mut i: usize = 0;
    while i < fills.len()
        invariant
            0 <= i <= fills@.len(),
            numbers@.len() == i,
            forall|k: int| 0 <= k < i ==> (#[trigger] numbers@[k]) == fills@[k].size,
        decreases fills@.len() - i,
    {
        numbers.push(fills[i].size);
        i += 1;
    }
    assert(numbers@.map_values(|d: Decimal| d@) =~= sizes(targets(fills@)));
    checked_sum(&numbers)
}

/// The total fee of fills; `None` if it overflows.
pub(crate) fn total_fee(fills: &Vec<&FillEvent>) -> (r: Option<Decimal>)
    ensures
        dec_opt(r) == sum_of(fees(targets(fills@))),
        sums_exactly(fees(targets(fills@)), dec_opt(r)),
{
    let mut numbers: Vec<Decimal> = Vec::new();
    let mut i: usize = 0;
    while i < fills.len()
        invariant
            0 <= i <= fills@.len(),
            numbers@.len() == i,
            forall|k: int| 0 <= k < i ==> (#[trigger] numbers@[k]) == fills@[k].fee,
        decreases fills@.len() - i,
    {
        numbers.push(fills[i].fee);
        i += 1;
    }
    assert(numbers@.map_values(|d: Decimal| d@) =~= fees(targets(fills@)));
    checked_sum(&numbers)
}

} // verus!
