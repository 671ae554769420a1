//! Price arithmetic.
use crate::decimal::{
    dec_lt, dec_opt, dec_zero, decimal_difference, decimal_product, decimal_quotient, Dec, Decimal,
};
use crate::types::Side;
use vstd::prelude::*;

verus! {

/// `executed` is a worse price than `reference` for an order of this side.
pub open spec fn worse_than(reference: Dec, executed: Dec, side: Side) -> bool {
    match side {
        Side::BUY => dec_lt(reference, executed),
        Side::SELL => dec_lt(executed, reference),
    }
}

/// By how much the executed price is worse; `None` if that cannot be computed.
pub open spec fn price_gap(reference: Dec, executed: Dec, side: Side) -> Option<Dec> {
    match side {
        Side::BUY => decimal_difference(executed, reference),
        Side::SELL => decimal_difference(reference, executed),
    }
}

/// By how many per cent of the reference price the executed price is worse; zero if it is not
/// worse. `None` if that cannot be computed.
pub open spec fn slippage_pct(reference: Dec, executed: Dec, side: Side) -> Option<Dec> {
    if !worse_than(reference, executed, side) {
        Some(dec_zero())
    } else {
        match price_gap(reference, executed, side) {
            Some(gap) => match decimal_quotient(gap, reference) {
                Some(share) => decimal_product(share, (100, 0)),
                None => None,
            },
            None => None,
        }
    }
}

/// By how many per cent of the reference price the executed price is worse; zero if it is not
/// worse. `None` if that cannot be computed. Where the reference price is positive, the slippage
/// is never negative.
pub fn calculate_slippage(reference: Decimal, executed: Decimal, side: Side) -> (r: Option<Decimal>)
    ensures
        dec_opt(r) == slippage_pct(reference@, executed@, side),
        reference@.0 > 0 && r is Some ==> r->0@.0 >= 0,
{
    let worse = match side {
        Side::BUY => reference.less_than(executed),
        Side::SELL => executed.less_than(reference),
    };
    if !worse {
        return Some(Decimal::zero());
    }
    let gap = match side {
        Side::BUY => executed.checked_sub(reference),
        Side::SELL => reference.checked_sub(executed),
    };
    match gap {
        Some(gap) => match gap.checked_div(reference) {
            Some(share) => share.checked_mul(Decimal::from_u32(100)),
            None => None,
        },
        None => None,
    }
}

} // verus!
