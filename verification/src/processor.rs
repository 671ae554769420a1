//! The processing of fill events as they come in.
use crate::decimal::{sum_of, summable, sums_exactly, Decimal};
use crate::errors::{refused_with, OrderErrorKind, PolyfillError};
use crate::ledger::{
    all_fills, cut_to, fills_under, holds_own_fills, keeps_greatest, lemma_count_insert,
    lemma_cut_in_two_steps, lemma_keeps_all, lemma_keeps_greatest_unique,
    lemma_no_orders_no_fills, lemma_orders_at_most_fills, FillLedger,
};
use crate::order_id::id_lt;
use crate::totals::{references, sizes, total_size};
use crate::types::FillEvent;
use vstd::prelude::*;

verus! {

/// Why a fill event is refused, if it is.
pub open spec fn fill_refusal(fill: FillEvent) -> Option<(OrderErrorKind, Seq<char>)> {
    if fill.size@.0 == 0 {
        Some((OrderErrorKind::InvalidSize, "Fill size cannot be zero"@))
    } else if fill.price@.0 == 0 {
        Some((OrderErrorKind::InvalidPrice, "Fill price cannot be zero"@))
    } else {
        None
    }
}

/// The pending fills with one more behind those of its order.
pub open spec fn with_fill(
    pending: Map<Seq<char>, Seq<FillEvent>>,
    fill: FillEvent,
) -> Map<Seq<char>, Seq<FillEvent>> {
    pending.insert(fill.order_id@, fills_under(pending, fill.order_id@).push(fill))
}

/// Every order has pending fills, all of them its own and none that would be refused.
pub open spec fn holds_valid_fills(pending: Map<Seq<char>, Seq<FillEvent>>) -> bool {
    &&& holds_own_fills(pending)
    &&& forall|id: Seq<char>| #[trigger]
        pending.contains_key(id) ==> forall|i: int|
            0 <= i < pending[id].len() ==> fill_refusal(#[trigger] pending[id][i]) is None
}

/// Adding a valid fill leaves valid fills.
proof fn lemma_valid_with_fill(pending: Map<Seq<char>, Seq<FillEvent>>, fill: FillEvent)
    requires
        holds_valid_fills(pending),
        fill_refusal(fill) is None,
    ensures
        holds_valid_fills(with_fill(pending, fill)),
{
    let m = with_fill(pending, fill);
    let before = fills_under(pending, fill.order_id@);
    assert forall|id: Seq<char>| #[trigger] m.contains_key(id) implies m[id].len() > 0 && (forall|
        i: int,
    |
        0 <= i < m[id].len() ==> (#[trigger] m[id][i]).order_id@ == id && fill_refusal(
            m[id][i],
        ) is None) by {
        if id == fill.order_id@ {
            assert forall|i: int| 0 <= i < m[id].len() implies (#[trigger] m[id][i]).order_id@
                == id && fill_refusal(m[id][i]) is None by {
                if i < before.len() {
                    assert(pending.contains_key(id));
                    assert(m[id][i] == pending[id][i]);
                }
            }
        } else {
            assert(pending.contains_key(id));
            assert(m[id] == pending[id]);
        }
    }
}

/// What is left of valid fills is valid.
proof fn lemma_valid_within(
    pending: Map<Seq<char>, Seq<FillEvent>>,
    kept: Map<Seq<char>, Seq<FillEvent>>,
)
    requires
        holds_valid_fills(pending),
        kept.submap_of(pending),
    ensures
        holds_valid_fills(kept),
{
    assert forall|id: Seq<char>| #[trigger] kept.contains_key(id) implies pending.contains_key(id)
        && kept[id] == pending[id] by {
        assert(kept.dom().contains(id) && pending.dom().contains(id));
    }
}

/// Fill event processor for real-time updates.
#[derive(Debug)]
pub struct FillProcessor {
    /// Pending fills by order id
    pending_fills: FillLedger,
    /// Processed fills
    processed_fills: Vec<FillEvent>,
    /// Maximum pending fills to keep in memory
    max_pending: usize,
}

impl FillProcessor {
    /// The pending fills of each order.
    pub closed spec fn pending(&self) -> Map<Seq<char>, Seq<FillEvent>> {
        self.pending_fills@
    }

    /// The processed fills.
    pub closed spec fn processed(&self) -> Seq<FillEvent> {
        self.processed_fills@
    }

    /// The largest number of pending fills to keep.
    pub closed spec fn limit(&self) -> nat {
        self.max_pending as nat
    }

    /// The pending fills are kept in the order of their order ids.
    pub closed spec fn ordered(&self) -> bool {
        self.pending_fills.wf()
    }

    /// There are no more pending fills than there may be; each is valid and stands under its own
    /// order, and every order that stands there has one.
    pub open spec fn wf(&self) -> bool {
        &&& self.ordered()
        &&& self.pending().dom().finite()
        &&& holds_valid_fills(self.pending())
        &&& all_fills(self.pending()).len() <= self.limit()
    }

    /// A processor without fills.
    pub fn new(max_pending: usize) -> (r: FillProcessor)
        ensures
            r.wf(),
            r.pending() == Map::<Seq<char>, Seq<FillEvent>>::empty(),
            r.processed() == Seq::<FillEvent>::empty(),
            r.limit() == max_pending,
    {
        let r = FillProcessor {
            pending_fills: FillLedger::new(),
            processed_fills: Vec::new(),
            max_pending,
        };
        proof {
            lemma_no_orders_no_fills();
        }
        r
    }

    /// Processes a fill event: a valid one is added behind the pending fills of its order, and
    /// if that makes too many fills, orders are dropped, those with the smallest ids first, until
    /// it does not.
    pub fn process_fill(&mut self, fill: FillEvent) -> (r: Result<(), PolyfillError>)
        requires
            old(self).wf(),
        ensures
            final(self).wf(),
            refused_with(r, fill_refusal(fill)),
            r is Ok <==> fill.size@.0 != 0 && fill.price@.0 != 0,
            r is Err && fill.size@.0 == 0 ==> r->Err_0@ == (
                OrderErrorKind::InvalidSize,
                "Fill size cannot be zero"@,
            ),
            r is Err && fill.size@.0 != 0 ==> r->Err_0@ == (
                OrderErrorKind::InvalidPrice,
                "Fill price cannot be zero"@,
            ),
            r is Err ==> final(self).pending() == old(self).pending(),
            r is Ok ==> cut_to(
                with_fill(old(self).pending(), fill),
                old(self).limit(),
                final(self).pending(),
            ),
            final(self).processed() == old(self).processed(),
            final(self).limit() == old(self).limit(),
    {
        match self.validate_fill(&fill) {
            Err(e) => {
                return Err(e);
            },
            Ok(_) => {},
        }
        let order_id = fill.order_id.clone();
        let ghost with = with_fill(self.pending(), fill);
        self.pending_fills.append(fill.order_id.clone(), fill);
        proof {
            lemma_valid_with_fill(old(self).pending(), fill);
        }
        if self.is_order_complete(order_id.as_str()) {
            match self.pending_fills.remove(order_id.as_str()) {
                Some(mut fills) => {
                    self.processed_fills.append(&mut fills);
                },
                None => {},
            }
        }
        // Every order has a fill, so more orders than the limit are too many in any case.
        if self.pending_fills.len() > self.max_pending {
            self.cleanup_old_pending();
        }
        let ghost first = self.pending();
        self.pending_fills.keep_within(self.max_pending);
        proof {
            let kept = self.pending();
            if with.len() > self.limit() {
                lemma_cut_in_two_steps(with, first, kept, self.limit());
            }
            lemma_valid_within(with, kept);
            self.pending_fills.lemma_finite();
        }
        Ok(())
    }

    /// Refuses a fill event without a size or a price.
    pub fn validate_fill(&self, fill: &FillEvent) -> (r: Result<(), PolyfillError>)
        ensures
            refused_with(r, fill_refusal(*fill)),
            r is Ok <==> fill.size@.0 != 0 && fill.price@.0 != 0,
            r is Err && fill.size@.0 == 0 ==> r->Err_0@ == (
                OrderErrorKind::InvalidSize,
                "Fill size cannot be zero"@,
            ),
            r is Err && fill.size@.0 != 0 ==> r->Err_0@ == (
                OrderErrorKind::InvalidPrice,
                "Fill price cannot be zero"@,
            ),
    {
        if fill.size.is_zero() {
            return Err(
                PolyfillError::order(
                    "Fill size cannot be zero".to_string(),
                    OrderErrorKind::InvalidSize,
                ),
            );
        }
        if fill.price.is_zero() {
            return Err(
                PolyfillError::order(
                    "Fill price cannot be zero".to_string(),
                    OrderErrorKind::InvalidPrice,
                ),
            );
        }
        Ok(())
    }

    /// Whether an order is complete. Nothing tells so yet, and no order is.
    pub fn is_order_complete(&self, _order_id: &str) -> (r: bool)
        ensures
            !r,
    {
        false
    }

    /// Drops the pending fills of the orders with the smallest ids, as many as there are more
    /// orders than the limit; with as many orders as that, nothing changes.
    fn cleanup_old_pending(&mut self)
        requires
            old(self).ordered(),
            old(self).pending().len() >= old(self).limit(),
        ensures
            final(self).ordered(),
            keeps_greatest(old(self).pending(), final(self).pending(), old(self).limit()),
            old(self).pending().len() == old(self).limit() ==> final(self).pending() == old(
                self,
            ).pending(),
            final(self).processed() == old(self).processed(),
            final(self).limit() == old(self).limit(),
    {
        let to_remove: usize = self.pending_fills.len() - self.max_pending;
        self.pending_fills.drop_smallest(to_remove);
        proof {
            if old(self).pending().len() == old(self).limit() {
                old(self).pending_fills.lemma_finite();
                lemma_keeps_all(old(self).pending());
                lemma_keeps_greatest_unique(
                    old(self).pending(),
                    self.pending(),
                    old(self).pending(),
                    self.limit(),
                );
            }
        }
    }

    /// The pending fills of an order.
    pub fn get_pending_fills(&self, order_id: &str) -> (r: Option<&[FillEvent]>)
        requires
            self.wf(),
        ensures
            r is Some <==> self.pending().contains_key(order_id@),
            r matches Some(fills) ==> fills@ == self.pending()[order_id@],
    {
        self.pending_fills.get(order_id)
    }

    /// The processed fills.
    pub fn get_processed_fills(&self) -> (r: &[FillEvent])
        ensures
            r@ == self.processed(),
    {
        self.processed_fills.as_slice()
    }

    /// The volumes of the pending and of the processed fills can be added up without overflow.
    pub open spec fn volumes_fit(&self) -> bool {
        &&& sum_of(sizes(all_fills(self.pending()))) is Some
        &&& sum_of(sizes(self.processed())) is Some
    }

    /// `stats` counts the orders and fills and adds up their sizes, those of the pending fills
    /// in the order of their order ids. Where a volume can be written out in full, it is exact.
    pub open spec fn has_stats(&self, stats: FillProcessorStats) -> bool {
        &&& stats.pending_orders == self.pending().len()
        &&& stats.pending_fills == all_fills(self.pending()).len()
        &&& sum_of(sizes(all_fills(self.pending()))) == Some(stats.pending_volume@)
        &&& stats.processed_fills == self.processed().len()
        &&& sum_of(sizes(self.processed())) == Some(stats.processed_volume@)
        &&& sums_exactly(sizes(all_fills(self.pending())), Some(stats.pending_volume@))
        &&& sums_exactly(sizes(self.processed()), Some(stats.processed_volume@))
    }

    /// Counts and volumes of the fills.
    pub fn get_stats(&self) -> (r: FillProcessorStats)
        requires
            self.wf(),
            self.volumes_fit(),
        ensures
            self.has_stats(r),
    {
        let pending = self.pending_fills.all();
        let processed = references(&self.processed_fills);
        FillProcessorStats {
            pending_orders: self.pending_fills.len(),
            pending_fills: pending.len(),
            pending_volume: total_size(&pending).unwrap(),
            processed_fills: self.processed_fills.len(),
            processed_volume: total_size(&processed).unwrap(),
        }
    }

    /// Counts and volumes of the fills; `None` if a volume overflows.
    pub fn try_get_stats(&self) -> (r: Option<FillProcessorStats>)
        requires
            self.wf(),
        ensures
            r is Some <==> self.volumes_fit(),
            (exists|scale: nat| #[trigger] summable(sizes(all_fills(self.pending())), scale)) && (
            exists|scale: nat| #[trigger] summable(sizes(self.processed()), scale)) ==> r is Some,
            r matches Some(stats) ==> self.has_stats(stats),
    {
        let pending = self.pending_fills.all();
        let processed = references(&self.processed_fills);
        if total_size(&pending).is_some() && total_size(&processed).is_some() {
            Some(self.get_stats())
        } else {
            None
        }
    }
}

/// Fill processor statistics.
#[derive(Clone, Debug)]
pub struct FillProcessorStats {
    pub pending_orders: usize,
    pub pending_fills: usize,
    pub pending_volume: Decimal,
    pub processed_fills: usize,
    pub processed_volume: Decimal,
}

/// An accepted fill stands behind the earlier fills of its order, if its order is kept, and the
/// fills of every other order that is kept are as they were.
pub proof fn lemma_fill_goes_behind_its_order(
    pending: Map<Seq<char>, Seq<FillEvent>>,
    fill: FillEvent,
    max: nat,
    kept: Map<Seq<char>, Seq<FillEvent>>,
    id: Seq<char>,
)
    requires
        cut_to(with_fill(pending, fill), max, kept),
        kept.contains_key(id),
    ensures
        if id == fill.order_id@ {
            kept[id] == fills_under(pending, id).push(fill)
        } else {
            pending.contains_key(id) && kept[id] == pending[id]
        },
{
    assert(with_fill(pending, fill).contains_key(id));
    assert(kept[id] == with_fill(pending, fill)[id]);
}

/// A fill is accepted exactly if it has a size and a price, whatever else it says.
pub proof fn lemma_fill_with_size_and_price_is_accepted(fill: FillEvent)
    ensures
        fill_refusal(fill) is None <==> fill.size@.0 != 0 && fill.price@.0 != 0,
{
}

/// The fills that an order has once a fill has come in: those it had, and the fill behind them if
/// it is one of the order.
pub open spec fn fills_after(
    pending: Map<Seq<char>, Seq<FillEvent>>,
    fill: FillEvent,
    id: Seq<char>,
) -> Seq<FillEvent> {
    let had = if pending.contains_key(id) {
        pending[id]
    } else {
        Seq::empty()
    };
    if id == fill.order_id@ {
        had.push(fill)
    } else {
        had
    }
}

/// What an accepted fill does to the pending fills. No more fills are left than the limit. An order
/// that is left has the fills it had, and the new fill if that is one of its own. An order that is
/// not left had a smaller id than all that are. Dropping fewer orders would not have done: with the
/// greatest of those that were dropped there would be more fills than the limit.
pub proof fn lemma_accepted_fill(
    pending: Map<Seq<char>, Seq<FillEvent>>,
    fill: FillEvent,
    max: nat,
    kept: Map<Seq<char>, Seq<FillEvent>>,
    id: Seq<char>,
    dropped: Seq<char>,
)
    requires
        pending.dom().finite(),
        cut_to(with_fill(pending, fill), max, kept),
        pending.contains_key(dropped) || dropped == fill.order_id@,
        !kept.contains_key(dropped),
    ensures
        all_fills(kept).len() <= max,
        kept.contains_key(id) ==> kept[id] == fills_after(pending, fill, id) && (
        pending.contains_key(id) || id == fill.order_id@) && id_lt(dropped, id),
        (forall|d: Seq<char>|
            (pending.contains_key(d) || d == fill.order_id@) && !#[trigger] kept.contains_key(d)
                && d != dropped ==> id_lt(d, dropped)) ==> all_fills(kept).len() + fills_after(
            pending,
            fill,
            dropped,
        ).len() > max,
{
    let m = with_fill(pending, fill);
    assert(m.contains_key(dropped));
    assert(m[dropped] == fills_after(pending, fill, dropped));
    if kept.contains_key(id) {
        assert(kept.dom().contains(id) && m.dom().contains(id));
        assert(m.contains_key(id));
    }
    if forall|d: Seq<char>|
        (pending.contains_key(d) || d == fill.order_id@) && !#[trigger] kept.contains_key(d) && d
            != dropped ==> id_lt(d, dropped) {
        let more = kept.insert(dropped, m[dropped]);
        assert forall|k: Seq<char>| #[trigger] more.dom().contains(k) implies m.dom().contains(k)
            && more[k] == m[k] by {
            if k != dropped {
                assert(kept.dom().contains(k));
            }
            assert(m.dom().contains(k));
        }
        assert forall|d: Seq<char>, k: Seq<char>|
            #![trigger m.contains_key(d), more.contains_key(k)]
            m.contains_key(d) && !more.contains_key(d) && more.contains_key(k) implies id_lt(
            d,
            k,
        ) by {
            assert(!kept.contains_key(d));
            if k != dropped {
                assert(kept.contains_key(k));
            }
        }
        assert(keeps_greatest(m, more, kept.len() + 1));
        lemma_count_insert(kept, dropped, m[dropped]);
    }
}

/// As long as there is room for one more fill, an accepted fill drops nothing.
pub proof fn lemma_room_drops_nothing(
    pending: Map<Seq<char>, Seq<FillEvent>>,
    fill: FillEvent,
    max: nat,
    kept: Map<Seq<char>, Seq<FillEvent>>,
)
    requires
        pending.dom().finite(),
        all_fills(pending).len() < max,
        cut_to(with_fill(pending, fill), max, kept),
    ensures
        kept == pending.insert(fill.order_id@, fills_after(pending, fill, fill.order_id@)),
        all_fills(kept).len() == all_fills(pending).len() + 1,
{
    lemma_count_insert(
        pending,
        fill.order_id@,
        fills_under(pending, fill.order_id@).push(fill),
    );
}

/// No more orders have pending fills than there are pending fills, and no more than the limit.
pub proof fn lemma_orders_within_limit(processor: FillProcessor)
    requires
        processor.wf(),
    ensures
        processor.pending().len() <= all_fills(processor.pending()).len(),
        processor.pending().len() <= processor.limit(),
{
    lemma_orders_at_most_fills(processor.pending());
}

} // verus!
