//! The order book that orders are filled against.
use crate::decimal::{dec_lt, lemma_lt_transitive};
use crate::types::BookLevel;
use vstd::prelude::*;

verus! {

/// Each bid is dearer than the bids behind it.
pub open spec fn falling_prices(levels: Seq<BookLevel>) -> bool {
    forall|i: int, j: int|
        0 <= i < j < levels.len() ==> dec_lt(
            #[trigger] levels[j].price@,
            #[trigger] levels[i].price@,
        )
}

/// Each ask is cheaper than the asks behind it.
pub open spec fn rising_prices(levels: Seq<BookLevel>) -> bool {
    forall|i: int, j: int|
        0 <= i < j < levels.len() ==> dec_lt(
            #[trigger] levels[i].price@,
            #[trigger] levels[j].price@,
        )
}

/// The levels of a book, the best price first on either side.
#[derive(Debug)]
pub struct OrderBook {
    bids: Vec<BookLevel>,
    asks: Vec<BookLevel>,
}

impl OrderBook {
    /// The bids, the dearest first.
    pub closed spec fn bid_levels(self) -> Seq<BookLevel> {
        self.bids@
    }

    /// The asks, the cheapest first.
    pub closed spec fn ask_levels(self) -> Seq<BookLevel> {
        self.asks@
    }

    /// Either side has its best price first and no price twice.
    #[verifier::type_invariant]
    pub open spec fn best_first(&self) -> bool {
        falling_prices(self.bid_levels()) && rising_prices(self.ask_levels())
    }

    /// A book of these levels; `None` unless each side has its best price first and no price
    /// twice.
    pub fn from_levels(bids: Vec<BookLevel>, asks: Vec<BookLevel>) -> (r: Option<OrderBook>)
        ensures
            r is Some <==> falling_prices(bids@) && rising_prices(asks@),
            r is Some <==> (forall|i: int, j: int|
                0 <= i < j < bids@.len() ==> dec_lt(
                    #[trigger] bids@[j].price@,
                    #[trigger] bids@[i].price@,
                )) && (forall|i: int, j: int|
                0 <= i < j < asks@.len() ==> dec_lt(
                    #[trigger] asks@[i].price@,
                    #[trigger] asks@[j].price@,
                )),
            r matches Some(book) ==> book.bid_levels() == bids@ && book.ask_levels() == asks@,
    {
        if prices_fall(&bids) && prices_rise(&asks) {
            Some(OrderBook { bids, asks })
        } else {
            None
        }
    }

    /// The bids, the dearest first.
    pub fn bids(&self) -> (r: &Vec<BookLevel>)
        ensures
            r@ == self.bid_levels(),
            falling_prices(r@),
    {
        proof {
            use_type_invariant(self);
        }
        &self.bids
    }

    /// The asks, the cheapest first.
    pub fn asks(&self) -> (r: &Vec<BookLevel>)
        ensures
            r@ == self.ask_levels(),
            rising_prices(r@),
    {
        proof {
            use_type_invariant(self);
        }
        &self.asks
    }

    /// The dearest bid.
    pub fn best_bid(&self) -> (r: Option<&BookLevel>)
        ensures
            r is None <==> self.bid_levels().len() == 0,
            r matches Some(best) ==> *best == self.bid_levels()[0],
            r matches Some(best) ==> forall|i: int|
                0 < i < self.bid_levels().len() ==> dec_lt(
                    #[trigger] self.bid_levels()[i].price@,
                    best.price@,
                ),
    {
        proof {
            use_type_invariant(self);
        }
        if self.bids.len() == 0 {
            None
        } else {
            Some(&self.bids[0])
        }
    }

    /// The cheapest ask.
    pub fn best_ask(&self) -> (r: Option<&BookLevel>)
        ensures
            r is None <==> self.ask_levels().len() == 0,
            r matches Some(best) ==> *best == self.ask_levels()[0],
            r matches Some(best) ==> forall|i: int|
                0 < i < self.ask_levels().len() ==> dec_lt(
                    best.price@,
                    #[trigger] self.ask_levels()[i].price@,
                ),
    {
        proof {
            use_type_invariant(self);
        }
        if self.asks.len() == 0 {
            None
        } else {
            Some(&self.asks[0])
        }
    }
}

fn prices_rise(levels: &Vec<BookLevel>) -> (r: bool)
    ensures
        r == rising_prices(levels@),
{
    let mut k: usize = 1;
    while k < levels.len()
        invariant
            1 <= k,
            k <= levels.len() || levels.len() == 0,
            forall|i: int, j: int|
                0 <= i < j < k && j < levels.len() ==> dec_lt(
                    #[trigger] levels@[i].price@,
                    #[trigger] levels@[j].price@,
                ),
        decreases levels.len() - k,
    {
        if !levels[k - 1].price.less_than(levels[k].price) {
            assert(!dec_lt(levels@[k - 1].price@, levels@[k as int].price@));
            return false;
        }
        proof {
            assert forall|i: int| 0 <= i < k implies dec_lt(
                #[trigger] levels@[i].price@,
                levels@[k as int].price@,
            ) by {
                if i < k - 1 {
                    lemma_lt_transitive(
                        levels@[i].price@,
                        levels@[k - 1].price@,
                        levels@[k as int].price@,
                    );
                }
            }
        }
        k += 1;
    }
    true
}

fn prices_fall(levels: &Vec<BookLevel>) -> (r: bool)
    ensures
        r == falling_prices(levels@),
{
    let mut k: usize = 1;
    while k < levels.len()
        invariant
            1 <= k,
            k <= levels.len() || levels.len() == 0,
            forall|i: int, j: int|
                0 <= i < j < k && j < levels.len() ==> dec_lt(
                    #[trigger] levels@[j].price@,
                    #[trigger] levels@[i].price@,
                ),
        decreases levels.len() - k,
    {
        if !levels[k].price.less_than(levels[k - 1].price) {
            assert(!dec_lt(levels@[k as int].price@, levels@[k - 1].price@));
            return false;
        }
        proof {
            assert forall|i: int| 0 <= i < k implies dec_lt(
                levels@[k as int].price@,
                #[trigger] levels@[i].price@,
            ) by {
                if i < k - 1 {
                    lemma_lt_transitive(
                        levels@[k as int].price@,
                        levels@[k - 1].price@,
                        levels@[i].price@,
                    );
                }
            }
        }
        k += 1;
    }
    true
}

} // verus!
