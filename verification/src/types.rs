//! The values that orders, books and fills are made of.
use crate::decimal::Decimal;
use vstd::prelude::*;

verus! {

/// The side of an order.
#[derive(Clone, Copy, Debug, PartialEq, Eq, Structural)]
pub enum Side {
    BUY,
    SELL,
}

/// A 20-byte account address.
#[derive(Clone, Copy, Debug, PartialEq, Eq)]
pub struct Address {
    pub bytes: [u8; 20],
}

impl Address {
    /// The address whose bytes are all zero.
    pub open spec fn is_zero(self) -> bool {
        self.bytes@ == Seq::new(20, |i: int| 0u8)
    }

    /// The address whose bytes are all zero.
    pub fn zero() -> (r: Address)
        ensures
            r.is_zero(),
            forall|i: int| 0 <= i < 20 ==> #[trigger] r.bytes@[i] == 0,
    {
        let bytes = [0u8; 20];
        assert(bytes@ =~= Seq::new(20, |i: int| 0u8));
        Address { bytes }
    }
}

/// An instant in UTC: the whole seconds since 1970 and the nanoseconds beyond them.
#[derive(Clone, Copy, Debug, PartialEq, Eq, Structural)]
pub struct Timestamp {
    pub secs: i64,
    pub nanos: u32,
}

/// One price level of an order book.
#[derive(Clone, Copy, Debug)]
pub struct BookLevel {
    pub price: Decimal,
    pub size: Decimal,
}

impl View for BookLevel {
    type V = ((int, nat), (int, nat));

    open spec fn view(&self) -> ((int, nat), (int, nat)) {
        (self.price@, self.size@)
    }
}

/// The price and the size of each level.
pub open spec fn level_views(levels: Seq<BookLevel>) -> Seq<((int, nat), (int, nat))> {
    levels.map_values(|l: BookLevel| l@)
}

/// The view of levels has the price and the size of each, in their order.
pub proof fn lemma_level_views(levels: Seq<BookLevel>, i: int)
    requires
        0 <= i < levels.len(),
    ensures
        level_views(levels).len() == levels.len(),
        level_views(levels)[i] == (levels[i].price@, levels[i].size@),
{
}

/// A request to trade an amount at the best prices there are.
#[derive(Clone, Debug)]
pub struct MarketOrderRequest {
    pub token_id: String,
    pub side: Side,
    pub amount: Decimal,
    pub slippage_tolerance: Option<Decimal>,
    pub client_id: Option<String>,
}

/// A request to trade a size at a price or better.
#[derive(Clone, Debug)]
pub struct OrderRequest {
    pub token_id: String,
    pub side: Side,
    pub price: Decimal,
    pub size: Decimal,
    pub client_id: Option<String>,
}

/// A trade that filled an order in part or in full.
#[derive(Debug)]
pub struct FillEvent {
    pub id: String,
    pub order_id: String,
    pub token_id: String,
    pub side: Side,
    pub price: Decimal,
    pub size: Decimal,
    pub timestamp: Timestamp,
    pub maker_address: Address,
    pub taker_address: Address,
    pub fee: Decimal,
}

impl Clone for FillEvent {
    fn clone(&self) -> (r: FillEvent)
        ensures
            r == *self,
    {
        FillEvent {
            id: self.id.clone(),
            order_id: self.order_id.clone(),
            token_id: self.token_id.clone(),
            side: self.side,
            price: self.price,
            size: self.size,
            timestamp: self.timestamp,
            maker_address: self.maker_address,
            taker_address: self.taker_address,
            fee: self.fee,
        }
    }
}

/// The text of an order's own id, or a stand-in for an order that has none.
pub open spec fn id_or(client_id: Option<String>, stand_in: Seq<char>) -> Seq<char> {
    match client_id {
        Some(id) => id@,
        None => stand_in,
    }
}

/// The order's own id, or a stand-in for an order that has none.
pub(crate) fn order_id_or(client_id: &Option<String>, stand_in: &str) -> (r: String)
    ensures
        r@ == id_or(*client_id, stand_in@),
{
    match client_id {
        Some(id) => id.clone(),
        None => stand_in.to_string(),
    }
}

} // verus!
