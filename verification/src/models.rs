//! The value records exchanged with the engine: orders and trades.

use vstd::prelude::*;

pub use crate::price::Price;

verus! {

/// The side of the book an order belongs to.
#[derive(Debug, Clone, Copy, PartialEq, Eq, Structural, Hash)]
pub enum BidOrAsk {
    Bid,
    Ask,
}

/// Whether an order carries a binding limit price.
#[derive(Debug, Clone, Copy, PartialEq, Eq, Structural, Hash)]
pub enum OrderType {
    Market,
    Limit,
}

impl BidOrAsk {
    /// The side an order of this side trades against.
    pub open spec fn opposite_spec(self) -> BidOrAsk {
        match self {
            BidOrAsk::Bid => BidOrAsk::Ask,
            BidOrAsk::Ask => BidOrAsk::Bid,
        }
    }

    #[verifier::when_used_as_spec(opposite_spec)]
    pub fn opposite(self) -> (r: BidOrAsk)
        ensures
            r == self.opposite_spec(),
    {
        match self {
            BidOrAsk::Bid => BidOrAsk::Ask,
            BidOrAsk::Ask => BidOrAsk::Bid,
        }
    }
}

/// An order as submitted to, or resting in, the book. `amount` is the
/// quantity still to be filled, counted in indivisible lots.
#[derive(Debug)]
pub struct Order {
    pub id: u64,
    pub order_type: OrderType,
    pub trading_pair: String,
    pub amount: u64,
    pub price: Option<Price>,
    pub timestamp: u64,
    pub bid_or_ask: BidOrAsk,
}

impl Order {
    pub fn new(
        id: u64,
        order_type: OrderType,
        trading_pair: String,
        amount: u64,
        price: Option<Price>,
        timestamp: u64,
        bid_or_ask: BidOrAsk,
    ) -> (order: Order)
        ensures
            order == (Order { id, order_type, trading_pair, amount, price, timestamp, bid_or_ask }),
    {
        Order { id, order_type, trading_pair, amount, price, timestamp, bid_or_ask }
    }

    /// An order the engine accepts: it asks for a positive quantity, and a
    /// limit order names its price.
    pub open spec fn well_formed(&self) -> bool {
        &&& self.amount > 0
        &&& self.order_type == OrderType::Limit ==> self.price is Some
    }

    /// Decides `well_formed`, for callers that must validate before submitting.
    pub fn is_well_formed(&self) -> (r: bool)
        ensures
            r == self.well_formed(),
    {
        self.amount > 0 && (self.order_type == OrderType::Market || self.price.is_some())
    }

    /// This order with `amount` lots left and everything else unchanged.
    pub open spec fn with_amount(self, amount: u64) -> Order {
        Order { amount, ..self }
    }

    /// This order as admitted at time `timestamp`.
    pub open spec fn stamped(self, timestamp: u64) -> Order {
        Order { timestamp, ..self }
    }
}

impl Clone for Order {
    fn clone(&self) -> (r: Order)
        ensures
            r == *self,
    {
        Order {
            id: self.id,
            order_type: self.order_type,
            trading_pair: self.trading_pair.clone(),
            amount: self.amount,
            price: self.price,
            timestamp: self.timestamp,
            bid_or_ask: self.bid_or_ask,
        }
    }
}

/// One fill between an incoming order and a resting order.
#[derive(Debug, Clone, Copy, PartialEq, Eq, Structural)]
pub struct MatchedOrder {
    /// Identifier of the incoming order.
    pub id: u64,
    /// Identifier of the resting order it traded against.
    pub matched_with_id: u64,
    /// Kind of the incoming order.
    pub order_type: OrderType,
    /// Price level of the resting order, at which the fill happened.
    pub price: Price,
    /// Filled quantity, in lots.
    pub amount: u64,
    /// Side of the incoming order.
    pub bid_or_ask: BidOrAsk,
}

} // verus!
