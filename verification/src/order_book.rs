//! The matching engine.
//!
//! `OrderBook` owns the two sides of the book and, optionally, a channel on
//! which it publishes every fill. Its view is the pair of sides; the laws
//! that hold of every submission are stated in `engine`.

use crate::book_side::BookSide;
use crate::channel::{delivered, TradeChannel};
use crate::engine::{
    fills_best_first, fills_within_limit, lemma_cross_well_formed,
    lemma_resting_orders, lemma_submit_best_first, lemma_submit_conserves,
    lemma_submit_respects_limit, lemma_submit_well_formed, Book,
};
use crate::levels::{first_with_id, lemma_first_with_id_concat, orders_ascending, orders_of_type};
use crate::matching::{best_key, trade_sum};
use crate::models::{BidOrAsk, MatchedOrder, Order, OrderType};
use crate::price::Price;
use vstd::prelude::*;

verus! {

/// The book of one trading pair, with the channel its fills go out on.
#[derive(Debug)]
pub struct OrderBook {
    bids: BookSide,
    asks: BookSide,
    notifier: Option<TradeChannel>,
}

impl View for OrderBook {
    type V = Book;

    closed spec fn view(&self) -> Book {
        Book { bids: self.bids@, asks: self.asks@ }
    }
}

/// What is pending on an optional channel after `trades` were published to
/// it: every attached observer has them behind what it had pending where
/// there is a channel, and they go nowhere where there is none.
pub open spec fn published(
    pending: Option<Map<usize, Seq<MatchedOrder>>>,
    trades: Seq<MatchedOrder>,
) -> Option<Map<usize, Seq<MatchedOrder>>> {
    match pending {
        Some(waiting) => Some(delivered(waiting, trades)),
        None => None,
    }
}

impl OrderBook {
    /// The fills published and not yet taken, by observer and oldest first;
    /// `None` where the book has no channel.
    pub closed spec fn pending_trades(&self) -> Option<Map<usize, Seq<MatchedOrder>>> {
        match self.notifier {
            Some(channel) => Some(channel@),
            None => None,
        }
    }

    /// Each side knows which side it is.
    pub closed spec fn sides_in_place(&self) -> bool {
        self.bids.side() == BidOrAsk::Bid && self.asks.side() == BidOrAsk::Ask
    }

    /// The engine's invariant: the book it holds is well formed.
    pub open spec fn well_formed(&self) -> bool {
        self.sides_in_place() && self@.well_formed()
    }

    /// Every resting order: the bids by ascending price, then the asks by
    /// ascending price, first come first within one price.
    pub open spec fn all_orders(&self) -> Seq<Order> {
        orders_ascending(self@.bids) + orders_ascending(self@.asks)
    }

    /// An empty book that publishes its fills on `notifier`.
    pub fn new(notifier: TradeChannel) -> (book: OrderBook)
        ensures
            book.well_formed(),
            book@.bids == Map::<u128, Seq<Order>>::empty(),
            book@.asks == Map::<u128, Seq<Order>>::empty(),
            book.pending_trades() == Some(notifier@),
    {
        OrderBook {
            bids: BookSide::new(BidOrAsk::Bid),
            asks: BookSide::new(BidOrAsk::Ask),
            notifier: Some(notifier),
        }
    }

    /// Crosses `taker` against the side opposite to its own and publishes
    /// the fills.
    fn cross(&mut self, taker: &Order) -> (r: (Vec<MatchedOrder>, u64))
        requires
            old(self).well_formed(),
        ensures
            final(self).well_formed(),
            final(self)@ == old(self)@.cross(*taker).book,
            r.0@ == old(self)@.cross(*taker).trades,
            r.1 == old(self)@.cross(*taker).remaining,
            final(self).pending_trades() == published(old(self).pending_trades(), r.0@),
    {
        proof {
            lemma_cross_well_formed(self@, *taker);
        }
        let (trades, remaining) = match taker.bid_or_ask {
            BidOrAsk::Bid => self.asks.fill(taker),
            BidOrAsk::Ask => self.bids.fill(taker),
        };
        match &mut self.notifier {
            Some(channel) => {
                channel.send_all(&trades);
            },
            None => {},
        }
        (trades, remaining)
    }

    /// Matches `limit_order` against the opposite side, up to its price,
    /// and publishes the fills. Nothing is parked: the caller keeps what is
    /// left of the order.
    pub fn match_limit_order(&mut self, limit_order: Order) -> (trades: Vec<MatchedOrder>)
        requires
            old(self).well_formed(),
            limit_order.price is Some,
        ensures
            final(self).well_formed(),
            final(self)@ == old(self)@.cross(limit_order).book,
            trades@ == old(self)@.cross(limit_order).trades,
            final(self).pending_trades() == published(old(self).pending_trades(), trades@),
            trade_sum(trades@) <= limit_order.amount,
            fills_within_limit(limit_order, trades@),
            fills_best_first(limit_order.bid_or_ask, trades@),
    {
        proof {
            lemma_submit_conserves(self@, limit_order);
            lemma_submit_respects_limit(self@, limit_order);
            lemma_submit_best_first(self@, limit_order);
        }
        let (trades, _) = self.cross(&limit_order);
        trades
    }

    /// Matches `market_order` against the opposite side and publishes the
    /// fills. The order takes every level in turn; if it names a price, that
    /// price protects it as a limit would. Nothing is parked.
    pub fn match_market_order(&mut self, market_order: Order) -> (trades: Vec<MatchedOrder>)
        requires
            old(self).well_formed(),
        ensures
            final(self).well_formed(),
            final(self)@ == old(self)@.cross(market_order).book,
            trades@ == old(self)@.cross(market_order).trades,
            final(self).pending_trades() == published(old(self).pending_trades(), trades@),
            trade_sum(trades@) <= market_order.amount,
            fills_within_limit(market_order, trades@),
            fills_best_first(market_order.bid_or_ask, trades@),
    {
        proof {
            lemma_submit_conserves(self@, market_order);
            lemma_submit_respects_limit(self@, market_order);
            lemma_submit_best_first(self@, market_order);
        }
        let (trades, _) = self.cross(&market_order);
        trades
    }

    /// Admits `order` at time `timestamp`: matches it against the opposite
    /// side, publishes the fills, and parks what is left of a limit order on
    /// its own side. What is left of a market order is dropped.
    pub fn add_order(&mut self, order: Order, timestamp: u64) -> (r: &Self)
        requires
            old(self).well_formed(),
            order.order_type == OrderType::Limit ==> order.price is Some,
        ensures
            final(self).well_formed(),
            *r == *final(self),
            final(self)@ == old(self)@.submit(order.stamped(timestamp)).book,
            final(self).pending_trades() == published(
                old(self).pending_trades(),
                old(self)@.submit(order.stamped(timestamp)).trades,
            ),
    {
        let mut order = order;
        order.timestamp = timestamp;
        proof {
            lemma_submit_well_formed(self@, order);
            lemma_cross_well_formed(self@, order);
        }
        let (_, remaining) = self.cross(&order);
        if remaining > 0 && order.order_type == OrderType::Limit {
            order.amount = remaining;
            proof {
                Price::lemma_key_bijection(order.price->0, order.price->0.key());
            }
            match order.bid_or_ask {
                BidOrAsk::Bid => self.bids.push_back(order),
                BidOrAsk::Ask => self.asks.push_back(order),
            }
        }
        self
    }

    /// The highest price any resting bid is willing to pay.
    pub fn get_best_bid(&self) -> (r: Option<Price>)
        ensures
            r == match best_key(self@.bids, BidOrAsk::Bid) {
                Some(key) => Some(Price::from_key_spec(key)),
                None => None,
            },
    {
        self.bids.best_as(BidOrAsk::Bid)
    }

    /// The lowest price any resting ask is willing to accept.
    pub fn get_best_ask(&self) -> (r: Option<Price>)
        ensures
            r == match best_key(self@.asks, BidOrAsk::Ask) {
                Some(key) => Some(Price::from_key_spec(key)),
                None => None,
            },
    {
        self.asks.best_as(BidOrAsk::Ask)
    }

    /// The resting bids, by ascending price and first come first within
    /// one price.
    pub fn get_all_bids(&self) -> (orders: Vec<Order>)
        ensures
            orders@ == orders_ascending(self@.bids),
    {
        self.bids.orders()
    }

    /// The resting asks, by ascending price and first come first within
    /// one price.
    pub fn get_all_asks(&self) -> (orders: Vec<Order>)
        ensures
            orders@ == orders_ascending(self@.asks),
    {
        self.asks.orders()
    }

    /// Every resting order: the bids, then the asks.
    pub fn get_orders(&self) -> (orders: Vec<Order>)
        ensures
            orders@ == self.all_orders(),
    {
        let mut orders = self.bids.orders();
        self.asks.append_orders(&mut orders);
        orders
    }

    /// The first resting order with identifier `id`, looking through the
    /// bids and then the asks.
    pub fn get_order_by_id(&self, id: u64) -> (r: Option<&Order>)
        ensures
            match r {
                Some(order) => first_with_id(self.all_orders(), id) == Some(*order),
                None => first_with_id(self.all_orders(), id) is None,
            },
    {
        proof {
            lemma_first_with_id_concat(
                orders_ascending(self@.bids),
                orders_ascending(self@.asks),
                id,
            );
        }
        match self.bids.find(id) {
            Some(order) => Some(order),
            None => self.asks.find(id),
        }
    }
}

impl OrderBook {
    /// The resting orders of kind `kind`, in the order of `get_orders`.
    fn orders_of_type(&self, kind: OrderType) -> (orders: Vec<Order>)
        ensures
            orders@ == orders_of_type(self.all_orders(), kind),
    {
        let all = self.get_orders();
        let mut orders: Vec<Order> = Vec::new();
        let mut i: usize = 0;
        proof {
            reveal_with_fuel(Seq::filter, 1);
            assert(all@.take(0) =~= Seq::<Order>::empty());
        }
        while i < all.len()
            invariant
                i <= all.len(),
                orders@ == orders_of_type(all@.take(i as int), kind),
            decreases all.len() - i,
        {
            proof {
                assert(all@.take(i + 1) =~= all@.take(i as int).push(all@[i as int]));
                all@.take(i as int).lemma_filter_push(
                    all@[i as int],
                    |order: Order| order.order_type == kind,
                );
            }
            if all[i].order_type == kind {
                orders.push(all[i].clone());
            }
            i += 1;
        }
        assert(all@.take(all@.len() as int) =~= all@);
        orders
    }

    /// The resting market orders. Market orders never rest, so on a
    /// well-formed book there is none.
    pub fn get_market_orders_to_match(&self) -> (orders: Vec<Order>)
        ensures
            orders@ == orders_of_type(self.all_orders(), OrderType::Market),
            self.well_formed() ==> orders@ == Seq::<Order>::empty(),
    {
        proof {
            if self.well_formed() {
                lemma_resting_orders(self@);
            }
        }
        self.orders_of_type(OrderType::Market)
    }

    /// The resting limit orders, in the order of `get_orders`.
    pub fn get_limit_orders_to_match(&self) -> (orders: Vec<Order>)
        ensures
            orders@ == orders_of_type(self.all_orders(), OrderType::Limit),
    {
        self.orders_of_type(OrderType::Limit)
    }

    /// Attaches a new observer to the book's channel and returns its
    /// identifier; `None` where the book has no channel. Fills published
    /// before are not pending for it.
    pub fn subscribe(&mut self) -> (r: Option<usize>)
        ensures
            final(self)@ == old(self)@,
            old(self).well_formed() ==> final(self).well_formed(),
            match old(self).pending_trades() {
                Some(waiting) => {
                    &&& r is Some
                    &&& !waiting.contains_key(r->0)
                    &&& final(self).pending_trades() == Some(waiting.insert(r->0, Seq::empty()))
                },
                None => r is None && final(self).pending_trades() is None,
            },
    {
        match &mut self.notifier {
            Some(channel) => Some(channel.subscribe()),
            None => None,
        }
    }

    /// Detaches observer `observer`; what was pending for it is discarded.
    pub fn unsubscribe(&mut self, observer: usize)
        ensures
            final(self)@ == old(self)@,
            old(self).well_formed() ==> final(self).well_formed(),
            final(self).pending_trades() == match old(self).pending_trades() {
                Some(waiting) => Some(waiting.remove(observer)),
                None => None,
            },
    {
        match &mut self.notifier {
            Some(channel) => {
                channel.unsubscribe(observer);
            },
            None => {},
        }
    }

    /// Takes every fill pending for observer `observer`, oldest first. There
    /// is none where the book has no channel or no such observer is attached.
    pub fn take_trades(&mut self, observer: usize) -> (trades: Vec<MatchedOrder>)
        ensures
            final(self)@ == old(self)@,
            old(self).well_formed() ==> final(self).well_formed(),
            match old(self).pending_trades() {
                Some(waiting) if waiting.contains_key(observer) => {
                    &&& trades@ == waiting[observer]
                    &&& final(self).pending_trades() == Some(
                        waiting.insert(observer, Seq::empty()),
                    )
                },
                _ => {
                    &&& trades@ == Seq::<MatchedOrder>::empty()
                    &&& final(self).pending_trades() == old(self).pending_trades()
                },
            },
    {
        match &mut self.notifier {
            Some(channel) => channel.drain(observer),
            None => Vec::new(),
        }
    }
}

impl Default for OrderBook {
    /// An empty book that publishes nothing.
    fn default() -> (book: OrderBook)
        ensures
            book.well_formed(),
            book@.bids == Map::<u128, Seq<Order>>::empty(),
            book@.asks == Map::<u128, Seq<Order>>::empty(),
            book.pending_trades() is None,
    {
        OrderBook {
            bids: BookSide::new(BidOrAsk::Bid),
            asks: BookSide::new(BidOrAsk::Ask),
            notifier: None,
        }
    }
}

} // verus!
