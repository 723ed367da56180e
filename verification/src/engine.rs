//! The book as a whole, and what submitting an order does to it.
//!
//! A book is a bid side and an ask side. An incoming order crosses the side
//! opposite to its own; what is left of a limit order then rests on its own
//! side, and what is left of a market order is dropped. The laws proved here
//! hold of every submission to a well-formed book.

use crate::levels::{
    lemma_amount_sum_push, lemma_orders_ascending_rest, lemma_total_amount_insert,
    lemma_total_amount_remove, orders_ascending, orders_of_type, queue_at, rests_at, rests_on,
    side_well_formed, total_amount, with_order_queued,
};
use crate::matching::{
    best_key, favours, fill_side, lemma_best_key, lemma_fill_side_best_first,
    lemma_fill_side_conserves, lemma_fill_side_exhausts_reach, lemma_fill_side_respects_limit,
    lemma_fill_side_well_formed, may_cross, trade_sum,
};
use crate::models::{BidOrAsk, MatchedOrder, Order, OrderType};
use crate::price::Price;
use vstd::prelude::*;

verus! {

/// The two sides of a book, each a map from price key to the queue of
/// orders resting at that price.
pub struct Book {
    pub bids: Map<u128, Seq<Order>>,
    pub asks: Map<u128, Seq<Order>>,
}

/// The outcome of crossing an order against a book.
pub struct Crossing {
    /// The book after the fills.
    pub book: Book,
    /// The fills, in the order they happened.
    pub trades: Seq<MatchedOrder>,
    /// What is left of the order's quantity.
    pub remaining: u64,
}

/// The outcome of submitting an order to a book.
pub struct Submission {
    /// The book after the order was matched and, if need be, parked.
    pub book: Book,
    /// The fills, in the order they happened.
    pub trades: Seq<MatchedOrder>,
    /// The quantity of the order that now rests on the book.
    pub rested: u64,
    /// The quantity of the order that was neither filled nor parked.
    pub dropped: u64,
}

/// What a sequence of submissions leaves behind.
pub struct History {
    /// The book after the last submission.
    pub book: Book,
    /// The quantity traded over all submissions.
    pub traded: nat,
    /// The quantity dropped over all submissions.
    pub dropped: nat,
}

impl Book {
    /// The side that holds orders of side `side`.
    pub open spec fn resting_with(self, side: BidOrAsk) -> Map<u128, Seq<Order>> {
        match side {
            BidOrAsk::Bid => self.bids,
            BidOrAsk::Ask => self.asks,
        }
    }

    /// The side that an order of side `side` trades against.
    pub open spec fn resting_against(self, side: BidOrAsk) -> Map<u128, Seq<Order>> {
        self.resting_with(side.opposite())
    }

    /// This book with the side that holds orders of side `side` replaced.
    pub open spec fn with_side(self, side: BidOrAsk, levels: Map<u128, Seq<Order>>) -> Book {
        match side {
            BidOrAsk::Bid => Book { bids: levels, asks: self.asks },
            BidOrAsk::Ask => Book { bids: self.bids, asks: levels },
        }
    }

    /// No bid is priced at or above an ask.
    pub open spec fn not_crossed(self) -> bool {
        forall|bid: u128, ask: u128| #[trigger]
            self.bids.contains_key(bid) && #[trigger] self.asks.contains_key(ask) ==> bid < ask
    }

    /// Both sides are well formed and the book is not crossed.
    pub open spec fn well_formed(self) -> bool {
        &&& side_well_formed(self.bids, BidOrAsk::Bid)
        &&& side_well_formed(self.asks, BidOrAsk::Ask)
        &&& self.not_crossed()
    }

    /// The quantity resting on both sides together.
    pub open spec fn total_amount(self) -> nat {
        total_amount(self.bids) + total_amount(self.asks)
    }

    /// Crosses `taker` against the side opposite to its own.
    pub open spec fn cross(self, taker: Order) -> Crossing {
        let filled = fill_side(self.resting_against(taker.bid_or_ask), taker, taker.amount);
        Crossing {
            book: self.with_side(taker.bid_or_ask.opposite(), filled.levels),
            trades: filled.trades,
            remaining: filled.remaining,
        }
    }

    /// Submits `order`: crosses it, then parks what is left of a limit order
    /// at its price, behind the orders already resting there.
    pub open spec fn submit(self, order: Order) -> Submission {
        let crossed = self.cross(order);
        if crossed.remaining > 0 && order.order_type == OrderType::Limit && order.price is Some {
            Submission {
                book: crossed.book.with_side(
                    order.bid_or_ask,
                    with_order_queued(
                        crossed.book.resting_with(order.bid_or_ask),
                        order.price->0.key(),
                        order.with_amount(crossed.remaining),
                    ),
                ),
                trades: crossed.trades,
                rested: crossed.remaining,
                dropped: 0,
            }
        } else {
            Submission {
                book: crossed.book,
                trades: crossed.trades,
                rested: 0,
                dropped: crossed.remaining,
            }
        }
    }

    /// Submits `orders` one after the other, starting from this book.
    pub open spec fn replay(self, orders: Seq<Order>) -> History
        decreases orders.len(),
    {
        if orders.len() == 0 {
            History { book: self, traded: 0, dropped: 0 }
        } else {
            let before = self.replay(orders.drop_last());
            let last = before.book.submit(orders.last());
            History {
                book: last.book,
                traded: before.traded + trade_sum(last.trades),
                dropped: before.dropped + last.dropped as nat,
            }
        }
    }
}

/// The quantities asked for by a sequence of orders, added up.
pub open spec fn submitted(orders: Seq<Order>) -> nat
    decreases orders.len(),
{
    if orders.len() == 0 {
        0
    } else {
        submitted(orders.drop_last()) + orders.last().amount as nat
    }
}

/// Every fill of `trades` is at a price that `taker`'s own price lets it
/// reach.
pub open spec fn fills_within_limit(taker: Order, trades: Seq<MatchedOrder>) -> bool {
    forall|i: int| 0 <= i < trades.len() ==> may_cross(taker, (#[trigger] trades[i]).price.key())
}

/// The fills of `trades` come best price first for a taker of side `side`.
pub open spec fn fills_best_first(side: BidOrAsk, trades: Seq<MatchedOrder>) -> bool {
    forall|i: int, j: int|
        0 <= i < j < trades.len() ==> favours(
            side,
            (#[trigger] trades[i]).price.key(),
            (#[trigger] trades[j]).price.key(),
        )
}

/// Crossing keeps a book well formed: every resting order still asks for a
/// positive quantity, no price level has an empty queue, and no bid is
/// priced at or above an ask.
pub proof fn lemma_cross_well_formed(book: Book, taker: Order)
    requires
        book.well_formed(),
    ensures
        book.cross(taker).book.well_formed(),
        book.cross(taker).book.resting_with(taker.bid_or_ask) == book.resting_with(
            taker.bid_or_ask,
        ),
{
    let side = taker.bid_or_ask.opposite();
    lemma_fill_side_well_formed(book.resting_with(side), taker, taker.amount, side);
}

/// Submitting keeps a book well formed: after every submission every
/// resting order asks for a positive quantity, no price level has an empty
/// queue, and the best bid is strictly below the best ask.
pub proof fn lemma_submit_well_formed(book: Book, order: Order)
    requires
        book.well_formed(),
    ensures
        book.submit(order).book.well_formed(),
{
    let side = order.bid_or_ask;
    let crossed = book.cross(order);
    lemma_cross_well_formed(book, order);
    if crossed.remaining > 0 && order.order_type == OrderType::Limit && order.price is Some {
        let key = order.price->0.key();
        let own = crossed.book.resting_with(side);
        let parked = order.with_amount(crossed.remaining);
        let after = with_order_queued(own, key, parked);
        Price::lemma_key_bijection(order.price->0, key);
        assert(rests_at(parked, key, side));
        assert(side_well_formed(after, side)) by {
            assert forall|k: u128| #[trigger] after.contains_key(k) implies after[k].len() > 0
                && crate::levels::queue_rests_at(after[k], k, side) by {
                if k == key {
                    let queue = queue_at(own, key);
                    assert forall|i: int| 0 <= i < after[k].len() implies rests_at(
                        #[trigger] after[k][i],
                        k,
                        side,
                    ) by {
                        if i < queue.len() {
                            assert(own.contains_key(key));
                            assert(after[k][i] == own[key][i]);
                        }
                    }
                } else {
                    assert(own.contains_key(k));
                }
            }
        }
        lemma_fill_side_exhausts_reach(book.resting_against(side), order, order.amount);
        let out = book.submit(order).book;
        assert(out.not_crossed()) by {
            assert forall|bid: u128, ask: u128| #[trigger]
                out.bids.contains_key(bid) && #[trigger] out.asks.contains_key(
                    ask,
                ) implies bid < ask by {
                match side {
                    BidOrAsk::Bid => {
                        assert(crossed.book.asks.contains_key(ask));
                        if bid != key {
                            assert(crossed.book.bids.contains_key(bid));
                        }
                    },
                    BidOrAsk::Ask => {
                        assert(crossed.book.bids.contains_key(bid));
                        if ask != key {
                            assert(crossed.book.asks.contains_key(ask));
                        }
                    },
                }
            }
        }
    }
}

/// A limit order whose price reaches no level of the opposite side trades
/// nothing and rests whole: its own side holds it, unchanged, behind the
/// orders that were already waiting at its price, and nothing else moves.
pub proof fn lemma_submit_without_cross(book: Book, order: Order)
    requires
        book.well_formed(),
        order.order_type == OrderType::Limit,
        order.price is Some,
        order.amount > 0,
        forall|k: u128| #[trigger]
            book.resting_against(order.bid_or_ask).contains_key(k) ==> !may_cross(order, k),
    ensures
        ({
            let out = book.submit(order);
            let side = order.bid_or_ask;
            let key = order.price->0.key();
            &&& out.trades == Seq::<MatchedOrder>::empty()
            &&& out.rested == order.amount
            &&& out.book.resting_against(side) == book.resting_against(side)
            &&& out.book.resting_with(side) == with_order_queued(
                book.resting_with(side),
                key,
                order,
            )
            &&& queue_at(out.book.resting_with(side), key) == queue_at(
                book.resting_with(side),
                key,
            ).push(order)
        }),
{
    let side = order.bid_or_ask;
    lemma_best_key(book.resting_against(side), side.opposite());
    assert(order.with_amount(order.amount) == order);
    assert(book.with_side(side.opposite(), book.resting_against(side)) == book);
}

/// An order ends in one of three ways. It is filled when nothing of it is
/// left. What is left of a limit order with a price is parked, never
/// dropped. What is left of any other order is dropped, never parked.
pub proof fn lemma_submit_outcome(book: Book, order: Order)
    ensures
        ({
            let out = book.submit(order);
            let left = book.cross(order).remaining;
            &&& out.trades == book.cross(order).trades
            &&& out.rested == 0 || out.dropped == 0
            &&& out.rested + out.dropped == left
            &&& out.rested > 0 <==> left > 0 && order.order_type == OrderType::Limit
                && order.price is Some
            &&& left == 0 || !(order.order_type == OrderType::Limit && order.price is Some)
                ==> out.book == book.cross(order).book
        }),
{
}

/// Quantity is conserved by a submission. The order's quantity is what was
/// traded, plus what now rests, plus what was dropped; the sum of the fills
/// never exceeds it. The side it traded against lost exactly what was
/// traded, and its own side gained exactly what now rests.
pub proof fn lemma_submit_conserves(book: Book, order: Order)
    requires
        book.well_formed(),
    ensures
        ({
            let out = book.submit(order);
            let side = order.bid_or_ask;
            &&& trade_sum(out.trades) + out.rested + out.dropped == order.amount
            &&& trade_sum(out.trades) <= order.amount
            &&& total_amount(out.book.resting_against(side)) + trade_sum(out.trades)
                == total_amount(book.resting_against(side))
            &&& total_amount(out.book.resting_with(side)) == total_amount(book.resting_with(side))
                + out.rested
            &&& order.order_type == OrderType::Limit && order.price is Some ==> out.dropped == 0
        }),
{
    let side = order.bid_or_ask;
    let crossed = book.cross(order);
    lemma_fill_side_conserves(book.resting_against(side), order, order.amount);
    if crossed.remaining > 0 && order.order_type == OrderType::Limit && order.price is Some {
        let key = order.price->0.key();
        let own = crossed.book.resting_with(side);
        let parked = order.with_amount(crossed.remaining);
        lemma_total_amount_insert(own, key, queue_at(own, key).push(parked));
        lemma_amount_sum_push(queue_at(own, key), parked);
        if own.contains_key(key) {
            lemma_total_amount_remove(own, key);
        } else {
            assert(own.remove(key) =~= own);
        }
    }
}

/// No fill of a submission is at a price beyond the order's own: a buyer
/// with a price never pays more, a seller with a price never gets less.
pub proof fn lemma_submit_respects_limit(book: Book, order: Order)
    requires
        book.well_formed(),
    ensures
        fills_within_limit(order, book.submit(order).trades),
        fills_within_limit(order, book.cross(order).trades),
{
    lemma_fill_side_respects_limit(book.resting_against(order.bid_or_ask), order, order.amount);
}

/// The same said of prices: where the order names a price, no fill of a
/// buyer is at a price above it and no fill of a seller at a price below it.
pub proof fn lemma_fills_within_limit_prices(taker: Order, trades: Seq<MatchedOrder>)
    requires
        fills_within_limit(taker, trades),
        taker.price is Some,
    ensures
        forall|i: int|
            0 <= i < trades.len() ==> match taker.bid_or_ask {
                BidOrAsk::Bid => !taker.price->0.below(&(#[trigger] trades[i]).price),
                BidOrAsk::Ask => !trades[i].price.below(&taker.price->0),
            },
{
    assert forall|i: int| 0 <= i < trades.len() implies match taker.bid_or_ask {
        BidOrAsk::Bid => !taker.price->0.below(&(#[trigger] trades[i]).price),
        BidOrAsk::Ask => !trades[i].price.below(&taker.price->0),
    } by {
        Price::lemma_key_order(taker.price->0, trades[i].price);
        Price::lemma_key_order(trades[i].price, taker.price->0);
    }
}

/// The fills of a submission come best price first: ascending prices for a
/// buyer, descending prices for a seller.
pub proof fn lemma_submit_best_first(book: Book, order: Order)
    requires
        book.well_formed(),
    ensures
        fills_best_first(order.bid_or_ask, book.submit(order).trades),
        fills_best_first(order.bid_or_ask, book.cross(order).trades),
{
    lemma_fill_side_best_first(book.resting_against(order.bid_or_ask), order, order.amount);
}

/// In a well-formed book that holds both bids and asks the best bid is
/// strictly below the best ask.
pub proof fn lemma_best_bid_below_best_ask(book: Book)
    requires
        book.well_formed(),
    ensures
        best_key(book.bids, BidOrAsk::Bid) is Some && best_key(book.asks, BidOrAsk::Ask) is Some
            ==> best_key(book.bids, BidOrAsk::Bid)->0 < best_key(book.asks, BidOrAsk::Ask)->0,
{
    lemma_best_key(book.bids, BidOrAsk::Bid);
    lemma_best_key(book.asks, BidOrAsk::Ask);
}

/// No market order rests on a well-formed book, and every resting order
/// asks for a positive quantity.
pub proof fn lemma_resting_orders(book: Book)
    requires
        book.well_formed(),
    ensures
        forall|i: int|
            0 <= i < orders_ascending(book.bids).len() ==> rests_on(
                #[trigger] orders_ascending(book.bids)[i],
                BidOrAsk::Bid,
            ),
        forall|i: int|
            0 <= i < orders_ascending(book.asks).len() ==> rests_on(
                #[trigger] orders_ascending(book.asks)[i],
                BidOrAsk::Ask,
            ),
        orders_of_type(
            orders_ascending(book.bids) + orders_ascending(book.asks),
            OrderType::Market,
        ) == Seq::<Order>::empty(),
{
    lemma_orders_ascending_rest(book.bids, BidOrAsk::Bid);
    lemma_orders_ascending_rest(book.asks, BidOrAsk::Ask);
    let all = orders_ascending(book.bids) + orders_ascending(book.asks);
    let is_market = |order: Order| order.order_type == OrderType::Market;
    assert forall|i: int| 0 <= i < all.len() implies !is_market(#[trigger] all[i]) by {
        if i < orders_ascending(book.bids).len() {
            assert(all[i] == orders_ascending(book.bids)[i]);
        } else {
            assert(all[i] == orders_ascending(book.asks)[i - orders_ascending(book.bids).len()]);
        }
    }
    all.lemma_all_neg_filter_empty(is_market);
}

/// Whatever is submitted to a well-formed book, and in whatever order, the
/// book stays well formed: every resting order asks for a positive
/// quantity, no price level has an empty queue, and the best bid stays
/// strictly below the best ask.
pub proof fn lemma_replay_well_formed(book: Book, orders: Seq<Order>)
    requires
        book.well_formed(),
    ensures
        book.replay(orders).book.well_formed(),
    decreases orders.len(),
{
    if orders.len() > 0 {
        lemma_replay_well_formed(book, orders.drop_last());
        lemma_submit_well_formed(book.replay(orders.drop_last()).book, orders.last());
    }
}

/// Quantity is conserved over any sequence of submissions. What rested at
/// the start plus what was submitted equals what rests at the end, plus
/// what was dropped, plus what was traded counted twice: once for the
/// incoming order of each fill and once for the resting one.
pub proof fn lemma_replay_conserves(book: Book, orders: Seq<Order>)
    requires
        book.well_formed(),
    ensures
        book.replay(orders).book.total_amount() + 2 * book.replay(orders).traded + book.replay(
            orders,
        ).dropped == book.total_amount() + submitted(orders),
    decreases orders.len(),
{
    if orders.len() > 0 {
        let before = book.replay(orders.drop_last());
        lemma_replay_conserves(book, orders.drop_last());
        lemma_replay_well_formed(book, orders.drop_last());
        lemma_submit_conserves(before.book, orders.last());
    }
}

} // verus!
