//! What crossing an incoming order against one side of the book means.
//!
//! The incoming order, the taker, walks the opposite side from its best
//! price outward. At each price level that its own price lets it reach it
//! consumes the queue from the head, one fill per resting order, until it is
//! exhausted or the level is. The functions here define the fills, the side
//! that is left and the quantity that stays unfilled.

use crate::levels::{
    amount_sum, highest, is_highest, is_lowest, lemma_extremes_exist, lemma_total_amount_insert,
    lemma_total_amount_remove, lowest, queue_rests_at, rests_at, side_well_formed, total_amount,
};
use crate::models::{BidOrAsk, MatchedOrder, Order};
use crate::price::Price;
use vstd::prelude::*;

verus! {

/// The outcome of consuming one queue.
pub struct QueueFill {
    /// Fills, in the order they happened.
    pub trades: Seq<MatchedOrder>,
    /// What is left of the queue.
    pub queue: Seq<Order>,
    /// What is left of the taker's quantity.
    pub remaining: u64,
}

/// The outcome of crossing a whole side.
pub struct SideFill {
    /// Fills, in the order they happened.
    pub trades: Seq<MatchedOrder>,
    /// What is left of the side.
    pub levels: Map<u128, Seq<Order>>,
    /// What is left of the taker's quantity.
    pub remaining: u64,
}

/// The record of `taker` taking `amount` lots from `resting` at level `key`.
pub open spec fn trade_of(taker: Order, resting: Order, key: u128, amount: u64) -> MatchedOrder {
    MatchedOrder {
        id: taker.id,
        matched_with_id: resting.id,
        order_type: taker.order_type,
        price: Price::from_key_spec(key),
        amount,
        bid_or_ask: taker.bid_or_ask,
    }
}

/// Whether the taker's price lets it trade at level `key`. A buyer reaches
/// levels at or below its price, a seller levels at or above it; a taker
/// without a price reaches every level.
pub open spec fn may_cross(taker: Order, key: u128) -> bool {
    match taker.price {
        None => true,
        Some(limit) => match taker.bid_or_ask {
            BidOrAsk::Bid => key <= limit.key(),
            BidOrAsk::Ask => key >= limit.key(),
        },
    }
}

/// The best price level of a side: the lowest ask, the highest bid.
pub open spec fn best_key(levels: Map<u128, Seq<Order>>, side: BidOrAsk) -> Option<u128> {
    if levels.dom().finite() && levels.dom().len() > 0 {
        match side {
            BidOrAsk::Ask => Some(lowest(levels.dom())),
            BidOrAsk::Bid => Some(highest(levels.dom())),
        }
    } else {
        None
    }
}

/// Consumes `queue` from the head with `remaining` lots of the taker. A
/// resting order that asks for no more than what remains is filled whole and
/// leaves the queue; otherwise it gives what remains and stays at the head.
pub open spec fn fill_queue(queue: Seq<Order>, taker: Order, key: u128, remaining: u64) -> QueueFill
    decreases queue.len(),
{
    if remaining == 0 || queue.len() == 0 {
        QueueFill { trades: Seq::empty(), queue, remaining }
    } else if queue[0].amount <= remaining {
        let rest = fill_queue(
            queue.drop_first(),
            taker,
            key,
            (remaining - queue[0].amount) as u64,
        );
        QueueFill {
            trades: seq![trade_of(taker, queue[0], key, queue[0].amount)] + rest.trades,
            queue: rest.queue,
            remaining: rest.remaining,
        }
    } else {
        QueueFill {
            trades: seq![trade_of(taker, queue[0], key, remaining)],
            queue: queue.update(0, queue[0].with_amount((queue[0].amount - remaining) as u64)),
            remaining: 0,
        }
    }
}

/// Crosses the taker against the side opposite to its own, best level
/// first, while it has quantity left and its price reaches the best level.
/// A level whose queue is used up leaves the side.
pub open spec fn fill_side(levels: Map<u128, Seq<Order>>, taker: Order, remaining: u64) -> SideFill
    decreases levels.dom().len(),
    when levels.dom().finite()
{
    match best_key(levels, taker.bid_or_ask.opposite()) {
        Some(key) if remaining > 0 && may_cross(taker, key) => {
            let level = fill_queue(levels[key], taker, key, remaining);
            if level.queue.len() == 0 {
                proof {
                    lemma_extremes_exist(levels.dom());
                }
                let rest = fill_side(levels.remove(key), taker, level.remaining);
                SideFill {
                    trades: level.trades + rest.trades,
                    levels: rest.levels,
                    remaining: rest.remaining,
                }
            } else {
                SideFill {
                    trades: level.trades,
                    levels: levels.insert(key, level.queue),
                    remaining: level.remaining,
                }
            }
        },
        _ => SideFill { trades: Seq::empty(), levels, remaining },
    }
}

/// Lots that changed hands in a sequence of fills, added up.
pub open spec fn trade_sum(trades: Seq<MatchedOrder>) -> nat
    decreases trades.len(),
{
    if trades.len() == 0 {
        0
    } else {
        trades[0].amount as nat + trade_sum(trades.drop_first())
    }
}

/// Whether a price level met earlier is at least as good for a taker of
/// side `side` as one met later: not dearer for a buyer, not cheaper for a
/// seller.
pub open spec fn favours(side: BidOrAsk, earlier: u128, later: u128) -> bool {
    match side {
        BidOrAsk::Bid => earlier <= later,
        BidOrAsk::Ask => earlier >= later,
    }
}

/// `after` is what is left of the queue `before` once orders were served
/// from its head: the orders that stay keep their order, and only the one
/// at the head may have given up part of its quantity.
pub open spec fn served_from_head(before: Seq<Order>, after: Seq<Order>) -> bool {
    let gone = before.len() - after.len();
    &&& gone >= 0
    &&& forall|j: int| 0 < j < after.len() ==> #[trigger] after[j] == before[gone + j]
    &&& after.len() > 0 ==> after[0] == before[gone].with_amount(after[0].amount)
        && after[0].amount <= before[gone].amount
}

/// The lots moved by two runs of fills in a row are the sum of what each
/// run moved.
pub proof fn lemma_trade_sum_concat(front: Seq<MatchedOrder>, back: Seq<MatchedOrder>)
    ensures
        trade_sum(front + back) == trade_sum(front) + trade_sum(back),
    decreases front.len(),
{
    if front.len() == 0 {
        assert(front + back =~= back);
    } else {
        lemma_trade_sum_concat(front.drop_first(), back);
        assert((front + back).drop_first() =~= front.drop_first() + back);
    }
}

/// The best level of a finite side is one of its levels and no other level
/// is better; a side has no best level only when it is empty.
pub proof fn lemma_best_key(levels: Map<u128, Seq<Order>>, side: BidOrAsk)
    requires
        levels.dom().finite(),
    ensures
        match best_key(levels, side) {
            Some(key) => levels.contains_key(key) && match side {
                BidOrAsk::Ask => is_lowest(levels.dom(), key),
                BidOrAsk::Bid => is_highest(levels.dom(), key),
            },
            None => levels.dom() == Set::<u128>::empty(),
        },
{
    if levels.dom().len() > 0 {
        lemma_extremes_exist(levels.dom());
    } else {
        levels.dom().lemma_len0_is_empty();
    }
}

/// A queue that is not used up has used the taker up.
pub proof fn lemma_fill_queue_leftover(queue: Seq<Order>, taker: Order, key: u128, remaining: u64)
    ensures
        fill_queue(queue, taker, key, remaining).queue.len() > 0 ==> fill_queue(
            queue,
            taker,
            key,
            remaining,
        ).remaining == 0,
    decreases queue.len(),
{
    if remaining != 0 && queue.len() != 0 && queue[0].amount <= remaining {
        lemma_fill_queue_leftover(
            queue.drop_first(),
            taker,
            key,
            (remaining - queue[0].amount) as u64,
        );
    }
}

/// Consuming a queue moves quantity and neither makes nor loses any: what
/// the taker had equals what it has left plus what was traded, and what the
/// queue held equals what it still holds plus what was traded.
pub proof fn lemma_fill_queue_conserves(queue: Seq<Order>, taker: Order, key: u128, remaining: u64)
    ensures
        trade_sum(fill_queue(queue, taker, key, remaining).trades) + fill_queue(
            queue,
            taker,
            key,
            remaining,
        ).remaining == remaining,
        amount_sum(fill_queue(queue, taker, key, remaining).queue) + trade_sum(
            fill_queue(queue, taker, key, remaining).trades,
        ) == amount_sum(queue),
    decreases queue.len(),
{
    let out = fill_queue(queue, taker, key, remaining);
    if remaining == 0 || queue.len() == 0 {
    } else if queue[0].amount <= remaining {
        let left = (remaining - queue[0].amount) as u64;
        lemma_fill_queue_conserves(queue.drop_first(), taker, key, left);
        let rest = fill_queue(queue.drop_first(), taker, key, left);
        let head = seq![trade_of(taker, queue[0], key, queue[0].amount)];
        lemma_trade_sum_concat(head, rest.trades);
        assert(head.drop_first() =~= Seq::<MatchedOrder>::empty());
        assert(trade_sum(head) == head[0].amount + trade_sum(head.drop_first()));
    } else {
        let head = seq![trade_of(taker, queue[0], key, remaining)];
        assert(head.drop_first() =~= Seq::<MatchedOrder>::empty());
        assert(trade_sum(head) == head[0].amount + trade_sum(head.drop_first()));
        assert(out.queue.drop_first() =~= queue.drop_first());
    }
}

/// Consuming a queue serves it first come first served. The fills pair off
/// with the orders at the head of the queue, one fill per order and in queue
/// order. Every fill but the last takes the whole of its order; the last
/// takes no more than its order holds. The orders served whole leave; the
/// others stay in their order, the first of them with what the last fill
/// left it.
pub proof fn lemma_fill_queue_first_come_first_served(
    queue: Seq<Order>,
    taker: Order,
    key: u128,
    remaining: u64,
)
    ensures
        ({
            let out = fill_queue(queue, taker, key, remaining);
            let gone = queue.len() - out.queue.len();
            &&& 0 <= gone <= out.trades.len() <= gone + 1
            &&& out.trades.len() <= queue.len()
            &&& forall|i: int|
                0 <= i < out.trades.len() ==> (#[trigger] out.trades[i]) == trade_of(
                    taker,
                    queue[i],
                    key,
                    out.trades[i].amount,
                ) && out.trades[i].amount <= queue[i].amount
            &&& forall|i: int| 0 <= i < gone ==> (#[trigger] out.trades[i]).amount == queue[i].amount
            &&& forall|j: int| 0 < j < out.queue.len() ==> (#[trigger] out.queue[j]) == queue[gone + j]
            &&& out.trades.len() == gone && out.queue.len() > 0 ==> out.queue[0] == queue[gone]
            &&& out.trades.len() == gone + 1 ==> out.queue.len() > 0 && out.queue[0]
                == queue[gone].with_amount((queue[gone].amount - out.trades[gone].amount) as u64)
                && out.trades[gone].amount < queue[gone].amount
        }),
    decreases queue.len(),
{
    let out = fill_queue(queue, taker, key, remaining);
    if remaining == 0 || queue.len() == 0 {
    } else if queue[0].amount <= remaining {
        let left = (remaining - queue[0].amount) as u64;
        let tail = queue.drop_first();
        lemma_fill_queue_first_come_first_served(tail, taker, key, left);
        let rest = fill_queue(tail, taker, key, left);
        let gone = queue.len() - out.queue.len();
        assert forall|i: int| 0 <= i < out.trades.len() implies (#[trigger] out.trades[i])
            == trade_of(taker, queue[i], key, out.trades[i].amount) && out.trades[i].amount
            <= queue[i].amount by {
            if i > 0 {
                assert(out.trades[i] == rest.trades[i - 1]);
                assert(tail[i - 1] == queue[i]);
            }
        }
        assert forall|i: int| 0 <= i < gone implies (#[trigger] out.trades[i]).amount
            == queue[i].amount by {
            if i > 0 {
                assert(out.trades[i] == rest.trades[i - 1]);
                assert(tail[i - 1] == queue[i]);
            }
        }
        assert forall|j: int| 0 < j < out.queue.len() implies (#[trigger] out.queue[j])
            == queue[gone + j] by {
            assert(rest.queue[j] == tail[gone - 1 + j]);
        }
        if out.trades.len() == gone + 1 {
            assert(out.trades[gone] == rest.trades[gone - 1]);
            assert(tail[gone - 1] == queue[gone]);
        }
        if out.trades.len() == gone && out.queue.len() > 0 {
            assert(tail[gone - 1] == queue[gone]);
        }
    } else {
    }
}

/// Consuming a well-formed queue leaves a well-formed queue, and every fill
/// moves at least one lot at the price of the resting order it is made with.
pub proof fn lemma_fill_queue_rests(
    queue: Seq<Order>,
    taker: Order,
    key: u128,
    remaining: u64,
    side: BidOrAsk,
)
    requires
        queue_rests_at(queue, key, side),
    ensures
        queue_rests_at(fill_queue(queue, taker, key, remaining).queue, key, side),
        forall|i: int|
            0 <= i < fill_queue(queue, taker, key, remaining).trades.len() ==> {
                let trade = #[trigger] fill_queue(queue, taker, key, remaining).trades[i];
                &&& trade.amount > 0
                &&& i < queue.len()
                &&& queue[i].price == Some(trade.price)
            },
    decreases queue.len(),
{
    let out = fill_queue(queue, taker, key, remaining);
    if remaining == 0 || queue.len() == 0 {
    } else if queue[0].amount <= remaining {
        let left = (remaining - queue[0].amount) as u64;
        let tail = queue.drop_first();
        assert forall|i: int| 0 <= i < tail.len() implies rests_at(#[trigger] tail[i], key, side) by {
            assert(tail[i] == queue[i + 1]);
        }
        lemma_fill_queue_rests(tail, taker, key, left, side);
        let rest = fill_queue(tail, taker, key, left);
        assert forall|i: int| 0 <= i < out.trades.len() implies {
            let trade = #[trigger] out.trades[i];
            &&& trade.amount > 0
            &&& i < queue.len()
            &&& queue[i].price == Some(trade.price)
        } by {
            if i > 0 {
                assert(out.trades[i] == rest.trades[i - 1]);
                assert(tail[i - 1] == queue[i]);
            }
        }
    } else {
        assert forall|i: int| 0 <= i < out.queue.len() implies rests_at(
            #[trigger] out.queue[i],
            key,
            side,
        ) by {
            if i > 0 {
                assert(out.queue[i] == queue[i]);
            }
        }
    }
}

/// Crossing a well-formed side leaves a well-formed side: no level is
/// added, no queue is left empty, every resting order still asks for
/// something, and every fill moves at least one lot.
pub proof fn lemma_fill_side_well_formed(
    levels: Map<u128, Seq<Order>>,
    taker: Order,
    remaining: u64,
    side: BidOrAsk,
)
    requires
        side_well_formed(levels, side),
    ensures
        side_well_formed(fill_side(levels, taker, remaining).levels, side),
        forall|k: u128| #[trigger]
            fill_side(levels, taker, remaining).levels.contains_key(k) ==> levels.contains_key(k),
        forall|i: int|
            0 <= i < fill_side(levels, taker, remaining).trades.len() ==> (
            #[trigger] fill_side(levels, taker, remaining).trades[i]).amount > 0,
    decreases levels.dom().len(),
{
    let out = fill_side(levels, taker, remaining);
    lemma_best_key(levels, taker.bid_or_ask.opposite());
    match best_key(levels, taker.bid_or_ask.opposite()) {
        Some(key) if remaining > 0 && may_cross(taker, key) => {
            let level = fill_queue(levels[key], taker, key, remaining);
            lemma_fill_queue_rests(levels[key], taker, key, remaining, side);
            if level.queue.len() == 0 {
                let rest = fill_side(levels.remove(key), taker, level.remaining);
                lemma_fill_side_well_formed(levels.remove(key), taker, level.remaining, side);
                assert forall|i: int| 0 <= i < out.trades.len() implies (
                #[trigger] out.trades[i]).amount > 0 by {
                    if i >= level.trades.len() {
                        assert(out.trades[i] == rest.trades[i - level.trades.len()]);
                    } else {
                        assert(out.trades[i] == level.trades[i]);
                    }
                }
            } else {
                assert(out.levels.dom() =~= levels.dom());
            }
        },
        _ => {},
    }
}

/// Crossing a side moves quantity and neither makes nor loses any: what the
/// taker had equals what it has left plus what was traded, and what rested
/// on the side equals what still rests there plus what was traded.
pub proof fn lemma_fill_side_conserves(levels: Map<u128, Seq<Order>>, taker: Order, remaining: u64)
    requires
        levels.dom().finite(),
    ensures
        trade_sum(fill_side(levels, taker, remaining).trades) + fill_side(
            levels,
            taker,
            remaining,
        ).remaining == remaining,
        total_amount(fill_side(levels, taker, remaining).levels) + trade_sum(
            fill_side(levels, taker, remaining).trades,
        ) == total_amount(levels),
    decreases levels.dom().len(),
{
    lemma_best_key(levels, taker.bid_or_ask.opposite());
    match best_key(levels, taker.bid_or_ask.opposite()) {
        Some(key) if remaining > 0 && may_cross(taker, key) => {
            let level = fill_queue(levels[key], taker, key, remaining);
            lemma_fill_queue_conserves(levels[key], taker, key, remaining);
            lemma_total_amount_remove(levels, key);
            if level.queue.len() == 0 {
                let rest = fill_side(levels.remove(key), taker, level.remaining);
                lemma_fill_side_conserves(levels.remove(key), taker, level.remaining);
                lemma_trade_sum_concat(level.trades, rest.trades);
            } else {
                lemma_total_amount_insert(levels, key, level.queue);
            }
        },
        _ => {},
    }
}

/// Every fill happens at a price level of the side that the taker's price
/// lets it reach: a buyer never pays more than its price, a seller never
/// gets less.
pub proof fn lemma_fill_side_respects_limit(
    levels: Map<u128, Seq<Order>>,
    taker: Order,
    remaining: u64,
)
    requires
        levels.dom().finite(),
    ensures
        forall|i: int|
            0 <= i < fill_side(levels, taker, remaining).trades.len() ==> {
                let trade = #[trigger] fill_side(levels, taker, remaining).trades[i];
                &&& levels.contains_key(trade.price.key())
                &&& may_cross(taker, trade.price.key())
            },
    decreases levels.dom().len(),
{
    let out = fill_side(levels, taker, remaining);
    lemma_best_key(levels, taker.bid_or_ask.opposite());
    match best_key(levels, taker.bid_or_ask.opposite()) {
        Some(key) if remaining > 0 && may_cross(taker, key) => {
            let level = fill_queue(levels[key], taker, key, remaining);
            lemma_fill_queue_first_come_first_served(levels[key], taker, key, remaining);
            Price::lemma_key_bijection(Price::from_key_spec(key), key);
            if level.queue.len() == 0 {
                let rest = fill_side(levels.remove(key), taker, level.remaining);
                lemma_fill_side_respects_limit(levels.remove(key), taker, level.remaining);
                assert forall|i: int| 0 <= i < out.trades.len() implies {
                    let trade = #[trigger] out.trades[i];
                    &&& levels.contains_key(trade.price.key())
                    &&& may_cross(taker, trade.price.key())
                } by {
                    if i >= level.trades.len() {
                        assert(out.trades[i] == rest.trades[i - level.trades.len()]);
                    } else {
                        assert(out.trades[i] == level.trades[i]);
                    }
                }
            } else {
                assert forall|i: int| 0 <= i < out.trades.len() implies {
                    let trade = #[trigger] out.trades[i];
                    &&& levels.contains_key(trade.price.key())
                    &&& may_cross(taker, trade.price.key())
                } by {
                    assert(out.trades[i] == level.trades[i]);
                }
            }
        },
        _ => {},
    }
}

/// Fills come best price first: of two fills of one crossing the earlier
/// is at a price at least as good for the taker as the later.
pub proof fn lemma_fill_side_best_first(levels: Map<u128, Seq<Order>>, taker: Order, remaining: u64)
    requires
        levels.dom().finite(),
    ensures
        forall|i: int, j: int|
            0 <= i < j < fill_side(levels, taker, remaining).trades.len() ==> favours(
                taker.bid_or_ask,
                (#[trigger] fill_side(levels, taker, remaining).trades[i]).price.key(),
                (#[trigger] fill_side(levels, taker, remaining).trades[j]).price.key(),
            ),
    decreases levels.dom().len(),
{
    let out = fill_side(levels, taker, remaining);
    lemma_best_key(levels, taker.bid_or_ask.opposite());
    match best_key(levels, taker.bid_or_ask.opposite()) {
        Some(key) if remaining > 0 && may_cross(taker, key) => {
            let level = fill_queue(levels[key], taker, key, remaining);
            lemma_fill_queue_first_come_first_served(levels[key], taker, key, remaining);
            Price::lemma_key_bijection(Price::from_key_spec(key), key);
            if level.queue.len() == 0 {
                let rest = fill_side(levels.remove(key), taker, level.remaining);
                lemma_fill_side_best_first(levels.remove(key), taker, level.remaining);
                lemma_fill_side_respects_limit(levels.remove(key), taker, level.remaining);
                assert forall|i: int, j: int| 0 <= i < j < out.trades.len() implies favours(
                    taker.bid_or_ask,
                    (#[trigger] out.trades[i]).price.key(),
                    (#[trigger] out.trades[j]).price.key(),
                ) by {
                    let n = level.trades.len();
                    if j < n {
                        assert(out.trades[i] == level.trades[i]);
                        assert(out.trades[j] == level.trades[j]);
                    } else if i < n {
                        assert(out.trades[i] == level.trades[i]);
                        assert(out.trades[j] == rest.trades[j - n]);
                        assert(levels.remove(key).contains_key(rest.trades[j - n].price.key()));
                    } else {
                        assert(out.trades[i] == rest.trades[i - n]);
                        assert(out.trades[j] == rest.trades[j - n]);
                    }
                }
            } else {
                assert forall|i: int, j: int| 0 <= i < j < out.trades.len() implies favours(
                    taker.bid_or_ask,
                    (#[trigger] out.trades[i]).price.key(),
                    (#[trigger] out.trades[j]).price.key(),
                ) by {
                    assert(out.trades[i] == level.trades[i]);
                    assert(out.trades[j] == level.trades[j]);
                }
            }
        },
        _ => {},
    }
}

/// A taker that is left with quantity has used up every level that its
/// price lets it reach.
pub proof fn lemma_fill_side_exhausts_reach(
    levels: Map<u128, Seq<Order>>,
    taker: Order,
    remaining: u64,
)
    requires
        levels.dom().finite(),
    ensures
        fill_side(levels, taker, remaining).remaining > 0 ==> forall|k: u128| #[trigger]
            fill_side(levels, taker, remaining).levels.contains_key(k) ==> !may_cross(taker, k),
    decreases levels.dom().len(),
{
    lemma_best_key(levels, taker.bid_or_ask.opposite());
    match best_key(levels, taker.bid_or_ask.opposite()) {
        Some(key) if remaining > 0 && may_cross(taker, key) => {
            let level = fill_queue(levels[key], taker, key, remaining);
            lemma_fill_queue_leftover(levels[key], taker, key, remaining);
            if level.queue.len() == 0 {
                lemma_fill_side_exhausts_reach(levels.remove(key), taker, level.remaining);
            }
        },
        _ => {},
    }
}

/// Crossing a side never lets an order jump its queue: every level that is
/// left holds what is left of the queue it had, served from the head.
pub proof fn lemma_fill_side_keeps_time_priority(
    levels: Map<u128, Seq<Order>>,
    taker: Order,
    remaining: u64,
)
    requires
        levels.dom().finite(),
    ensures
        forall|k: u128| #[trigger]
            fill_side(levels, taker, remaining).levels.contains_key(k) ==> levels.contains_key(k)
                && served_from_head(levels[k], fill_side(levels, taker, remaining).levels[k]),
    decreases levels.dom().len(),
{
    let out = fill_side(levels, taker, remaining);
    lemma_best_key(levels, taker.bid_or_ask.opposite());
    match best_key(levels, taker.bid_or_ask.opposite()) {
        Some(key) if remaining > 0 && may_cross(taker, key) => {
            let level = fill_queue(levels[key], taker, key, remaining);
            lemma_fill_queue_first_come_first_served(levels[key], taker, key, remaining);
            if level.queue.len() == 0 {
                let rest = fill_side(levels.remove(key), taker, level.remaining);
                lemma_fill_side_keeps_time_priority(levels.remove(key), taker, level.remaining);
                assert forall|k: u128| #[trigger] out.levels.contains_key(k) implies levels.contains_key(
                    k,
                ) && served_from_head(levels[k], out.levels[k]) by {
                    assert(rest.levels.contains_key(k));
                    assert(levels.remove(key).contains_key(k));
                }
            } else {
                assert forall|k: u128| #[trigger] out.levels.contains_key(k) implies levels.contains_key(
                    k,
                ) && served_from_head(levels[k], out.levels[k]) by {
                    if k != key {
                        assert(levels.contains_key(k));
                        assert(out.levels[k] == levels[k]);
                    }
                }
            }
        },
        _ => {},
    }
}

} // verus!
