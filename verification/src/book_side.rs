//! One side of the book: resting limit orders indexed by price.
//!
//! The levels live in a `BTreeMap` from price key to a `VecDeque` of orders.
//! The view of a side is the map from price key to the sequence of orders
//! queued at that price, head first.

use crate::levels::{
    ascending_keys, first_with_id, highest, is_highest, is_lowest, lemma_ascending_keys_unique,
    lemma_extremes_exist, lemma_first_with_id_at, lemma_first_with_id_concat,
    lemma_queues_in_order_concat, lemma_queues_in_order_push, lowest, orders_ascending, queue_at,
    queues_in_order, rests_at, side_well_formed, strictly_ascending, with_order_queued,
};
use crate::matching::{
    best_key, fill_queue, fill_side, lemma_fill_queue_leftover, lemma_fill_side_well_formed,
    may_cross, trade_of, SideFill,
};
use crate::models::{BidOrAsk, MatchedOrder, Order};
use crate::price::Price;
use std::collections::{BTreeMap, VecDeque};
use vstd::prelude::*;
use vstd::std_specs::btree::{increasing_seq, spec_btree_map_iter};
use vstd::std_specs::cmp::OrdSpec;
use vstd::std_specs::iter::IteratorSpec;

verus! {

/// The smallest key of a `BTreeMap`, read with `BTreeMap::first_key_value`.
/// The standard library documents that the key of the pair it returns is the
/// minimum key of the map; on an empty map it returns `None`. This contract
/// is not proved: it restates that documentation.
#[verifier::external_body]
fn first_key(levels: &BTreeMap<u128, VecDeque<Order>>) -> (r: Option<u128>)
    ensures
        match r {
            Some(k) => is_lowest(levels@.dom(), k),
            None => levels@.dom() == Set::<u128>::empty(),
        },
{
    match levels.first_key_value() {
        Some((k, _)) => Some(*k),
        None => None,
    }
}

/// The largest key of a `BTreeMap`, read with `BTreeMap::last_key_value`.
/// The standard library documents that the key of the pair it returns is the
/// maximum key of the map; on an empty map it returns `None`. This contract
/// is not proved: it restates that documentation.
#[verifier::external_body]
fn last_key(levels: &BTreeMap<u128, VecDeque<Order>>) -> (r: Option<u128>)
    ensures
        match r {
            Some(k) => is_highest(levels@.dom(), k),
            None => levels@.dom() == Set::<u128>::empty(),
        },
{
    match levels.last_key_value() {
        Some((k, _)) => Some(*k),
        None => None,
    }
}

/// The resting orders of one side, queued by price.
#[derive(Debug)]
pub struct BookSide {
    side: BidOrAsk,
    levels: BTreeMap<u128, VecDeque<Order>>,
}

impl View for BookSide {
    type V = Map<u128, Seq<Order>>;

    closed spec fn view(&self) -> Map<u128, Seq<Order>> {
        Map::new(|k: u128| self.levels@.contains_key(k), |k: u128| self.levels@[k]@)
    }
}

/// The keys of a sequence of borrowed map entries.
spec fn entry_keys(entries: Seq<(&u128, &VecDeque<Order>)>) -> Seq<u128> {
    entries.map_values(|kv: (&u128, &VecDeque<Order>)| *kv.0)
}

/// A sequence of entries that holds every entry of `levels` and rises by
/// key holds the keys of `levels` once each, in ascending order, each with
/// the queue stored under it.
proof fn lemma_entries_ascend(
    levels: Map<u128, VecDeque<Order>>,
    entries: Seq<(&u128, &VecDeque<Order>)>,
)
    requires
        levels.dom().finite(),
        increasing_seq(entry_keys(entries)),
        forall|i: int|
            0 <= i < entries.len() ==> levels.contains_key(*(#[trigger] entries[i]).0)
                && levels[*entries[i].0] == *entries[i].1,
        forall|k: u128| #[trigger] levels.contains_key(k) ==> entries.contains((&k, &levels[k])),
    ensures
        entry_keys(entries) == ascending_keys(levels.dom()),
{
    let ks = entry_keys(entries);
    assert(strictly_ascending(ks)) by {
        assert forall|i: int, j: int| 0 <= i < j < ks.len() implies ks[i] < ks[j] by {
            assert(ks[i].cmp_spec(&ks[j]) is Less);
        }
    }
    assert forall|k: u128| ks.contains(k) <==> levels.dom().contains(k) by {
        if ks.contains(k) {
            let i = choose|i: int| 0 <= i < ks.len() && ks[i] == k;
            assert(levels.contains_key(*entries[i].0));
        }
        if levels.contains_key(k) {
            assert(entries.contains((&k, &levels[k])));
            let i = choose|i: int| 0 <= i < entries.len() && entries[i] == (&k, &levels[k]);
            assert(ks[i] == k);
        }
    }
    lemma_ascending_keys_unique(levels.dom(), ks);
}

/// Appends a copy of every order of `queue` to `out`, head first.
fn append_copies(out: &mut Vec<Order>, queue: &VecDeque<Order>)
    ensures
        final(out)@ == old(out)@ + queue@,
{
    let ghost before = out@;
    let mut i: usize = 0;
    assert(out@ =~= before + queue@.take(0));
    while i < queue.len()
        invariant
            i <= queue.len(),
            out@ == before + queue@.take(i as int),
        decreases queue.len() - i,
    {
        out.push(queue[i].clone());
        assert(queue@.take(i + 1) =~= queue@.take(i as int).push(queue@[i as int]));
        assert(out@ =~= before + queue@.take(i + 1));
        i += 1;
    }
    assert(queue@.take(queue@.len() as int) =~= queue@);
}

/// The position of the first order of `queue` with identifier `id`.
fn position_of(queue: &VecDeque<Order>, id: u64) -> (r: Option<usize>)
    ensures
        match r {
            Some(at) => at < queue@.len() && first_with_id(queue@, id) == Some(queue@[at as int]),
            None => first_with_id(queue@, id) is None,
        },
{
    let mut i: usize = 0;
    while i < queue.len()
        invariant
            i <= queue.len(),
            forall|j: int| 0 <= j < i ==> queue@[j].id != id,
        decreases queue.len() - i,
    {
        if queue[i].id == id {
            proof {
                lemma_first_with_id_at(queue@, id, i as int);
            }
            return Some(i);
        }
        i += 1;
    }
    proof {
        lemma_first_with_id_at(queue@, id, i as int);
    }
    None
}

/// Decides `may_cross`.
fn crosses(taker: &Order, key: u128) -> (r: bool)
    ensures
        r == may_cross(*taker, key),
{
    match taker.price {
        None => true,
        Some(limit) => match taker.bid_or_ask {
            BidOrAsk::Bid => key <= limit.key(),
            BidOrAsk::Ask => key >= limit.key(),
        },
    }
}

/// Consumes `queue` from the head for `taker`, which has `remaining` lots
/// left, and appends the fills to `trades`.
fn consume_queue(
    queue: &mut VecDeque<Order>,
    taker: &Order,
    key: u128,
    remaining: u64,
    trades: &mut Vec<MatchedOrder>,
) -> (left: u64)
    ensures
        final(trades)@ == old(trades)@ + fill_queue(old(queue)@, *taker, key, remaining).trades,
        final(queue)@ == fill_queue(old(queue)@, *taker, key, remaining).queue,
        left == fill_queue(old(queue)@, *taker, key, remaining).remaining,
{
    let level_price = Price::from_key(key);
    let ghost queue0 = queue@;
    let ghost trades0 = trades@;
    let ghost target = fill_queue(queue0, *taker, key, remaining);
    let mut left = remaining;
    assert(trades0 + target.trades =~= trades@ + target.trades);
    while left > 0 && queue.len() > 0
        invariant
            level_price == Price::from_key_spec(key),
            target == fill_queue(queue0, *taker, key, remaining),
            trades0 + target.trades == trades@ + fill_queue(queue@, *taker, key, left).trades,
            target.queue == fill_queue(queue@, *taker, key, left).queue,
            target.remaining == fill_queue(queue@, *taker, key, left).remaining,
        decreases queue@.len() + left,
    {
        let ghost before = queue@;
        let ghost done = trades@;
        let ghost step = fill_queue(before, *taker, key, left);
        let mut resting = queue.pop_front().unwrap();
        assert(queue@ =~= before.drop_first());
        if resting.amount <= left {
            let trade = MatchedOrder {
                id: taker.id,
                matched_with_id: resting.id,
                order_type: taker.order_type,
                price: level_price,
                amount: resting.amount,
                bid_or_ask: taker.bid_or_ask,
            };
            assert(trade == trade_of(*taker, before[0], key, before[0].amount));
            trades.push(trade);
            left = left - resting.amount;
            assert(trades@ + fill_queue(queue@, *taker, key, left).trades =~= done + step.trades);
        } else {
            let trade = MatchedOrder {
                id: taker.id,
                matched_with_id: resting.id,
                order_type: taker.order_type,
                price: level_price,
                amount: left,
                bid_or_ask: taker.bid_or_ask,
            };
            assert(trade == trade_of(*taker, before[0], key, left));
            trades.push(trade);
            resting.amount = resting.amount - left;
            assert(resting == before[0].with_amount((before[0].amount - left) as u64));
            left = 0;
            queue.push_front(resting);
            assert(queue@ =~= before.update(0, resting));
            assert(trades@ + fill_queue(queue@, *taker, key, left).trades =~= done + step.trades);
        }
    }
    assert(trades@ + fill_queue(queue@, *taker, key, left).trades =~= trades@);
    left
}

impl BookSide {
    /// Which side of the book this is.
    pub closed spec fn side(&self) -> BidOrAsk {
        self.side
    }

    /// The side's invariant: see `side_well_formed`.
    pub open spec fn well_formed(&self) -> bool {
        side_well_formed(self@, self.side())
    }

    /// An empty side.
    pub fn new(side: BidOrAsk) -> (r: BookSide)
        ensures
            r@ == Map::<u128, Seq<Order>>::empty(),
            r.side() == side,
            r.well_formed(),
    {
        let r = BookSide { side, levels: BTreeMap::new() };
        assert(r@ =~= Map::<u128, Seq<Order>>::empty());
        r
    }

    /// The key of the price level that would be best if this were side
    /// `side`: the lowest key for asks, the highest for bids.
    pub(crate) fn best_key_as(&self, side: BidOrAsk) -> (r: Option<u128>)
        ensures
            r == best_key(self@, side),
    {
        let found = match side {
            BidOrAsk::Ask => first_key(&self.levels),
            BidOrAsk::Bid => last_key(&self.levels),
        };
        proof {
            assert(self@.dom() =~= self.levels@.dom());
            if self@.dom().len() > 0 {
                lemma_extremes_exist(self@.dom());
                if found is None {
                    assert(self@.dom().len() == 0);
                }
                match side {
                    BidOrAsk::Ask => {
                        let k = found->0;
                        let lo = lowest(self@.dom());
                        assert(k <= lo && lo <= k);
                    },
                    BidOrAsk::Bid => {
                        let k = found->0;
                        let hi = highest(self@.dom());
                        assert(k <= hi && hi <= k);
                    },
                }
            } else {
                self@.dom().lemma_len0_is_empty();
                if found is Some {
                    assert(self@.dom().contains(found->0));
                }
            }
        }
        found
    }

    /// The price of the level that would be best if this were side `side`.
    pub(crate) fn best_as(&self, side: BidOrAsk) -> (r: Option<Price>)
        ensures
            r == match best_key(self@, side) {
                Some(k) => Some(Price::from_key_spec(k)),
                None => None,
            },
    {
        match self.best_key_as(side) {
            Some(k) => Some(Price::from_key(k)),
            None => None,
        }
    }

    /// The key of the best price level: the lowest on the ask side, the
    /// highest on the bid side.
    pub fn best_key(&self) -> (r: Option<u128>)
        ensures
            r == best_key(self@, self.side()),
    {
        self.best_key_as(self.side)
    }

    /// The best price of the side, if it holds any order.
    pub fn best(&self) -> (r: Option<Price>)
        ensures
            r == match best_key(self@, self.side()) {
                Some(k) => Some(Price::from_key_spec(k)),
                None => None,
            },
    {
        self.best_as(self.side)
    }

    /// Queues `order` behind the orders already resting at its price.
    pub fn push_back(&mut self, order: Order)
        requires
            old(self).well_formed(),
            order.price is Some,
            rests_at(order, order.price->0.key(), old(self).side()),
        ensures
            final(self).side() == old(self).side(),
            final(self)@ == with_order_queued(old(self)@, order.price->0.key(), order),
            final(self).well_formed(),
    {
        let ghost before = self@;
        let ghost placed = order;
        let key = order.price.unwrap().key();
        let mut queue = match self.levels.remove(&key) {
            Some(queue) => queue,
            None => VecDeque::new(),
        };
        assert(queue@ == queue_at(before, key));
        queue.push_back(order);
        self.levels.insert(key, queue);
        assert(self@ =~= with_order_queued(before, key, placed));
        assert(self@.dom() =~= self.levels@.dom());
    }

    /// The number of price levels that hold an order.
    pub fn len(&self) -> (r: usize)
        ensures
            r == self@.dom().len(),
    {
        assert(self@.dom() =~= self.levels@.dom());
        self.levels.len()
    }

    /// Every resting order of the side, by ascending price and first come
    /// first within one price.
    pub fn orders(&self) -> (r: Vec<Order>)
        ensures
            r@ == orders_ascending(self@),
    {
        let mut out: Vec<Order> = Vec::new();
        self.append_orders(&mut out);
        out
    }

    /// Appends every resting order of the side to `out`, by ascending price
    /// and first come first within one price.
    pub fn append_orders(&self, out: &mut Vec<Order>)
        ensures
            final(out)@ == old(out)@ + orders_ascending(self@),
    {
        let ghost before = out@;
        let ghost keys = ascending_keys(self@.dom());
        assert(self@.dom() =~= self.levels@.dom());
        assert(out@ =~= before + queues_in_order(keys.take(0), self@));
        for entry in it: self.levels.iter()
            invariant
                self@.dom() == self.levels@.dom(),
                it.seq() == spec_btree_map_iter(&self.levels).remaining(),
                increasing_seq(entry_keys(it.seq())),
                keys == ascending_keys(self@.dom()),
                out@ == before + queues_in_order(keys.take(it.index()), self@),
        {
            let ghost at = it.index();
            proof {
                lemma_entries_ascend(self.levels@, it.seq());
                assert(self.levels@.contains_key(*it.seq()[at].0));
                assert(keys[at] == *entry.0);
                assert(self@[keys[at]] == entry.1@);
                lemma_queues_in_order_push(keys.take(at), keys[at], self@);
                assert(keys.take(at + 1) =~= keys.take(at).push(keys[at]));
            }
            append_copies(out, entry.1);
            assert(out@ =~= before + queues_in_order(keys.take(at + 1), self@));
        }
        proof {
            lemma_entries_ascend(self.levels@, spec_btree_map_iter(&self.levels).remaining());
            assert(keys.take(keys.len() as int) =~= keys);
        }
    }

    /// The first resting order with identifier `id`, in the order of
    /// `orders`.
    pub fn find(&self, id: u64) -> (r: Option<&Order>)
        ensures
            match r {
                Some(order) => first_with_id(orders_ascending(self@), id) == Some(*order),
                None => first_with_id(orders_ascending(self@), id) is None,
            },
    {
        let ghost keys = ascending_keys(self@.dom());
        assert(self@.dom() =~= self.levels@.dom());
        assert(keys.take(0) =~= Seq::<u128>::empty());
        for entry in it: self.levels.iter()
            invariant
                self@.dom() == self.levels@.dom(),
                it.seq() == spec_btree_map_iter(&self.levels).remaining(),
                increasing_seq(entry_keys(it.seq())),
                keys == ascending_keys(self@.dom()),
                first_with_id(queues_in_order(keys.take(it.index()), self@), id) is None,
        {
            let ghost at = it.index();
            let found = position_of(entry.1, id);
            proof {
                lemma_entries_ascend(self.levels@, it.seq());
                assert(self.levels@.contains_key(*it.seq()[at].0));
                assert(keys[at] == *entry.0);
                assert(self@[keys[at]] == entry.1@);
                lemma_queues_in_order_push(keys.take(at), keys[at], self@);
                assert(keys.take(at + 1) =~= keys.take(at).push(keys[at]));
                lemma_first_with_id_concat(queues_in_order(keys.take(at), self@), entry.1@, id);
                assert(keys =~= keys.take(at + 1) + keys.skip(at + 1));
                lemma_queues_in_order_concat(keys.take(at + 1), keys.skip(at + 1), self@);
                lemma_first_with_id_concat(
                    queues_in_order(keys.take(at + 1), self@),
                    queues_in_order(keys.skip(at + 1), self@),
                    id,
                );
            }
            match found {
                Some(position) => {
                    return Some(&entry.1[position]);
                },
                None => {},
            }
        }
        proof {
            lemma_entries_ascend(self.levels@, spec_btree_map_iter(&self.levels).remaining());
            assert(keys.take(keys.len() as int) =~= keys);
        }
        None
    }

    /// Crosses `taker` against this side and returns the fills, in the
    /// order they happened, with the quantity of the taker left unfilled.
    pub fn fill(&mut self, taker: &Order) -> (r: (Vec<MatchedOrder>, u64))
        requires
            old(self).well_formed(),
            old(self).side() == taker.bid_or_ask.opposite(),
        ensures
            final(self).well_formed(),
            final(self).side() == old(self).side(),
            r.0@ == fill_side(old(self)@, *taker, taker.amount).trades,
            final(self)@ == fill_side(old(self)@, *taker, taker.amount).levels,
            r.1 == fill_side(old(self)@, *taker, taker.amount).remaining,
    {
        let mut trades: Vec<MatchedOrder> = Vec::new();
        let mut remaining = taker.amount;
        let mut crossing = true;
        let ghost target = fill_side(self@, *taker, taker.amount);
        proof {
            lemma_fill_side_well_formed(self@, *taker, taker.amount, self.side());
        }
        assert(target.trades =~= trades@ + target.trades);
        while crossing && remaining > 0
            invariant
                self.side() == old(self).side(),
                self.side() == taker.bid_or_ask.opposite(),
                self@.dom().finite(),
                target.trades == trades@ + fill_side(self@, *taker, remaining).trades,
                target.levels == fill_side(self@, *taker, remaining).levels,
                target.remaining == fill_side(self@, *taker, remaining).remaining,
                !crossing ==> fill_side(self@, *taker, remaining) == (SideFill {
                    trades: Seq::empty(),
                    levels: self@,
                    remaining,
                }),
            decreases self@.dom().len() + if crossing && remaining > 0 { 1nat } else { 0nat },
        {
            let ghost before = self@;
            let ghost done = trades@;
            let ghost left = remaining;
            let ghost step = fill_side(before, *taker, left);
            match self.best_key() {
                None => {
                    crossing = false;
                },
                Some(key) => {
                    if !crosses(taker, key) {
                        crossing = false;
                    } else {
                        proof {
                            lemma_extremes_exist(before.dom());
                            lemma_fill_queue_leftover(before[key], *taker, key, left);
                        }
                        let mut queue = self.levels.remove(&key).unwrap();
                        assert(queue@ == before[key]);
                        assert(self@ =~= before.remove(key));
                        remaining = consume_queue(&mut queue, taker, key, remaining, &mut trades);
                        if queue.len() > 0 {
                            self.levels.insert(key, queue);
                            assert(self@ =~= before.insert(key, queue@));
                            assert(self@.dom() =~= before.dom());
                            assert(remaining == 0);
                            assert(trades@ + fill_side(self@, *taker, remaining).trades =~= done
                                + step.trades);
                        } else {
                            assert(trades@ + fill_side(self@, *taker, remaining).trades =~= done
                                + step.trades);
                        }
                    }
                },
            }
        }
        assert(trades@ + fill_side(self@, *taker, remaining).trades =~= trades@);
        (trades, remaining)
    }
}

} // verus!
