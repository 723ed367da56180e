//! The mathematical model of one side of the book.
//!
//! A side is a finite map from price keys to first-in-first-out queues of
//! resting orders. This module defines the ascending enumeration of such a
//! map, the quantity it holds, and what it means for it to be well formed.

use crate::models::{BidOrAsk, Order, OrderType};
use crate::price::Price;
use vstd::prelude::*;

verus! {

/// `k` is the smallest key of `keys`.
pub open spec fn is_lowest(keys: Set<u128>, k: u128) -> bool {
    keys.contains(k) && forall|j: u128| keys.contains(j) ==> k <= j
}

/// `k` is the largest key of `keys`.
pub open spec fn is_highest(keys: Set<u128>, k: u128) -> bool {
    keys.contains(k) && forall|j: u128| keys.contains(j) ==> j <= k
}

/// The smallest key of a finite non-empty set.
pub open spec fn lowest(keys: Set<u128>) -> u128 {
    choose|k: u128| is_lowest(keys, k)
}

/// The largest key of a finite non-empty set.
pub open spec fn highest(keys: Set<u128>) -> u128 {
    choose|k: u128| is_highest(keys, k)
}

/// Every finite non-empty set of keys has a smallest and a largest key.
pub proof fn lemma_extremes_exist(keys: Set<u128>)
    requires
        keys.finite(),
        keys.len() > 0,
    ensures
        is_lowest(keys, lowest(keys)),
        is_highest(keys, highest(keys)),
    decreases keys.len(),
{
    let x = keys.choose();
    let rest = keys.remove(x);
    if rest.len() == 0 {
        rest.lemma_len0_is_empty();
        assert forall|j: u128| keys.contains(j) implies j == x by {
            if j != x {
                assert(rest.contains(j));
            }
        }
        assert(is_lowest(keys, x));
        assert(is_highest(keys, x));
    } else {
        lemma_extremes_exist(rest);
        let lo = lowest(rest);
        let hi = highest(rest);
        assert forall|j: u128| keys.contains(j) implies j == x || rest.contains(j) by {}
        if x <= lo {
            assert(is_lowest(keys, x));
        } else {
            assert(is_lowest(keys, lo));
        }
        if hi <= x {
            assert(is_highest(keys, x));
        } else {
            assert(is_highest(keys, hi));
        }
    }
}

/// A sequence of keys that rises strictly from each element to the next.
pub open spec fn strictly_ascending(keys: Seq<u128>) -> bool {
    forall|i: int, j: int| 0 <= i < j < keys.len() ==> keys[i] < keys[j]
}

/// The keys of a finite set, smallest first.
pub open spec fn ascending_keys(keys: Set<u128>) -> Seq<u128>
    decreases keys.len(),
    when keys.finite()
{
    if keys.len() == 0 {
        Seq::empty()
    } else {
        proof {
            lemma_extremes_exist(keys);
        }
        seq![lowest(keys)] + ascending_keys(keys.remove(lowest(keys)))
    }
}

/// `ascending_keys` lists exactly the keys of the set, each once, in
/// strictly rising order.
pub proof fn lemma_ascending_keys(keys: Set<u128>)
    requires
        keys.finite(),
    ensures
        strictly_ascending(ascending_keys(keys)),
        ascending_keys(keys).len() == keys.len(),
        forall|k: u128| ascending_keys(keys).contains(k) <==> keys.contains(k),
    decreases keys.len(),
{
    if keys.len() == 0 {
        keys.lemma_len0_is_empty();
    } else {
        lemma_extremes_exist(keys);
        let lo = lowest(keys);
        let rest = keys.remove(lo);
        lemma_ascending_keys(rest);
        let tail = ascending_keys(rest);
        let all = ascending_keys(keys);
        assert(all =~= seq![lo] + tail);
        assert forall|k: u128| all.contains(k) <==> keys.contains(k) by {
            if all.contains(k) {
                let i = choose|i: int| 0 <= i < all.len() && all[i] == k;
                if i > 0 {
                    assert(tail[i - 1] == k);
                    assert(tail.contains(k));
                }
            }
            if keys.contains(k) {
                if k == lo {
                    assert(all[0] == k);
                } else {
                    assert(rest.contains(k));
                    assert(tail.contains(k));
                    let i = choose|i: int| 0 <= i < tail.len() && tail[i] == k;
                    assert(all[i + 1] == k);
                }
            }
        }
        assert forall|i: int, j: int| 0 <= i < j < all.len() implies all[i] < all[j] by {
            assert(tail[j - 1] == all[j]);
            assert(tail.contains(all[j]));
            assert(rest.contains(all[j]));
            if i > 0 {
                assert(tail[i - 1] == all[i]);
            }
        }
    }
}

/// A strictly rising sequence that lists exactly the keys of a finite set is
/// its ascending enumeration.
pub proof fn lemma_ascending_keys_unique(keys: Set<u128>, listed: Seq<u128>)
    requires
        keys.finite(),
        strictly_ascending(listed),
        forall|k: u128| listed.contains(k) <==> keys.contains(k),
    ensures
        listed == ascending_keys(keys),
    decreases listed.len(),
{
    if listed.len() == 0 {
        assert forall|k: u128| !keys.contains(k) by {
            assert(!listed.contains(k));
        }
        assert(keys =~= Set::empty());
        assert(listed =~= ascending_keys(keys));
    } else {
        let first = listed[0];
        assert(listed.contains(first));
        assert(keys.len() > 0) by {
            if keys.len() == 0 {
                keys.lemma_len0_is_empty();
            }
        }
        lemma_extremes_exist(keys);
        let lo = lowest(keys);
        assert(first == lo) by {
            assert(listed.contains(lo));
            let i = choose|i: int| 0 <= i < listed.len() && listed[i] == lo;
            if i > 0 {
                assert(listed[0] < listed[i]);
            }
        }
        let tail = listed.drop_first();
        let rest = keys.remove(lo);
        assert forall|k: u128| tail.contains(k) <==> rest.contains(k) by {
            if tail.contains(k) {
                let i = choose|i: int| 0 <= i < tail.len() && tail[i] == k;
                assert(listed[i + 1] == k);
                assert(listed.contains(k));
                assert(listed[0] < listed[i + 1]);
            }
            if rest.contains(k) {
                assert(listed.contains(k));
                let i = choose|i: int| 0 <= i < listed.len() && listed[i] == k;
                assert(tail[i - 1] == k);
            }
        }
        assert(strictly_ascending(tail)) by {
            assert forall|i: int, j: int| 0 <= i < j < tail.len() implies tail[i] < tail[j] by {
                assert(listed[i + 1] < listed[j + 1]);
            }
        }
        lemma_ascending_keys_unique(rest, tail);
        assert(listed =~= seq![lo] + tail);
    }
}

/// The queue found under `key`, empty where the side has no such level.
pub open spec fn queue_at(levels: Map<u128, Seq<Order>>, key: u128) -> Seq<Order> {
    if levels.contains_key(key) {
        levels[key]
    } else {
        Seq::empty()
    }
}

/// The side with `order` queued behind the orders already waiting at `key`.
pub open spec fn with_order_queued(
    levels: Map<u128, Seq<Order>>,
    key: u128,
    order: Order,
) -> Map<u128, Seq<Order>> {
    levels.insert(key, queue_at(levels, key).push(order))
}

/// The queues found under `keys`, one after the other.
pub open spec fn queues_in_order(keys: Seq<u128>, levels: Map<u128, Seq<Order>>) -> Seq<Order>
    decreases keys.len(),
{
    if keys.len() == 0 {
        Seq::empty()
    } else {
        levels[keys[0]] + queues_in_order(keys.drop_first(), levels)
    }
}

/// Every resting order of a side: by ascending price, and first come first
/// within one price.
pub open spec fn orders_ascending(levels: Map<u128, Seq<Order>>) -> Seq<Order> {
    queues_in_order(ascending_keys(levels.dom()), levels)
}

/// Lots still asked for by the orders of a queue, added up.
pub open spec fn amount_sum(orders: Seq<Order>) -> nat
    decreases orders.len(),
{
    if orders.len() == 0 {
        0
    } else {
        orders[0].amount as nat + amount_sum(orders.drop_first())
    }
}

/// The quantity resting on a side.
pub open spec fn total_amount(levels: Map<u128, Seq<Order>>) -> nat {
    amount_sum(orders_ascending(levels))
}

/// The first order of a sequence that carries the identifier `id`.
pub open spec fn first_with_id(orders: Seq<Order>, id: u64) -> Option<Order>
    decreases orders.len(),
{
    if orders.len() == 0 {
        None
    } else if orders[0].id == id {
        Some(orders[0])
    } else {
        first_with_id(orders.drop_first(), id)
    }
}

/// The orders of `orders` that are of kind `kind`, in their order.
pub open spec fn orders_of_type(orders: Seq<Order>, kind: OrderType) -> Seq<Order> {
    orders.filter(|order: Order| order.order_type == kind)
}

/// What holds of an order resting under `key` on side `side`: it still asks
/// for something, it is a limit order of that side, and `key` is its price.
pub open spec fn rests_at(order: Order, key: u128, side: BidOrAsk) -> bool {
    &&& order.amount > 0
    &&& order.order_type == OrderType::Limit
    &&& order.bid_or_ask == side
    &&& order.price == Some(Price::from_key_spec(key))
}

/// Every order of `queue` may rest under `key` on side `side`.
pub open spec fn queue_rests_at(queue: Seq<Order>, key: u128, side: BidOrAsk) -> bool {
    forall|i: int| 0 <= i < queue.len() ==> rests_at(#[trigger] queue[i], key, side)
}

/// A side is well formed when it has finitely many price levels, no level
/// has an empty queue, and every order rests under its own price.
pub open spec fn side_well_formed(levels: Map<u128, Seq<Order>>, side: BidOrAsk) -> bool {
    &&& levels.dom().finite()
    &&& forall|k: u128| #[trigger]
        levels.contains_key(k) ==> levels[k].len() > 0 && queue_rests_at(levels[k], k, side)
}

/// What holds of every order that rests on side `side` of a well-formed
/// book, whatever its price.
pub open spec fn rests_on(order: Order, side: BidOrAsk) -> bool {
    &&& order.amount > 0
    &&& order.order_type == OrderType::Limit
    &&& order.bid_or_ask == side
    &&& order.price is Some
}

/// Two maps that agree under every listed key give the same concatenation.
pub proof fn lemma_queues_in_order_agree(
    keys: Seq<u128>,
    left: Map<u128, Seq<Order>>,
    right: Map<u128, Seq<Order>>,
)
    requires
        forall|i: int| 0 <= i < keys.len() ==> left[#[trigger] keys[i]] == right[keys[i]],
    ensures
        queues_in_order(keys, left) == queues_in_order(keys, right),
    decreases keys.len(),
{
    if keys.len() > 0 {
        let tail = keys.drop_first();
        assert forall|i: int| 0 <= i < tail.len() implies left[#[trigger] tail[i]] == right[tail[i]] by {
            assert(tail[i] == keys[i + 1]);
        }
        lemma_queues_in_order_agree(tail, left, right);
        assert(left[keys[0]] == right[keys[0]]);
    }
}

/// Listing two runs of keys in a row concatenates what each run lists.
pub proof fn lemma_queues_in_order_concat(
    front: Seq<u128>,
    back: Seq<u128>,
    levels: Map<u128, Seq<Order>>,
)
    ensures
        queues_in_order(front + back, levels) == queues_in_order(front, levels) + queues_in_order(
            back,
            levels,
        ),
    decreases front.len(),
{
    if front.len() == 0 {
        assert(front + back =~= back);
        assert(queues_in_order(front, levels) + queues_in_order(back, levels) =~= queues_in_order(
            back,
            levels,
        ));
    } else {
        lemma_queues_in_order_concat(front.drop_first(), back, levels);
        assert((front + back).drop_first() =~= front.drop_first() + back);
        assert(levels[front[0]] + (queues_in_order(front.drop_first(), levels) + queues_in_order(
            back,
            levels,
        )) =~= (levels[front[0]] + queues_in_order(front.drop_first(), levels)) + queues_in_order(
            back,
            levels,
        ));
    }
}

/// Listing one more key appends the queue found under it.
pub proof fn lemma_queues_in_order_push(keys: Seq<u128>, key: u128, levels: Map<u128, Seq<Order>>)
    ensures
        queues_in_order(keys.push(key), levels) == queues_in_order(keys, levels) + levels[key],
{
    lemma_queues_in_order_concat(keys, seq![key], levels);
    assert(keys.push(key) =~= keys + seq![key]);
    assert(seq![key].drop_first() =~= Seq::<u128>::empty());
    assert(queues_in_order(seq![key], levels) =~= levels[key]) by {
        assert(queues_in_order(seq![key], levels) == levels[key] + queues_in_order(
            seq![key].drop_first(),
            levels,
        ));
    }
}

/// The enumeration of a non-empty side starts with the queue of its lowest
/// price and goes on with the enumeration of the other levels.
pub proof fn lemma_orders_ascending_unfold(levels: Map<u128, Seq<Order>>)
    requires
        levels.dom().finite(),
        levels.dom().len() > 0,
    ensures
        levels.contains_key(lowest(levels.dom())),
        orders_ascending(levels) == levels[lowest(levels.dom())] + orders_ascending(
            levels.remove(lowest(levels.dom())),
        ),
{
    let keys = levels.dom();
    lemma_extremes_exist(keys);
    let lo = lowest(keys);
    let tail = ascending_keys(keys.remove(lo));
    lemma_ascending_keys(keys.remove(lo));
    assert(levels.remove(lo).dom() =~= keys.remove(lo));
    assert forall|i: int| 0 <= i < tail.len() implies levels[#[trigger] tail[i]] == levels.remove(
        lo,
    )[tail[i]] by {
        assert(tail.contains(tail[i]));
    }
    lemma_queues_in_order_agree(tail, levels, levels.remove(lo));
    assert((seq![lo] + tail).drop_first() =~= tail);
}

/// Every order in the enumeration of a well-formed side asks for a positive
/// quantity, is a limit order of that side and names its price.
pub proof fn lemma_orders_ascending_rest(levels: Map<u128, Seq<Order>>, side: BidOrAsk)
    requires
        side_well_formed(levels, side),
    ensures
        forall|i: int|
            0 <= i < orders_ascending(levels).len() ==> rests_on(
                #[trigger] orders_ascending(levels)[i],
                side,
            ),
    decreases levels.dom().len(),
{
    if levels.dom().len() == 0 {
        assert(orders_ascending(levels) =~= Seq::<Order>::empty());
    } else {
        lemma_orders_ascending_unfold(levels);
        let lo = lowest(levels.dom());
        let rest = levels.remove(lo);
        assert(side_well_formed(rest, side)) by {
            assert forall|k: u128| #[trigger] rest.contains_key(k) implies rest[k].len() > 0
                && queue_rests_at(rest[k], k, side) by {
                assert(levels.contains_key(k));
            }
        }
        lemma_orders_ascending_rest(rest, side);
        let all = orders_ascending(levels);
        assert forall|i: int| 0 <= i < all.len() implies rests_on(#[trigger] all[i], side) by {
            if i < levels[lo].len() {
                assert(all[i] == levels[lo][i]);
                assert(rests_at(levels[lo][i], lo, side));
            } else {
                assert(all[i] == orders_ascending(rest)[i - levels[lo].len()]);
            }
        }
    }
}

/// The quantity of two queues in a row is the sum of their quantities.
pub proof fn lemma_amount_sum_concat(front: Seq<Order>, back: Seq<Order>)
    ensures
        amount_sum(front + back) == amount_sum(front) + amount_sum(back),
    decreases front.len(),
{
    if front.len() == 0 {
        assert(front + back =~= back);
    } else {
        lemma_amount_sum_concat(front.drop_first(), back);
        assert((front + back).drop_first() =~= front.drop_first() + back);
    }
}

/// Queuing one more order adds its quantity.
pub proof fn lemma_amount_sum_push(orders: Seq<Order>, order: Order)
    ensures
        amount_sum(orders.push(order)) == amount_sum(orders) + order.amount,
{
    lemma_amount_sum_concat(orders, seq![order]);
    assert(orders.push(order) =~= orders + seq![order]);
    assert(seq![order].drop_first() =~= Seq::<Order>::empty());
    assert(amount_sum(seq![order]) == order.amount + amount_sum(seq![order].drop_first()));
}

/// Taking one level away takes the quantity of its queue away.
pub proof fn lemma_total_amount_remove(levels: Map<u128, Seq<Order>>, key: u128)
    requires
        levels.dom().finite(),
        levels.contains_key(key),
    ensures
        total_amount(levels) == amount_sum(levels[key]) + total_amount(levels.remove(key)),
    decreases levels.dom().len(),
{
    let keys = levels.dom();
    lemma_orders_ascending_unfold(levels);
    let lo = lowest(keys);
    lemma_amount_sum_concat(levels[lo], orders_ascending(levels.remove(lo)));
    if key != lo {
        let without_lo = levels.remove(lo);
        let without_key = levels.remove(key);
        lemma_total_amount_remove(without_lo, key);
        lemma_extremes_exist(keys);
        lemma_extremes_exist(without_key.dom());
        assert(is_lowest(without_key.dom(), lo));
        assert(lowest(without_key.dom()) == lo) by {
            let other = lowest(without_key.dom());
            assert(lo <= other && other <= lo);
        }
        lemma_orders_ascending_unfold(without_key);
        lemma_amount_sum_concat(without_key[lo], orders_ascending(without_key.remove(lo)));
        assert(without_key.remove(lo) =~= without_lo.remove(key));
    }
}

/// Setting the queue of one level replaces the quantity of its old queue, if
/// it had one, by that of the new queue.
pub proof fn lemma_total_amount_insert(
    levels: Map<u128, Seq<Order>>,
    key: u128,
    queue: Seq<Order>,
)
    requires
        levels.dom().finite(),
    ensures
        total_amount(levels.insert(key, queue)) == amount_sum(queue) + total_amount(
            levels.remove(key),
        ),
{
    lemma_total_amount_remove(levels.insert(key, queue), key);
    assert(levels.insert(key, queue).remove(key) =~= levels.remove(key));
}

/// The first order with identifier `id` of two sequences in a row is that
/// of the first sequence, or else that of the second.
pub proof fn lemma_first_with_id_concat(front: Seq<Order>, back: Seq<Order>, id: u64)
    ensures
        first_with_id(front + back, id) == if first_with_id(front, id) is Some {
            first_with_id(front, id)
        } else {
            first_with_id(back, id)
        },
    decreases front.len(),
{
    if front.len() == 0 {
        assert(front + back =~= back);
    } else {
        lemma_first_with_id_concat(front.drop_first(), back, id);
        assert((front + back).drop_first() =~= front.drop_first() + back);
    }
}

/// The first order with identifier `id` sits where no earlier order has it.
pub proof fn lemma_first_with_id_at(orders: Seq<Order>, id: u64, at: int)
    requires
        0 <= at <= orders.len(),
        forall|j: int| 0 <= j < at ==> orders[j].id != id,
        at < orders.len() ==> orders[at].id == id,
    ensures
        first_with_id(orders, id) == if at < orders.len() {
            Some(orders[at])
        } else {
            None
        },
    decreases orders.len(),
{
    if orders.len() > 0 && at > 0 {
        let tail = orders.drop_first();
        assert forall|j: int| 0 <= j < at - 1 implies tail[j].id != id by {
            assert(tail[j] == orders[j + 1]);
        }
        lemma_first_with_id_at(tail, id, at - 1);
    }
}

} // verus!
