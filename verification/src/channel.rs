//! The ordered stream of fills that the engine publishes.
//!
//! The engine is the only producer. Any number of observers may attach; each
//! has a first-in-first-out queue of its own. A fill that is sent is appended
//! to the queue of every observer attached at that moment, so every observer
//! sees every fill sent while it was attached, once, in the order of sending.
//! An observer that attaches later starts with an empty queue.
//!
//! The view of a channel maps each attached observer to the fills pending
//! for it, oldest first.

use crate::models::MatchedOrder;
use std::collections::VecDeque;
use vstd::prelude::*;

verus! {

/// The fills pending for each attached observer.
#[derive(Debug)]
pub struct TradeChannel {
    observers: Vec<Option<VecDeque<MatchedOrder>>>,
}

impl View for TradeChannel {
    type V = Map<usize, Seq<MatchedOrder>>;

    closed spec fn view(&self) -> Map<usize, Seq<MatchedOrder>> {
        Map::new(
            |id: usize| id < self.observers@.len() && self.observers@[id as int] is Some,
            |id: usize| self.observers@[id as int]->0@,
        )
    }
}

/// What is pending for each observer once `trades` were sent: the same
/// observers, each with `trades` behind what it had pending.
pub open spec fn delivered(
    pending: Map<usize, Seq<MatchedOrder>>,
    trades: Seq<MatchedOrder>,
) -> Map<usize, Seq<MatchedOrder>> {
    Map::new(|id: usize| pending.contains_key(id), |id: usize| pending[id] + trades)
}

/// Sending nothing changes nothing, and sending one batch after another is
/// sending the two in a row: across calls the fills stay in the order of
/// sending, none lost and none repeated.
pub proof fn lemma_delivered_in_order(
    pending: Map<usize, Seq<MatchedOrder>>,
    first: Seq<MatchedOrder>,
    second: Seq<MatchedOrder>,
)
    ensures
        delivered(pending, Seq::empty()) == pending,
        delivered(delivered(pending, first), second) == delivered(pending, first + second),
{
    assert(delivered(pending, Seq::empty()) =~= pending) by {
        assert forall|id: usize| pending.contains_key(id) implies #[trigger] delivered(
            pending,
            Seq::empty(),
        )[id] == pending[id] by {
            assert(pending[id] + Seq::<MatchedOrder>::empty() =~= pending[id]);
        }
    }
    assert(delivered(delivered(pending, first), second) =~= delivered(pending, first + second)) by {
        assert forall|id: usize| pending.contains_key(id) implies #[trigger] delivered(
            delivered(pending, first),
            second,
        )[id] == delivered(pending, first + second)[id] by {
            assert((pending[id] + first) + second =~= pending[id] + (first + second));
        }
    }
}

impl TradeChannel {
    /// A channel with no observer.
    pub fn new() -> (r: TradeChannel)
        ensures
            r@ == Map::<usize, Seq<MatchedOrder>>::empty(),
    {
        let r = TradeChannel { observers: Vec::new() };
        assert(r@ =~= Map::<usize, Seq<MatchedOrder>>::empty());
        r
    }

    /// Attaches a new observer and returns its identifier. Nothing sent
    /// before is pending for it. The identifier is that of no observer
    /// attached now; it may be one that a detached observer gave up.
    pub fn subscribe(&mut self) -> (id: usize)
        ensures
            !old(self)@.contains_key(id),
            final(self)@ == old(self)@.insert(id, Seq::empty()),
    {
        let mut i: usize = 0;
        while i < self.observers.len()
            invariant
                i <= self.observers.len(),
                *self == *old(self),
            decreases self.observers.len() - i,
        {
            if self.observers[i].is_none() {
                self.observers[i] = Some(VecDeque::new());
                assert(self@ =~= old(self)@.insert(i, Seq::empty()));
                return i;
            }
            i += 1;
        }
        self.observers.push(Some(VecDeque::new()));
        assert(self@ =~= old(self)@.insert(i, Seq::empty()));
        i
    }

    /// Detaches observer `id`; what was pending for it is discarded.
    pub fn unsubscribe(&mut self, id: usize)
        ensures
            final(self)@ == old(self)@.remove(id),
    {
        if id < self.observers.len() {
            self.observers[id] = None;
        }
        assert(self@ =~= old(self)@.remove(id));
    }

    /// Sends one fill to every attached observer.
    pub fn send(&mut self, trade: MatchedOrder)
        ensures
            final(self)@ == delivered(old(self)@, seq![trade]),
    {
        let mut i: usize = 0;
        while i < self.observers.len()
            invariant
                i <= self.observers.len(),
                self.observers@.len() == old(self).observers@.len(),
                forall|j: int|
                    0 <= j < i ==> match old(self).observers@[j] {
                        Some(queue) => (#[trigger] self.observers@[j]) is Some
                            && self.observers@[j]->0@ == queue@.push(trade),
                        None => self.observers@[j] is None,
                    },
                forall|j: int|
                    i <= j < self.observers@.len() ==> #[trigger] self.observers@[j] == old(
                        self,
                    ).observers@[j],
            decreases self.observers.len() - i,
        {
            match &mut self.observers[i] {
                Some(queue) => {
                    queue.push_back(trade);
                },
                None => {},
            }
            i += 1;
        }
        assert(self@ =~= delivered(old(self)@, seq![trade])) by {
            assert forall|id: usize| old(self)@.contains_key(id) implies #[trigger] self@[id]
                == old(self)@[id] + seq![trade] by {
                assert(self.observers@[id as int] is Some);
                assert(old(self)@[id].push(trade) =~= old(self)@[id] + seq![trade]);
            }
            assert forall|id: usize| self@.contains_key(id) implies old(self)@.contains_key(id) by {
                assert(self.observers@[id as int] is Some);
            }
        }
    }

    /// Sends `trades`, in their order, to every attached observer.
    pub fn send_all(&mut self, trades: &Vec<MatchedOrder>)
        ensures
            final(self)@ == delivered(old(self)@, trades@),
    {
        let mut i: usize = 0;
        proof {
            lemma_delivered_in_order(self@, Seq::empty(), Seq::empty());
            assert(trades@.take(0) =~= Seq::<MatchedOrder>::empty());
        }
        while i < trades.len()
            invariant
                i <= trades.len(),
                self@ == delivered(old(self)@, trades@.take(i as int)),
            decreases trades.len() - i,
        {
            self.send(trades[i]);
            proof {
                lemma_delivered_in_order(old(self)@, trades@.take(i as int), seq![trades@[i as int]]);
                assert(trades@.take(i + 1) =~= trades@.take(i as int) + seq![trades@[i as int]]);
            }
            i += 1;
        }
        assert(trades@.take(trades@.len() as int) =~= trades@);
    }

    /// Takes the oldest fill pending for observer `id`. Returns `None` where
    /// nothing is pending for it or no such observer is attached.
    pub fn try_recv(&mut self, id: usize) -> (r: Option<MatchedOrder>)
        ensures
            r == if old(self)@.contains_key(id) && old(self)@[id].len() > 0 {
                Some(old(self)@[id][0])
            } else {
                None
            },
            final(self)@ == if r is Some {
                old(self)@.insert(id, old(self)@[id].drop_first())
            } else {
                old(self)@
            },
    {
        if id >= self.observers.len() {
            return None;
        }
        let r = match &mut self.observers[id] {
            Some(queue) => queue.pop_front(),
            None => None,
        };
        proof {
            if r is Some {
                assert(self@ =~= old(self)@.insert(id, old(self)@[id].drop_first()));
            } else {
                assert(self@ =~= old(self)@);
            }
        }
        r
    }

    /// Takes every fill pending for observer `id`, oldest first.
    pub fn drain(&mut self, id: usize) -> (r: Vec<MatchedOrder>)
        ensures
            r@ == if old(self)@.contains_key(id) {
                old(self)@[id]
            } else {
                Seq::empty()
            },
            final(self)@ == if old(self)@.contains_key(id) {
                old(self)@.insert(id, Seq::empty())
            } else {
                old(self)@
            },
    {
        let mut out: Vec<MatchedOrder> = Vec::new();
        let ghost waiting = if self@.contains_key(id) {
            self@[id]
        } else {
            Seq::empty()
        };
        assert(waiting =~= out@ + waiting);
        loop
            invariant_except_break
                waiting == out@ + if self@.contains_key(id) {
                    self@[id]
                } else {
                    Seq::empty()
                },
                self@.contains_key(id) == old(self)@.contains_key(id),
                self@.contains_key(id) ==> self@ == old(self)@.insert(id, self@[id]),
                !self@.contains_key(id) ==> self@ == old(self)@,
                waiting == if old(self)@.contains_key(id) {
                    old(self)@[id]
                } else {
                    Seq::empty()
                },
            ensures
                out@ == waiting,
                self@ == if old(self)@.contains_key(id) {
                    old(self)@.insert(id, Seq::empty())
                } else {
                    old(self)@
                },
            decreases
                    if self@.contains_key(id) {
                        self@[id].len()
                    } else {
                        0
                    },
        {
            let ghost before = self@;
            let ghost taken = out@;
            match self.try_recv(id) {
                Some(trade) => {
                    out.push(trade);
                    assert(out@ + self@[id] =~= taken + before[id]);
                    assert(self@ =~= old(self)@.insert(id, self@[id]));
                },
                None => {
                    proof {
                        if before.contains_key(id) {
                            assert(before[id] =~= Seq::<MatchedOrder>::empty());
                            assert(out@ + before[id] =~= out@);
                            assert(self@ =~= old(self)@.insert(id, Seq::empty()));
                        } else {
                            assert(out@ + Seq::<MatchedOrder>::empty() =~= out@);
                        }
                    }
                    break ;
                },
            }
        }
        out
    }

    /// Whether observer `id` is attached.
    pub fn is_attached(&self, id: usize) -> (r: bool)
        ensures
            r == self@.contains_key(id),
    {
        id < self.observers.len() && self.observers[id].is_some()
    }
}

} // verus!
