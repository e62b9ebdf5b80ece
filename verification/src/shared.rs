//! The queue of unique items for one owner who need not know its
//! invariant, and the same queue behind a lock for many threads.

use crate::lock::guard_mut;
use crate::lock::lock_new;
use crate::lock::lock_write;
use crate::model::distinct_items;
use crate::model::lookup;
use crate::model::pushed;
use crate::model::sorted;
use crate::raw::RawCPQ;
use vstd::prelude::*;

verus! {

/// A queue of unique items with priorities that is well formed by its
/// type: its pairs are always sorted by priority, and no item occurs in two
/// of them.
pub struct Queue {
    raw: RawCPQ,
}

impl View for Queue {
    type V = Seq<(u64, u64)>;

    /// The pairs that the queue holds, in the order in which they leave.
    closed spec fn view(&self) -> Seq<(u64, u64)> {
        self.raw@
    }
}

impl Queue {
    #[verifier::type_invariant]
    spec fn well_formed(self) -> bool {
        self.raw.wf()
    }

    /// An empty queue.
    pub fn new() -> (queue: Self)
        ensures
            queue@ == Seq::<(u64, u64)>::empty(),
    {
        Queue { raw: RawCPQ::new() }
    }

    /// An empty queue with room for `capacity` nodes.
    pub fn with_capacity(capacity: usize) -> (queue: Self)
        ensures
            queue@ == Seq::<(u64, u64)>::empty(),
    {
        Queue { raw: RawCPQ::with_capacity(capacity) }
    }

    /// Puts `item` into the queue with `priority`, in place of an earlier
    /// priority of the same item.
    pub fn push(&mut self, item: u64, priority: u64)
        ensures
            final(self)@ == pushed(old(self)@, item, priority),
            lookup(final(self)@, item) == Some(priority),
            sorted(old(self)@),
            distinct_items(old(self)@),
            sorted(final(self)@),
            distinct_items(final(self)@),
    {
        proof {
            use_type_invariant(&*self);
            self.raw.lemma_view();
        }
        let mut held = RawCPQ::new();
        core::mem::swap(&mut self.raw, &mut held);
        held.push(item, priority);
        proof {
            held.lemma_view();
        }
        core::mem::swap(&mut self.raw, &mut held);
    }

    /// Takes the pair with the least priority out: of several with that
    /// priority, the one that was pushed first.
    pub fn pop(&mut self) -> (popped: Option<(u64, u64)>)
        ensures
            old(self)@.len() == 0 ==> popped is None && final(self)@ == old(self)@,
            old(self)@.len() > 0 ==> popped == Some(old(self)@[0]) && final(self)@ == old(
                self,
            )@.drop_first(),
            sorted(old(self)@),
            distinct_items(old(self)@),
            sorted(final(self)@),
            distinct_items(final(self)@),
    {
        proof {
            use_type_invariant(&*self);
            self.raw.lemma_view();
        }
        let mut held = RawCPQ::new();
        core::mem::swap(&mut self.raw, &mut held);
        let popped = held.pop();
        proof {
            held.lemma_view();
        }
        core::mem::swap(&mut self.raw, &mut held);
        popped
    }

    /// Takes up to `amount` pairs out, the least priority first.
    pub fn drain(&mut self, amount: usize) -> (taken: Vec<(u64, u64)>)
        ensures
            taken@.len() == if amount <= old(self)@.len() {
                amount as int
            } else {
                old(self)@.len() as int
            },
            taken@ == old(self)@.take(taken@.len() as int),
            final(self)@ == old(self)@.skip(taken@.len() as int),
            sorted(taken@),
            distinct_items(taken@),
    {
        proof {
            use_type_invariant(&*self);
            self.raw.lemma_view();
        }
        let mut held = RawCPQ::new();
        core::mem::swap(&mut self.raw, &mut held);
        let taken = held.drain(amount);
        proof {
            let all = old(self)@;
            assert forall|i: int, j: int| 0 <= i < j < taken@.len() implies taken@[i].0
                != taken@[j].0 by {
                assert(taken@[i] == all[i] && taken@[j] == all[j]);
            }
        }
        core::mem::swap(&mut self.raw, &mut held);
        taken
    }

    /// The pair that `pop` would take.
    pub fn peek(&self) -> (found: Option<(u64, u64)>)
        ensures
            self@.len() == 0 ==> found is None,
            self@.len() > 0 ==> found == Some(self@[0]),
            sorted(self@),
            distinct_items(self@),
    {
        proof {
            use_type_invariant(self);
            self.raw.lemma_view();
        }
        match self.raw.peek() {
            Some(entry) => Some((entry.item(), entry.priority())),
            None => None,
        }
    }

    /// The priority of `item`, if the queue holds the item.
    pub fn get(&self, item: u64) -> (found: Option<u64>)
        ensures
            found == lookup(self@, item),
    {
        proof {
            use_type_invariant(self);
        }
        match self.raw.get(item) {
            Some(entry) => Some(entry.priority()),
            None => None,
        }
    }

    /// The number of pairs.
    pub fn len(&self) -> (n: usize)
        ensures
            n == self@.len(),
    {
        proof {
            use_type_invariant(self);
        }
        self.raw.len()
    }

    /// Whether the queue holds no pair.
    pub fn is_empty(&self) -> (empty: bool)
        ensures
            empty == (self@.len() == 0),
    {
        proof {
            use_type_invariant(self);
        }
        self.raw.is_empty()
    }
}

/// A queue of unique items with priorities that threads share.
///
/// Every operation takes the lock for itself alone. What one thread reads
/// of the queue may have been changed by another before it looks at it, so
/// the operations promise nothing of what they return. What each of them
/// does to the queue while it holds the lock is stated, and proved, in
/// [`Queue`].
pub struct SharedQueue {
    lock: parking_lot::RwLock<Queue>,
}

impl SharedQueue {
    /// An empty queue.
    pub fn new() -> (queue: Self) {
        SharedQueue { lock: lock_new(Queue::new()) }
    }

    /// An empty queue with room for `capacity` nodes.
    pub fn with_capacity(capacity: usize) -> (queue: Self) {
        SharedQueue { lock: lock_new(Queue::with_capacity(capacity)) }
    }

    /// Puts `item` into the queue with `priority`, in place of an earlier
    /// priority of the same item.
    pub fn push(&self, item: u64, priority: u64) {
        let mut guard = lock_write(&self.lock);
        let queue = guard_mut(&mut guard);
        queue.push(item, priority);
    }

    /// Takes the pair with the least priority out, if there is a pair.
    pub fn pop(&self) -> (popped: Option<(u64, u64)>) {
        let mut guard = lock_write(&self.lock);
        let queue = guard_mut(&mut guard);
        queue.pop()
    }

    /// The pair with the least priority at some moment during the call.
    pub fn peek(&self) -> (found: Option<(u64, u64)>) {
        let mut guard = lock_write(&self.lock);
        let queue = guard_mut(&mut guard);
        queue.peek()
    }

    /// The priority that `item` had at some moment during the call.
    pub fn get(&self, item: u64) -> (found: Option<u64>) {
        let mut guard = lock_write(&self.lock);
        let queue = guard_mut(&mut guard);
        queue.get(item)
    }

    /// Takes up to `amount` pairs out in one step, the least priority
    /// first. No item is taken twice.
    pub fn drain(&self, amount: usize) -> (taken: Vec<(u64, u64)>)
        ensures
            taken@.len() <= amount,
            sorted(taken@),
            distinct_items(taken@),
    {
        let mut guard = lock_write(&self.lock);
        let queue = guard_mut(&mut guard);
        queue.drain(amount)
    }

    /// The number of pairs at some moment during the call.
    pub fn len(&self) -> (n: usize) {
        let mut guard = lock_write(&self.lock);
        let queue = guard_mut(&mut guard);
        queue.len()
    }

    /// Whether the queue held no pair at some moment during the call.
    pub fn is_empty(&self) -> (empty: bool) {
        let mut guard = lock_write(&self.lock);
        let queue = guard_mut(&mut guard);
        queue.is_empty()
    }
}

} // verus!
