//! Walking through the pairs of a queue without changing it.

use super::Entry;
use super::RawCPQ;
use crate::chain::lemma_live_concat;
use crate::chain::lemma_live_single;
use crate::chain::linked;
use crate::chain::live_pairs;
use crate::chain::slot_at;
use crate::node::List;
use vstd::prelude::*;

verus! {

/// A walk through the pairs of a queue, the least priority first. It
/// borrows the queue, which therefore does not change while the walk lasts.
pub struct Iter<'a> {
    queue: &'a RawCPQ,
    curr: Option<usize>,
    place: Ghost<int>,
}

impl<'a> View for Iter<'a> {
    type V = Seq<(u64, u64)>;

    /// The pairs that the walk has not reached yet.
    closed spec fn view(&self) -> Seq<(u64, u64)> {
        live_pairs(self.queue.nodes@, self.queue.priority_chain@.skip(self.place@))
    }
}

impl<'a> Iter<'a> {
    /// The walk stands at a place of a well-formed queue.
    pub closed spec fn wf(&self) -> bool {
        &&& self.queue.wf()
        &&& 0 <= self.place@ <= self.queue.priority_chain@.len()
        &&& self.curr == slot_at(self.queue.priority_chain@, self.place@)
    }

    /// The next pair of the walk, if there is one.
    pub fn next(&mut self) -> (entry: Option<Entry<'a>>)
        requires
            old(self).wf(),
        ensures
            final(self).wf(),
            match entry {
                Some(e) => {
                    &&& old(self)@.len() > 0
                    &&& e@ == old(self)@[0]
                    &&& final(self)@ == old(self)@.drop_first()
                },
                None => old(self)@.len() == 0 && final(self)@ == old(self)@,
            },
    {
        let queue: &'a RawCPQ = self.queue;
        let ghost pc = queue.priority_chain@;
        let ghost nodes = queue.nodes@;
        loop
            invariant
                self.wf(),
                self.queue == queue,
                pc == queue.priority_chain@,
                nodes == queue.nodes@,
                self@ == old(self)@,
            decreases pc.len() - self.place@,
        {
            let slot = match self.curr {
                None => {
                    proof {
                        assert(pc.skip(self.place@) =~= Seq::<usize>::empty());
                    }
                    return None;
                },
                Some(slot) => slot,
            };
            let ghost k = self.place@;
            proof {
                assert(linked(nodes, pc, List::Priorities, k));
                assert(pc[k] < nodes.len());
                assert(pc.skip(k) =~= seq![pc[k]] + pc.skip(k + 1));
                lemma_live_concat(nodes, seq![pc[k]], pc.skip(k + 1));
                lemma_live_single(nodes, pc[k]);
            }
            let node = &queue.nodes[slot];
            let next = node.next_priority;
            self.curr = next.target;
            self.place = Ghost(k + 1);
            if !next.marked {
                proof {
                    let rest = live_pairs(nodes, pc.skip(k + 1));
                    assert((seq![nodes[pc[k] as int].pair()] + rest).drop_first() =~= rest);
                }
                return Some(Entry { node });
            }
            proof {
                let rest = live_pairs(nodes, pc.skip(k + 1));
                assert(Seq::<(u64, u64)>::empty() + rest =~= rest);
            }
        }
    }
}

impl RawCPQ {
    /// A walk through the pairs of the queue from the first one.
    pub fn iter(&self) -> (iter: Iter<'_>)
        requires
            self.wf(),
        ensures
            iter.wf(),
            iter@ == self@,
    {
        proof {
            assert(self.priority_chain@.skip(0) =~= self.priority_chain@);
        }
        Iter { queue: self, curr: self.priorities.target, place: Ghost(0) }
    }
}

} // verus!
