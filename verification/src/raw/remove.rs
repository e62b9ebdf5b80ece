//! Taking pairs out of the queue: a node is deleted logically, and unlinked
//! later.

use crate::chain::holds;
use crate::chain::lemma_holds_at;
use crate::chain::lemma_holds_index;
use crate::chain::lemma_holds_not;
use crate::chain::lemma_live_contains;
use crate::chain::lemma_live_frame;
use crate::chain::lemma_live_single;
use crate::chain::lemma_live_split;
use crate::chain::live_pairs;
use crate::model::has_item;
use crate::model::sorted;
use crate::node::List;
use super::Cut;
use super::RawCPQ;
use super::goes_before;
use super::other;
use super::share_of;
use vstd::prelude::*;

verus! {

impl RawCPQ {
    /// Deletes the node in `slot` logically from both lists. Returns
    /// whether this call was the one that deleted it; where another one was
    /// first, nothing has changed. The node stays chained in until a
    /// traversal of each list unlinks it.
    pub(super) fn retire(&mut self, slot: usize) -> (won: bool)
        requires
            old(self).inv(None),
            holds(old(self).priority_chain@, slot),
        ensures
            won == !old(self).nodes@[slot as int].deleted(),
            !won ==> final(self).same_as(old(self)),
            final(self).inv(None),
            final(self).nodes@.len() == old(self).nodes@.len(),
            forall|i: int|
                0 <= i < final(self).nodes@.len() ==> (#[trigger] final(self).nodes@[i]).pair() == old(
                    self,
                ).nodes@[i].pair(),
            forall|slot: usize| #[trigger] final(self).shares(slot) == old(self).shares(slot),
            final(self).item_chain@ == old(self).item_chain@,
            final(self).priority_chain@ == old(self).priority_chain@,
            won ==> exists|r: int|
                0 <= r < old(self)@.len() && old(self)@[r] == old(self).nodes@[slot as int].pair()
                    && final(self)@ == old(self)@.remove(r),
    {
        let ghost k = lemma_holds_index(self.priority_chain@, slot);
        let mut node = self.nodes[slot];
        let won = node.mark();
        if !won {
            return false;
        }
        self.nodes[slot] = node;
        proof {
            let nodes = old(self).nodes@;
            let after = self.nodes@;
            let pc = self.priority_chain@;
            let ic = self.item_chain@;
            assert(nodes[slot as int].next_item.marked == nodes[slot as int].next_priority.marked);
            lemma_live_split(nodes, pc, k);
            lemma_live_split(after, pc, k);
            lemma_live_single(nodes, slot);
            lemma_live_single(after, slot);
            assert forall|j: int| 0 <= j < pc.take(k).len() implies {
                let x = #[trigger] pc.take(k)[j] as int;
                &&& nodes[x].pair() == after[x].pair()
                &&& nodes[x].next_priority.marked == after[x].next_priority.marked
            } by {
                assert(pc.take(k)[j] == pc[j]);
            }
            lemma_live_frame(nodes, after, pc.take(k));
            assert forall|j: int| 0 <= j < pc.skip(k + 1).len() implies {
                let x = #[trigger] pc.skip(k + 1)[j] as int;
                &&& nodes[x].pair() == after[x].pair()
                &&& nodes[x].next_priority.marked == after[x].next_priority.marked
            } by {
                assert(pc.skip(k + 1)[j] == pc[j + k + 1]);
            }
            lemma_live_frame(nodes, after, pc.skip(k + 1));
            let front = live_pairs(nodes, pc.take(k));
            let back = live_pairs(nodes, pc.skip(k + 1));
            let r = front.len() as int;
            assert(old(self)@ == front + seq![nodes[slot as int].pair()] + back);
            assert(live_pairs(after, pc) =~= front + back);
            assert(front + back =~= old(self)@.remove(r));
            assert(old(self)@[r] == nodes[slot as int].pair());
            self.lemma_lists_kept(old(self), None);
            assert forall|other: usize| other < after.len() implies (#[trigger] after[other as int]).refs
                >= share_of(ic, other) + share_of(pc, other) by {
                assert(nodes[other as int].refs >= share_of(ic, other) + share_of(pc, other));
            }
            assert forall|other: usize| other < after.len() implies ((
            #[trigger] after[other as int]).refs == 0 <==> holds(self.free@, other)) by {
                assert(nodes[other as int].refs == 0 <==> holds(self.free@, other));
            }
            assert forall|other: usize| #[trigger] self.shares(other) == old(self).shares(other) by {}
        }
        self.length = self.length - 1;
        true
    }
}

impl RawCPQ {
    /// Takes the pair with the least priority out of the queue: of several
    /// with that priority, the one that was pushed first. Returns nothing
    /// where the queue is empty.
    ///
    /// The node is deleted logically; it is unlinked from each list by a
    /// later traversal of that list.
    pub fn pop(&mut self) -> (popped: Option<(u64, u64)>)
        requires
            old(self).wf(),
        ensures
            final(self).wf(),
            old(self)@.len() == 0 ==> popped is None && final(self)@ == old(self)@,
            old(self)@.len() > 0 ==> popped == Some(old(self)@[0]) && final(self)@ == old(
                self,
            )@.drop_first(),
            popped matches Some(pair) ==> !has_item(final(self)@, pair.0),
            popped matches Some(pair) ==> forall|i: int|
                0 <= i < final(self)@.len() ==> pair.1 <= (#[trigger] final(self)@[i]).1,
            final(self).slots() == old(self).slots(),
            forall|slot: usize| #[trigger] final(self).shares(slot) == old(self).shares(slot),
            forall|slot: usize|
                old(self).shares(slot) > 0 ==> #[trigger] final(self).slot_pair(slot) == old(
                    self,
                ).slot_pair(slot),
    {
        loop
            invariant
                self.inv(None),
                self@ == old(self)@,
                self.nodes@.len() == old(self).nodes@.len(),
                forall|i: int|
                    0 <= i < self.nodes@.len() ==> (#[trigger] self.nodes@[i]).pair() == old(
                        self,
                    ).nodes@[i].pair(),
                forall|slot: usize| #[trigger] self.shares(slot) == old(self).shares(slot),
            decreases self@.len(),
        {
            let ghost start = *self;
            let (at, Ghost(k)) = self.search(List::Priorities, Cut::First, Ghost(None));
            let ghost chain = self.priority_chain@;
            proof {
                if k > 0 {
                    assert(goes_before(self.nodes@[chain[0] as int], Cut::First));
                }
            }
            let slot = match at.right {
                None => {
                    proof {
                        assert(self@ =~= Seq::<(u64, u64)>::empty());
                    }
                    return None;
                },
                Some(slot) => slot,
            };
            proof {
                assert(chain[0] == slot);
                assert(slot < self.nodes@.len());
                lemma_holds_at(chain, 0);
                let index = lemma_live_contains(self.nodes@, chain, 0);
                assert(chain.take(0) =~= Seq::<usize>::empty());
                assert(index == 0);
                self.lemma_view();
            }
            let node = self.nodes[slot];
            let pair = (node.item, node.priority);
            let ghost searched = *self;
            if self.retire(slot) {
                proof {
                    let r = choose|r: int|
                        0 <= r < searched@.len() && searched@[r] == searched.nodes@[slot as int].pair()
                            && self@ == searched@.remove(r);
                    assert(r == 0);
                    assert(searched@.remove(0) =~= searched@.drop_first());
                    assert forall|i: int| 0 <= i < self@.len() implies pair.1 <= (
                    #[trigger] self@[i]).1 by {
                        assert(self@[i] == searched@[i + 1]);
                        assert(searched@[0].1 <= searched@[i + 1].1);
                    }
                    crate::model::lemma_remove_keeps(searched@, 0);
                    assert forall|other: usize| old(self).shares(other) > 0 implies #[trigger] self.slot_pair(
                        other,
                    ) == old(self).slot_pair(other) by {}
                }
                return Some(pair);
            }
        }
    }
}

impl RawCPQ {
    /// Takes up to `amount` pairs out of the queue, the least priority
    /// first, and returns them in the order in which they left.
    pub fn drain(&mut self, amount: usize) -> (taken: Vec<(u64, u64)>)
        requires
            old(self).wf(),
        ensures
            final(self).wf(),
            taken@.len() == if amount <= old(self)@.len() {
                amount as int
            } else {
                old(self)@.len() as int
            },
            taken@ == old(self)@.take(taken@.len() as int),
            final(self)@ == old(self)@.skip(taken@.len() as int),
            sorted(taken@),
            forall|slot: usize| #[trigger] final(self).shares(slot) == old(self).shares(slot),
            forall|slot: usize|
                old(self).shares(slot) > 0 ==> #[trigger] final(self).slot_pair(slot) == old(
                    self,
                ).slot_pair(slot),
    {
        proof {
            self.lemma_view();
        }
        let mut taken: Vec<(u64, u64)> = Vec::new();
        let mut count: usize = 0;
        while count < amount
            invariant_except_break
                count == taken@.len(),
            invariant
                self.wf(),
                count <= amount,
                taken@.len() <= old(self)@.len(),
                taken@.len() <= amount,
                taken@ == old(self)@.take(taken@.len() as int),
                self@ == old(self)@.skip(taken@.len() as int),
                sorted(old(self)@),
                forall|slot: usize| #[trigger] self.shares(slot) == old(self).shares(slot),
                forall|slot: usize|
                    old(self).shares(slot) > 0 ==> #[trigger] self.slot_pair(slot) == old(
                        self,
                    ).slot_pair(slot),
            ensures
                taken@.len() == amount || self@.len() == 0,
            decreases amount - count,
        {
            let ghost before = self@;
            let ghost done = taken@;
            match self.pop() {
                Some(pair) => {
                    taken.push(pair);
                    count = count + 1;
                    proof {
                        let n = done.len() as int;
                        assert(before[0] == old(self)@[n]);
                        assert(taken@ =~= old(self)@.take(n + 1));
                        assert(self@ =~= old(self)@.skip(n + 1));
                    }
                },
                None => {
                    break ;
                },
            }
        }
        taken
    }

    /// In a queue without pairs every node that a list still chains in is
    /// marked.
    proof fn lemma_none_live(&self, list: List, k: int)
        requires
            self.inv(None),
            self@.len() == 0,
            0 <= k < self.chain(list).len(),
        ensures
            self.nodes@[self.chain(list)[k] as int].link(list).marked,
    {
        let nodes = self.nodes@;
        let pc = self.priority_chain@;
        let slot = self.chain(list)[k];
        assert(nodes[slot as int].next_item.marked == nodes[slot as int].next_priority.marked);
        if !nodes[slot as int].link(list).marked {
            match list {
                List::Items => {
                    assert(holds(pc, self.item_chain@[k]));
                },
                List::Priorities => {
                    lemma_holds_at(pc, k);
                },
            }
            let x = lemma_holds_index(pc, slot);
            let i = lemma_live_contains(nodes, pc, x);
        }
    }

    /// Takes every pair out of the queue and unlinks every node from both
    /// lists, so that every slot that no handle keeps can be used again: a
    /// node without a handle is no longer alive.
    pub fn clear(&mut self)
        requires
            old(self).wf(),
        ensures
            final(self).wf(),
            final(self)@.len() == 0,
            forall|slot: usize|
                slot < final(self).slots() && final(self).shares(slot) == 0 ==> !final(self).alive(
                    slot,
                ),
            final(self).slots() == old(self).slots(),
            forall|slot: usize| #[trigger] final(self).shares(slot) == old(self).shares(slot),
            forall|slot: usize|
                old(self).shares(slot) > 0 ==> #[trigger] final(self).slot_pair(slot) == old(
                    self,
                ).slot_pair(slot),
    {
        loop
            invariant
                self.wf(),
                self.slots() == old(self).slots(),
                forall|slot: usize| #[trigger] self.shares(slot) == old(self).shares(slot),
                forall|slot: usize|
                    old(self).shares(slot) > 0 ==> #[trigger] self.slot_pair(slot) == old(
                        self,
                    ).slot_pair(slot),
            ensures
                self@.len() == 0,
            decreases self@.len(),
        {
            if self.pop().is_none() {
                break ;
            }
        }
        let ghost emptied = *self;
        let (_, Ghost(reached)) = self.search(List::Items, Cut::Key(0), Ghost(None));
        proof {
            if self.item_chain@.len() > 0 {
                self.lemma_none_live(List::Items, 0);
            }
            assert(self.item_chain@.len() == 0);
        }
        let ghost swept = *self;
        let (_, Ghost(first)) = self.search(List::Priorities, Cut::First, Ghost(None));
        proof {
            if self.priority_chain@.len() > 0 {
                self.lemma_none_live(List::Priorities, 0);
            }
            assert(self.priority_chain@.len() == 0);
            assert(self.item_chain@.len() == 0);
            assert forall|slot: usize|
                slot < self.slots() && self.shares(slot) == 0 implies !self.alive(slot) by {
                lemma_holds_not(self.item_chain@, slot);
                lemma_holds_not(self.priority_chain@, slot);
            }
            assert forall|slot: usize| old(self).shares(slot) > 0 implies #[trigger] self.slot_pair(
                slot,
            ) == old(self).slot_pair(slot) by {
                assert(self.shares(slot) == swept.shares(slot));
                assert(swept.shares(slot) == emptied.shares(slot));
                assert(emptied.slot_pair(slot) == old(self).slot_pair(slot));
            }
        }
    }
}

} // verus!
