//! Shares of nodes that callers hold.

use crate::bound::Bound;
use crate::bound::above_lower;
use crate::chain::holds;
use crate::chain::lemma_holds_insert;
use crate::chain::lemma_live_frame;
use crate::model::lookup;
use super::Cut;
use super::RawCPQ;
use super::RefEntry;
use super::goes_before;
use super::hits;
use super::other;
use super::share_of;
use vstd::prelude::*;

verus! {

impl RawCPQ {
    /// Gives a share back. The node whose last share is given back is
    /// handed over for destruction: its slot may be used again.
    pub fn release(&mut self, entry: RefEntry)
        requires
            old(self).wf(),
            old(self).shares(entry.slot()) > 0,
        ensures
            final(self).wf(),
            final(self)@ == old(self)@,
            final(self).shares(entry.slot()) == old(self).shares(entry.slot()) - 1,
            forall|other: usize|
                other != entry.slot() ==> #[trigger] final(self).shares(other) == old(self).shares(
                    other,
                ),
            forall|other: usize| #[trigger] final(self).slot_pair(other) == old(self).slot_pair(other),
    {
        let slot = entry.slot;
        let mut node = self.nodes[slot];
        proof {
            assert(node.refs >= share_of(self.item_chain@, slot) + share_of(
                self.priority_chain@,
                slot,
            ));
        }
        let last = node.decrement();
        self.nodes[slot] = node;
        if last {
            self.free.push(slot);
        }
        proof {
            let nodes = old(self).nodes@;
            let after = self.nodes@;
            let ic = self.item_chain@;
            let pc = self.priority_chain@;
            let free = old(self).free@;
            let free2 = self.free@;
            self.lemma_lists_kept(old(self), None);
            assert forall|other: usize| other < after.len() implies (#[trigger] after[other as int]).refs
                >= share_of(ic, other) + share_of(pc, other) by {
                assert(nodes[other as int].refs >= share_of(ic, other) + share_of(pc, other));
            }
            assert(nodes[slot as int].refs >= 1);
            assert(!holds(free, slot));
            assert(forall|j: int| 0 <= j < free.len() ==> free[j] != slot) by {
                reveal(holds);
            }
            assert forall|other: usize| other < after.len() implies ((
            #[trigger] after[other as int]).refs == 0 <==> holds(free2, other)) by {
                assert(nodes[other as int].refs == 0 <==> holds(free, other));
                if last {
                    assert(free.push(slot) =~= free.insert(free.len() as int, slot));
                    lemma_holds_insert(free, free.len() as int, slot, other);
                }
            }
            lemma_live_frame(nodes, after, pc);
            assert forall|other: usize| other != slot implies #[trigger] self.shares(other) == old(
                self,
            ).shares(other) by {}
            assert forall|other: usize| #[trigger] self.slot_pair(other) == old(self).slot_pair(
                other,
            ) by {
                if other < nodes.len() {
                    assert(after[other as int].pair() == nodes[other as int].pair());
                }
            }
        }
    }

    /// The pair of the node that a share was taken of.
    pub fn pair_of(&self, entry: &RefEntry) -> (pair: (u64, u64))
        requires
            self.wf(),
            self.shares(entry.slot()) > 0,
        ensures
            pair == self.slot_pair(entry.slot()),
    {
        let node = &self.nodes[entry.slot];
        (node.item, node.priority)
    }
}

impl RefEntry {
    /// Takes a share of the node in `slot`, unless the node has given its
    /// last share back already: then it is promised to destruction, and
    /// nothing is returned.
    pub fn try_acquire(parent: &mut RawCPQ, slot: usize) -> (entry: Option<RefEntry>)
        requires
            old(parent).wf(),
            slot < old(parent).slots(),
            old(parent).shares(slot) < usize::MAX - 2,
        ensures
            final(parent).wf(),
            final(parent)@ == old(parent)@,
            entry is Some <==> old(parent).alive(slot),
            entry matches Some(e) ==> e.slot() == slot,
            final(parent).shares(slot) == old(parent).shares(slot) + if entry is Some {
                1int
            } else {
                0int
            },
            forall|other: usize|
                other != slot ==> #[trigger] final(parent).shares(other) == old(parent).shares(other),
            forall|other: usize| #[trigger] final(parent).slot_pair(other) == old(parent).slot_pair(other),
            forall|other: usize| #[trigger] final(parent).live(other) == old(parent).live(other),
    {
        if parent.acquire(slot) {
            Some(RefEntry { slot })
        } else {
            None
        }
    }
}

impl RawCPQ {
    /// Takes one more share of the node in `slot` if it has one left.
    pub(super) fn acquire(&mut self, slot: usize) -> (taken: bool)
        requires
            old(self).wf(),
            slot < old(self).slots(),
            old(self).shares(slot) < usize::MAX - 2,
        ensures
            final(self).wf(),
            final(self)@ == old(self)@,
            taken == old(self).alive(slot),
            final(self).shares(slot) == old(self).shares(slot) + if taken {
                1int
            } else {
                0int
            },
            forall|other: usize|
                other != slot ==> #[trigger] final(self).shares(other) == old(self).shares(other),
            forall|other: usize| #[trigger] final(self).slot_pair(other) == old(self).slot_pair(other),
            forall|other: usize| #[trigger] final(self).live(other) == old(self).live(other),
    {
        let mut node = self.nodes[slot];
        let taken = node.try_increment();
        self.nodes[slot] = node;
        proof {
            let nodes = old(self).nodes@;
            let after = self.nodes@;
            let ic = self.item_chain@;
            let pc = self.priority_chain@;
            if !taken {
                assert(after =~= nodes);
            }
            self.lemma_lists_kept(old(self), None);
            assert forall|other: usize| other < after.len() implies (#[trigger] after[other as int]).refs
                >= share_of(ic, other) + share_of(pc, other) by {
                assert(nodes[other as int].refs >= share_of(ic, other) + share_of(pc, other));
            }
            assert forall|other: usize| other < after.len() implies ((
            #[trigger] after[other as int]).refs == 0 <==> holds(self.free@, other)) by {
                assert(nodes[other as int].refs == 0 <==> holds(self.free@, other));
            }
            lemma_live_frame(nodes, after, pc);
            assert forall|other: usize| other != slot implies #[trigger] self.shares(other) == old(
                self,
            ).shares(other) by {}
            assert forall|other: usize| #[trigger] self.slot_pair(other) == old(self).slot_pair(
                other,
            ) by {
                if other < nodes.len() {
                    assert(after[other as int].pair() == nodes[other as int].pair());
                }
            }
            assert forall|other: usize| #[trigger] self.live(other) == old(self).live(other) by {
                if other < nodes.len() {
                    assert(after[other as int].deleted() == nodes[other as int].deleted());
                }
            }
        }
        taken
    }

    /// A share of the node of `item`, if the queue holds the item.
    pub fn get_ref(&mut self, item: u64) -> (found: Option<RefEntry>)
        requires
            old(self).wf(),
            forall|slot: usize| old(self).shares(slot) < usize::MAX - 2,
        ensures
            final(self).wf(),
            final(self)@ == old(self)@,
            match found {
                Some(entry) => {
                    &&& final(self).live(entry.slot())
                    &&& final(self).slot_pair(entry.slot()).0 == item
                    &&& lookup(old(self)@, item) == Some(final(self).slot_pair(entry.slot()).1)
                    &&& final(self).shares(entry.slot()) == old(self).shares(entry.slot()) + 1
                    &&& forall|other: usize|
                        other != entry.slot() ==> #[trigger] final(self).shares(other) == old(
                            self,
                        ).shares(other)
                },
                None => {
                    &&& lookup(old(self)@, item) is None
                    &&& forall|other: usize| #[trigger] final(self).shares(other) == old(self).shares(other)
                },
            },
            forall|other: usize| #[trigger] final(self).slot_pair(other) == old(self).slot_pair(other),
    {
        let slot = match self.find_item(item) {
            Some(slot) => slot,
            None => {
                return None;
            },
        };
        proof {
            assert(self.nodes@[slot as int].refs >= share_of(self.item_chain@, slot) + share_of(
                self.priority_chain@,
                slot,
            ));
        }
        RefEntry::try_acquire(self, slot)
    }

    /// A share of the node that `pop` would take, if the queue is not
    /// empty.
    pub fn peek_ref(&mut self) -> (found: Option<RefEntry>)
        requires
            old(self).wf(),
            forall|slot: usize| old(self).shares(slot) < usize::MAX - 2,
        ensures
            final(self).wf(),
            final(self)@ == old(self)@,
            match found {
                Some(entry) => {
                    &&& old(self)@.len() > 0
                    &&& final(self).live(entry.slot())
                    &&& final(self).slot_pair(entry.slot()) == old(self)@[0]
                    &&& final(self).shares(entry.slot()) == old(self).shares(entry.slot()) + 1
                    &&& forall|other: usize|
                        other != entry.slot() ==> #[trigger] final(self).shares(other) == old(
                            self,
                        ).shares(other)
                },
                None => {
                    &&& old(self)@.len() == 0
                    &&& forall|other: usize| #[trigger] final(self).shares(other) == old(self).shares(other)
                },
            },
            forall|other: usize| #[trigger] final(self).slot_pair(other) == old(self).slot_pair(other),
    {
        let slot = match self.search_priority_bound(Bound::Unbounded, false) {
            Some(slot) => slot,
            None => {
                proof {
                    if self@.len() > 0 {
                        assert(!above_lower(Bound::Unbounded, self@[0].1));
                    }
                }
                return None;
            },
        };
        proof {
            assert(self.nodes@[slot as int].refs >= share_of(self.item_chain@, slot) + share_of(
                self.priority_chain@,
                slot,
            ));
        }
        RefEntry::try_acquire(self, slot)
    }
}

impl RawCPQ {
    /// A share of the first node with exactly this priority, if there is
    /// one. The search unlinks the marked nodes that it comes across.
    pub fn get_priority_ref(&mut self, priority: u64) -> (found: Option<RefEntry>)
        requires
            old(self).wf(),
            forall|slot: usize| old(self).shares(slot) < usize::MAX - 2,
        ensures
            final(self).wf(),
            final(self)@ == old(self)@,
            match found {
                Some(entry) => {
                    &&& final(self).live(entry.slot())
                    &&& final(self).slot_pair(entry.slot()).1 == priority
                    &&& exists|i: int|
                        {
                            &&& 0 <= i < old(self)@.len()
                            &&& old(self)@[i] == final(self).slot_pair(entry.slot())
                            &&& forall|j: int| 0 <= j < i ==> (#[trigger] old(self)@[j]).1 < priority
                        }
                    &&& final(self).shares(entry.slot()) == old(self).shares(entry.slot()) + 1
                    &&& forall|other: usize|
                        other != entry.slot() ==> #[trigger] final(self).shares(other) == old(
                            self,
                        ).shares(other)
                },
                None => {
                    &&& forall|i: int|
                        0 <= i < old(self)@.len() ==> (#[trigger] old(self)@[i]).1 != priority
                    &&& forall|other: usize| #[trigger] final(self).shares(other) == old(self).shares(other)
                },
            },
            forall|other: usize| #[trigger] final(self).slot_pair(other) == old(self).slot_pair(other),
    {
        let (at, Ghost(k)) = self.search_priority_position(priority, Ghost(None));
        let ghost nodes = self.nodes@;
        let ghost pc = self.priority_chain@;
        proof {
            assert forall|other: usize| #[trigger] self.slot_pair(other) == old(self).slot_pair(
                other,
            ) by {
                if other < nodes.len() {
                    assert(self.nodes@[other as int].pair() == old(self).nodes@[other as int].pair());
                }
            }
        }
        let slot = match at.found {
            Some(slot) => slot,
            None => {
                proof {
                    assert forall|j: int| 0 <= j < pc.len() implies nodes[(
                    #[trigger] pc[j]) as int].next_priority.marked || nodes[pc[j] as int].priority
                        != priority by {
                        if j < k {
                            assert(goes_before(nodes[pc[j] as int], Cut::Below(priority)));
                        } else {
                            assert(nodes[pc[k] as int].priority <= nodes[pc[j] as int].priority);
                            assert(!goes_before(nodes[pc[k] as int], Cut::Below(priority)));
                            assert(!hits(nodes[pc[k] as int], Cut::Below(priority)));
                        }
                    }
                    self.lemma_all_live(|p: u64| p != priority);
                }
                return None;
            },
        };
        proof {
            assert(pc[k] == slot);
            assert(hits(nodes[slot as int], Cut::Below(priority)));
            assert forall|j: int| 0 <= j < k implies nodes[(
            #[trigger] pc[j]) as int].next_priority.marked || !above_lower(
                Bound::Included(priority),
                nodes[pc[j] as int].priority,
            ) by {
                assert(goes_before(nodes[pc[j] as int], Cut::Below(priority)));
            }
            let i = self.lemma_first_above(Bound::Included(priority), k);
            assert forall|j: int| 0 <= j < i implies (#[trigger] self@[j]).1 < priority by {
                assert(!above_lower(Bound::Included(priority), self@[j].1));
            }
            self.lemma_shares(slot);
        }
        RefEntry::try_acquire(self, slot)
    }
}

} // verus!
