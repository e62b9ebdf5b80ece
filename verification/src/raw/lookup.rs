//! Looking pairs up without changing the queue.

use crate::bound::Bound;
use crate::bound::above_lower;
use crate::bound::above_lower_bound;
use crate::bound::below_upper;
use crate::bound::below_upper_bound;
use crate::chain::holds;
use crate::chain::lemma_holds_at;
use crate::chain::lemma_holds_index;
use crate::chain::lemma_live_contains;
use crate::chain::lemma_live_member;
use crate::chain::lemma_live_single;
use crate::chain::lemma_live_split;
use crate::chain::linked;
use crate::chain::live_pairs;
use crate::chain::slot_at;
use crate::model::has_item;
use crate::model::lemma_lookup_at;
use crate::model::lemma_lookup_none;
use crate::model::lookup;
use crate::node::List;
use super::Cut;
use super::Entry;
use super::RawCPQ;
use super::hash_item;
use super::key_before;
use super::spec_hash;
use vstd::prelude::*;

verus! {

impl RawCPQ {
    /// A live node at index `k` of the chain of priorities that is the
    /// first one not below a lower bound gives the first such pair of the
    /// queue.
    pub(super) proof fn lemma_first_above(&self, bound: Bound, k: int) -> (i: int)
        requires
            self.wf(),
            0 <= k < self.priority_chain@.len(),
            !self.nodes@[self.priority_chain@[k] as int].next_priority.marked,
            forall|j: int|
                0 <= j < k ==> self.nodes@[(#[trigger] self.priority_chain@[j]) as int].next_priority.marked
                    || !above_lower(bound, self.nodes@[self.priority_chain@[j] as int].priority),
        ensures
            0 <= i < self@.len(),
            self@[i] == self.nodes@[self.priority_chain@[k] as int].pair(),
            forall|j: int| 0 <= j < i ==> !above_lower(bound, (#[trigger] self@[j]).1),
            self.live(self.priority_chain@[k]),
    {
        let nodes = self.nodes@;
        let pc = self.priority_chain@;
        let i = lemma_live_contains(nodes, pc, k);
        lemma_live_split(nodes, pc, k);
        assert forall|j: int| 0 <= j < i implies !above_lower(bound, (#[trigger] self@[j]).1) by {
            let front = pc.take(k);
            assert(self@[j] == live_pairs(nodes, front)[j]);
            let x = lemma_live_member(nodes, front, j);
            assert(front[x] == pc[x]);
        }
        lemma_holds_at(pc, k);
        assert(nodes[pc[k] as int].next_item.marked == nodes[pc[k] as int].next_priority.marked);
        i
    }

    /// Where every live node of the chain of priorities has a property of
    /// its priority, every pair of the queue has it.
    pub(super) proof fn lemma_all_live(&self, property: spec_fn(u64) -> bool)
        requires
            self.wf(),
            forall|j: int|
                0 <= j < self.priority_chain@.len() ==> self.nodes@[(
                #[trigger] self.priority_chain@[j]) as int].next_priority.marked || property(
                    self.nodes@[self.priority_chain@[j] as int].priority,
                ),
        ensures
            forall|i: int| 0 <= i < self@.len() ==> property((#[trigger] self@[i]).1),
    {
        assert forall|i: int| 0 <= i < self@.len() implies property((#[trigger] self@[i]).1) by {
            let x = lemma_live_member(self.nodes@, self.priority_chain@, i);
            assert(self.priority_chain@[x] == self.priority_chain@[x]);
        }
    }

    /// A live node at index `seen` that is the last one not above an upper
    /// bound gives the last such pair of the queue.
    pub(super) proof fn lemma_last_below(&self, bound: Bound, seen: int, k: int) -> (i: int)
        requires
            self.wf(),
            0 <= seen < k <= self.priority_chain@.len(),
            !self.nodes@[self.priority_chain@[seen] as int].next_priority.marked,
            forall|j: int|
                seen < j < k ==> self.nodes@[(#[trigger] self.priority_chain@[j]) as int].next_priority.marked,
            k < self.priority_chain@.len() ==> !below_upper(
                bound,
                self.nodes@[self.priority_chain@[k] as int].priority,
            ),
        ensures
            0 <= i < self@.len(),
            self@[i] == self.nodes@[self.priority_chain@[seen] as int].pair(),
            forall|j: int| i < j < self@.len() ==> !below_upper(bound, (#[trigger] self@[j]).1),
            self.live(self.priority_chain@[seen]),
    {
        let nodes = self.nodes@;
        let pc = self.priority_chain@;
        let i = lemma_live_contains(nodes, pc, seen);
        lemma_live_split(nodes, pc, seen);
        lemma_live_single(nodes, pc[seen]);
        let back = pc.skip(seen + 1);
        assert forall|j: int| i < j < self@.len() implies !below_upper(bound, (#[trigger] self@[j]).1) by {
            assert(self@[j] == live_pairs(nodes, back)[j - i - 1]);
            let x = lemma_live_member(nodes, back, j - i - 1);
            assert(back[x] == pc[seen + 1 + x]);
            assert(seen + 1 + x >= k);
            assert(nodes[pc[k] as int].priority <= nodes[pc[seen + 1 + x] as int].priority);
        }
        lemma_holds_at(pc, seen);
        assert(nodes[pc[seen] as int].next_item.marked == nodes[pc[seen] as int].next_priority.marked);
        i
    }

    /// Where the chain of priorities has no live node before index `k`, and
    /// the node there is above an upper bound, every pair of the queue is.
    pub(super) proof fn lemma_none_below(&self, bound: Bound, k: int)
        requires
            self.wf(),
            0 <= k <= self.priority_chain@.len(),
            forall|j: int|
                0 <= j < k ==> self.nodes@[(#[trigger] self.priority_chain@[j]) as int].next_priority.marked,
            k < self.priority_chain@.len() ==> !below_upper(
                bound,
                self.nodes@[self.priority_chain@[k] as int].priority,
            ),
        ensures
            forall|i: int| 0 <= i < self@.len() ==> !below_upper(bound, (#[trigger] self@[i]).1),
    {
        let nodes = self.nodes@;
        let pc = self.priority_chain@;
        assert forall|i: int| 0 <= i < self@.len() implies !below_upper(bound, (#[trigger] self@[i]).1) by {
            let x = lemma_live_member(nodes, pc, i);
            assert(x >= k);
            assert(nodes[pc[k] as int].priority <= nodes[pc[x] as int].priority);
        }
    }

    /// Walks the list of priorities without changing it. For a lower bound
    /// it returns the first live node that is not below the bound, for an
    /// upper bound the last live node that is not above it.
    pub(super) fn search_priority_bound(&self, bound: Bound, upper_bound: bool) -> (found: Option<
        usize,
    >)
        requires
            self.wf(),
        ensures
            match found {
                Some(slot) => {
                    &&& self.live(slot)
                    &&& exists|i: int|
                        {
                            &&& 0 <= i < self@.len()
                            &&& self@[i] == self.slot_pair(slot)
                            &&& !upper_bound ==> above_lower(bound, self@[i].1) && forall|j: int|
                                0 <= j < i ==> !above_lower(bound, (#[trigger] self@[j]).1)
                            &&& upper_bound ==> below_upper(bound, self@[i].1) && forall|j: int|
                                i < j < self@.len() ==> !below_upper(bound, (#[trigger] self@[j]).1)
                        }
                },
                None => {
                    &&& !upper_bound ==> forall|i: int|
                        0 <= i < self@.len() ==> !above_lower(bound, (#[trigger] self@[i]).1)
                    &&& upper_bound ==> forall|i: int|
                        0 <= i < self@.len() ==> !below_upper(bound, (#[trigger] self@[i]).1)
                },
            },
    {
        let mut result: Option<usize> = None;
        let mut curr: Option<usize> = self.priorities.target;
        let ghost mut k: int = 0;
        let ghost mut seen: int = -1;
        let ghost pc = self.priority_chain@;
        let ghost nodes = self.nodes@;
        loop
            invariant_except_break
                curr == slot_at(pc, k),
                !upper_bound ==> result is None,
            invariant
                self.wf(),
                pc == self.priority_chain@,
                nodes == self.nodes@,
                0 <= k <= pc.len(),
                -1 <= seen < k || (seen == -1 && k == 0),
                !upper_bound ==> (result is None ==> forall|j: int|
                    0 <= j < k ==> nodes[(#[trigger] pc[j]) as int].next_priority.marked
                        || !above_lower(bound, nodes[pc[j] as int].priority)),
                !upper_bound ==> (result matches Some(slot) ==> k < pc.len() && slot == pc[k]
                    && !nodes[pc[k] as int].next_priority.marked && above_lower(
                    bound,
                    nodes[pc[k] as int].priority,
                ) && forall|j: int|
                    0 <= j < k ==> nodes[(#[trigger] pc[j]) as int].next_priority.marked
                        || !above_lower(bound, nodes[pc[j] as int].priority)),
                upper_bound ==> result == slot_at(pc, seen),
                upper_bound && seen >= 0 ==> !nodes[pc[seen] as int].next_priority.marked
                    && below_upper(bound, nodes[pc[seen] as int].priority),
                upper_bound ==> forall|j: int|
                    seen < j < k ==> nodes[(#[trigger] pc[j]) as int].next_priority.marked,
            ensures
                upper_bound ==> k < pc.len() ==> !below_upper(bound, nodes[pc[k] as int].priority),
                !upper_bound && result is None ==> k == pc.len(),
            decreases pc.len() - k,
        {
            let slot = match curr {
                None => {
                    break ;
                },
                Some(slot) => slot,
            };
            assert(linked(nodes, pc, List::Priorities, k));
            assert(pc[k] < nodes.len());
            let node = &self.nodes[slot];
            let next = node.next_priority;
            if !next.marked {
                if upper_bound {
                    if !below_upper_bound(&bound, node.priority) {
                        break ;
                    }
                    result = Some(slot);
                    proof {
                        seen = k;
                    }
                } else if above_lower_bound(&bound, node.priority) {
                    result = Some(slot);
                    break ;
                }
            }
            curr = next.target;
            proof {
                k = k + 1;
            }
        }
        proof {
            if upper_bound {
                if seen >= 0 {
                    let i = self.lemma_last_below(bound, seen, k);
                } else {
                    self.lemma_none_below(bound, k);
                }
            } else {
                match result {
                    Some(slot) => {
                        let i = self.lemma_first_above(bound, k);
                    },
                    None => {
                        self.lemma_all_live(|priority: u64| !above_lower(bound, priority));
                    },
                }
            }
        }
        result
    }

    /// The first pair with a priority that is not below the bound.
    pub fn lower_bound(&self, bound: Bound) -> (found: Option<Entry<'_>>)
        requires
            self.wf(),
        ensures
            match found {
                Some(entry) => exists|i: int|
                    {
                        &&& 0 <= i < self@.len()
                        &&& self@[i] == entry@
                        &&& above_lower(bound, self@[i].1)
                        &&& forall|j: int| 0 <= j < i ==> !above_lower(bound, (#[trigger] self@[j]).1)
                    },
                None => forall|i: int|
                    0 <= i < self@.len() ==> !above_lower(bound, (#[trigger] self@[i]).1),
            },
    {
        match self.search_priority_bound(bound, false) {
            Some(slot) => Some(Entry { node: &self.nodes[slot] }),
            None => None,
        }
    }

    /// The last pair with a priority that is not above the bound.
    pub fn upper_bound(&self, bound: Bound) -> (found: Option<Entry<'_>>)
        requires
            self.wf(),
        ensures
            match found {
                Some(entry) => exists|i: int|
                    {
                        &&& 0 <= i < self@.len()
                        &&& self@[i] == entry@
                        &&& below_upper(bound, self@[i].1)
                        &&& forall|j: int|
                            i < j < self@.len() ==> !below_upper(bound, (#[trigger] self@[j]).1)
                    },
                None => forall|i: int|
                    0 <= i < self@.len() ==> !below_upper(bound, (#[trigger] self@[i]).1),
            },
    {
        match self.search_priority_bound(bound, true) {
            Some(slot) => Some(Entry { node: &self.nodes[slot] }),
            None => None,
        }
    }

    /// The pair that `pop` would take, without taking it.
    pub fn peek(&self) -> (found: Option<Entry<'_>>)
        requires
            self.wf(),
        ensures
            self@.len() == 0 ==> found is None,
            self@.len() > 0 ==> (found matches Some(entry) && entry@ == self@[0]),
    {
        match self.search_priority_bound(Bound::Unbounded, false) {
            Some(slot) => Some(Entry { node: &self.nodes[slot] }),
            None => {
                proof {
                    if self@.len() > 0 {
                        assert(!above_lower(Bound::Unbounded, self@[0].1));
                    }
                }
                None
            },
        }
    }

    /// The first pair with exactly this priority.
    pub fn get_priority(&self, priority: u64) -> (found: Option<Entry<'_>>)
        requires
            self.wf(),
        ensures
            match found {
                Some(entry) => exists|i: int|
                    {
                        &&& 0 <= i < self@.len()
                        &&& self@[i] == entry@
                        &&& entry@.1 == priority
                        &&& forall|j: int| 0 <= j < i ==> (#[trigger] self@[j]).1 < priority
                    },
                None => forall|i: int| 0 <= i < self@.len() ==> (#[trigger] self@[i]).1 != priority,
            },
    {
        let slot = match self.search_priority_bound(Bound::Included(priority), false) {
            Some(slot) => slot,
            None => {
                return None;
            },
        };
        let node = &self.nodes[slot];
        if node.priority != priority {
            proof {
                self.lemma_view();
                let i = choose|i: int|
                    {
                        &&& 0 <= i < self@.len()
                        &&& self@[i] == self.slot_pair(slot)
                        &&& above_lower(Bound::Included(priority), self@[i].1) && forall|j: int|
                            0 <= j < i ==> !above_lower(
                                Bound::Included(priority),
                                (#[trigger] self@[j]).1,
                            )
                    };
                assert forall|x: int| 0 <= x < self@.len() implies (#[trigger] self@[x]).1
                    != priority by {
                    if x >= i {
                        assert(self@[i].1 <= self@[x].1);
                    } else {
                        assert(!above_lower(Bound::Included(priority), self@[x].1));
                    }
                }
            }
            return None;
        }
        Some(Entry { node })
    }
}

impl RawCPQ {
    /// Walks the list of items without changing it and returns the live
    /// node that holds `item`, if there is one.
    pub(super) fn find_item(&self, item: u64) -> (found: Option<usize>)
        requires
            self.wf(),
        ensures
            match found {
                Some(slot) => {
                    &&& self.live(slot)
                    &&& self.slot_pair(slot).0 == item
                    &&& lookup(self@, item) == Some(self.slot_pair(slot).1)
                },
                None => lookup(self@, item) is None,
            },
    {
        let target_hash = hash_item(item);
        let mut curr: Option<usize> = self.items.target;
        let ghost mut k: int = 0;
        let ghost ic = self.item_chain@;
        let ghost pc = self.priority_chain@;
        let ghost nodes = self.nodes@;
        let mut result: Option<usize> = None;
        loop
            invariant_except_break
                curr == slot_at(ic, k),
                result is None,
            invariant
                self.wf(),
                ic == self.item_chain@,
                pc == self.priority_chain@,
                nodes == self.nodes@,
                target_hash == spec_hash(item),
                0 <= k <= ic.len(),
                forall|j: int|
                    0 <= j < k ==> nodes[(#[trigger] ic[j]) as int].next_item.marked || key_before(
                        nodes[ic[j] as int].item,
                        item,
                    ),
            ensures
                k < ic.len() ==> !nodes[ic[k] as int].next_item.marked && !key_before(
                    nodes[ic[k] as int].item,
                    item,
                ),
                result == if k < ic.len() && nodes[ic[k] as int].item == item {
                    Some(ic[k])
                } else {
                    None
                },
            decreases ic.len() - k,
        {
            let slot = match curr {
                None => {
                    break ;
                },
                Some(slot) => slot,
            };
            assert(linked(nodes, ic, List::Items, k));
            assert(ic[k] < nodes.len());
            let node = &self.nodes[slot];
            let next = node.next_item;
            if !next.marked && !Self::precedes(node, Cut::Key(item), target_hash) {
                if node.item == item {
                    result = Some(slot);
                }
                break ;
            }
            curr = next.target;
            proof {
                k = k + 1;
            }
        }
        proof {
            self.lemma_view();
            match result {
                Some(slot) => {
                    lemma_holds_at(ic, k);
                    assert(nodes[slot as int].next_item.marked == nodes[slot as int].next_priority.marked);
                    assert(holds(pc, ic[k]));
                    let x = lemma_holds_index(pc, slot);
                    let i = lemma_live_contains(nodes, pc, x);
                    lemma_lookup_at(self@, i);
                },
                None => {
                    if has_item(self@, item) {
                        let i = choose|i: int| 0 <= i < self@.len() && self@[i].0 == item;
                        let x = lemma_live_member(nodes, pc, i);
                        assert(nodes[pc[x] as int].next_item.marked
                            == nodes[pc[x] as int].next_priority.marked);
                        let y = lemma_holds_index(ic, pc[x]);
                        assert(nodes[ic[y] as int].item == item);
                        if y > k {
                            assert(key_before(nodes[ic[k] as int].item, nodes[ic[y] as int].item));
                        }
                    }
                    lemma_lookup_none(self@, item);
                },
            }
        }
        result
    }

    /// The pair of `item`, if the queue holds the item.
    pub fn get(&self, item: u64) -> (found: Option<Entry<'_>>)
        requires
            self.wf(),
        ensures
            match found {
                Some(entry) => entry@.0 == item && lookup(self@, item) == Some(entry@.1),
                None => lookup(self@, item) is None,
            },
    {
        match self.find_item(item) {
            Some(slot) => Some(Entry { node: &self.nodes[slot] }),
            None => None,
        }
    }
}

} // verus!
