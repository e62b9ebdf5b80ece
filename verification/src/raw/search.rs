//! Searching a list, and unlinking the marked nodes that a search comes
//! across.

use crate::chain::follows;
use crate::chain::holds;
use crate::chain::lemma_holds_at;
use crate::chain::lemma_holds_index;
use crate::chain::lemma_holds_insert;
use crate::chain::lemma_holds_remove;
use crate::chain::lemma_live_frame;
use crate::chain::lemma_live_single;
use crate::chain::lemma_live_split;
use crate::chain::linked;
use crate::chain::live_pairs;
use crate::chain::slot_at;
use crate::node::Link;
use crate::node::List;
use crate::node::Node;
use super::Cut;
use super::Position;
use super::RawCPQ;
use super::cut_fits;
use super::goes_before;
use super::hash_item;
use super::hits;
use super::key_before;
use super::ordered;
use super::other;
use super::share_of;
use super::spec_hash;
use super::with_link;
use vstd::prelude::*;

verus! {

impl RawCPQ {
    /// `self` is what `before` becomes when the node at index `k` of the
    /// chain of `list`, which is marked, is unlinked: its neighbour on the
    /// left links to its neighbour on the right, and the list gives its
    /// share of the node back.
    pub(super) closed spec fn unlinked_from(&self, before: &RawCPQ, list: List, k: int) -> bool {
        let chain = before.chain(list);
        let curr = chain[k];
        let next = before.nodes@[curr as int].link(list).target;
        let bridge = Link { target: next, marked: false };
        &&& self.chain(list) == chain.remove(k)
        &&& self.chain(other(list)) == before.chain(other(list))
        &&& self.head(other(list)) == before.head(other(list))
        &&& self.head(list) == if k == 0 {
            bridge
        } else {
            before.head(list)
        }
        &&& self.nodes@.len() == before.nodes@.len()
        &&& forall|i: int|
            0 <= i < self.nodes@.len() ==> #[trigger] self.nodes@[i] == if i == curr {
                Node { refs: (before.nodes@[i].refs - 1) as usize, ..before.nodes@[i] }
            } else if k > 0 && i == chain[k - 1] {
                with_link(before.nodes@[i], list, bridge)
            } else {
                before.nodes@[i]
            }
        &&& self.free@ == if before.nodes@[curr as int].refs == 1 {
            before.free@.push(curr)
        } else {
            before.free@
        }
        &&& self.length == before.length
    }

    /// Unlinking a marked node keeps the queue in order and its pairs as
    /// they were, and takes no handle's share.
    pub(super) proof fn lemma_unlinked(
        &self,
        before: &RawCPQ,
        list: List,
        k: int,
        pending: Option<usize>,
    )
        requires
            before.inv(pending),
            0 <= k < before.chain(list).len(),
            before.nodes@[before.chain(list)[k] as int].link(list).marked,
            before.link_at(list, slot_at(before.chain(list), k - 1)) == (Link {
                target: Some(before.chain(list)[k]),
                marked: false,
            }),
            self.unlinked_from(before, list, k),
        ensures
            self.inv(pending),
            self@ == before@,
            forall|slot: usize| self.shares(slot) == before.shares(slot),
            forall|i: int|
                0 <= i < self.nodes@.len() ==> (#[trigger] self.nodes@[i]).pair()
                    == before.nodes@[i].pair(),
    {
        let nodes = before.nodes@;
        let after = self.nodes@;
        let chain = before.chain(list);
        let short = self.chain(list);
        let curr = chain[k];
        let next = nodes[curr as int].link(list).target;
        let side = other(list);
        let side_chain = before.chain(side);
        assert(linked(nodes, chain, list, k));
        assert(nodes[curr as int].next_item.marked && nodes[curr as int].next_priority.marked);
        assert forall|j: int| 0 <= j < short.len() implies short[j] == chain[if j < k {
            j
        } else {
            j + 1
        }] by {}
        assert forall|i: int| 0 <= i < after.len() implies (#[trigger] after[i]).pair()
            == nodes[i].pair() && after[i].next_item.marked == nodes[i].next_item.marked
            && after[i].next_priority.marked == nodes[i].next_priority.marked && after[i].link(side)
            == nodes[i].link(side) by {}
        // the list that lost the node
        assert(follows(after, self.head(list), short, list)) by {
            if k == 0 {
                assert(slot_at(short, 0) == slot_at(chain, 1));
            } else {
                assert(short[0] == chain[0]);
            }
            assert forall|j: int| 0 <= j < short.len() implies #[trigger] linked(
                after,
                short,
                list,
                j,
            ) by {
                let origin = if j < k { j } else { j + 1 };
                assert(linked(nodes, chain, list, origin));
                assert(short[j] == chain[origin]);
                assert(short[j] != curr);
                if j + 1 < short.len() {
                    assert(short[j + 1] == chain[if j + 1 < k { j + 1 } else { j + 2 }]);
                }
                if j == k - 1 {
                    assert(after[short[j] as int].link(list).target == next);
                    assert(slot_at(short, j + 1) == slot_at(chain, k + 1));
                } else {
                    assert(after[short[j] as int].link(list) == nodes[chain[origin] as int].link(
                        list,
                    ));
                    assert(slot_at(short, j + 1) == slot_at(chain, origin + 1));
                }
            }
        }
        assert(follows(after, self.head(side), side_chain, side)) by {
            assert forall|j: int| 0 <= j < side_chain.len() implies #[trigger] linked(
                after,
                side_chain,
                side,
                j,
            ) by {
                assert(linked(nodes, side_chain, side, j));
            }
        }
        assert(ordered(after, short, list)) by {
            match list {
                List::Items => {
                    assert forall|a: int, b: int| 0 <= a < b < short.len() implies key_before(
                        after[short[a] as int].item,
                        after[short[b] as int].item,
                    ) by {
                        let x = if a < k { a } else { a + 1 };
                        let y = if b < k { b } else { b + 1 };
                        assert(short[a] == chain[x] && short[b] == chain[y]);
                        assert(after[short[a] as int].pair() == nodes[chain[x] as int].pair());
                        assert(after[short[b] as int].pair() == nodes[chain[y] as int].pair());
                    }
                },
                List::Priorities => {
                    assert forall|a: int, b: int|
                        0 <= a <= b < short.len() implies after[short[a] as int].priority
                        <= after[short[b] as int].priority by {
                        let x = if a < k { a } else { a + 1 };
                        let y = if b < k { b } else { b + 1 };
                        assert(short[a] == chain[x] && short[b] == chain[y]);
                        assert(after[short[a] as int].pair() == nodes[chain[x] as int].pair());
                        assert(after[short[b] as int].pair() == nodes[chain[y] as int].pair());
                    }
                },
            }
        }
        assert(ordered(after, side_chain, side)) by {
            match side {
                List::Items => {
                    assert forall|a: int, b: int| 0 <= a < b < side_chain.len() implies key_before(
                        after[side_chain[a] as int].item,
                        after[side_chain[b] as int].item,
                    ) by {
                        assert(after[side_chain[a] as int].pair() == nodes[side_chain[a] as int].pair());
                        assert(after[side_chain[b] as int].pair() == nodes[side_chain[b] as int].pair());
                    }
                },
                List::Priorities => {
                    assert forall|a: int, b: int|
                        0 <= a <= b < side_chain.len() implies after[side_chain[a] as int].priority
                        <= after[side_chain[b] as int].priority by {
                        assert(after[side_chain[a] as int].pair() == nodes[side_chain[a] as int].pair());
                        assert(after[side_chain[b] as int].pair() == nodes[side_chain[b] as int].pair());
                    }
                },
            }
        }
        // what each chain holds
        assert forall|slot: usize| holds(short, slot) <==> (slot != curr && holds(chain, slot)) by {
            lemma_holds_remove(chain, k, slot);
        }
        let ic = before.item_chain@;
        let pc = before.priority_chain@;
        let ic2 = self.item_chain@;
        let pc2 = self.priority_chain@;
        assert forall|slot: usize| slot != curr implies (holds(ic2, slot) <==> holds(ic, slot)) && (
        holds(pc2, slot) <==> holds(pc, slot)) by {}
        assert forall|j: int|
            0 <= j < ic2.len() && !after[(#[trigger] ic2[j]) as int].next_item.marked && Some(ic2[j])
                != pending implies holds(pc2, ic2[j]) by {
            lemma_holds_at(ic2, j);
            let x = lemma_holds_index(ic, ic2[j]);
            assert(ic[x] == ic2[j]);
        }
        assert forall|j: int|
            0 <= j < pc2.len() && !after[(#[trigger] pc2[j]) as int].next_item.marked implies holds(
            ic2,
            pc2[j],
        ) by {
            lemma_holds_at(pc2, j);
            let x = lemma_holds_index(pc, pc2[j]);
            assert(pc[x] == pc2[j]);
        }
        lemma_holds_at(chain, k);
        assert forall|slot: usize| slot < after.len() implies (#[trigger] after[slot as int]).refs
            >= share_of(ic2, slot) + share_of(pc2, slot) by {
            assert(nodes[slot as int].refs >= share_of(ic, slot) + share_of(pc, slot));
        }
        // the slots that wait for reuse
        let free = before.free@;
        let free2 = self.free@;
        assert(nodes[curr as int].refs >= 1);
        assert(!holds(free, curr));
        assert(forall|j: int| 0 <= j < free.len() ==> free[j] != curr) by {
            reveal(holds);
        }
        assert forall|slot: usize| slot < after.len() implies ((#[trigger] after[slot as int]).refs
            == 0 <==> holds(free2, slot)) by {
            assert(nodes[slot as int].refs == 0 <==> holds(free, slot));
            if nodes[curr as int].refs == 1 {
                assert(free.push(curr) =~= free.insert(free.len() as int, curr));
                lemma_holds_insert(free, free.len() as int, curr, slot);
            }
        }
        // the pairs
        assert(live_pairs(after, pc2) == live_pairs(nodes, pc)) by {
            lemma_live_frame(nodes, after, pc2);
            match list {
                List::Items => {},
                List::Priorities => {
                    lemma_live_split(nodes, pc, k);
                    lemma_live_single(nodes, curr);
                    assert(live_pairs(nodes, pc.take(k)) + Seq::<(u64, u64)>::empty() =~= live_pairs(
                        nodes,
                        pc.take(k),
                    ));
                },
            }
        }
        assert forall|slot: usize| self.shares(slot) == before.shares(slot) by {
            if slot < nodes.len() {
                assert(after[slot as int].refs == if slot == curr {
                    nodes[slot as int].refs - 1
                } else {
                    nodes[slot as int].refs as int
                });
            }
        }
    }
}

impl RawCPQ {
    /// Unlinks the node `curr`, which is marked in `list` and links to
    /// `next`, from its neighbour on the left, `pred`. Returns the slot at
    /// which the traversal goes on, or nothing where the neighbour no longer
    /// links to `curr`: then nothing has changed and the search has to start
    /// again.
    pub(super) fn help_unlink(
        &mut self,
        list: List,
        pred: Option<usize>,
        curr: usize,
        next: Option<usize>,
        Ghost(k): Ghost<int>,
        Ghost(pending): Ghost<Option<usize>>,
    ) -> (advanced: Option<Option<usize>>)
        requires
            old(self).inv(pending),
            0 <= k < old(self).chain(list).len(),
            old(self).chain(list)[k] == curr,
            pred == slot_at(old(self).chain(list), k - 1),
            old(self).nodes@[curr as int].link(list) == (Link { target: next, marked: true }),
        ensures
            final(self).inv(pending),
            final(self).kept(old(self), list),
            match advanced {
                Some(slot) => {
                    &&& slot == next
                    &&& final(self).unlinked_from(old(self), list, k)
                    &&& old(self).link_at(list, pred) == (Link { target: Some(curr), marked: false })
                },
                None => {
                    &&& final(self).same_as(old(self))
                    &&& old(self).link_at(list, pred) != (Link { target: Some(curr), marked: false })
                },
            },
    {
        let done = self.cas_link(list, pred, Link::to(Some(curr)), Link::to(next));
        if !done {
            return None;
        }
        let mut node = self.nodes[curr];
        proof {
            lemma_holds_at(old(self).chain(list), k);
            assert(old(self).nodes@[curr as int].refs >= share_of(old(self).item_chain@, curr)
                + share_of(old(self).priority_chain@, curr));
            assert(pred != Some(curr));
        }
        let last = node.decrement();
        self.nodes[curr] = node;
        if last {
            self.free.push(curr);
        }
        match list {
            List::Items => {
                self.item_chain = Ghost(self.item_chain@.remove(k));
            },
            List::Priorities => {
                self.priority_chain = Ghost(self.priority_chain@.remove(k));
            },
        }
        proof {
            self.lemma_unlinked(old(self), list, k, pending);
        }
        Some(next)
    }

    /// Whether the node goes before the cut. `target_hash` is the hash of
    /// the item of a cut by key.
    pub(super) fn precedes(node: &Node, cut: Cut, target_hash: u64) -> (before: bool)
        requires
            cut matches Cut::Key(item) ==> target_hash == spec_hash(item),
        ensures
            before == goes_before(*node, cut),
    {
        match cut {
            Cut::Key(item) => {
                let hash = hash_item(node.item);
                hash < target_hash || (hash == target_hash && node.item < item)
            },
            Cut::Below(priority) => node.priority < priority,
            Cut::AtMost(priority) => node.priority <= priority,
            Cut::First => false,
        }
    }

    /// Whether the node is the one that the cut asks for.
    pub(super) fn is_hit(node: &Node, cut: Cut) -> (hit: bool)
        ensures
            hit == hits(*node, cut),
    {
        match cut {
            Cut::Key(item) => node.item == item,
            Cut::Below(priority) => node.priority == priority,
            Cut::AtMost(_) => false,
            Cut::First => true,
        }
    }

    /// Walks `list` from its head to the first live node that does not go
    /// before the cut, and unlinks every marked node on the way. Where a
    /// node cannot be unlinked because its neighbour has moved, the walk
    /// starts again from the head.
    pub(super) fn search(
        &mut self,
        list: List,
        cut: Cut,
        Ghost(pending): Ghost<Option<usize>>,
    ) -> (res: (Position, Ghost<int>))
        requires
            old(self).inv(pending),
            cut_fits(list, cut),
        ensures
            final(self).inv(pending),
            final(self).kept(old(self), list),
            final(self).stands_at(list, cut, res.0, res.1@),
    {
        let target_hash = match cut {
            Cut::Key(item) => hash_item(item),
            _ => 0,
        };
        let mut left: Option<usize> = None;
        let mut right: Option<usize> = self.link_of(list, None).target;
        let mut found: Option<usize> = None;
        let ghost mut k: int = 0;
        loop
            invariant_except_break
                found is None,
            invariant
                self.inv(pending),
                self.kept(old(self), list),
                cut matches Cut::Key(item) ==> target_hash == spec_hash(item),
                0 <= k <= self.chain(list).len(),
                left == slot_at(self.chain(list), k - 1),
                right == slot_at(self.chain(list), k),
                forall|j: int|
                    0 <= j < k ==> !self.nodes@[(#[trigger] self.chain(list)[j]) as int].link(
                        list,
                    ).marked && goes_before(self.nodes@[self.chain(list)[j] as int], cut),
            ensures
                self.stands_at(list, cut, Position { found, left, right }, k),
            decreases self.chain(list).len() - k,
        {
            let curr = match right {
                None => {
                    break ;
                },
                Some(slot) => slot,
            };
            let ghost chain = self.chain(list);
            let ghost before = *self;
            assert(linked(self.nodes@, chain, list, k));
            let node = self.nodes[curr];
            let next = node.next(list);
            if next.marked {
                proof {
                    if k > 0 {
                        assert(linked(self.nodes@, chain, list, k - 1));
                    }
                }
                match self.help_unlink(list, left, curr, next.target, Ghost(k), Ghost(pending)) {
                    Some(slot) => {
                        right = slot;
                        proof {
                            let short = self.chain(list);
                            assert forall|j: int| 0 <= j < k implies !self.nodes@[(
                            #[trigger] short[j]) as int].link(list).marked && goes_before(
                                self.nodes@[short[j] as int],
                                cut,
                            ) by {
                                assert(short[j] == chain[j]);
                                assert(chain[j] != chain[k]);
                                assert(self.nodes@[short[j] as int].pair() == before.nodes@[chain[j] as int].pair());
                            }
                        }
                    },
                    None => {
                        // With one owner the neighbour cannot have moved, so
                        // this is never reached.
                        left = None;
                        right = self.link_of(list, None).target;
                        proof {
                            k = 0;
                        }
                    },
                }
            } else if Self::precedes(&node, cut, target_hash) {
                left = right;
                right = next.target;
                proof {
                    k = k + 1;
                }
            } else {
                if Self::is_hit(&node, cut) {
                    found = Some(curr);
                }
                break ;
            }
        }
        (Position { found, left, right }, Ghost(k))
    }
}

impl RawCPQ {
    /// Searches the list of items for `item` and unlinks every marked node
    /// on the way.
    pub(super) fn search_item(
        &mut self,
        item: u64,
        Ghost(pending): Ghost<Option<usize>>,
    ) -> (res: (Position, Ghost<int>))
        requires
            old(self).inv(pending),
        ensures
            final(self).inv(pending),
            final(self).kept(old(self), List::Items),
            final(self).stands_at(List::Items, Cut::Key(item), res.0, res.1@),
    {
        self.search(List::Items, Cut::Key(item), Ghost(pending))
    }

    /// Searches the list of priorities for the first live node whose
    /// priority is not less than `priority`, and unlinks every marked node
    /// on the way. The node is reported as found where its priority is
    /// `priority`.
    pub(super) fn search_priority_position(
        &mut self,
        priority: u64,
        Ghost(pending): Ghost<Option<usize>>,
    ) -> (res: (Position, Ghost<int>))
        requires
            old(self).inv(pending),
        ensures
            final(self).inv(pending),
            final(self).kept(old(self), List::Priorities),
            final(self).stands_at(List::Priorities, Cut::Below(priority), res.0, res.1@),
    {
        self.search(List::Priorities, Cut::Below(priority), Ghost(pending))
    }

    /// Searches the list of priorities for the place of a new node with
    /// `priority`: behind the last live node whose priority is not greater,
    /// so that nodes of one priority stand in the order in which they came.
    /// It unlinks every marked node on the way and reports no node as
    /// found.
    pub(super) fn search_priority_place(
        &mut self,
        priority: u64,
        Ghost(pending): Ghost<Option<usize>>,
    ) -> (res: (Position, Ghost<int>))
        requires
            old(self).inv(pending),
        ensures
            final(self).inv(pending),
            final(self).kept(old(self), List::Priorities),
            final(self).stands_at(List::Priorities, Cut::AtMost(priority), res.0, res.1@),
            res.0.found is None,
    {
        self.search(List::Priorities, Cut::AtMost(priority), Ghost(pending))
    }
}

} // verus!
