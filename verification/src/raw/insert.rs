//! Putting an item into the queue: a new node is chained into both lists.

use crate::chain::follows;
use crate::chain::holds;
use crate::chain::lemma_holds_at;
use crate::chain::lemma_holds_index;
use crate::chain::lemma_holds_insert;
use crate::chain::lemma_holds_not;
use crate::chain::lemma_live_all;
use crate::chain::lemma_live_concat;
use crate::chain::lemma_live_contains;
use crate::chain::lemma_live_frame;
use crate::chain::lemma_live_insert;
use crate::chain::lemma_live_len;
use crate::chain::lemma_live_member;
use crate::chain::lemma_live_single;
use crate::chain::linked;
use crate::chain::live_pairs;
use crate::chain::slot_at;
use crate::model::has_item;
use crate::model::lemma_lookup_at;
use crate::model::lemma_rank_split;
use crate::model::lemma_without_absent;
use crate::model::lemma_without_at;
use crate::model::lookup;
use crate::model::pushed;
use crate::node::Link;
use crate::node::List;
use crate::node::Node;
use super::Cut;
use super::Position;
use super::RawCPQ;
use super::RefEntry;
use super::before_in;
use super::goes_before;
use super::hits;
use super::key_before;
use super::ordered;
use super::other;
use super::share_of;
use super::with_link;
use vstd::prelude::*;

verus! {

impl RawCPQ {
    /// Puts `node`, which no list chains in yet, into a slot: one that
    /// waits for reuse if there is any, a new one otherwise.
    pub(super) fn allocate(&mut self, node: Node) -> (slot: usize)
        requires
            old(self).inv(None),
            node.refs > 0,
            !node.next_item.marked,
            !node.next_priority.marked,
        ensures
            final(self).inv(None),
            final(self)@ == old(self)@,
            slot < final(self).nodes@.len(),
            final(self).nodes@[slot as int] == node,
            final(self).nodes@.len() >= old(self).nodes@.len(),
            forall|i: int|
                0 <= i < old(self).nodes@.len() && i != slot ==> #[trigger] final(self).nodes@[i] == old(
                    self,
                ).nodes@[i],
            final(self).items == old(self).items,
            final(self).priorities == old(self).priorities,
            final(self).item_chain@ == old(self).item_chain@,
            final(self).priority_chain@ == old(self).priority_chain@,
            !holds(final(self).item_chain@, slot),
            !holds(final(self).priority_chain@, slot),
            old(self).shares(slot) == 0,
            forall|other: usize| other != slot ==> #[trigger] final(self).shares(other) == old(self).shares(other),
    {
        let ghost nodes = self.nodes@;
        let ghost free = self.free@;
        let ghost ic = self.item_chain@;
        let ghost pc = self.priority_chain@;
        let slot = match self.free.pop() {
            Some(slot) => {
                proof {
                    assert(free[free.len() - 1] == slot);
                    lemma_holds_at(free, free.len() - 1);
                    assert(nodes[slot as int].refs == 0);
                    assert(nodes[slot as int].refs >= share_of(ic, slot) + share_of(pc, slot));
                }
                self.nodes[slot] = node;
                slot
            },
            None => {
                let fresh = self.nodes.len();
                self.nodes.push(node);
                proof {
                    assert(free.len() == 0);
                    assert forall|j: int| 0 <= j < ic.len() implies ic[j] != fresh by {}
                    assert forall|j: int| 0 <= j < pc.len() implies pc[j] != fresh by {}
                    lemma_holds_not(ic, fresh);
                    lemma_holds_not(pc, fresh);
                }
                fresh
            },
        };
        proof {
            let after = self.nodes@;
            let free2 = self.free@;
            assert forall|j: int| 0 <= j < ic.len() implies ic[j] != slot by {
                lemma_holds_at(ic, j);
            }
            assert forall|j: int| 0 <= j < pc.len() implies pc[j] != slot by {
                lemma_holds_at(pc, j);
            }
            self.lemma_lists_kept(old(self), None);
            assert forall|other: usize| other < after.len() implies (#[trigger] after[other as int]).refs
                >= share_of(ic, other) + share_of(pc, other) by {
                if other != slot {
                    assert(nodes[other as int].refs >= share_of(ic, other) + share_of(pc, other));
                }
            }
            assert forall|other: usize| other < after.len() implies ((
            #[trigger] after[other as int]).refs == 0 <==> holds(free2, other)) by {
                reveal(holds);
                if other != slot {
                    assert(nodes[other as int].refs == 0 <==> holds(free, other));
                    if free.len() > 0 {
                        if free.contains(other) {
                            let x = choose|x: int| 0 <= x < free.len() && free[x] == other;
                            assert(free2[x] == other);
                        }
                    }
                } else {
                    if free2.contains(slot) {
                        let x = choose|x: int| 0 <= x < free2.len() && free2[x] == slot;
                        assert(free[x] == slot);
                    }
                }
            }
            lemma_live_frame(nodes, after, pc);
            assert forall|other: usize| other != slot implies #[trigger] self.shares(other) == old(
                self,
            ).shares(other) by {}
        }
        slot
    }
}

/// A chain of distinct slots below `bound` is not longer than `bound`.
pub(super) proof fn lemma_chain_bounded(chain: Seq<usize>, bound: nat)
    requires
        forall|k: int| 0 <= k < chain.len() ==> (#[trigger] chain[k]) < bound,
        forall|a: int, b: int| 0 <= a < b < chain.len() ==> chain[a] != chain[b],
    ensures
        chain.len() <= bound,
    decreases bound,
{
    if bound == 0 {
        if chain.len() > 0 {
            assert(chain[0] < bound);
        }
    } else {
        let top = (bound - 1) as nat;
        if exists|k: int| 0 <= k < chain.len() && chain[k] == top {
            let k = choose|k: int| 0 <= k < chain.len() && chain[k] == top;
            let rest = chain.remove(k);
            assert forall|j: int| 0 <= j < rest.len() implies (#[trigger] rest[j]) < top by {
                let origin = if j < k { j } else { j + 1 };
                assert(rest[j] == chain[origin]);
                assert(chain[origin] < bound);
            }
            assert forall|a: int, b: int| 0 <= a < b < rest.len() implies rest[a] != rest[b] by {
                let x = if a < k { a } else { a + 1 };
                let y = if b < k { b } else { b + 1 };
                assert(rest[a] == chain[x] && rest[b] == chain[y]);
            }
            lemma_chain_bounded(rest, top);
        } else {
            assert forall|j: int| 0 <= j < chain.len() implies (#[trigger] chain[j]) < top by {
                assert(chain[j] < bound);
            }
            lemma_chain_bounded(chain, top);
        }
    }
}

impl RawCPQ {
    /// The node in `slot` is ready to be chained into `list` at index `k`:
    /// no list holds a share for that yet, its link leads to the node that
    /// will follow it, and the order of the list puts it there.
    pub(super) closed spec fn ready_for(&self, list: List, k: int, slot: usize) -> bool {
        let chain = self.chain(list);
        let nodes = self.nodes@;
        &&& 0 <= k <= chain.len()
        &&& slot < nodes.len()
        &&& !holds(chain, slot)
        &&& nodes[slot as int].link(list) == (Link { target: slot_at(chain, k), marked: false })
        &&& !nodes[slot as int].next_item.marked
        &&& !nodes[slot as int].next_priority.marked
        &&& nodes[slot as int].refs >= 1 + share_of(self.chain(other(list)), slot)
        &&& forall|j: int|
            0 <= j < k ==> before_in(list, nodes[(#[trigger] chain[j]) as int], nodes[slot as int])
        &&& forall|j: int|
            k <= j < chain.len() ==> before_in(
                list,
                nodes[slot as int],
                nodes[(#[trigger] chain[j]) as int],
            )
        &&& k > 0 ==> !nodes[chain[k - 1] as int].link(list).marked
    }

    /// `self` is what `before` becomes when the node in `slot` is chained
    /// into `list` at index `k`.
    pub(super) closed spec fn inserted_from(
        &self,
        before: &RawCPQ,
        list: List,
        k: int,
        slot: usize,
    ) -> bool {
        let chain = before.chain(list);
        let bridge = Link { target: Some(slot), marked: false };
        &&& self.chain(list) == chain.insert(k, slot)
        &&& self.chain(other(list)) == before.chain(other(list))
        &&& self.head(other(list)) == before.head(other(list))
        &&& self.head(list) == if k == 0 {
            bridge
        } else {
            before.head(list)
        }
        &&& self.nodes@.len() == before.nodes@.len()
        &&& forall|i: int|
            0 <= i < self.nodes@.len() ==> #[trigger] self.nodes@[i] == if k > 0 && i == chain[k
                - 1] {
                with_link(before.nodes@[i], list, bridge)
            } else {
                before.nodes@[i]
            }
        &&& self.free@ == before.free@
        &&& self.length == before.length + if list is Items {
            1int
        } else {
            0int
        }
    }

    /// Chaining a node in where the order of the list puts it keeps the
    /// queue in order. Into the list of items it makes the node pending;
    /// into the list of priorities it makes the node's pair one of the
    /// queue.
    #[verifier::rlimit(60)]
    pub(super) proof fn lemma_inserted(&self, before: &RawCPQ, list: List, k: int, slot: usize)
        requires
            before.inv(if list is Items { None } else { Some(slot) }),
            before.ready_for(list, k, slot),
            self.inserted_from(before, list, k, slot),
        ensures
            self.inv(if list is Items { Some(slot) } else { None }),
            list is Items ==> self@ == before@,
            list is Priorities ==> self@ == before@.insert(
                live_pairs(before.nodes@, before.priority_chain@.take(k)).len() as int,
                before.nodes@[slot as int].pair(),
            ),
            forall|i: int|
                0 <= i < self.nodes@.len() ==> (#[trigger] self.nodes@[i]).pair()
                    == before.nodes@[i].pair(),
            forall|other: usize|
                other != slot ==> #[trigger] self.shares(other) == before.shares(other),
            self.shares(slot) == before.shares(slot) - 1,
    {
        let nodes = before.nodes@;
        let after = self.nodes@;
        let chain = before.chain(list);
        let long = self.chain(list);
        let side = other(list);
        let side_chain = before.chain(side);
        let ic = before.item_chain@;
        let pc = before.priority_chain@;
        let ic2 = self.item_chain@;
        let pc2 = self.priority_chain@;
        assert forall|j: int| 0 <= j < chain.len() implies chain[j] != slot by {
            lemma_holds_at(chain, j);
        }
        assert forall|j: int| 0 <= j < long.len() implies long[j] == (if j < k {
            chain[j]
        } else if j == k {
            slot
        } else {
            chain[j - 1]
        }) by {}
        assert forall|i: int| 0 <= i < after.len() implies (#[trigger] after[i]).pair()
            == nodes[i].pair() && after[i].next_item.marked == nodes[i].next_item.marked
            && after[i].next_priority.marked == nodes[i].next_priority.marked && after[i].link(side)
            == nodes[i].link(side) && after[i].refs == nodes[i].refs by {
            if k > 0 && i == chain[k - 1] {
                assert(nodes[i].next_item.marked == nodes[i].next_priority.marked);
            }
        }
        assert(follows(after, self.head(list), long, list)) by {
            if k > 0 {
                assert(long[0] == chain[0]);
            }
            assert forall|j: int| 0 <= j < long.len() implies #[trigger] linked(
                after,
                long,
                list,
                j,
            ) by {
                if j + 1 < long.len() {
                    assert(long[j + 1] == (if j + 1 < k {
                        chain[j + 1]
                    } else if j + 1 == k {
                        slot
                    } else {
                        chain[j]
                    }));
                }
                if j < k - 1 {
                    assert(linked(nodes, chain, list, j));
                    assert(long[j] == chain[j]);
                    assert(chain[j] != chain[k - 1]);
                    assert(after[long[j] as int] == nodes[chain[j] as int]);
                } else if j == k - 1 {
                    assert(long[j] == chain[k - 1]);
                } else if j == k {
                    assert(long[j] == slot);
                    assert(after[slot as int] == nodes[slot as int]);
                } else {
                    assert(linked(nodes, chain, list, j - 1));
                    assert(long[j] == chain[j - 1]);
                    if k > 0 {
                        assert(chain[j - 1] != chain[k - 1]);
                    }
                    assert(after[long[j] as int] == nodes[chain[j - 1] as int]);
                }
            }
            assert forall|a: int, b: int| 0 <= a < b < long.len() implies long[a] != long[b] by {}
        }
        assert(follows(after, self.head(side), side_chain, side)) by {
            assert forall|j: int| 0 <= j < side_chain.len() implies #[trigger] linked(
                after,
                side_chain,
                side,
                j,
            ) by {
                assert(linked(nodes, side_chain, side, j));
            }
        }
        assert(ordered(after, long, list)) by {
            assert forall|a: int, b: int| 0 <= a < b < long.len() implies #[trigger] before_in(
                list,
                after[long[a] as int],
                after[long[b] as int],
            ) by {
                let x = if a < k { a } else { a - 1 };
                let y = if b < k { b } else { b - 1 };
                if a != k {
                    assert(long[a] == chain[x]);
                    assert(after[long[a] as int].pair() == nodes[chain[x] as int].pair());
                }
                if b != k {
                    assert(long[b] == chain[y]);
                    assert(after[long[b] as int].pair() == nodes[chain[y] as int].pair());
                }
                assert(after[slot as int].pair() == nodes[slot as int].pair());
            }
            match list {
                List::Items => {
                    assert forall|a: int, b: int| 0 <= a < b < long.len() implies key_before(
                        after[long[a] as int].item,
                        after[long[b] as int].item,
                    ) by {
                        assert(before_in(list, after[long[a] as int], after[long[b] as int]));
                    }
                },
                List::Priorities => {
                    assert forall|a: int, b: int|
                        0 <= a <= b < long.len() implies after[long[a] as int].priority
                        <= after[long[b] as int].priority by {
                        if a < b {
                            assert(before_in(list, after[long[a] as int], after[long[b] as int]));
                        }
                    }
                },
            }
        }
        assert(ordered(after, side_chain, side)) by {
            assert forall|a: int, b: int| 0 <= a <= b < side_chain.len() implies after[side_chain[a] as int].pair()
                == nodes[side_chain[a] as int].pair() && after[side_chain[b] as int].pair()
                == nodes[side_chain[b] as int].pair() by {}
        }
        assert forall|x: usize| holds(long, x) <==> (x == slot || holds(chain, x)) by {
            lemma_holds_insert(chain, k, slot, x);
        }
        assert forall|j: int|
            0 <= j < ic2.len() && !after[(#[trigger] ic2[j]) as int].next_item.marked && Some(ic2[j])
                != (if list is Items {
                Some(slot)
            } else {
                None
            }) implies holds(pc2, ic2[j]) by {
            lemma_holds_at(ic2, j);
            if ic2[j] != slot {
                let x = lemma_holds_index(ic, ic2[j]);
                assert(ic[x] == ic2[j]);
            }
        }
        assert forall|j: int|
            0 <= j < pc2.len() && !after[(#[trigger] pc2[j]) as int].next_item.marked implies holds(
            ic2,
            pc2[j],
        ) by {
            lemma_holds_at(pc2, j);
            if pc2[j] != slot {
                let x = lemma_holds_index(pc, pc2[j]);
                assert(pc[x] == pc2[j]);
            }
        }
        assert forall|x: usize| x < after.len() implies (#[trigger] after[x as int]).refs >= share_of(
            ic2,
            x,
        ) + share_of(pc2, x) by {
            assert(nodes[x as int].refs >= share_of(ic, x) + share_of(pc, x));
        }
        assert forall|x: usize| x < after.len() implies ((#[trigger] after[x as int]).refs == 0
            <==> holds(self.free@, x)) by {
            assert(nodes[x as int].refs == 0 <==> holds(before.free@, x));
        }
        lemma_live_frame(nodes, after, pc2);
        match list {
            List::Items => {
                if holds(pc, slot) {
                    let x = lemma_holds_index(pc, slot);
                    assert(pc[x] == slot);
                    assert(holds(ic, pc[x]));
                }
                assert(!holds(pc2, slot));
                assert(holds(ic2, slot));
            },
            List::Priorities => {
                lemma_live_insert(nodes, pc, k, slot);
                lemma_live_single(nodes, slot);
                let front = live_pairs(nodes, pc.take(k));
                let back = live_pairs(nodes, pc.skip(k));
                let pair = nodes[slot as int].pair();
                assert(front + seq![pair] + back =~= (front + back).insert(front.len() as int, pair));
            },
        }
        assert forall|x: usize| x != slot implies #[trigger] self.shares(x) == before.shares(x) by {}
    }
}

impl RawCPQ {
    /// At a place that a search has reported, the neighbour on the left
    /// links to the neighbour on the right and carries no mark.
    pub(super) proof fn lemma_place_links(
        &self,
        list: List,
        cut: Cut,
        at: Position,
        k: int,
        pending: Option<usize>,
    )
        requires
            self.inv(pending),
            self.stands_at(list, cut, at, k),
        ensures
            self.link_at(list, at.left) == (Link { target: at.right, marked: false }),
            at.left matches Some(slot) ==> slot < self.nodes@.len(),
            at.right matches Some(slot) ==> slot < self.nodes@.len(),
    {
        let chain = self.chain(list);
        if k > 0 {
            assert(linked(self.nodes@, chain, list, k - 1));
            assert(chain[k - 1] < self.nodes@.len());
        }
        if k < chain.len() {
            assert(chain[k] < self.nodes@.len());
        }
    }

    /// A node with the key, or the priority, that a search was made for is
    /// ready to be chained in at the place that the search has reported.
    pub(super) proof fn lemma_ready(
        &self,
        list: List,
        cut: Cut,
        at: Position,
        k: int,
        slot: usize,
        pending: Option<usize>,
    )
        requires
            self.inv(pending),
            self.stands_at(list, cut, at, k),
            at.found is None,
            slot < self.nodes@.len(),
            !holds(self.chain(list), slot),
            self.nodes@[slot as int].link(list) == (Link { target: at.right, marked: false }),
            !self.nodes@[slot as int].next_item.marked,
            !self.nodes@[slot as int].next_priority.marked,
            self.nodes@[slot as int].refs >= 1 + share_of(self.chain(other(list)), slot),
            cut == (match list {
                List::Items => Cut::Key(self.nodes@[slot as int].item),
                List::Priorities => Cut::AtMost(self.nodes@[slot as int].priority),
            }),
        ensures
            self.ready_for(list, k, slot),
    {
        let chain = self.chain(list);
        let nodes = self.nodes@;
        let node = nodes[slot as int];
        assert forall|j: int| k <= j < chain.len() implies before_in(
            list,
            node,
            nodes[(#[trigger] chain[j]) as int],
        ) by {
            assert(!goes_before(nodes[chain[k] as int], cut));
            assert(!hits(nodes[chain[k] as int], cut));
            if j > k {
                match list {
                    List::Items => {
                        assert(key_before(nodes[chain[k] as int].item, nodes[chain[j] as int].item));
                    },
                    List::Priorities => {
                        assert(nodes[chain[k] as int].priority <= nodes[chain[j] as int].priority);
                    },
                }
            }
        }
    }

    /// Chains the node in `slot` into `list` at the place `at`, if the
    /// neighbour on the left still links to the neighbour on the right.
    /// Returns whether it did; if not, nothing has changed.
    pub(super) fn link_in(
        &mut self,
        list: List,
        at: Position,
        slot: usize,
        Ghost(k): Ghost<int>,
    ) -> (done: bool)
        requires
            old(self).inv(if list is Items { None } else { Some(slot) }),
            old(self).ready_for(list, k, slot),
            at.left == slot_at(old(self).chain(list), k - 1),
            at.right == slot_at(old(self).chain(list), k),
        ensures
            done == (old(self).link_at(list, at.left) == (Link { target: at.right, marked: false })),
            !done ==> final(self).same_as(old(self)),
            done ==> {
                &&& final(self).inserted_from(old(self), list, k, slot)
                &&& final(self).inv(if list is Items { Some(slot) } else { None })
                &&& list is Items ==> final(self)@ == old(self)@
                &&& list is Priorities ==> final(self)@ == old(self)@.insert(
                    live_pairs(old(self).nodes@, old(self).priority_chain@.take(k)).len() as int,
                    old(self).nodes@[slot as int].pair(),
                )
                &&& forall|i: int|
                    0 <= i < final(self).nodes@.len() ==> (#[trigger] final(self).nodes@[i]).pair()
                        == old(self).nodes@[i].pair()
                &&& forall|other: usize|
                    other != slot ==> #[trigger] final(self).shares(other) == old(self).shares(other)
                &&& final(self).shares(slot) == old(self).shares(slot) - 1
            },
    {
        let bound = self.nodes.len();
        proof {
            let chain = self.chain(list);
            if k > 0 {
                assert(chain[k - 1] < self.nodes@.len());
            }
        }
        let done = self.cas_link(list, at.left, Link::to(at.right), Link::to(Some(slot)));
        if !done {
            return false;
        }
        match list {
            List::Items => {
                proof {
                    let nodes = old(self).nodes@;
                    let ic = old(self).item_chain@;
                    let pc = old(self).priority_chain@;
                    if holds(pc, slot) {
                        let x = lemma_holds_index(pc, slot);
                        assert(pc[x] == slot);
                        assert(holds(ic, pc[x]));
                    }
                    let longer = pc.push(slot);
                    assert forall|a: int, b: int| 0 <= a < b < longer.len() implies longer[a]
                        != longer[b] by {
                        if b == pc.len() {
                            lemma_holds_at(pc, a);
                        }
                    }
                    assert forall|j: int| 0 <= j < longer.len() implies (#[trigger] longer[j])
                        < bound as nat by {
                        if j < pc.len() {
                            assert(pc[j] < nodes.len());
                        }
                    }
                    lemma_chain_bounded(longer, bound as nat);
                    lemma_live_len(nodes, pc);
                }
                self.item_chain = Ghost(self.item_chain@.insert(k, slot));
                self.length = self.length + 1;
            },
            List::Priorities => {
                self.priority_chain = Ghost(self.priority_chain@.insert(k, slot));
            },
        }
        proof {
            self.lemma_inserted(old(self), list, k, slot);
        }
        true
    }
}

impl RawCPQ {
    /// Where a search for an item has found nothing, no pair of the queue
    /// holds the item.
    pub(super) proof fn lemma_absent(&self, item: u64, at: Position, k: int)
        requires
            self.inv(None),
            self.stands_at(List::Items, Cut::Key(item), at, k),
            at.found is None,
        ensures
            !has_item(self@, item),
    {
        let nodes = self.nodes@;
        let ic = self.item_chain@;
        let pc = self.priority_chain@;
        if has_item(self@, item) {
            let i = choose|i: int| 0 <= i < self@.len() && self@[i].0 == item;
            let x = lemma_live_member(nodes, pc, i);
            assert(nodes[pc[x] as int].next_item.marked == nodes[pc[x] as int].next_priority.marked);
            let y = lemma_holds_index(ic, pc[x]);
            assert(nodes[ic[y] as int].item == item);
            if y < k {
                assert(goes_before(nodes[ic[y] as int], Cut::Key(item)));
            } else if y > k {
                assert(key_before(nodes[ic[k] as int].item, nodes[ic[y] as int].item));
            }
        }
    }

    /// A node that a search for an item has found is live, and its pair is
    /// one of the queue.
    pub(super) proof fn lemma_present(&self, item: u64, at: Position, k: int, found: usize)
        requires
            self.inv(None),
            self.stands_at(List::Items, Cut::Key(item), at, k),
            at.found == Some(found),
        ensures
            found < self.nodes@.len(),
            holds(self.priority_chain@, found),
            holds(self.item_chain@, found),
            !self.nodes@[found as int].deleted(),
            self.nodes@[found as int].item == item,
            has_item(self@, item),
            lookup(self@, item) == Some(self.nodes@[found as int].priority),
    {
        let nodes = self.nodes@;
        let ic = self.item_chain@;
        let pc = self.priority_chain@;
        assert(ic[k] == found);
        lemma_holds_at(ic, k);
        assert(nodes[found as int].next_item.marked == nodes[found as int].next_priority.marked);
        let x = lemma_holds_index(pc, found);
        let i = lemma_live_contains(nodes, pc, x);
        assert(self@[i].0 == item);
        self.lemma_view();
        lemma_lookup_at(self@, i);
    }

    /// The place that a search by priority has reported is the rank of the
    /// priority among the pairs of the queue.
    pub(super) proof fn lemma_rank_at(
        &self,
        priority: u64,
        at: Position,
        k: int,
        pending: Option<usize>,
    )
        requires
            self.inv(pending),
            self.stands_at(List::Priorities, Cut::AtMost(priority), at, k),
        ensures
            live_pairs(self.nodes@, self.priority_chain@.take(k)).len() == crate::model::rank(
                self@,
                priority,
            ),
    {
        let nodes = self.nodes@;
        let pc = self.priority_chain@;
        let front_chain = pc.take(k);
        let back_chain = pc.skip(k);
        let front = live_pairs(nodes, front_chain);
        let back = live_pairs(nodes, back_chain);
        assert(pc =~= front_chain + back_chain);
        lemma_live_concat(nodes, front_chain, back_chain);
        assert forall|j: int| 0 <= j < front_chain.len() implies !nodes[(
        #[trigger] front_chain[j]) as int].next_priority.marked by {
            assert(front_chain[j] == pc[j]);
        }
        lemma_live_all(nodes, front_chain);
        let v = self@;
        assert(v == front + back);
        assert forall|i: int| 0 <= i < front.len() implies v[i].1 <= priority by {
            assert(v[i] == front[i]);
            assert(front[i] == nodes[front_chain[i] as int].pair());
            assert(front_chain[i] == pc[i]);
            assert(goes_before(nodes[pc[i] as int], Cut::AtMost(priority)));
        }
        assert forall|i: int| front.len() <= i < v.len() implies v[i].1 > priority by {
            assert(v[i] == back[i - front.len()]);
            let x = lemma_live_member(nodes, back_chain, i - front.len());
            assert(back_chain[x] == pc[k + x]);
            assert(nodes[pc[k] as int].priority <= nodes[pc[k + x] as int].priority);
            assert(!goes_before(nodes[pc[k] as int], Cut::AtMost(priority)));
        }
        lemma_rank_split(v, priority, front.len() as int);
    }

    /// Aims the link in `list` of the node in `slot`, which that list does
    /// not chain in yet, at `target`.
    pub(super) fn aim(
        &mut self,
        list: List,
        slot: usize,
        target: Option<usize>,
        Ghost(pending): Ghost<Option<usize>>,
    )
        requires
            old(self).inv(pending),
            slot < old(self).nodes@.len(),
            !holds(old(self).chain(list), slot),
            !old(self).nodes@[slot as int].next_item.marked,
            !old(self).nodes@[slot as int].next_priority.marked,
        ensures
            final(self).inv(pending),
            final(self).same_books(old(self)),
            final(self).items == old(self).items,
            final(self).priorities == old(self).priorities,
            final(self)@ == old(self)@,
            final(self).nodes@ == old(self).nodes@.update(
                slot as int,
                with_link(old(self).nodes@[slot as int], list, Link { target, marked: false }),
            ),
            forall|other: usize| #[trigger] final(self).shares(other) == old(self).shares(other),
    {
        let mut node = self.nodes[slot];
        match list {
            List::Items => {
                node.next_item = Link::to(target);
            },
            List::Priorities => {
                node.next_priority = Link::to(target);
            },
        }
        self.nodes[slot] = node;
        proof {
            let nodes = old(self).nodes@;
            let after = self.nodes@;
            let ic = self.item_chain@;
            let pc = self.priority_chain@;
            let chain = self.chain(list);
            assert forall|j: int| 0 <= j < chain.len() implies chain[j] != slot by {
                lemma_holds_at(chain, j);
            }
            self.lemma_lists_kept(old(self), pending);
            assert forall|other: usize| other < after.len() implies (#[trigger] after[other as int]).refs
                >= share_of(ic, other) + share_of(pc, other) by {
                assert(nodes[other as int].refs >= share_of(ic, other) + share_of(pc, other));
            }
            assert forall|other: usize| other < after.len() implies ((
            #[trigger] after[other as int]).refs == 0 <==> holds(self.free@, other)) by {
                assert(nodes[other as int].refs == 0 <==> holds(self.free@, other));
            }
            lemma_live_frame(nodes, after, pc);
            assert forall|other: usize| #[trigger] self.shares(other) == old(self).shares(other) by {}
        }
    }
}

impl RawCPQ {
    /// Puts `item` into the queue with `priority` and returns a share of
    /// the new node.
    ///
    /// A node that holds the item already is deleted logically first if
    /// `replace` is set; if it is not set, a share of that node is returned
    /// and nothing else happens. Otherwise a
    /// new node is chained into the list of items and into the list of
    /// priorities, each time at the place that a search reports; where the
    /// place has moved before the node is chained in, the search is made
    /// again. The node starts with three shares: one for each list and one
    /// for the caller.
    pub(super) fn insert_internal(&mut self, item: u64, priority: u64, replace: bool) -> (entry:
        RefEntry)
        requires
            old(self).wf(),
            !replace ==> forall|slot: usize| old(self).shares(slot) < usize::MAX - 2,
        ensures
            final(self).wf(),
            replace || !has_item(old(self)@, item) ==> {
                &&& final(self)@ == pushed(old(self)@, item, priority)
                &&& final(self).slot_pair(entry.slot()) == (item, priority)
                &&& old(self).shares(entry.slot()) == 0
            },
            !replace && has_item(old(self)@, item) ==> {
                &&& final(self)@ == old(self)@
                &&& final(self).slot_pair(entry.slot()).0 == item
            },
            lookup(final(self)@, item) == Some(final(self).slot_pair(entry.slot()).1),
            final(self).live(entry.slot()),
            final(self).shares(entry.slot()) == old(self).shares(entry.slot()) + 1,
            forall|other: usize|
                other != entry.slot() ==> #[trigger] final(self).shares(other) == old(self).shares(
                    other,
                ),
            forall|other: usize|
                old(self).shares(other) > 0 ==> #[trigger] final(self).slot_pair(other) == old(
                    self,
                ).slot_pair(other),
    {
        let ghost base = crate::model::without(old(self)@, item);
        let mut at = Position { found: None, left: None, right: None };
        let ghost mut k: int = 0;
        loop
            invariant
                old(self).wf(),
                !replace ==> forall|slot: usize| old(self).shares(slot) < usize::MAX - 2,
                base == crate::model::without(old(self)@, item),
                self.inv(None),
                self@ == old(self)@ || self@ == base,
                !replace ==> self@ == old(self)@,
                self.nodes@.len() == old(self).nodes@.len(),
                forall|i: int|
                    0 <= i < self.nodes@.len() ==> (#[trigger] self.nodes@[i]).pair() == old(
                        self,
                    ).nodes@[i].pair(),
                forall|slot: usize| #[trigger] self.shares(slot) == old(self).shares(slot),
            ensures
                self.stands_at(List::Items, Cut::Key(item), at, k),
                at.found is None,
            decreases self@.len(),
        {
            let (place, Ghost(index)) = self.search_item(item, Ghost(None));
            at = place;
            proof {
                k = index;
            }
            let found = match at.found {
                None => {
                    break ;
                },
                Some(found) => found,
            };
            let ghost searched = *self;
            proof {
                self.lemma_present(item, at, k, found);
                self.lemma_view();
                if self@ == base {
                    old(self).lemma_view();
                    crate::model::lemma_without_keeps(old(self)@, item);
                }
            }
            if replace {
                if self.retire(found) {
                    proof {
                        let r = choose|r: int|
                            0 <= r < searched@.len() && searched@[r]
                                == searched.nodes@[found as int].pair() && self@
                                == searched@.remove(r);
                        lemma_without_at(searched@, r);
                    }
                }
            } else {
                proof {
                    self.lemma_shares(found);
                    assert(self.live(found));
                    assert forall|other: usize| #[trigger] self.slot_pair(other) == old(
                        self,
                    ).slot_pair(other) by {
                        if other < self.nodes@.len() {
                            assert(self.nodes@[other as int].pair() == old(
                                self,
                            ).nodes@[other as int].pair());
                        }
                    }
                }
                match RefEntry::try_acquire(self, found) {
                    Some(entry) => {
                        return entry;
                    },
                    None => {
                        break ;
                    },
                }
            }
        }
        proof {
            self.lemma_absent(item, at, k);
            if self@ == old(self)@ {
                lemma_without_absent(old(self)@, item);
            }
            assert(self@ == base);
            old(self).lemma_view();
            crate::model::lemma_pushed_keeps(old(self)@, item, priority);
        }
        let slot = self.allocate(Node::new(item, priority, 3));
        proof {
            let chain = self.item_chain@;
            assert forall|j: int| 0 <= j < chain.len() implies chain[j] != slot by {
                lemma_holds_at(chain, j);
            }
        }
        // The queue has one owner, so the place cannot move between the search
        // and the link: the loop ends in its first round.
        loop
            invariant_except_break
                self.inv(None),
                self.stands_at(List::Items, Cut::Key(item), at, k),
                at.found is None,
                !holds(self.item_chain@, slot),
                !holds(self.priority_chain@, slot),
                self.shares(slot) == 3,
            invariant
                self@ == base,
                slot < self.nodes@.len(),
                self.nodes@[slot as int].pair() == (item, priority),
                !self.nodes@[slot as int].next_item.marked,
                !self.nodes@[slot as int].next_priority.marked,
                old(self).shares(slot) == 0,
                self.nodes@.len() >= old(self).nodes@.len(),
                forall|i: int|
                    0 <= i < old(self).nodes@.len() && i != slot ==> (#[trigger] self.nodes@[i]).pair()
                        == old(self).nodes@[i].pair(),
                forall|other: usize|
                    other != slot ==> #[trigger] self.shares(other) == old(self).shares(other),
            ensures
                self.inv(Some(slot)),
                self.shares(slot) == 2,
            decreases 0int,
        {
            let ghost placed = *self;
            self.aim(List::Items, slot, at.right, Ghost(None));
            proof {
                let chain = self.item_chain@;
                assert forall|j: int| 0 <= j < chain.len() implies chain[j] != slot by {
                    lemma_holds_at(chain, j);
                }
                assert(self.stands_at(List::Items, Cut::Key(item), at, k)) by {
                    assert forall|j: int| 0 <= j < chain.len() implies self.nodes@[(
                    #[trigger] chain[j]) as int] == placed.nodes@[chain[j] as int] by {}
                }
                self.lemma_ready(List::Items, Cut::Key(item), at, k, slot, None);
                self.lemma_place_links(List::Items, Cut::Key(item), at, k, None);
            }
            if self.link_in(List::Items, at, slot, Ghost(k)) {
                break ;
            }
            let (place, Ghost(index)) = self.search_item(item, Ghost(None));
            at = place;
            proof {
                k = index;
            }
            if let Some(found) = at.found {
                self.retire(found);
            }
        }
        // Here as well the first round chains the node in.
        loop
            invariant_except_break
                self.inv(Some(slot)),
                self@ == base,
                self.shares(slot) == 2,
            invariant
                slot < self.nodes@.len(),
                self.nodes@[slot as int].pair() == (item, priority),
                base == crate::model::without(old(self)@, item),
                old(self).shares(slot) == 0,
                self.nodes@.len() >= old(self).nodes@.len(),
                forall|i: int|
                    0 <= i < old(self).nodes@.len() && i != slot ==> (#[trigger] self.nodes@[i]).pair()
                        == old(self).nodes@[i].pair(),
                forall|other: usize|
                    other != slot ==> #[trigger] self.shares(other) == old(self).shares(other),
            ensures
                self.inv(None),
                self@ == pushed(old(self)@, item, priority),
                self.shares(slot) == 1,
                self.live(slot),
            decreases 0int,
        {
            let (place, Ghost(index)) = self.search_priority_place(priority, Ghost(Some(slot)));
            let ghost placed = *self;
            proof {
                assert(self.nodes@[slot as int].next_item.marked
                    == self.nodes@[slot as int].next_priority.marked);
            }
            self.aim(List::Priorities, slot, place.right, Ghost(Some(slot)));
            proof {
                let chain = self.priority_chain@;
                assert forall|j: int| 0 <= j < chain.len() implies chain[j] != slot by {
                    lemma_holds_at(chain, j);
                }
                assert(self.stands_at(List::Priorities, Cut::AtMost(priority), place, index)) by {
                    assert forall|j: int| 0 <= j < chain.len() implies self.nodes@[(
                    #[trigger] chain[j]) as int] == placed.nodes@[chain[j] as int] by {}
                }
                assert(self.shares(slot) == 2);
                assert(!holds(self.priority_chain@, slot));
                assert(self.nodes@[slot as int].refs >= 1 + share_of(self.item_chain@, slot));
                self.lemma_ready(
                    List::Priorities,
                    Cut::AtMost(priority),
                    place,
                    index,
                    slot,
                    Some(slot),
                );
                self.lemma_place_links(
                    List::Priorities,
                    Cut::AtMost(priority),
                    place,
                    index,
                    Some(slot),
                );
                self.lemma_rank_at(priority, place, index, Some(slot));
                assert(self@ == base);
                assert(self.nodes@[slot as int].pair() == (item, priority));
            }
            let ghost aimed = *self;
            if self.link_in(List::Priorities, place, slot, Ghost(index)) {
                proof {
                    lemma_holds_insert(aimed.priority_chain@, index, slot, slot);
                    assert(self.nodes@[slot as int].next_item == aimed.nodes@[slot as int].next_item);
                    assert(self.nodes@[slot as int].next_item.marked
                        == self.nodes@[slot as int].next_priority.marked);
                }
                break ;
            }
        }
        proof {
            assert forall|other: usize| old(self).shares(other) > 0 implies #[trigger] self.slot_pair(
                other,
            ) == old(self).slot_pair(other) by {}
        }
        RefEntry { slot }
    }
}

impl RawCPQ {
    /// Puts `item` into the queue with `priority`. Where the queue holds
    /// the item already, the new priority replaces the old one, and the
    /// number of pairs stays what it was.
    pub fn push(&mut self, item: u64, priority: u64)
        requires
            old(self).wf(),
        ensures
            final(self).wf(),
            final(self)@ == pushed(old(self)@, item, priority),
            lookup(final(self)@, item) == Some(priority),
            has_item(old(self)@, item) ==> final(self)@.len() == old(self)@.len(),
            !has_item(old(self)@, item) ==> final(self)@.len() == old(self)@.len() + 1,
            forall|slot: usize| #[trigger] final(self).shares(slot) == old(self).shares(slot),
            forall|slot: usize|
                old(self).shares(slot) > 0 ==> #[trigger] final(self).slot_pair(slot) == old(
                    self,
                ).slot_pair(slot),
    {
        proof {
            self.lemma_view();
            crate::model::lemma_pushed_keeps(self@, item, priority);
        }
        let entry = self.insert_internal(item, priority, true);
        self.release(entry);
    }

    /// Puts `item` into the queue with `priority`, as `push` does, and
    /// returns a share of the new node.
    pub fn push_ref(&mut self, item: u64, priority: u64) -> (entry: RefEntry)
        requires
            old(self).wf(),
        ensures
            final(self).wf(),
            final(self)@ == pushed(old(self)@, item, priority),
            lookup(final(self)@, item) == Some(priority),
            has_item(old(self)@, item) ==> final(self)@.len() == old(self)@.len(),
            !has_item(old(self)@, item) ==> final(self)@.len() == old(self)@.len() + 1,
            final(self).slot_pair(entry.slot()) == (item, priority),
            final(self).live(entry.slot()),
            old(self).shares(entry.slot()) == 0,
            final(self).shares(entry.slot()) == 1,
            forall|other: usize|
                other != entry.slot() ==> #[trigger] final(self).shares(other) == old(self).shares(
                    other,
                ),
            forall|other: usize|
                old(self).shares(other) > 0 ==> #[trigger] final(self).slot_pair(other) == old(
                    self,
                ).slot_pair(other),
    {
        proof {
            self.lemma_view();
            crate::model::lemma_pushed_keeps(self@, item, priority);
        }
        self.insert_internal(item, priority, true)
    }

    /// A share of the node of `item`. Where the queue does not hold the
    /// item yet, the item is put in with `priority` first; where it does,
    /// nothing changes and the item keeps the priority that it has.
    pub fn get_or_insert(&mut self, item: u64, priority: u64) -> (entry: RefEntry)
        requires
            old(self).wf(),
            forall|slot: usize| old(self).shares(slot) < usize::MAX - 2,
        ensures
            final(self).wf(),
            has_item(old(self)@, item) ==> final(self)@ == old(self)@,
            !has_item(old(self)@, item) ==> {
                &&& final(self)@ == pushed(old(self)@, item, priority)
                &&& final(self).slot_pair(entry.slot()) == (item, priority)
            },
            final(self).slot_pair(entry.slot()).0 == item,
            lookup(final(self)@, item) == Some(final(self).slot_pair(entry.slot()).1),
            final(self).live(entry.slot()),
            final(self).shares(entry.slot()) == old(self).shares(entry.slot()) + 1,
            forall|other: usize|
                other != entry.slot() ==> #[trigger] final(self).shares(other) == old(self).shares(
                    other,
                ),
            forall|other: usize|
                old(self).shares(other) > 0 ==> #[trigger] final(self).slot_pair(other) == old(
                    self,
                ).slot_pair(other),
    {
        self.insert_internal(item, priority, false)
    }
}

impl RawCPQ {
    /// Pushes each pair of `pairs` in turn, the first one first.
    pub fn extend(&mut self, pairs: &Vec<(u64, u64)>)
        requires
            old(self).wf(),
        ensures
            final(self).wf(),
            final(self)@ == crate::model::pushed_all(old(self)@, pairs@),
            old(self)@.len() == 0 && crate::model::distinct_items(pairs@)
                ==> final(self)@.to_multiset() == pairs@.to_multiset(),
            forall|slot: usize| #[trigger] final(self).shares(slot) == old(self).shares(slot),
            forall|slot: usize|
                old(self).shares(slot) > 0 ==> #[trigger] final(self).slot_pair(slot) == old(
                    self,
                ).slot_pair(slot),
    {
        let mut i: usize = 0;
        let n = pairs.len();
        proof {
            assert(pairs@.take(0) =~= Seq::<(u64, u64)>::empty());
        }
        while i < n
            invariant
                self.wf(),
                n == pairs@.len(),
                i <= n,
                self@ == crate::model::pushed_all(old(self)@, pairs@.take(i as int)),
                forall|slot: usize| #[trigger] self.shares(slot) == old(self).shares(slot),
                forall|slot: usize|
                    old(self).shares(slot) > 0 ==> #[trigger] self.slot_pair(slot) == old(
                        self,
                    ).slot_pair(slot),
            decreases n - i,
        {
            let (item, priority) = pairs[i];
            self.push(item, priority);
            proof {
                let next = pairs@.take(i + 1);
                assert(next.drop_last() =~= pairs@.take(i as int));
                assert(next.last() == pairs@[i as int]);
            }
            i = i + 1;
        }
        proof {
            assert(pairs@.take(n as int) =~= pairs@);
            if old(self)@.len() == 0 && crate::model::distinct_items(pairs@) {
                assert(old(self)@ =~= Seq::<(u64, u64)>::empty());
                crate::model::law_round_trip(pairs@);
            }
        }
    }
}

} // verus!
