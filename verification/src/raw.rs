//! The queue itself: two sorted lists over one set of nodes, one in the
//! order of the items' hashes and one in the order of the priorities.
//!
//! A node is deleted logically by marking its links, and unlinked from each
//! list later, by whichever traversal of that list next comes across it.
//! Every list that chains a node in holds a share of it, and so does every
//! handle that a caller holds. A node whose last share is given back is
//! handed over for destruction: its slot may then be used again.

use crate::chain::follows;
use crate::chain::holds;
use crate::chain::lemma_holds_index;
use crate::chain::lemma_live_index;
use crate::chain::linked;
use crate::chain::live_pairs;
use crate::chain::slot_at;
use crate::model::distinct_items;
use crate::model::sorted;
use crate::node::Link;
use crate::node::List;
use crate::node::Node;
use std::collections::hash_map::DefaultHasher;
use std::hash::Hasher;
use vstd::bytes::spec_u64_to_le_bytes;
use vstd::bytes::u64_to_le_bytes;
use vstd::prelude::*;
use vstd::std_specs::hash::DefaultHasherAdditionalSpecFns;

pub mod handles;
pub mod insert;
pub mod lookup;
pub mod remove;
pub mod search;
pub mod walk;

verus! {

/// The hash by which the list of items is ordered: what the default hasher
/// gives for the eight bytes of the item, least significant first.
pub open spec fn spec_hash(item: u64) -> u64 {
    DefaultHasher::spec_finish(seq![spec_u64_to_le_bytes(item)])
}

/// The order of the list of items: by hash, and by the item itself where
/// two hashes agree, so that items with equal hashes are still told apart.
pub open spec fn key_before(a: u64, b: u64) -> bool {
    spec_hash(a) < spec_hash(b) || (spec_hash(a) == spec_hash(b) && a < b)
}

/// The hash of an item.
pub fn hash_item(item: u64) -> (hash: u64)
    ensures
        hash == spec_hash(item),
{
    let bytes = u64_to_le_bytes(item);
    let mut hasher = DefaultHasher::new();
    hasher.write(bytes.as_slice());
    hasher.finish()
}

/// Where a search stops: the nodes that go before the cut are passed, the
/// first live node that does not is where the search ends.
#[derive(Clone, Copy, Debug)]
enum Cut {
    /// In the list of items: the nodes whose key is less than that of the
    /// item go before.
    Key(u64),
    /// In the list of priorities: the nodes whose priority is less go
    /// before, and a node with the priority is the one that is searched
    /// for.
    Below(u64),
    /// In the list of priorities: the nodes whose priority is not greater
    /// go before. The place behind them is where a new node with the
    /// priority goes; no node is searched for.
    AtMost(u64),
    /// In the list of priorities: no node goes before.
    First,
}

/// Whether a node goes before the cut.
spec fn goes_before(node: Node, cut: Cut) -> bool {
    match cut {
        Cut::Key(item) => key_before(node.item, item),
        Cut::Below(priority) => node.priority < priority,
        Cut::AtMost(priority) => node.priority <= priority,
        Cut::First => false,
    }
}

/// Whether the cut is one for the list.
spec fn cut_fits(list: List, cut: Cut) -> bool {
    match list {
        List::Items => cut is Key,
        List::Priorities => !(cut is Key),
    }
}

/// The nodes of the chain stand in the order of the list: strictly
/// ascending by key in the list of items, ascending by priority in the list
/// of priorities.
spec fn ordered(nodes: Seq<Node>, chain: Seq<usize>, list: List) -> bool {
    match list {
        List::Items => forall|a: int, b: int|
            0 <= a < b < chain.len() ==> key_before(
                nodes[chain[a] as int].item,
                nodes[chain[b] as int].item,
            ),
        List::Priorities => forall|a: int, b: int|
            0 <= a <= b < chain.len() ==> nodes[chain[a] as int].priority
                <= nodes[chain[b] as int].priority,
    }
}

/// One where the chain holds the slot, zero where it does not.
spec fn share_of(chain: Seq<usize>, slot: usize) -> int {
    if holds(chain, slot) {
        1
    } else {
        0
    }
}

/// A place between two neighbours of a list, as a search reports it.
#[derive(Clone, Copy, Debug)]
struct Position {
    /// The live node at which the search stopped, where it is the one that
    /// was searched for: the node with the item, or the first node with
    /// the priority. A search for the place of a new node finds none.
    found: Option<usize>,
    /// The node before the place, or nothing for the head of the list.
    left: Option<usize>,
    /// The node behind the place, or nothing for the end of the list.
    right: Option<usize>,
}

/// A queue of items with priorities. Each item is held at most once; the
/// item with the least priority leaves first, and of several items with the
/// same priority the one that was pushed first.
pub struct RawCPQ {
    nodes: Vec<Node>,
    items: Link,
    priorities: Link,
    length: usize,
    free: Vec<usize>,
    item_chain: Ghost<Seq<usize>>,
    priority_chain: Ghost<Seq<usize>>,
}

impl View for RawCPQ {
    type V = Seq<(u64, u64)>;

    /// The pairs that the queue holds, in the order in which they leave.
    closed spec fn view(&self) -> Seq<(u64, u64)> {
        live_pairs(self.nodes@, self.priority_chain@)
    }
}

impl RawCPQ {
    /// The chain of a list.
    spec fn chain(&self, list: List) -> Seq<usize> {
        match list {
            List::Items => self.item_chain@,
            List::Priorities => self.priority_chain@,
        }
    }

    /// The head of a list.
    spec fn head(&self, list: List) -> Link {
        match list {
            List::Items => self.items,
            List::Priorities => self.priorities,
        }
    }

    /// The link that leaves `at` in `list`: that of the head for `None`.
    spec fn link_at(&self, list: List, at: Option<usize>) -> Link {
        match at {
            None => self.head(list),
            Some(slot) => self.nodes@[slot as int].link(list),
        }
    }

    /// The invariant of the queue. While a new node is chained into the
    /// list of items and not yet into the list of priorities, it is
    /// `pending`.
    spec fn inv(&self, pending: Option<usize>) -> bool {
        let nodes = self.nodes@;
        let ic = self.item_chain@;
        let pc = self.priority_chain@;
        &&& follows(nodes, self.items, ic, List::Items)
        &&& follows(nodes, self.priorities, pc, List::Priorities)
        &&& ordered(nodes, ic, List::Items)
        &&& ordered(nodes, pc, List::Priorities)
        &&& forall|i: int|
            0 <= i < nodes.len() ==> (#[trigger] nodes[i]).next_item.marked
                == nodes[i].next_priority.marked
        &&& forall|k: int|
            0 <= k < ic.len() && !nodes[(#[trigger] ic[k]) as int].next_item.marked && Some(ic[k])
                != pending ==> holds(pc, ic[k])
        &&& forall|k: int|
            0 <= k < pc.len() && !nodes[(#[trigger] pc[k]) as int].next_item.marked ==> holds(
                ic,
                pc[k],
            )
        &&& match pending {
            Some(slot) => holds(ic, slot) && !holds(pc, slot) && slot < nodes.len()
                && !nodes[slot as int].next_item.marked,
            None => true,
        }
        &&& forall|slot: usize|
            slot < nodes.len() ==> (#[trigger] nodes[slot as int]).refs >= share_of(ic, slot)
                + share_of(pc, slot)
        &&& forall|slot: usize|
            slot < nodes.len() ==> ((#[trigger] nodes[slot as int]).refs == 0 <==> holds(
                self.free@,
                slot,
            ))
        &&& forall|k: int| 0 <= k < self.free@.len() ==> (#[trigger] self.free@[k]) < nodes.len()
        &&& forall|a: int, b: int| 0 <= a < b < self.free@.len() ==> self.free@[a] != self.free@[b]
        &&& self.length == live_pairs(nodes, pc).len() + (if pending is Some {
            1int
        } else {
            0int
        })
    }

    /// The queue is well formed.
    pub closed spec fn wf(&self) -> bool {
        self.inv(None)
    }

    /// The number of slots.
    pub closed spec fn slots(&self) -> nat {
        self.nodes@.len()
    }

    /// The number of handles that callers hold on the node in `slot`.
    pub closed spec fn shares(&self, slot: usize) -> int {
        if slot < self.nodes@.len() {
            self.nodes@[slot as int].refs - share_of(self.item_chain@, slot) - share_of(
                self.priority_chain@,
                slot,
            )
        } else {
            0
        }
    }

    /// The pair of the node in `slot`.
    pub closed spec fn slot_pair(&self, slot: usize) -> (u64, u64) {
        if slot < self.nodes@.len() {
            self.nodes@[slot as int].pair()
        } else {
            (0, 0)
        }
    }

    /// The pairs of a well-formed queue are sorted by priority, and no item
    /// occurs in two of them.
    pub proof fn lemma_view(&self)
        requires
            self.wf(),
        ensures
            sorted(self@),
            distinct_items(self@),
    {
        let nodes = self.nodes@;
        let ic = self.item_chain@;
        let pc = self.priority_chain@;
        let v = self@;
        assert forall|i: int, j: int| 0 <= i < j < v.len() implies v[i].1 <= v[j].1 && v[i].0
            != v[j].0 by {
            lemma_live_index(nodes, pc, i, j);
            let (a, b) = choose|a: int, b: int|
                0 <= a < b < pc.len() && !nodes[pc[a] as int].next_priority.marked
                    && !nodes[pc[b] as int].next_priority.marked && nodes[pc[a] as int].pair()
                    == v[i] && nodes[pc[b] as int].pair() == v[j];
            assert(pc[a] != pc[b]);
            assert(nodes[pc[a] as int].next_item.marked == nodes[pc[a] as int].next_priority.marked);
            assert(nodes[pc[b] as int].next_item.marked == nodes[pc[b] as int].next_priority.marked);
            let x = lemma_holds_index(ic, pc[a]);
            let y = lemma_holds_index(ic, pc[b]);
            if x < y {
                assert(key_before(nodes[ic[x] as int].item, nodes[ic[y] as int].item));
            } else {
                assert(key_before(nodes[ic[y] as int].item, nodes[ic[x] as int].item));
            }
        }
    }
}

impl RawCPQ {
    /// Where the nodes of both chains keep their pairs and the targets of
    /// their links, the links still lead through the chains, and the chains
    /// are still in order.
    proof fn lemma_lists_kept(&self, before: &RawCPQ, pending: Option<usize>)
        requires
            before.inv(pending),
            self.item_chain@ == before.item_chain@,
            self.priority_chain@ == before.priority_chain@,
            self.items == before.items,
            self.priorities == before.priorities,
            self.nodes@.len() >= before.nodes@.len(),
            forall|k: int|
                0 <= k < self.item_chain@.len() ==> {
                    let slot = (#[trigger] self.item_chain@[k]) as int;
                    &&& self.nodes@[slot].pair() == before.nodes@[slot].pair()
                    &&& self.nodes@[slot].next_item.target == before.nodes@[slot].next_item.target
                },
            forall|k: int|
                0 <= k < self.priority_chain@.len() ==> {
                    let slot = (#[trigger] self.priority_chain@[k]) as int;
                    &&& self.nodes@[slot].pair() == before.nodes@[slot].pair()
                    &&& self.nodes@[slot].next_priority.target
                        == before.nodes@[slot].next_priority.target
                },
        ensures
            follows(self.nodes@, self.items, self.item_chain@, List::Items),
            follows(self.nodes@, self.priorities, self.priority_chain@, List::Priorities),
            ordered(self.nodes@, self.item_chain@, List::Items),
            ordered(self.nodes@, self.priority_chain@, List::Priorities),
    {
        let nodes = before.nodes@;
        let after = self.nodes@;
        let ic = self.item_chain@;
        let pc = self.priority_chain@;
        assert forall|j: int| 0 <= j < ic.len() implies #[trigger] linked(
            after,
            ic,
            List::Items,
            j,
        ) by {
            assert(linked(nodes, ic, List::Items, j));
        }
        assert forall|j: int| 0 <= j < pc.len() implies #[trigger] linked(
            after,
            pc,
            List::Priorities,
            j,
        ) by {
            assert(linked(nodes, pc, List::Priorities, j));
        }
        assert forall|a: int, b: int| 0 <= a < b < ic.len() implies key_before(
            after[ic[a] as int].item,
            after[ic[b] as int].item,
        ) by {
            assert(after[ic[a] as int].pair() == nodes[ic[a] as int].pair());
            assert(after[ic[b] as int].pair() == nodes[ic[b] as int].pair());
        }
        assert forall|a: int, b: int| 0 <= a <= b < pc.len() implies after[pc[a] as int].priority
            <= after[pc[b] as int].priority by {
            assert(after[pc[a] as int].pair() == nodes[pc[a] as int].pair());
            assert(after[pc[b] as int].pair() == nodes[pc[b] as int].pair());
        }
    }
}

/// The other list.
spec fn other(list: List) -> List {
    match list {
        List::Items => List::Priorities,
        List::Priorities => List::Items,
    }
}

/// The node with its link in `list` replaced.
spec fn with_link(node: Node, list: List, link: Link) -> Node {
    match list {
        List::Items => Node { next_item: link, ..node },
        List::Priorities => Node { next_priority: link, ..node },
    }
}

impl Default for RawCPQ {
    /// An empty queue.
    fn default() -> (queue: Self)
        ensures
            queue.wf(),
            queue@ == Seq::<(u64, u64)>::empty(),
            forall|slot: usize| queue.shares(slot) == 0,
    {
        RawCPQ::new()
    }
}

impl RawCPQ {
    /// An empty queue.
    pub fn new() -> (queue: Self)
        ensures
            queue.wf(),
            queue@ == Seq::<(u64, u64)>::empty(),
            forall|slot: usize| queue.shares(slot) == 0,
    {
        RawCPQ {
            nodes: Vec::new(),
            items: Link::null(),
            priorities: Link::null(),
            length: 0,
            free: Vec::new(),
            item_chain: Ghost(Seq::empty()),
            priority_chain: Ghost(Seq::empty()),
        }
    }

    /// An empty queue with room for `capacity` nodes. The number is a hint:
    /// the queue grows beyond it as needed.
    pub fn with_capacity(capacity: usize) -> (queue: Self)
        ensures
            queue.wf(),
            queue@ == Seq::<(u64, u64)>::empty(),
            forall|slot: usize| queue.shares(slot) == 0,
    {
        RawCPQ {
            nodes: Vec::with_capacity(capacity),
            items: Link::null(),
            priorities: Link::null(),
            length: 0,
            free: Vec::new(),
            item_chain: Ghost(Seq::empty()),
            priority_chain: Ghost(Seq::empty()),
        }
    }

    /// The number of pairs in the queue.
    pub fn len(&self) -> (n: usize)
        requires
            self.wf(),
        ensures
            n == self@.len(),
    {
        self.length
    }

    /// Whether the queue holds no pair.
    pub fn is_empty(&self) -> (empty: bool)
        requires
            self.wf(),
        ensures
            empty == (self@.len() == 0),
    {
        self.len() == 0
    }

    /// Everything but the nodes and the heads is as in `before`.
    spec fn same_books(&self, before: &RawCPQ) -> bool {
        &&& self.length == before.length
        &&& self.free@ == before.free@
        &&& self.item_chain@ == before.item_chain@
        &&& self.priority_chain@ == before.priority_chain@
    }

    /// The link that leaves `at` in `list`.
    fn link_of(&self, list: List, at: Option<usize>) -> (link: Link)
        requires
            at matches Some(slot) ==> slot < self.nodes@.len(),
        ensures
            link == self.link_at(list, at),
    {
        match at {
            None => match list {
                List::Items => self.items,
                List::Priorities => self.priorities,
            },
            Some(slot) => self.nodes[slot].next(list),
        }
    }

    /// Replaces the link that leaves `at` in `list` by `new` if it equals
    /// `current`, and says whether it did.
    fn cas_link(&mut self, list: List, at: Option<usize>, current: Link, new: Link) -> (done: bool)
        requires
            at matches Some(slot) ==> slot < old(self).nodes@.len(),
        ensures
            done == (old(self).link_at(list, at) == current),
            final(self).same_books(old(self)),
            final(self).head(other(list)) == old(self).head(other(list)),
            !done ==> final(self).nodes@ == old(self).nodes@ && final(self).head(list) == old(
                self,
            ).head(list),
            done ==> match at {
                None => final(self).nodes@ == old(self).nodes@ && final(self).head(list) == new,
                Some(slot) => final(self).head(list) == old(self).head(list) && final(self).nodes@
                    == old(self).nodes@.update(
                    slot as int,
                    with_link(old(self).nodes@[slot as int], list, new),
                ),
            },
    {
        match at {
            None => match list {
                List::Items => self.items.compare_exchange(current, new).is_ok(),
                List::Priorities => self.priorities.compare_exchange(current, new).is_ok(),
            },
            Some(slot) => {
                let mut node = self.nodes[slot];
                let done = match list {
                    List::Items => node.next_item.compare_exchange(current, new).is_ok(),
                    List::Priorities => node.next_priority.compare_exchange(current, new).is_ok(),
                };
                self.nodes[slot] = node;
                proof {
                    if !done {
                        assert(self.nodes@ =~= old(self).nodes@);
                    }
                }
                done
            },
        }
    }
}

/// Whether the node is the one that the cut asks for: the node with the
/// item, a node with the priority, or the first node. A search for the
/// place of a new node asks for none.
spec fn hits(node: Node, cut: Cut) -> bool {
    match cut {
        Cut::Key(item) => node.item == item,
        Cut::Below(priority) => node.priority == priority,
        Cut::AtMost(_) => false,
        Cut::First => true,
    }
}

impl RawCPQ {
    /// Nothing differs from `before`.
    spec fn same_as(&self, before: &RawCPQ) -> bool {
        &&& self.nodes@ == before.nodes@
        &&& self.items == before.items
        &&& self.priorities == before.priorities
        &&& self.same_books(before)
    }

    /// What a traversal of `list` keeps of `before`: the pairs of the
    /// queue, the pair of every node, every handle's share, and the other
    /// list.
    spec fn kept(&self, before: &RawCPQ, list: List) -> bool {
        &&& self@ == before@
        &&& self.nodes@.len() == before.nodes@.len()
        &&& forall|i: int|
            0 <= i < self.nodes@.len() ==> (#[trigger] self.nodes@[i]).pair()
                == before.nodes@[i].pair()
        &&& forall|slot: usize| #[trigger] self.shares(slot) == before.shares(slot)
        &&& self.chain(other(list)) == before.chain(other(list))
    }

    /// The place `at` stands at index `k` of the chain of `list`: between
    /// the nodes at `k - 1` and `k`. All nodes before it are live and go
    /// before the cut; the node behind it, if there is one, is live and
    /// does not.
    spec fn stands_at(&self, list: List, cut: Cut, at: Position, k: int) -> bool {
        let chain = self.chain(list);
        &&& 0 <= k <= chain.len()
        &&& at.left == slot_at(chain, k - 1)
        &&& at.right == slot_at(chain, k)
        &&& forall|j: int|
            0 <= j < k ==> !self.nodes@[(#[trigger] chain[j]) as int].link(list).marked
                && goes_before(self.nodes@[chain[j] as int], cut)
        &&& k < chain.len() ==> !self.nodes@[chain[k] as int].link(list).marked && !goes_before(
            self.nodes@[chain[k] as int],
            cut,
        )
        &&& at.found == if k < chain.len() && hits(self.nodes@[chain[k] as int], cut) {
            Some(chain[k])
        } else {
            None
        }
    }
}

/// The order of a list on two nodes: by key in the list of items, by
/// priority in the list of priorities.
spec fn before_in(list: List, a: Node, b: Node) -> bool {
    match list {
        List::Items => key_before(a.item, b.item),
        List::Priorities => a.priority <= b.priority,
    }
}

/// A share of a node's life that a caller holds: the node keeps its item
/// and its priority, and its slot is not used again, until the share is
/// given back with [`RawCPQ::release`]. A share that is never given back
/// keeps the slot occupied for good.
#[derive(Debug)]
pub struct RefEntry {
    slot: usize,
}

impl RefEntry {
    /// The slot of the node.
    pub closed spec fn slot(&self) -> usize {
        self.slot
    }
}

/// A view of a node that is borrowed from the queue: it lasts as long as
/// the queue is not changed.
#[derive(Clone, Copy, Debug)]
pub struct Entry<'a> {
    node: &'a Node,
}

impl<'a> View for Entry<'a> {
    type V = (u64, u64);

    /// The pair of the node.
    closed spec fn view(&self) -> (u64, u64) {
        self.node.pair()
    }
}

impl<'a> Entry<'a> {
    /// The item of the node.
    pub fn item(&self) -> (item: u64)
        ensures
            item == self@.0,
    {
        self.node.item
    }

    /// The priority of the node.
    pub fn priority(&self) -> (priority: u64)
        ensures
            priority == self@.1,
    {
        self.node.priority
    }
}

impl RawCPQ {
    /// The node in `slot` is live: no list has deleted it.
    pub closed spec fn live(&self, slot: usize) -> bool {
        &&& holds(self.priority_chain@, slot)
        &&& holds(self.item_chain@, slot)
        &&& slot < self.nodes@.len()
        &&& !self.nodes@[slot as int].deleted()
    }
}

impl RefEntry {
    /// The slot of the node.
    pub fn index(&self) -> (slot: usize)
        ensures
            slot == self.slot(),
    {
        self.slot
    }
}

impl RawCPQ {
    /// The node in `slot` has a share left: it is not promised to
    /// destruction.
    pub closed spec fn alive(&self, slot: usize) -> bool {
        slot < self.nodes@.len() && self.nodes@[slot as int].refs > 0
    }

    /// No count of shares is negative. A share is held only of a node that
    /// is alive, and a live node is alive.
    pub proof fn lemma_shares(&self, slot: usize)
        requires
            self.wf(),
        ensures
            self.shares(slot) >= 0,
            self.shares(slot) > 0 ==> slot < self.slots() && self.alive(slot),
            self.live(slot) ==> slot < self.slots() && self.alive(slot),
    {
        if slot < self.nodes@.len() {
            assert(self.nodes@[slot as int].refs >= share_of(self.item_chain@, slot) + share_of(
                self.priority_chain@,
                slot,
            ));
        }
    }
}

} // verus!
