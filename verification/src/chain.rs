//! Chains: the order in which the nodes of a list are linked, as a sequence
//! of slots, and what a chain says about the pairs that a queue holds.
//!
//! A chain may still hold nodes that are logically deleted. The pairs of a
//! chain are those of its nodes that are not.

use crate::node::Link;
use crate::node::List;
use crate::node::Node;
use vstd::prelude::*;

verus! {

/// The slot at index `k` of the chain, or nothing behind its end.
pub open spec fn slot_at(chain: Seq<usize>, k: int) -> Option<usize> {
    if 0 <= k < chain.len() {
        Some(chain[k])
    } else {
        None
    }
}

/// The chain holds the slot.
#[verifier::opaque]
pub open spec fn holds(chain: Seq<usize>, slot: usize) -> bool {
    chain.contains(slot)
}

/// The node at index `k` of the chain links to the node at the next index.
pub open spec fn linked(nodes: Seq<Node>, chain: Seq<usize>, list: List, k: int) -> bool {
    nodes[chain[k] as int].link(list).target == slot_at(chain, k + 1)
}

/// The links lead through the chain: the head to its first slot, each node
/// to the next one, the last node nowhere. No slot occurs twice.
pub open spec fn follows(nodes: Seq<Node>, head: Link, chain: Seq<usize>, list: List) -> bool {
    &&& !head.marked
    &&& head.target == slot_at(chain, 0)
    &&& forall|k: int| 0 <= k < chain.len() ==> (#[trigger] chain[k]) < nodes.len()
    &&& forall|k: int| 0 <= k < chain.len() ==> #[trigger] linked(nodes, chain, list, k)
    &&& forall|a: int, b: int| 0 <= a < b < chain.len() ==> chain[a] != chain[b]
}

/// A slot that stands in the chain is held by it.
pub proof fn lemma_holds_at(chain: Seq<usize>, k: int)
    requires
        0 <= k < chain.len(),
    ensures
        holds(chain, chain[k]),
{
    reveal(holds);
}

/// Where a slot that the chain holds stands in it.
pub proof fn lemma_holds_index(chain: Seq<usize>, slot: usize) -> (k: int)
    requires
        holds(chain, slot),
    ensures
        0 <= k < chain.len(),
        chain[k] == slot,
{
    reveal(holds);
    choose|k: int| 0 <= k < chain.len() && chain[k] == slot
}

/// A chain holds a slot only where the slot stands in it.
pub proof fn lemma_holds_not(chain: Seq<usize>, slot: usize)
    requires
        forall|k: int| 0 <= k < chain.len() ==> chain[k] != slot,
    ensures
        !holds(chain, slot),
{
    reveal(holds);
}

/// What a chain holds after a slot was put in.
pub proof fn lemma_holds_insert(chain: Seq<usize>, k: int, slot: usize, other: usize)
    requires
        0 <= k <= chain.len(),
    ensures
        holds(chain.insert(k, slot), other) <==> (other == slot || holds(chain, other)),
{
    reveal(holds);
    let after = chain.insert(k, slot);
    if chain.contains(other) {
        let i = choose|i: int| 0 <= i < chain.len() && chain[i] == other;
        let j = if i < k { i } else { i + 1 };
        assert(after[j] == other);
    }
    if after.contains(other) && other != slot {
        let j = choose|j: int| 0 <= j < after.len() && after[j] == other;
        let i = if j < k { j } else { j - 1 };
        assert(chain[i] == other);
    }
    assert(after[k] == slot);
}

/// What a chain without doubles holds after a slot was taken out.
pub proof fn lemma_holds_remove(chain: Seq<usize>, k: int, other: usize)
    requires
        0 <= k < chain.len(),
        forall|a: int, b: int| 0 <= a < b < chain.len() ==> chain[a] != chain[b],
    ensures
        holds(chain.remove(k), other) <==> (other != chain[k] && holds(chain, other)),
{
    reveal(holds);
    let after = chain.remove(k);
    if chain.contains(other) && other != chain[k] {
        let i = choose|i: int| 0 <= i < chain.len() && chain[i] == other;
        let j = if i < k { i } else { i - 1 };
        assert(after[j] == other);
    }
    if after.contains(other) {
        let j = choose|j: int| 0 <= j < after.len() && after[j] == other;
        let i = if j < k { j } else { j + 1 };
        assert(chain[i] == other);
    }
}

/// The pairs of the nodes of the chain that are not logically deleted from
/// the list of priorities, in the order of the chain.
pub open spec fn live_pairs(nodes: Seq<Node>, chain: Seq<usize>) -> Seq<(u64, u64)>
    decreases chain.len(),
{
    if chain.len() == 0 {
        Seq::empty()
    } else {
        let rest = live_pairs(nodes, chain.drop_last());
        let node = nodes[chain.last() as int];
        if node.next_priority.marked {
            rest
        } else {
            rest.push(node.pair())
        }
    }
}

/// The pairs of two chains in a row are the pairs of the one followed by
/// the pairs of the other.
pub proof fn lemma_live_concat(nodes: Seq<Node>, a: Seq<usize>, b: Seq<usize>)
    ensures
        live_pairs(nodes, a + b) == live_pairs(nodes, a) + live_pairs(nodes, b),
    decreases b.len(),
{
    if b.len() == 0 {
        assert(a + b =~= a);
        assert(live_pairs(nodes, a) + live_pairs(nodes, b) =~= live_pairs(nodes, a));
    } else {
        let whole = a + b;
        assert(whole.drop_last() =~= a + b.drop_last());
        assert(whole.last() == b.last());
        lemma_live_concat(nodes, a, b.drop_last());
        let front = live_pairs(nodes, a);
        let back = live_pairs(nodes, b.drop_last());
        let node = nodes[b.last() as int];
        if !node.next_priority.marked {
            assert((front + back).push(node.pair()) =~= front + back.push(node.pair()));
        }
    }
}

/// The pairs depend only on the item, the priority and the mark of the
/// nodes in the chain.
pub proof fn lemma_live_frame(before: Seq<Node>, after: Seq<Node>, chain: Seq<usize>)
    requires
        forall|k: int|
            0 <= k < chain.len() ==> {
                let slot = #[trigger] chain[k] as int;
                &&& before[slot].pair() == after[slot].pair()
                &&& before[slot].next_priority.marked == after[slot].next_priority.marked
            },
    ensures
        live_pairs(before, chain) == live_pairs(after, chain),
    decreases chain.len(),
{
    if chain.len() > 0 {
        let rest = chain.drop_last();
        assert forall|k: int| 0 <= k < rest.len() implies {
            let slot = #[trigger] rest[k] as int;
            &&& before[slot].pair() == after[slot].pair()
            &&& before[slot].next_priority.marked == after[slot].next_priority.marked
        } by {
            assert(rest[k] == chain[k]);
        }
        lemma_live_frame(before, after, rest);
        assert(chain.last() == chain[chain.len() - 1]);
    }
}

/// A chain of one node.
pub proof fn lemma_live_single(nodes: Seq<Node>, slot: usize)
    ensures
        live_pairs(nodes, seq![slot]) == if nodes[slot as int].next_priority.marked {
            Seq::<(u64, u64)>::empty()
        } else {
            seq![nodes[slot as int].pair()]
        },
{
    let chain = seq![slot];
    assert(chain.drop_last() =~= Seq::<usize>::empty());
    assert(chain.last() == slot);
    assert(live_pairs(nodes, chain.drop_last()) =~= Seq::<(u64, u64)>::empty());
    if !nodes[slot as int].next_priority.marked {
        assert(Seq::<(u64, u64)>::empty().push(nodes[slot as int].pair()) =~= seq![
            nodes[slot as int].pair(),
        ]);
    }
}

/// The chain split at index `k`: the pairs before it, the node itself, and
/// the pairs behind it.
pub proof fn lemma_live_split(nodes: Seq<Node>, chain: Seq<usize>, k: int)
    requires
        0 <= k < chain.len(),
    ensures
        live_pairs(nodes, chain) == live_pairs(nodes, chain.take(k)) + live_pairs(
            nodes,
            seq![chain[k]],
        ) + live_pairs(nodes, chain.skip(k + 1)),
        live_pairs(nodes, chain.remove(k)) == live_pairs(nodes, chain.take(k)) + live_pairs(
            nodes,
            chain.skip(k + 1),
        ),
{
    let front = chain.take(k);
    let back = chain.skip(k + 1);
    assert(chain =~= (front + seq![chain[k]]) + back);
    lemma_live_concat(nodes, front + seq![chain[k]], back);
    lemma_live_concat(nodes, front, seq![chain[k]]);
    assert(chain.remove(k) =~= front + back);
    lemma_live_concat(nodes, front, back);
}

/// A chain with `slot` put in at index `k`.
pub proof fn lemma_live_insert(nodes: Seq<Node>, chain: Seq<usize>, k: int, slot: usize)
    requires
        0 <= k <= chain.len(),
    ensures
        live_pairs(nodes, chain.insert(k, slot)) == live_pairs(nodes, chain.take(k)) + live_pairs(
            nodes,
            seq![slot],
        ) + live_pairs(nodes, chain.skip(k)),
        live_pairs(nodes, chain) == live_pairs(nodes, chain.take(k)) + live_pairs(
            nodes,
            chain.skip(k),
        ),
{
    let front = chain.take(k);
    let back = chain.skip(k);
    assert(chain.insert(k, slot) =~= (front + seq![slot]) + back);
    lemma_live_concat(nodes, front + seq![slot], back);
    lemma_live_concat(nodes, front, seq![slot]);
    assert(chain =~= front + back);
    lemma_live_concat(nodes, front, back);
}

/// Where no node of the chain is deleted, the pairs are those of the nodes,
/// one for one.
pub proof fn lemma_live_all(nodes: Seq<Node>, chain: Seq<usize>)
    requires
        forall|k: int| 0 <= k < chain.len() ==> !nodes[#[trigger] chain[k] as int].next_priority.marked,
    ensures
        live_pairs(nodes, chain).len() == chain.len(),
        forall|k: int|
            0 <= k < chain.len() ==> #[trigger] live_pairs(nodes, chain)[k] == nodes[chain[k] as int].pair(),
    decreases chain.len(),
{
    if chain.len() > 0 {
        let rest = chain.drop_last();
        assert forall|k: int| 0 <= k < rest.len() implies !nodes[#[trigger] rest[k] as int].next_priority.marked by {
            assert(rest[k] == chain[k]);
        }
        lemma_live_all(nodes, rest);
        assert(chain.last() == chain[chain.len() - 1]);
        assert forall|k: int| 0 <= k < chain.len() implies #[trigger] live_pairs(nodes, chain)[k]
            == nodes[chain[k] as int].pair() by {
            if k < rest.len() {
                assert(rest[k] == chain[k]);
                assert(live_pairs(nodes, rest)[k] == nodes[rest[k] as int].pair());
            }
        }
    }
}

/// Every pair comes from a node of the chain that is not deleted.
pub proof fn lemma_live_member(nodes: Seq<Node>, chain: Seq<usize>, index: int) -> (k: int)
    requires
        0 <= index < live_pairs(nodes, chain).len(),
    ensures
        0 <= k < chain.len(),
        !nodes[chain[k] as int].next_priority.marked,
        nodes[chain[k] as int].pair() == live_pairs(nodes, chain)[index],
    decreases chain.len(),
{
    let rest = chain.drop_last();
    let node = nodes[chain.last() as int];
    assert(chain.last() == chain[chain.len() - 1]);
    if !node.next_priority.marked && index == live_pairs(nodes, rest).len() {
        chain.len() - 1
    } else {
        let k = lemma_live_member(nodes, rest, index);
        assert(rest[k] == chain[k]);
        k
    }
}

/// Every node of the chain that is not deleted gives a pair.
pub proof fn lemma_live_contains(nodes: Seq<Node>, chain: Seq<usize>, k: int) -> (index: int)
    requires
        0 <= k < chain.len(),
        !nodes[chain[k] as int].next_priority.marked,
    ensures
        0 <= index < live_pairs(nodes, chain).len(),
        live_pairs(nodes, chain)[index] == nodes[chain[k] as int].pair(),
        index == live_pairs(nodes, chain.take(k)).len(),
{
    lemma_live_split(nodes, chain, k);
    lemma_live_single(nodes, chain[k]);
    live_pairs(nodes, chain.take(k)).len() as int
}

/// Of two pairs, the one with the smaller index comes from a node that
/// stands earlier in the chain.
pub proof fn lemma_live_index(nodes: Seq<Node>, chain: Seq<usize>, i: int, j: int)
    requires
        0 <= i < j < live_pairs(nodes, chain).len(),
    ensures
        exists|a: int, b: int|
            0 <= a < b < chain.len() && !nodes[chain[a] as int].next_priority.marked
                && !nodes[chain[b] as int].next_priority.marked && nodes[chain[a] as int].pair()
                == live_pairs(nodes, chain)[i] && nodes[chain[b] as int].pair() == live_pairs(
                nodes,
                chain,
            )[j],
    decreases chain.len(),
{
    let rest = chain.drop_last();
    let node = nodes[chain.last() as int];
    assert(chain.last() == chain[chain.len() - 1]);
    if !node.next_priority.marked && j == live_pairs(nodes, rest).len() {
        let a = lemma_live_member(nodes, rest, i);
        assert(rest[a] == chain[a]);
        let b = chain.len() - 1;
        assert(0 <= a < b < chain.len() && !nodes[chain[a] as int].next_priority.marked
            && !nodes[chain[b] as int].next_priority.marked && nodes[chain[a] as int].pair()
            == live_pairs(nodes, chain)[i] && nodes[chain[b] as int].pair() == live_pairs(
            nodes,
            chain,
        )[j]);
    } else {
        lemma_live_index(nodes, rest, i, j);
        let (a, b) = choose|a: int, b: int|
            0 <= a < b < rest.len() && !nodes[rest[a] as int].next_priority.marked
                && !nodes[rest[b] as int].next_priority.marked && nodes[rest[a] as int].pair()
                == live_pairs(nodes, rest)[i] && nodes[rest[b] as int].pair() == live_pairs(
                nodes,
                rest,
            )[j];
        assert(rest[a] == chain[a] && rest[b] == chain[b]);
        assert(0 <= a < b < chain.len() && !nodes[chain[a] as int].next_priority.marked
            && !nodes[chain[b] as int].next_priority.marked && nodes[chain[a] as int].pair()
            == live_pairs(nodes, chain)[i] && nodes[chain[b] as int].pair() == live_pairs(
            nodes,
            chain,
        )[j]);
    }
}

/// A chain has no more pairs than nodes.
pub proof fn lemma_live_len(nodes: Seq<Node>, chain: Seq<usize>)
    ensures
        live_pairs(nodes, chain).len() <= chain.len(),
    decreases chain.len(),
{
    if chain.len() > 0 {
        lemma_live_len(nodes, chain.drop_last());
    }
}

} // verus!
