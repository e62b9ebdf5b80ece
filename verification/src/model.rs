//! The mathematical model of a queue: a sequence of `(item, priority)` pairs
//! in the order in which they leave the queue.
//!
//! Every contract of the queue is stated over such a sequence. A queue that is
//! well formed has a sequence that is sorted by priority and that holds each
//! item at most once.

use vstd::prelude::*;

verus! {

/// The pairs are in non-decreasing order of priority.
pub open spec fn sorted<A>(v: Seq<(A, u64)>) -> bool {
    forall|i: int, j: int| 0 <= i <= j < v.len() ==> v[i].1 <= v[j].1
}

/// No item occurs in two pairs.
pub open spec fn distinct_items(v: Seq<(u64, u64)>) -> bool {
    forall|i: int, j: int| 0 <= i < j < v.len() ==> v[i].0 != v[j].0
}

/// Some pair holds `item`.
pub open spec fn has_item(v: Seq<(u64, u64)>, item: u64) -> bool {
    exists|i: int| 0 <= i < v.len() && v[i].0 == item
}

/// The priority that `item` is paired with, if any pair holds it.
pub open spec fn lookup(v: Seq<(u64, u64)>, item: u64) -> Option<u64>
    decreases v.len(),
{
    if v.len() == 0 {
        None
    } else if v.last().0 == item {
        Some(v.last().1)
    } else {
        lookup(v.drop_last(), item)
    }
}

/// The sequence with every pair that holds `item` taken out.
pub open spec fn without(v: Seq<(u64, u64)>, item: u64) -> Seq<(u64, u64)>
    decreases v.len(),
{
    if v.len() == 0 {
        v
    } else if v.last().0 == item {
        without(v.drop_last(), item)
    } else {
        without(v.drop_last(), item).push(v.last())
    }
}

/// The number of pairs whose priority is not greater than `priority`.
pub open spec fn rank<A>(v: Seq<(A, u64)>, priority: u64) -> nat
    decreases v.len(),
{
    if v.len() == 0 {
        0
    } else if v.last().1 <= priority {
        rank(v.drop_last(), priority) + 1
    } else {
        rank(v.drop_last(), priority)
    }
}

/// The sequence after `item` was pushed with `priority`: an earlier pair of
/// the same item is gone, and the new pair stands behind every pair whose
/// priority is not greater.
pub open spec fn pushed(v: Seq<(u64, u64)>, item: u64, priority: u64) -> Seq<(u64, u64)> {
    let base = without(v, item);
    base.insert(rank(base, priority) as int, (item, priority))
}

/// The sequence after each pair of `pairs` was pushed in turn.
pub open spec fn pushed_all(v: Seq<(u64, u64)>, pairs: Seq<(u64, u64)>) -> Seq<(u64, u64)>
    decreases pairs.len(),
{
    if pairs.len() == 0 {
        v
    } else {
        pushed(pushed_all(v, pairs.drop_last()), pairs.last().0, pairs.last().1)
    }
}

/// A pair found at index `i` is the one that `lookup` reports for its item.
pub proof fn lemma_lookup_at(v: Seq<(u64, u64)>, i: int)
    requires
        distinct_items(v),
        0 <= i < v.len(),
    ensures
        lookup(v, v[i].0) == Some(v[i].1),
    decreases v.len(),
{
    if i < v.len() - 1 {
        let rest = v.drop_last();
        assert(rest[i] == v[i]);
        assert(distinct_items(rest)) by {
            assert forall|a: int, b: int| 0 <= a < b < rest.len() implies rest[a].0 != rest[b].0 by {
                assert(rest[a] == v[a] && rest[b] == v[b]);
            }
        }
        lemma_lookup_at(rest, i);
    }
}

/// `lookup` finds nothing exactly when no pair holds the item.
pub proof fn lemma_lookup_none(v: Seq<(u64, u64)>, item: u64)
    ensures
        lookup(v, item) is None <==> !has_item(v, item),
    decreases v.len(),
{
    if v.len() > 0 {
        let rest = v.drop_last();
        lemma_lookup_none(rest, item);
        if v.last().0 == item {
            assert(v[v.len() - 1].0 == item);
        } else {
            if has_item(v, item) {
                let i = choose|i: int| 0 <= i < v.len() && v[i].0 == item;
                assert(rest[i].0 == item);
            }
            if has_item(rest, item) {
                let i = choose|i: int| 0 <= i < rest.len() && rest[i].0 == item;
                assert(v[i].0 == item);
            }
        }
    }
}

/// Where no pair holds the item, taking it out changes nothing.
pub proof fn lemma_without_absent(v: Seq<(u64, u64)>, item: u64)
    requires
        !has_item(v, item),
    ensures
        without(v, item) == v,
    decreases v.len(),
{
    if v.len() > 0 {
        let rest = v.drop_last();
        assert(v[v.len() - 1].0 != item);
        assert(!has_item(rest, item)) by {
            if has_item(rest, item) {
                let i = choose|i: int| 0 <= i < rest.len() && rest[i].0 == item;
                assert(v[i].0 == item);
            }
        }
        lemma_without_absent(rest, item);
        assert(rest.push(v.last()) =~= v);
    }
}

/// Where the items are distinct and the item stands at index `k`, taking it
/// out removes exactly that pair.
pub proof fn lemma_without_at(v: Seq<(u64, u64)>, k: int)
    requires
        distinct_items(v),
        0 <= k < v.len(),
    ensures
        without(v, v[k].0) == v.remove(k),
    decreases v.len(),
{
    let item = v[k].0;
    let rest = v.drop_last();
    if k == v.len() - 1 {
        assert(!has_item(rest, item)) by {
            if has_item(rest, item) {
                let i = choose|i: int| 0 <= i < rest.len() && rest[i].0 == item;
                assert(v[i].0 == item);
            }
        }
        lemma_without_absent(rest, item);
        assert(rest =~= v.remove(k));
    } else {
        assert(v.last().0 != item);
        assert(distinct_items(rest)) by {
            assert forall|a: int, b: int| 0 <= a < b < rest.len() implies rest[a].0 != rest[b].0 by {
                assert(rest[a] == v[a] && rest[b] == v[b]);
            }
        }
        assert(rest[k] == v[k]);
        lemma_without_at(rest, k);
        assert(rest.remove(k).push(v.last()) =~= v.remove(k));
    }
}

/// Taking a pair out keeps the order and the distinctness.
pub proof fn lemma_remove_keeps(v: Seq<(u64, u64)>, k: int)
    requires
        0 <= k < v.len(),
    ensures
        sorted(v) ==> sorted(v.remove(k)),
        distinct_items(v) ==> distinct_items(v.remove(k)),
        distinct_items(v) ==> !has_item(v.remove(k), v[k].0),
{
    let w = v.remove(k);
    assert forall|i: int| 0 <= i < w.len() implies w[i] == v[if i < k { i } else { i + 1 }] by {}
    if sorted(v) {
        assert forall|i: int, j: int| 0 <= i <= j < w.len() implies w[i].1 <= w[j].1 by {
            let a = if i < k { i } else { i + 1 };
            let b = if j < k { j } else { j + 1 };
            assert(w[i] == v[a] && w[j] == v[b]);
        }
    }
    if distinct_items(v) {
        assert forall|i: int, j: int| 0 <= i < j < w.len() implies w[i].0 != w[j].0 by {
            let a = if i < k { i } else { i + 1 };
            let b = if j < k { j } else { j + 1 };
            assert(w[i] == v[a] && w[j] == v[b]);
        }
        if has_item(w, v[k].0) {
            let i = choose|i: int| 0 <= i < w.len() && w[i].0 == v[k].0;
            let a = if i < k { i } else { i + 1 };
            assert(w[i] == v[a]);
        }
    }
}

/// Taking an item out keeps the order and the distinctness, and the item is
/// gone afterwards.
pub proof fn lemma_without_keeps(v: Seq<(u64, u64)>, item: u64)
    requires
        distinct_items(v),
    ensures
        distinct_items(without(v, item)),
        !has_item(without(v, item), item),
        sorted(v) ==> sorted(without(v, item)),
        has_item(v, item) ==> without(v, item).len() == v.len() - 1,
        !has_item(v, item) ==> without(v, item).len() == v.len(),
        forall|other: u64| other != item ==> lookup(without(v, item), other) == lookup(v, other),
{
    if has_item(v, item) {
        let k = choose|k: int| 0 <= k < v.len() && v[k].0 == item;
        lemma_without_at(v, k);
        lemma_remove_keeps(v, k);
        let w = v.remove(k);
        assert forall|other: u64| other != item implies lookup(w, other) == lookup(v, other) by {
            lemma_lookup_none(w, other);
            lemma_lookup_none(v, other);
            if has_item(v, other) {
                let i = choose|i: int| 0 <= i < v.len() && v[i].0 == other;
                let j = if i < k { i } else { i - 1 };
                assert(w[j] == v[i]);
                lemma_lookup_at(v, i);
                lemma_lookup_at(w, j);
            } else if has_item(w, other) {
                let j = choose|j: int| 0 <= j < w.len() && w[j].0 == other;
                let i = if j < k { j } else { j + 1 };
                assert(w[j] == v[i]);
            }
        }
    } else {
        lemma_without_absent(v, item);
    }
}

/// In a sorted sequence the pairs whose priority is not greater than
/// `priority` are exactly the first `rank` pairs.
pub proof fn lemma_rank_sorted<A>(v: Seq<(A, u64)>, priority: u64)
    requires
        sorted(v),
    ensures
        rank(v, priority) <= v.len(),
        forall|i: int| 0 <= i < rank(v, priority) ==> v[i].1 <= priority,
        forall|i: int| rank(v, priority) <= i < v.len() ==> v[i].1 > priority,
    decreases v.len(),
{
    if v.len() > 0 {
        let rest = v.drop_last();
        assert(sorted(rest)) by {
            assert forall|a: int, b: int| 0 <= a <= b < rest.len() implies rest[a].1 <= rest[b].1 by {
                assert(rest[a] == v[a] && rest[b] == v[b]);
            }
        }
        lemma_rank_sorted(rest, priority);
        let r = rank(rest, priority);
        assert forall|i: int| 0 <= i < rest.len() implies rest[i] == v[i] by {}
        if v.last().1 <= priority {
            if r < rest.len() {
                assert(rest[r as int].1 > priority);
                assert(v[r as int].1 <= v[v.len() - 1].1);
            }
        }
    }
}

/// A split into pairs that are not greater and pairs that are greater gives
/// the rank.
pub proof fn lemma_rank_split<A>(v: Seq<(A, u64)>, priority: u64, k: int)
    requires
        0 <= k <= v.len(),
        forall|i: int| 0 <= i < k ==> v[i].1 <= priority,
        forall|i: int| k <= i < v.len() ==> v[i].1 > priority,
    ensures
        rank(v, priority) == k,
    decreases v.len(),
{
    if v.len() > 0 {
        let rest = v.drop_last();
        assert forall|i: int| 0 <= i < rest.len() implies rest[i] == v[i] by {}
        if k == v.len() {
            assert(v[v.len() - 1].1 <= priority);
            lemma_rank_split(rest, priority, k - 1);
        } else {
            assert(v[v.len() - 1].1 > priority);
            lemma_rank_split(rest, priority, k);
        }
    }
}

/// A push keeps a sequence sorted and its items distinct, and the pushed
/// item is then found with the pushed priority. Every other item keeps the
/// priority it had.
pub proof fn lemma_pushed_keeps(v: Seq<(u64, u64)>, item: u64, priority: u64)
    requires
        sorted(v),
        distinct_items(v),
    ensures
        sorted(pushed(v, item, priority)),
        distinct_items(pushed(v, item, priority)),
        lookup(pushed(v, item, priority), item) == Some(priority),
        forall|other: u64|
            other != item ==> lookup(pushed(v, item, priority), other) == lookup(v, other),
        has_item(v, item) ==> pushed(v, item, priority).len() == v.len(),
        !has_item(v, item) ==> pushed(v, item, priority).len() == v.len() + 1,
{
    let base = without(v, item);
    lemma_without_keeps(v, item);
    lemma_rank_sorted(base, priority);
    let r = rank(base, priority) as int;
    let w = pushed(v, item, priority);
    assert(w == base.insert(r, (item, priority)));
    assert forall|i: int| 0 <= i < w.len() implies w[i] == (if i < r {
        base[i]
    } else if i == r {
        (item, priority)
    } else {
        base[i - 1]
    }) by {}
    assert forall|i: int, j: int| 0 <= i <= j < w.len() implies w[i].1 <= w[j].1 by {
        if i < r && j > r {
            assert(base[i].1 <= base[j - 1].1);
        }
    }
    assert forall|i: int, j: int| 0 <= i < j < w.len() implies w[i].0 != w[j].0 by {
        if i != r {
            let a = if i < r { i } else { i - 1 };
            assert(base[a].0 != item);
        }
        if j != r {
            let b = if j < r { j } else { j - 1 };
            assert(base[b].0 != item);
        }
    }
    assert(w[r] == (item, priority));
    lemma_lookup_at(w, r);
    assert forall|other: u64| other != item implies lookup(w, other) == lookup(v, other) by {
        lemma_lookup_none(w, other);
        lemma_lookup_none(base, other);
        if has_item(base, other) {
            let i = choose|i: int| 0 <= i < base.len() && base[i].0 == other;
            let j = if i < r { i } else { i + 1 };
            assert(w[j] == base[i]);
            lemma_lookup_at(base, i);
            lemma_lookup_at(w, j);
        } else if has_item(w, other) {
            let j = choose|j: int| 0 <= j < w.len() && w[j].0 == other;
            let i = if j < r { j } else { j - 1 };
            assert(w[j] == base[i]);
        }
    }
}

/// After `item` was pushed with `priority`, a lookup of `item` gives
/// `priority`.
pub proof fn law_push_then_get(v: Seq<(u64, u64)>, item: u64, priority: u64)
    requires
        sorted(v),
        distinct_items(v),
    ensures
        lookup(pushed(v, item, priority), item) == Some(priority),
{
    lemma_pushed_keeps(v, item, priority);
}

/// A second push of the same item replaces the first: a lookup gives the
/// second priority, and the number of pairs is what it was after the first
/// push.
pub proof fn law_push_replaces(v: Seq<(u64, u64)>, item: u64, first: u64, second: u64)
    requires
        sorted(v),
        distinct_items(v),
    ensures
        lookup(pushed(pushed(v, item, first), item, second), item) == Some(second),
        pushed(pushed(v, item, first), item, second).len() == pushed(v, item, first).len(),
{
    lemma_pushed_keeps(v, item, first);
    let w = pushed(v, item, first);
    lemma_pushed_keeps(w, item, second);
    lemma_lookup_none(w, item);
}

/// What leaves a well-formed queue first has a priority that is not greater
/// than that of anything that leaves it later.
pub proof fn law_first_is_least<A>(v: Seq<(A, u64)>, later: int)
    requires
        sorted(v),
        0 <= later < v.len(),
    ensures
        v[0].1 <= v[later].1,
{
}

/// Pushing pairs with distinct items onto an empty queue, in any order, gives
/// a queue that holds exactly those pairs, sorted by priority.
pub proof fn law_round_trip(pairs: Seq<(u64, u64)>)
    requires
        distinct_items(pairs),
    ensures
        pushed_all(Seq::empty(), pairs).to_multiset() == pairs.to_multiset(),
        sorted(pushed_all(Seq::empty(), pairs)),
        distinct_items(pushed_all(Seq::empty(), pairs)),
        forall|item: u64|
            #[trigger] has_item(pushed_all(Seq::empty(), pairs), item) <==> has_item(pairs, item),
    decreases pairs.len(),
{
    broadcast use vstd::seq_lib::group_to_multiset_ensures;

    let empty = Seq::<(u64, u64)>::empty();
    if pairs.len() == 0 {
        assert(pairs =~= empty);
    } else {
        let rest = pairs.drop_last();
        let (item, priority) = pairs.last();
        assert forall|i: int| 0 <= i < rest.len() implies rest[i] == pairs[i] by {}
        assert(distinct_items(rest));
        law_round_trip(rest);
        let acc = pushed_all(empty, rest);
        assert(!has_item(acc, item)) by {
            if has_item(rest, item) {
                let i = choose|i: int| 0 <= i < rest.len() && rest[i].0 == item;
                assert(pairs[i].0 == item && pairs[pairs.len() - 1].0 == item);
            }
        }
        lemma_without_absent(acc, item);
        lemma_pushed_keeps(acc, item, priority);
        let r = rank(acc, priority) as int;
        lemma_rank_sorted(acc, priority);
        let w = pushed(acc, item, priority);
        assert(w == acc.insert(r, (item, priority)));
        assert(w == pushed_all(empty, pairs));
        assert(w.remove(r) =~= acc);
        assert(w[r] == (item, priority));
        assert(w.to_multiset() =~= acc.to_multiset().insert((item, priority))) by {
            assert(w.remove(r).to_multiset() =~= w.to_multiset().remove(w[r]));
            assert(w.contains(w[r]));
            assert(w.to_multiset().count(w[r]) > 0);
        }
        assert(rest.push(pairs.last()) =~= pairs);
        assert(pairs.to_multiset() =~= rest.to_multiset().insert(pairs.last()));
        assert forall|other: u64| has_item(w, other) <==> has_item(pairs, other) by {
            if has_item(w, other) {
                let j = choose|j: int| 0 <= j < w.len() && w[j].0 == other;
                if j != r {
                    let i = if j < r { j } else { j - 1 };
                    assert(w[j] == acc[i]);
                    assert(has_item(acc, other));
                    assert(has_item(rest, other));
                    let a = choose|a: int| 0 <= a < rest.len() && rest[a].0 == other;
                    assert(pairs[a].0 == other);
                } else {
                    assert(pairs[pairs.len() - 1].0 == other);
                }
            }
            if has_item(pairs, other) {
                let a = choose|a: int| 0 <= a < pairs.len() && pairs[a].0 == other;
                if a == pairs.len() - 1 {
                    assert(w[r].0 == other);
                } else {
                    assert(rest[a].0 == other);
                    assert(has_item(rest, other));
                    assert(has_item(acc, other));
                    let i = choose|i: int| 0 <= i < acc.len() && acc[i].0 == other;
                    let j = if i < r { i } else { i + 1 };
                    assert(w[j] == acc[i]);
                }
            }
        }
    }
}

} // verus!
