//! A queue of items in buckets, one bucket for each priority in a map that
//! is ordered by priority, that threads share behind one lock.
//!
//! Unlike [`crate::RawCPQ`] this queue does not tell items apart: an item
//! that is pushed twice is held twice. Items with the same priority leave
//! in the order in which they were pushed.

use crate::counter::RelaxedCounter;
use crate::lock::guard_mut;
use crate::lock::lock_new;
use crate::lock::lock_write;
use crate::model::lemma_rank_split;
use crate::model::rank;
use crate::model::sorted;
use std::collections::BTreeMap;
use std::collections::VecDeque;
use vstd::prelude::*;
use vstd::std_specs::btree::spec_keys_iter;
use vstd::std_specs::iter::IteratorSpec;

verus! {

/// The pairs of a bucket: each item with the priority of the bucket.
pub open spec fn row_pairs<I>(priority: u64, items: Seq<I>) -> Seq<(I, u64)> {
    Seq::new(items.len(), |i: int| (items[i], priority))
}

/// The pairs of the bucket of priority `p`: none where the map has no such
/// bucket.
pub closed spec fn row<I>(rows: Map<u64, VecDeque<I>>, p: int) -> Seq<(I, u64)> {
    if 0 <= p <= u64::MAX && rows.contains_key(p as u64) {
        row_pairs(p as u64, rows[p as u64]@)
    } else {
        Seq::empty()
    }
}

/// The pairs of the buckets whose priority is at least `lo` and less than
/// `hi`, in the order of the priorities.
pub closed spec fn flat<I>(rows: Map<u64, VecDeque<I>>, lo: int, hi: int) -> Seq<(I, u64)>
    decreases hi - lo,
{
    if hi <= lo {
        Seq::empty()
    } else {
        flat(rows, lo, hi - 1) + row(rows, hi - 1)
    }
}

/// One more than the greatest priority.
pub open spec fn top() -> int {
    u64::MAX + 1
}

proof fn lemma_flat_concat<I>(rows: Map<u64, VecDeque<I>>, lo: int, mid: int, hi: int)
    requires
        lo <= mid <= hi,
    ensures
        flat(rows, lo, hi) == flat(rows, lo, mid) + flat(rows, mid, hi),
    decreases hi - mid,
{
    if hi == mid {
        assert(flat(rows, lo, mid) + flat(rows, mid, hi) =~= flat(rows, lo, mid));
    } else {
        lemma_flat_concat(rows, lo, mid, hi - 1);
        assert((flat(rows, lo, mid) + flat(rows, mid, hi - 1)) + row(rows, hi - 1) =~= flat(
            rows,
            lo,
            mid,
        ) + (flat(rows, mid, hi - 1) + row(rows, hi - 1)));
    }
}

proof fn lemma_flat_single<I>(rows: Map<u64, VecDeque<I>>, p: int)
    ensures
        flat(rows, p, p + 1) == row(rows, p),
{
    assert(flat(rows, p, p) =~= Seq::<(I, u64)>::empty());
    assert(Seq::<(I, u64)>::empty() + row(rows, p) =~= row(rows, p));
}

/// The pairs depend only on the buckets in the range.
proof fn lemma_flat_frame<I>(
    before: Map<u64, VecDeque<I>>,
    after: Map<u64, VecDeque<I>>,
    lo: int,
    hi: int,
)
    requires
        forall|p: int| lo <= p < hi ==> #[trigger] row(before, p) == row(after, p),
    ensures
        flat(before, lo, hi) == flat(after, lo, hi),
    decreases hi - lo,
{
    if hi > lo {
        lemma_flat_frame(before, after, lo, hi - 1);
        assert(row(before, hi - 1) == row(after, hi - 1));
    }
}

/// Every pair has a priority of the range.
proof fn lemma_flat_member<I>(rows: Map<u64, VecDeque<I>>, lo: int, hi: int, index: int)
    requires
        0 <= index < flat(rows, lo, hi).len(),
    ensures
        lo <= flat(rows, lo, hi)[index].1 < hi,
    decreases hi - lo,
{
    if hi > lo {
        let front = flat(rows, lo, hi - 1);
        if index < front.len() {
            lemma_flat_member(rows, lo, hi - 1, index);
        } else {
            assert(flat(rows, lo, hi)[index] == row(rows, hi - 1)[index - front.len()]);
        }
    }
}

/// Buckets without items have no pairs.
proof fn lemma_flat_empty<I>(rows: Map<u64, VecDeque<I>>, lo: int, hi: int)
    requires
        forall|p: int| lo <= p < hi ==> (#[trigger] row(rows, p)).len() == 0,
    ensures
        flat(rows, lo, hi).len() == 0,
    decreases hi - lo,
{
    if hi > lo {
        lemma_flat_empty(rows, lo, hi - 1);
        assert(row(rows, hi - 1).len() == 0);
    }
}

/// The pairs are sorted by priority.
proof fn lemma_flat_sorted<I>(rows: Map<u64, VecDeque<I>>, lo: int, hi: int)
    ensures
        sorted(flat(rows, lo, hi)),
    decreases hi - lo,
{
    if hi > lo {
        lemma_flat_sorted(rows, lo, hi - 1);
        let front = flat(rows, lo, hi - 1);
        let back = row(rows, hi - 1);
        let v = flat(rows, lo, hi);
        assert forall|i: int, j: int| 0 <= i <= j < v.len() implies v[i].1 <= v[j].1 by {
            if j >= front.len() {
                assert(v[j] == back[j - front.len()]);
                if i < front.len() {
                    lemma_flat_member(rows, lo, hi - 1, i);
                } else {
                    assert(v[i] == back[i - front.len()]);
                }
            }
        }
    }
}

/// The least priority that has a bucket with an item in it, if there is
/// one.
fn first_full<I>(rows: &BTreeMap<u64, VecDeque<I>>) -> (first: Option<u64>)
    ensures
        match first {
            Some(k) => rows@.contains_key(k) && rows@[k]@.len() > 0 && forall|j: u64|
                j < k && rows@.contains_key(j) ==> (#[trigger] rows@[j])@.len() == 0,
            None => forall|j: u64| rows@.contains_key(j) ==> (#[trigger] rows@[j])@.len() == 0,
        },
{
    broadcast use vstd::std_specs::btree::group_btree_axioms;

    let mut best: Option<u64> = None;
    let ghost keys = spec_keys_iter(rows).remaining();
    for key in it: rows.keys()
        invariant
            it.seq() == keys,
            keys.unref().to_set() == rows@.dom(),
            match best {
                Some(k) => rows@.contains_key(k) && rows@[k]@.len() > 0,
                None => true,
            },
            forall|i: int|
                0 <= i < it.index() ==> rows@[*(#[trigger] keys[i])]@.len() == 0 || (
                best matches Some(k) && k <= *keys[i]),
    {
        assert(keys.unref()[it.index()] == *key);
        assert(keys.unref().to_set().contains(*key));
        if let Some(bucket) = rows.get(key) {
            if bucket.len() > 0 {
                let better = match best {
                    Some(k) => *key < k,
                    None => true,
                };
                if better {
                    best = Some(*key);
                }
            }
        }
    }
    proof {
        assert forall|j: u64| rows@.contains_key(j) implies (#[trigger] rows@[j])@.len() == 0 || (
        best matches Some(k) && k <= j) by {
            assert(keys.unref().to_set().contains(j));
            let i = choose|i: int| 0 <= i < keys.unref().len() && keys.unref()[i] == j;
            assert(*keys[i] == j);
        }
    }
    best
}

/// A queue of items in buckets by priority, for one owner. The buckets are
/// kept in a map in the order of their priorities; a bucket that has run
/// empty stays in the map.
#[verifier::reject_recursive_types(I)]
pub struct Buckets<I> {
    rows: BTreeMap<u64, VecDeque<I>>,
}

impl<I> View for Buckets<I> {
    type V = Seq<(I, u64)>;

    /// The pairs of item and priority, in the order in which they leave.
    closed spec fn view(&self) -> Seq<(I, u64)> {
        flat(self.rows@, 0, top())
    }
}

impl<I> Buckets<I> {
    /// A queue without items.
    pub fn new() -> (buckets: Self)
        ensures
            buckets@ == Seq::<(I, u64)>::empty(),
    {
        let buckets = Buckets { rows: BTreeMap::new() };
        proof {
            lemma_flat_empty(buckets.rows@, 0, top());
            assert(buckets@ =~= Seq::<(I, u64)>::empty());
        }
        buckets
    }

    /// Puts `item` behind every item whose priority is not greater than
    /// `priority`.
    pub fn push(&mut self, item: I, priority: u64)
        ensures
            final(self)@ == old(self)@.insert(rank(old(self)@, priority) as int, (item, priority)),
            sorted(old(self)@),
            sorted(final(self)@),
    {
        broadcast use vstd::std_specs::btree::group_btree_axioms;

        let ghost before = self.rows@;
        let mut bucket = match self.rows.remove(&priority) {
            Some(bucket) => bucket,
            None => VecDeque::new(),
        };
        let ghost held = bucket@;
        bucket.push_back(item);
        self.rows.insert(priority, bucket);
        proof {
            let after = self.rows@;
            let p = priority as int;
            assert(row(before, p) =~= row_pairs(priority, held));
            assert(row(after, p) =~= row(before, p).push((item, priority)));
            assert forall|q: int| q != p implies #[trigger] row(before, q) == row(after, q) by {
                if 0 <= q <= u64::MAX {
                    assert(after.contains_key(q as u64) == before.contains_key(q as u64));
                }
            }
            lemma_flat_concat(before, 0, p, top());
            lemma_flat_concat(before, p, p + 1, top());
            lemma_flat_single(before, p);
            lemma_flat_concat(after, 0, p, top());
            lemma_flat_concat(after, p, p + 1, top());
            lemma_flat_single(after, p);
            lemma_flat_frame(before, after, 0, p);
            lemma_flat_frame(before, after, p + 1, top());
            let front = flat(before, 0, p);
            let same = row(before, p);
            let back = flat(before, p + 1, top());
            let v = old(self)@;
            let k = (front.len() + same.len()) as int;
            assert(v =~= front + same + back);
            assert(self@ =~= v.insert(k, (item, priority)));
            assert forall|x: int| 0 <= x < k implies v[x].1 <= priority by {
                if x < front.len() {
                    lemma_flat_member(before, 0, p, x);
                }
            }
            assert forall|x: int| k <= x < v.len() implies v[x].1 > priority by {
                lemma_flat_member(before, p + 1, top(), x - k);
            }
            lemma_rank_split(v, priority, k);
            lemma_flat_sorted(before, 0, top());
            lemma_flat_sorted(after, 0, top());
        }
    }

    /// Takes the first item of the least priority out.
    pub fn pop(&mut self) -> (popped: Option<I>)
        ensures
            match popped {
                Some(item) => {
                    &&& old(self)@.len() > 0
                    &&& item == old(self)@[0].0
                    &&& final(self)@ == old(self)@.drop_first()
                },
                None => old(self)@.len() == 0 && final(self)@ == old(self)@,
            },
            sorted(old(self)@),
            sorted(final(self)@),
    {
        broadcast use vstd::std_specs::btree::group_btree_axioms;

        let ghost before = self.rows@;
        proof {
            lemma_flat_sorted(before, 0, top());
        }
        let priority = match first_full(&self.rows) {
            Some(priority) => priority,
            None => {
                proof {
                    assert forall|p: int| 0 <= p < top() implies (#[trigger] row(before, p)).len()
                        == 0 by {
                        if before.contains_key(p as u64) {
                            assert(before[p as u64]@.len() == 0);
                        }
                    }
                    lemma_flat_empty(before, 0, top());
                }
                return None;
            },
        };
        let mut bucket = match self.rows.remove(&priority) {
            Some(bucket) => bucket,
            None => {
                return None;
            },
        };
        let ghost held = bucket@;
        let popped = bucket.pop_front();
        self.rows.insert(priority, bucket);
        proof {
            let after = self.rows@;
            let p = priority as int;
            assert(row(before, p) =~= row_pairs(priority, held));
            assert(row(after, p) =~= row(before, p).drop_first());
            assert forall|q: int| q != p implies #[trigger] row(before, q) == row(after, q) by {
                if 0 <= q <= u64::MAX {
                    assert(after.contains_key(q as u64) == before.contains_key(q as u64));
                }
            }
            assert forall|q: int| 0 <= q < p implies (#[trigger] row(before, q)).len() == 0 by {
                if before.contains_key(q as u64) {
                    assert(before[q as u64]@.len() == 0);
                }
            }
            lemma_flat_empty(before, 0, p);
            lemma_flat_concat(before, 0, p, top());
            lemma_flat_concat(before, p, p + 1, top());
            lemma_flat_single(before, p);
            lemma_flat_concat(after, 0, p, top());
            lemma_flat_concat(after, p, p + 1, top());
            lemma_flat_single(after, p);
            lemma_flat_frame(before, after, 0, p);
            lemma_flat_frame(before, after, p + 1, top());
            let same = row(before, p);
            let back = flat(before, p + 1, top());
            assert(flat(before, 0, p) =~= Seq::<(I, u64)>::empty());
            assert(old(self)@ =~= same + back);
            assert(self@ =~= old(self)@.drop_first());
            lemma_flat_sorted(after, 0, top());
        }
        popped
    }
}

/// A queue of items with priorities that threads share. The item with the
/// least priority leaves first, and of several items with the same priority
/// the one that was pushed first.
///
/// Every operation takes the lock for itself alone. What one thread reads
/// of the queue may have been changed by another before it looks at it, so
/// the operations promise nothing of what they return but what holds of
/// every outcome. What a push and a pop do to the buckets is stated, and
/// proved, in [`Buckets`].
#[verifier::reject_recursive_types(I)]
pub struct ConcurrentPriorityQueue<I> {
    buckets: parking_lot::RwLock<Buckets<I>>,
    length: RelaxedCounter,
}

impl<I> Default for ConcurrentPriorityQueue<I> {
    /// A queue without items.
    fn default() -> (queue: Self) {
        ConcurrentPriorityQueue::new()
    }
}

impl<I> ConcurrentPriorityQueue<I> {
    /// A queue without items.
    pub fn new() -> (queue: Self) {
        ConcurrentPriorityQueue {
            buckets: lock_new(Buckets::new()),
            length: RelaxedCounter::new(0),
        }
    }

    /// Puts `item` behind every item whose priority is not greater than
    /// `priority`.
    pub fn push(&self, item: I, priority: u64) {
        {
            let mut guard = lock_write(&self.buckets);
            let buckets = guard_mut(&mut guard);
            buckets.push(item, priority);
        }
        self.length.inc();
    }

    /// Takes the first item of the least priority out, if there is an item.
    pub fn pop(&self) -> (popped: Option<I>) {
        let popped = {
            let mut guard = lock_write(&self.buckets);
            let buckets = guard_mut(&mut guard);
            buckets.pop()
        };
        if popped.is_some() {
            self.length.dec();
        }
        popped
    }

    /// Takes up to `amount` items out, the least priority first. It stops
    /// early where the queue is found empty.
    pub fn drain(&self, amount: usize) -> (taken: Vec<I>)
        ensures
            taken@.len() <= amount,
    {
        let mut taken: Vec<I> = Vec::new();
        let mut count: usize = 0;
        while count < amount
            invariant
                count == taken@.len(),
                count <= amount,
            decreases amount - count,
        {
            match self.pop() {
                Some(item) => {
                    taken.push(item);
                    count = count + 1;
                },
                None => {
                    break ;
                },
            }
        }
        taken
    }

    /// The number of items, as the counter had it at some moment during
    /// the call.
    pub fn len(&self) -> (n: usize) {
        self.length.get()
    }

    /// Whether the counter stood at zero at some moment during the call.
    pub fn is_empty(&self) -> (empty: bool) {
        self.len() == 0
    }
}

} // verus!
