use cpq::Bound;
use cpq::RawCPQ;

fn sample() -> RawCPQ {
    let mut queue = RawCPQ::new();
    queue.push(1, 0);
    queue.push(2, 2);
    queue.push(3, 7);
    queue.push(4, 2);
    queue
}

#[test]
fn pops_in_order_of_priority() {
    let mut queue = sample();
    assert_eq!(queue.len(), 4);
    assert_eq!(queue.pop(), Some((1, 0)));
    assert_eq!(queue.pop(), Some((2, 2)));
    assert_eq!(queue.pop(), Some((4, 2)));
    assert_eq!(queue.pop(), Some((3, 7)));
    assert_eq!(queue.pop(), None);
    assert!(queue.is_empty());
}

#[test]
fn new_queue_is_empty() {
    let mut queue = RawCPQ::new();
    assert!(queue.is_empty());
    assert_eq!(queue.len(), 0);
    assert!(queue.peek().is_none());
    assert!(queue.get(1).is_none());
    assert_eq!(queue.pop(), None);
    assert_eq!(queue.pop(), None);
    assert!(queue.is_empty());
}

#[test]
fn with_capacity_starts_empty_and_grows() {
    let mut queue = RawCPQ::with_capacity(2);
    assert!(queue.is_empty());
    for item in 0..10u64 {
        queue.push(item, 10 - item);
    }
    assert_eq!(queue.len(), 10);
    assert_eq!(queue.pop(), Some((9, 1)));
}

#[test]
fn get_returns_the_pushed_priority() {
    let mut queue = RawCPQ::new();
    queue.push(42, 17);
    let entry = queue.get(42).unwrap();
    assert_eq!(entry.item(), 42);
    assert_eq!(entry.priority(), 17);
    assert!(queue.get(43).is_none());
}

#[test]
fn push_replaces_the_priority_of_an_item() {
    let mut queue = RawCPQ::new();
    queue.push(10, 5);
    queue.push(11, 6);
    assert_eq!(queue.len(), 2);
    queue.push(10, 9);
    assert_eq!(queue.len(), 2);
    assert_eq!(queue.get(10).unwrap().priority(), 9);
    assert_eq!(queue.pop(), Some((11, 6)));
    assert_eq!(queue.pop(), Some((10, 9)));
    assert_eq!(queue.pop(), None);
}

#[test]
fn push_of_the_same_pair_twice_keeps_one() {
    let mut queue = RawCPQ::new();
    queue.push(5, 5);
    queue.push(5, 5);
    assert_eq!(queue.len(), 1);
    assert_eq!(queue.pop(), Some((5, 5)));
    assert_eq!(queue.pop(), None);
}

#[test]
fn replaced_item_moves_behind_its_equals() {
    let mut queue = sample();
    queue.push(2, 2);
    assert_eq!(queue.drain(4), vec![(1, 0), (4, 2), (2, 2), (3, 7)]);
}

#[test]
fn popped_item_is_gone() {
    let mut queue = sample();
    assert_eq!(queue.pop(), Some((1, 0)));
    assert!(queue.get(1).is_none());
    assert_eq!(queue.len(), 3);
    queue.push(1, 100);
    assert_eq!(queue.get(1).unwrap().priority(), 100);
    assert_eq!(queue.len(), 4);
}

#[test]
fn peek_shows_the_least_without_taking_it() {
    let mut queue = sample();
    let entry = queue.peek().unwrap();
    assert_eq!((entry.item(), entry.priority()), (1, 0));
    assert_eq!(queue.len(), 4);
    assert_eq!(queue.pop(), Some((1, 0)));
    let entry = queue.peek().unwrap();
    assert_eq!((entry.item(), entry.priority()), (2, 2));
}

#[test]
fn get_priority_finds_the_first_of_that_priority() {
    let mut queue = sample();
    let entry = queue.get_priority(2).unwrap();
    assert_eq!((entry.item(), entry.priority()), (2, 2));
    assert!(queue.get_priority(5).is_none());
    assert!(queue.get_priority(8).is_none());
    assert_eq!(queue.pop(), Some((1, 0)));
    assert_eq!(queue.pop(), Some((2, 2)));
    let entry = queue.get_priority(2).unwrap();
    assert_eq!((entry.item(), entry.priority()), (4, 2));
}

fn pair_at_lower(queue: &RawCPQ, bound: Bound) -> Option<(u64, u64)> {
    queue.lower_bound(bound).map(|entry| (entry.item(), entry.priority()))
}

fn pair_at_upper(queue: &RawCPQ, bound: Bound) -> Option<(u64, u64)> {
    queue.upper_bound(bound).map(|entry| (entry.item(), entry.priority()))
}

#[test]
fn lower_bound_finds_the_first_pair_not_below() {
    let queue = sample();
    assert_eq!(pair_at_lower(&queue, Bound::Unbounded), Some((1, 0)));
    assert_eq!(pair_at_lower(&queue, Bound::Included(2)), Some((2, 2)));
    assert_eq!(pair_at_lower(&queue, Bound::Excluded(2)), Some((3, 7)));
    assert_eq!(pair_at_lower(&queue, Bound::Included(7)), Some((3, 7)));
    assert_eq!(pair_at_lower(&queue, Bound::Excluded(7)), None);
    assert_eq!(pair_at_lower(&queue, Bound::Included(8)), None);
}

#[test]
fn upper_bound_finds_the_last_pair_not_above() {
    let queue = sample();
    assert_eq!(pair_at_upper(&queue, Bound::Unbounded), Some((3, 7)));
    assert_eq!(pair_at_upper(&queue, Bound::Included(2)), Some((4, 2)));
    assert_eq!(pair_at_upper(&queue, Bound::Excluded(2)), Some((1, 0)));
    assert_eq!(pair_at_upper(&queue, Bound::Included(0)), Some((1, 0)));
    assert_eq!(pair_at_upper(&queue, Bound::Excluded(0)), None);
}

#[test]
fn bounds_skip_pairs_that_were_popped() {
    let mut queue = sample();
    assert_eq!(queue.pop(), Some((1, 0)));
    assert_eq!(pair_at_lower(&queue, Bound::Unbounded), Some((2, 2)));
    assert_eq!(pair_at_upper(&queue, Bound::Excluded(2)), None);
}

#[test]
fn drain_takes_the_least_first() {
    let mut queue = sample();
    assert_eq!(queue.drain(2), vec![(1, 0), (2, 2)]);
    assert_eq!(queue.len(), 2);
    assert_eq!(queue.drain(0), vec![]);
    assert_eq!(queue.drain(10), vec![(4, 2), (3, 7)]);
    assert!(queue.is_empty());
    assert_eq!(queue.drain(3), vec![]);
}

#[test]
fn round_trip_gives_back_the_pushed_pairs() {
    let pairs: Vec<(u64, u64)> = vec![(8, 3), (1, 9), (6, 0), (3, 3), (9, 1), (2, 9), (7, 4)];
    let mut queue = RawCPQ::new();
    queue.extend(&pairs);
    assert_eq!(queue.len(), pairs.len());
    let drained = queue.drain(pairs.len());
    assert!(queue.is_empty());
    assert_eq!(drained, vec![(6, 0), (9, 1), (8, 3), (3, 3), (7, 4), (1, 9), (2, 9)]);
    let mut expected = pairs.clone();
    expected.sort();
    let mut got = drained.clone();
    got.sort();
    assert_eq!(got, expected);
}

#[test]
fn round_trip_does_not_depend_on_the_order_of_pushes() {
    let forward: Vec<(u64, u64)> = vec![(1, 5), (2, 1), (3, 8), (4, 2)];
    let backward: Vec<(u64, u64)> = vec![(4, 2), (3, 8), (2, 1), (1, 5)];
    let mut a = RawCPQ::new();
    a.extend(&forward);
    let mut b = RawCPQ::new();
    b.extend(&backward);
    assert_eq!(a.drain(4), vec![(2, 1), (4, 2), (1, 5), (3, 8)]);
    assert_eq!(b.drain(4), vec![(2, 1), (4, 2), (1, 5), (3, 8)]);
}

#[test]
fn extend_replaces_like_push() {
    let mut queue = RawCPQ::new();
    queue.extend(&vec![(1, 5), (2, 6), (1, 7)]);
    assert_eq!(queue.len(), 2);
    assert_eq!(queue.drain(2), vec![(2, 6), (1, 7)]);
}

#[test]
fn pops_never_decrease_in_priority() {
    let mut queue = RawCPQ::new();
    let mut seed: u64 = 12345;
    for item in 0..500u64 {
        seed = seed.wrapping_mul(6364136223846793005).wrapping_add(1442695040888963407);
        queue.push(item, (seed >> 33) % 50);
    }
    assert_eq!(queue.len(), 500);
    let mut last = 0u64;
    let mut seen = std::collections::HashSet::new();
    while let Some((item, priority)) = queue.pop() {
        assert!(priority >= last);
        assert!(seen.insert(item));
        last = priority;
    }
    assert_eq!(seen.len(), 500);
    assert!(queue.is_empty());
}

#[test]
fn equal_priorities_leave_in_the_order_of_pushes() {
    let mut queue = RawCPQ::new();
    for item in 0..20u64 {
        queue.push(item, 4);
    }
    for item in 0..20u64 {
        assert_eq!(queue.pop(), Some((item, 4)));
    }
    assert_eq!(queue.pop(), None);
}

#[test]
fn many_cycles_of_push_and_pop() {
    let mut queue = RawCPQ::new();
    for round in 0..200u64 {
        queue.push(round, round % 7);
        queue.push(round + 1000, round % 3);
        let (_, priority) = queue.pop().unwrap();
        assert!(priority <= round % 7);
        assert_eq!(queue.len(), (round + 1) as usize);
        assert!(queue.get(round + 5000).is_none());
    }
    let drained = queue.drain(1000);
    assert_eq!(drained.len(), 200);
    for window in drained.windows(2) {
        assert!(window[0].1 <= window[1].1);
    }
}

#[test]
fn extreme_items_and_priorities() {
    let mut queue = RawCPQ::new();
    queue.push(u64::MAX, u64::MAX);
    queue.push(0, 0);
    queue.push(u64::MAX - 1, 0);
    assert_eq!(queue.get(u64::MAX).unwrap().priority(), u64::MAX);
    assert_eq!(queue.pop(), Some((0, 0)));
    assert_eq!(queue.pop(), Some((u64::MAX - 1, 0)));
    assert_eq!(queue.pop(), Some((u64::MAX, u64::MAX)));
}

#[test]
fn clear_empties_the_queue() {
    let mut queue = sample();
    queue.clear();
    assert!(queue.is_empty());
    assert_eq!(queue.pop(), None);
    assert!(queue.get(1).is_none());
    queue.push(1, 3);
    assert_eq!(queue.pop(), Some((1, 3)));
}

#[test]
fn hash_of_an_item_is_stable() {
    assert_eq!(cpq::raw::hash_item(5), cpq::raw::hash_item(5));
    assert_eq!(cpq::raw::hash_item(u64::MAX), cpq::raw::hash_item(u64::MAX));
}

fn walked(queue: &RawCPQ) -> Vec<(u64, u64)> {
    let mut pairs = Vec::new();
    let mut walk = queue.iter();
    while let Some(entry) = walk.next() {
        pairs.push((entry.item(), entry.priority()));
    }
    pairs
}

#[test]
fn walk_visits_the_pairs_in_the_order_of_pops() {
    let mut queue = sample();
    assert_eq!(walked(&queue), vec![(1, 0), (2, 2), (4, 2), (3, 7)]);
    assert_eq!(queue.len(), 4);
    assert_eq!(queue.pop(), Some((1, 0)));
    queue.push(2, 8);
    assert_eq!(walked(&queue), vec![(4, 2), (3, 7), (2, 8)]);
}

#[test]
fn walk_through_an_empty_queue_ends_at_once() {
    let queue = RawCPQ::new();
    let mut walk = queue.iter();
    assert!(walk.next().is_none());
    assert!(walk.next().is_none());
}
