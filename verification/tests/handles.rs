use cpq::RawCPQ;
use cpq::RefEntry;

#[test]
fn push_ref_returns_a_share_of_the_new_node() {
    let mut queue = RawCPQ::new();
    let entry = queue.push_ref(7, 3);
    assert_eq!(queue.pair_of(&entry), (7, 3));
    assert_eq!(queue.len(), 1);
    queue.release(entry);
    assert_eq!(queue.pop(), Some((7, 3)));
}

#[test]
fn share_outlives_the_pop_of_its_node() {
    let mut queue = RawCPQ::new();
    let entry = queue.push_ref(7, 3);
    assert_eq!(queue.pop(), Some((7, 3)));
    assert_eq!(queue.pair_of(&entry), (7, 3));
    for item in 100..200u64 {
        queue.push(item, item);
    }
    queue.clear();
    for item in 300..400u64 {
        queue.push(item, 1);
    }
    assert_eq!(queue.pair_of(&entry), (7, 3));
    queue.release(entry);
    assert_eq!(queue.len(), 100);
}

#[test]
fn share_outlives_a_replacing_push() {
    let mut queue = RawCPQ::new();
    let old = queue.push_ref(7, 3);
    let new = queue.push_ref(7, 8);
    assert_eq!(queue.pair_of(&old), (7, 3));
    assert_eq!(queue.pair_of(&new), (7, 8));
    assert_eq!(queue.len(), 1);
    queue.release(old);
    assert_eq!(queue.pop(), Some((7, 8)));
    assert_eq!(queue.pair_of(&new), (7, 8));
    queue.release(new);
}

#[test]
fn get_ref_takes_a_share_of_a_held_item() {
    let mut queue = RawCPQ::new();
    queue.push(1, 4);
    queue.push(2, 2);
    let entry = queue.get_ref(1).unwrap();
    assert_eq!(queue.pair_of(&entry), (1, 4));
    assert!(queue.get_ref(3).is_none());
    assert_eq!(queue.len(), 2);
    queue.release(entry);
}

#[test]
fn peek_ref_takes_a_share_of_the_least() {
    let mut queue = RawCPQ::new();
    assert!(queue.peek_ref().is_none());
    queue.push(1, 4);
    queue.push(2, 2);
    let entry = queue.peek_ref().unwrap();
    assert_eq!(queue.pair_of(&entry), (2, 2));
    assert_eq!(queue.pop(), Some((2, 2)));
    assert_eq!(queue.pair_of(&entry), (2, 2));
    queue.release(entry);
    assert_eq!(queue.pop(), Some((1, 4)));
}

#[test]
fn try_acquire_takes_a_share_of_a_node_that_is_alive() {
    let mut queue = RawCPQ::new();
    let first = queue.push_ref(9, 1);
    let slot = first.index();
    let second = RefEntry::try_acquire(&mut queue, slot).unwrap();
    assert_eq!(second.index(), slot);
    queue.release(first);
    assert_eq!(queue.pop(), Some((9, 1)));
    queue.clear();
    assert_eq!(queue.pair_of(&second), (9, 1));
    queue.release(second);
}

#[test]
fn try_acquire_fails_on_a_node_that_gave_its_last_share_back() {
    let mut queue = RawCPQ::new();
    let entry = queue.push_ref(9, 1);
    let slot = entry.index();
    queue.release(entry);
    assert_eq!(queue.pop(), Some((9, 1)));
    queue.clear();
    assert!(RefEntry::try_acquire(&mut queue, slot).is_none());
    assert!(queue.is_empty());
}

#[test]
fn slot_of_a_destroyed_node_is_used_again() {
    let mut queue = RawCPQ::new();
    let entry = queue.push_ref(9, 1);
    let slot = entry.index();
    queue.release(entry);
    queue.clear();
    let again = queue.push_ref(10, 2);
    assert_eq!(again.index(), slot);
    assert_eq!(queue.pair_of(&again), (10, 2));
    queue.release(again);
}

#[test]
fn get_priority_ref_takes_a_share_of_the_first_of_that_priority() {
    let mut queue = RawCPQ::new();
    queue.push(1, 0);
    queue.push(2, 2);
    queue.push(3, 7);
    queue.push(4, 2);
    let entry = queue.get_priority_ref(2).unwrap();
    assert_eq!(queue.pair_of(&entry), (2, 2));
    assert!(queue.get_priority_ref(5).is_none());
    assert!(queue.get_priority_ref(8).is_none());
    assert_eq!(queue.len(), 4);
    assert_eq!(queue.pop(), Some((1, 0)));
    assert_eq!(queue.pop(), Some((2, 2)));
    let next = queue.get_priority_ref(2).unwrap();
    assert_eq!(queue.pair_of(&next), (4, 2));
    assert_eq!(queue.pair_of(&entry), (2, 2));
    queue.release(entry);
    queue.release(next);
    assert_eq!(queue.drain(4), vec![(4, 2), (3, 7)]);
}

#[test]
fn get_priority_ref_on_an_empty_queue_finds_nothing() {
    let mut queue = RawCPQ::new();
    assert!(queue.get_priority_ref(0).is_none());
    queue.push(1, 5);
    assert_eq!(queue.pop(), Some((1, 5)));
    assert!(queue.get_priority_ref(5).is_none());
}

#[test]
fn get_or_insert_puts_in_an_item_that_is_not_held() {
    let mut queue = RawCPQ::new();
    queue.push(1, 4);
    let entry = queue.get_or_insert(2, 9);
    assert_eq!(queue.pair_of(&entry), (2, 9));
    assert_eq!(queue.len(), 2);
    queue.release(entry);
    assert_eq!(queue.drain(2), vec![(1, 4), (2, 9)]);
}

#[test]
fn get_or_insert_keeps_the_priority_of_an_item_that_is_held() {
    let mut queue = RawCPQ::new();
    queue.push(1, 4);
    queue.push(2, 6);
    let entry = queue.get_or_insert(1, 9);
    assert_eq!(queue.pair_of(&entry), (1, 4));
    assert_eq!(queue.len(), 2);
    assert_eq!(queue.get(1).unwrap().priority(), 4);
    assert_eq!(queue.pop(), Some((1, 4)));
    assert_eq!(queue.pair_of(&entry), (1, 4));
    queue.release(entry);
    let again = queue.get_or_insert(1, 9);
    assert_eq!(queue.pair_of(&again), (1, 9));
    queue.release(again);
    assert_eq!(queue.drain(2), vec![(2, 6), (1, 9)]);
}
