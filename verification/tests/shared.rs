use cpq::Queue;
use cpq::RawCPQ;
use cpq::SharedQueue;

#[test]
fn queue_pops_in_order_of_priority() {
    let mut queue = Queue::new();
    queue.push(1, 0);
    queue.push(2, 2);
    queue.push(3, 7);
    queue.push(4, 2);
    assert_eq!(queue.len(), 4);
    assert_eq!(queue.peek(), Some((1, 0)));
    assert_eq!(queue.pop(), Some((1, 0)));
    assert_eq!(queue.pop(), Some((2, 2)));
    assert_eq!(queue.pop(), Some((4, 2)));
    assert_eq!(queue.pop(), Some((3, 7)));
    assert_eq!(queue.pop(), None);
    assert_eq!(queue.peek(), None);
    assert!(queue.is_empty());
}

#[test]
fn queue_replaces_the_priority_of_an_item() {
    let mut queue = Queue::with_capacity(4);
    queue.push(5, 9);
    queue.push(6, 1);
    assert_eq!(queue.get(5), Some(9));
    queue.push(5, 0);
    assert_eq!(queue.len(), 2);
    assert_eq!(queue.get(5), Some(0));
    assert_eq!(queue.get(7), None);
    assert_eq!(queue.drain(5), vec![(5, 0), (6, 1)]);
    assert!(queue.is_empty());
}

#[test]
fn queue_keeps_what_a_drain_leaves() {
    let mut queue = Queue::new();
    for item in 0..10u64 {
        queue.push(item, 100 - item);
    }
    assert_eq!(queue.drain(3), vec![(9, 91), (8, 92), (7, 93)]);
    assert_eq!(queue.len(), 7);
    assert_eq!(queue.peek(), Some((6, 94)));
}

#[test]
fn shared_queue_of_unique_items() {
    let queue = SharedQueue::new();
    assert!(queue.is_empty());
    queue.push(1, 0);
    queue.push(2, 2);
    queue.push(3, 7);
    queue.push(4, 2);
    queue.push(3, 1);
    assert_eq!(queue.len(), 4);
    assert_eq!(queue.get(3), Some(1));
    assert_eq!(queue.get(9), None);
    assert_eq!(queue.peek(), Some((1, 0)));
    assert_eq!(queue.pop(), Some((1, 0)));
    assert_eq!(queue.pop(), Some((3, 1)));
    assert_eq!(queue.drain(1), vec![(2, 2)]);
    assert_eq!(queue.pop(), Some((4, 2)));
    assert_eq!(queue.pop(), None);
    assert!(queue.is_empty());
}

#[test]
fn shared_queue_with_capacity_starts_empty() {
    let queue = SharedQueue::with_capacity(16);
    assert_eq!(queue.len(), 0);
    assert_eq!(queue.peek(), None);
    assert_eq!(queue.drain(4), vec![]);
}

#[test]
fn default_queues_are_empty() {
    let mut raw = RawCPQ::default();
    assert!(raw.is_empty());
    assert_eq!(raw.pop(), None);
    let buckets: cpq::ConcurrentPriorityQueue<u8> = Default::default();
    assert!(buckets.is_empty());
    assert_eq!(buckets.pop(), None);
}

fn shared_between_threads<T: Send + Sync>() {}

#[test]
fn shared_queues_can_be_handed_to_other_threads() {
    shared_between_threads::<SharedQueue>();
    shared_between_threads::<cpq::ConcurrentPriorityQueue<u64>>();
    shared_between_threads::<cpq::ConcurrentPriorityQueue<String>>();
    shared_between_threads::<cpq::RelaxedCounter>();
}

#[test]
fn shared_queue_behind_a_shared_pointer() {
    let queue = std::sync::Arc::new(SharedQueue::new());
    let other = queue.clone();
    other.push(3, 1);
    queue.push(4, 0);
    assert_eq!(other.pop(), Some((4, 0)));
    assert_eq!(queue.pop(), Some((3, 1)));
    assert_eq!(queue.pop(), None);
}
