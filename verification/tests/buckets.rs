use cpq::Buckets;
use cpq::ConcurrentPriorityQueue;

#[derive(Clone, Copy, PartialEq, Eq, Debug)]
struct Location {
    x: i32,
    y: i32,
    z: i32,
}

impl Location {
    fn new(x: i32, y: i32, z: i32) -> Self {
        Self { x, y, z }
    }
}

#[test]
fn shared_queue_pops_in_order_of_priority() {
    let cpq: ConcurrentPriorityQueue<Location> = ConcurrentPriorityQueue::new();

    let a = Location::new(0, 0, 0);
    let b = Location::new(0, 0, 0);
    let c = Location::new(5, 0, 0);
    let d = Location::new(0, 6, 0);

    cpq.push(a, 0);
    cpq.push(b, 2);
    cpq.push(c, 7);
    cpq.push(d, 2);

    assert_eq!(cpq.pop(), Some(a));
    assert_eq!(cpq.pop(), Some(b));
    assert_eq!(cpq.pop(), Some(d));
    assert_eq!(cpq.pop(), Some(c));
    assert_eq!(cpq.pop(), None);
}

#[test]
fn shared_queue_counts_its_items() {
    let queue: ConcurrentPriorityQueue<u32> = ConcurrentPriorityQueue::new();
    assert!(queue.is_empty());
    assert_eq!(queue.len(), 0);
    queue.push(7, 1);
    queue.push(7, 1);
    queue.push(8, 0);
    assert_eq!(queue.len(), 3);
    assert!(!queue.is_empty());
    assert_eq!(queue.pop(), Some(8));
    assert_eq!(queue.len(), 2);
    assert_eq!(queue.pop(), Some(7));
    assert_eq!(queue.pop(), Some(7));
    assert_eq!(queue.pop(), None);
    assert_eq!(queue.len(), 0);
    assert!(queue.is_empty());
}

#[test]
fn shared_queue_drains_up_to_the_amount() {
    let queue: ConcurrentPriorityQueue<&str> = ConcurrentPriorityQueue::new();
    queue.push("c", 9);
    queue.push("a", 1);
    queue.push("b", 5);
    assert_eq!(queue.drain(2), vec!["a", "b"]);
    assert_eq!(queue.len(), 1);
    assert_eq!(queue.drain(0), Vec::<&str>::new());
    assert_eq!(queue.drain(5), vec!["c"]);
    assert_eq!(queue.drain(5), Vec::<&str>::new());
    assert!(queue.is_empty());
}

#[test]
fn shared_queue_holds_items_that_are_not_copied() {
    let queue: ConcurrentPriorityQueue<String> = ConcurrentPriorityQueue::new();
    queue.push(String::from("late"), u64::MAX);
    queue.push(String::from("early"), 0);
    assert_eq!(queue.pop(), Some(String::from("early")));
    assert_eq!(queue.pop(), Some(String::from("late")));
}

#[test]
fn buckets_keep_the_order_of_pushes_within_a_priority() {
    let mut buckets: Buckets<u32> = Buckets::new();
    assert_eq!(buckets.pop(), None);
    buckets.push(1, 5);
    buckets.push(2, 3);
    buckets.push(3, 5);
    buckets.push(4, 3);
    buckets.push(5, 4);
    assert_eq!(buckets.pop(), Some(2));
    assert_eq!(buckets.pop(), Some(4));
    assert_eq!(buckets.pop(), Some(5));
    assert_eq!(buckets.pop(), Some(1));
    assert_eq!(buckets.pop(), Some(3));
    assert_eq!(buckets.pop(), None);
}

#[test]
fn buckets_that_ran_empty_are_used_again() {
    let mut buckets: Buckets<u32> = Buckets::new();
    buckets.push(1, 5);
    assert_eq!(buckets.pop(), Some(1));
    assert_eq!(buckets.pop(), None);
    buckets.push(2, 7);
    buckets.push(3, 5);
    buckets.push(4, 1);
    assert_eq!(buckets.pop(), Some(4));
    assert_eq!(buckets.pop(), Some(3));
    assert_eq!(buckets.pop(), Some(2));
    assert_eq!(buckets.pop(), None);
}

#[test]
fn buckets_take_the_least_priority_whatever_the_order_of_pushes() {
    let mut buckets: Buckets<u64> = Buckets::new();
    for priority in [9u64, 3, 7, 3, 0, u64::MAX, 7] {
        buckets.push(priority * 10, priority);
    }
    let mut popped = Vec::new();
    while let Some(item) = buckets.pop() {
        popped.push(item);
    }
    assert_eq!(popped, vec![0, 30, 30, 70, 70, 90, u64::MAX.wrapping_mul(10)]);
}
