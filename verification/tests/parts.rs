use cpq::bound::above_lower_bound;
use cpq::bound::below_upper_bound;
use cpq::node::Link;
use cpq::node::List;
use cpq::node::Node;
use cpq::Bound;
use cpq::RelaxedCounter;

#[test]
fn counter_returns_the_value_before() {
    let counter = RelaxedCounter::new(5);
    assert_eq!(counter.get(), 5);
    assert_eq!(counter.add(3), 5);
    assert_eq!(counter.get(), 8);
    assert_eq!(counter.sub(2), 8);
    assert_eq!(counter.inc(), 6);
    assert_eq!(counter.dec(), 7);
    assert_eq!(counter.get(), 6);
    assert_eq!(counter.reset(), 6);
    assert_eq!(counter.get(), 0);
}

#[test]
fn counter_wraps() {
    let counter = RelaxedCounter::new(usize::MAX);
    assert_eq!(counter.inc(), usize::MAX);
    assert_eq!(counter.get(), 0);
    assert_eq!(counter.dec(), 0);
    assert_eq!(counter.get(), usize::MAX);
}

#[test]
fn lower_bounds() {
    assert!(above_lower_bound(&Bound::Unbounded, 0));
    assert!(above_lower_bound(&Bound::Included(3), 3));
    assert!(above_lower_bound(&Bound::Included(3), 4));
    assert!(!above_lower_bound(&Bound::Included(3), 2));
    assert!(!above_lower_bound(&Bound::Excluded(3), 3));
    assert!(above_lower_bound(&Bound::Excluded(3), 4));
}

#[test]
fn upper_bounds() {
    assert!(below_upper_bound(&Bound::Unbounded, u64::MAX));
    assert!(below_upper_bound(&Bound::Included(3), 3));
    assert!(below_upper_bound(&Bound::Included(3), 2));
    assert!(!below_upper_bound(&Bound::Included(3), 4));
    assert!(!below_upper_bound(&Bound::Excluded(3), 3));
    assert!(below_upper_bound(&Bound::Excluded(3), 2));
}

#[test]
fn link_is_replaced_only_where_it_is_as_expected() {
    let mut link = Link::to(Some(4));
    let found = link.compare_exchange(Link::to(Some(5)), Link::to(Some(6)));
    assert!(found.is_err());
    assert_eq!(link.target, Some(4));
    let found = link.compare_exchange(Link::to(Some(4)), Link::to(Some(6)));
    assert!(found.is_ok());
    assert_eq!(link.target, Some(6));
    assert!(!link.marked);
}

#[test]
fn marked_link_is_not_the_unmarked_one() {
    let mut link = Link::to(Some(4));
    let before = link.fetch_mark();
    assert!(!before.marked);
    assert!(link.marked);
    assert_eq!(link.target, Some(4));
    let found = link.compare_exchange(Link::to(Some(4)), Link::to(None));
    assert!(found.is_err());
    assert!(link.same(Link::to(Some(4)).with_mark(true)));
    let again = link.fetch_mark();
    assert!(again.marked);
    assert!(link.marked);
}

#[test]
fn null_link_leads_nowhere() {
    let link = Link::null();
    assert_eq!(link.target, None);
    assert!(!link.marked);
    assert!(link.same(Link::to(None)));
    assert!(!link.same(Link::to(Some(0))));
}

#[test]
fn new_node_is_unlinked() {
    let node = Node::new(3, 9, 2);
    assert_eq!((node.item, node.priority, node.refs), (3, 9, 2));
    assert!(node.next(List::Items).same(Link::null()));
    assert!(node.next(List::Priorities).same(Link::null()));
}

#[test]
fn share_count_of_zero_is_final() {
    let mut node = Node::new(3, 9, 1);
    assert!(node.try_increment());
    assert_eq!(node.refs, 2);
    assert!(!node.decrement());
    assert!(node.decrement());
    assert_eq!(node.refs, 0);
    assert!(!node.try_increment());
    assert_eq!(node.refs, 0);
}

#[test]
fn node_is_marked_once() {
    let mut node = Node::new(3, 9, 2);
    assert!(node.mark());
    assert!(node.next_item.marked);
    assert!(node.next_priority.marked);
    assert!(!node.mark());
}

#[test]
fn default_counter_starts_at_zero() {
    let counter = RelaxedCounter::default();
    assert_eq!(counter.get(), 0);
    assert_eq!(counter.inc(), 0);
    assert_eq!(counter.get(), 1);
}
