//! The node of the queue and the tagged links that chain nodes into its two
//! lists.

use vstd::prelude::*;

verus! {

/// One of the two lists that every node is chained into.
#[derive(Clone, Copy, Debug)]
pub enum List {
    /// The list in the order of the items' hashes, for lookup by item.
    Items,
    /// The list in the order of the priorities, for taking the least.
    Priorities,
}

/// A link to the next node of a list, together with a deletion mark.
///
/// The mark belongs to the node that holds the link: a marked link says
/// that its holder is logically deleted from the list, though it may still
/// be chained in. Target and mark are read and written together.
#[derive(Clone, Copy, Debug)]
pub struct Link {
    /// The slot of the next node, if there is one.
    pub target: Option<usize>,
    /// Whether the holder of the link is logically deleted.
    pub marked: bool,
}

impl Link {
    /// The link that leads nowhere and carries no mark.
    pub fn null() -> (link: Link)
        ensures
            link == (Link { target: None, marked: false }),
    {
        Link { target: None, marked: false }
    }

    /// An unmarked link to `target`.
    pub fn to(target: Option<usize>) -> (link: Link)
        ensures
            link == (Link { target, marked: false }),
    {
        Link { target, marked: false }
    }

    /// The same target with the mark set as given.
    pub fn with_mark(self, marked: bool) -> (link: Link)
        ensures
            link == (Link { target: self.target, marked }),
    {
        Link { target: self.target, marked }
    }

    /// Whether two links agree in target and mark.
    pub fn same(self, other: Link) -> (equal: bool)
        ensures
            equal == (self == other),
    {
        let targets = match (self.target, other.target) {
            (None, None) => true,
            (Some(a), Some(b)) => a == b,
            _ => false,
        };
        targets && self.marked == other.marked
    }

    /// Replaces the link by `new` if it equals `current`. Returns the link
    /// that was found: as `Ok` where it was replaced, as `Err` where it was
    /// not, and then nothing has changed.
    pub fn compare_exchange(&mut self, current: Link, new: Link) -> (found: Result<Link, Link>)
        ensures
            *old(self) == current ==> found == Ok::<Link, Link>(current) && *final(self) == new,
            *old(self) != current ==> found == Err::<Link, Link>(*old(self)) && *final(self) == *old(
                self,
            ),
    {
        let seen = *self;
        if seen.same(current) {
            *self = new;
            Ok(seen)
        } else {
            Err(seen)
        }
    }

    /// Sets the mark and returns the link as it was before. Setting a mark
    /// that is already set changes nothing.
    pub fn fetch_mark(&mut self) -> (before: Link)
        ensures
            before == *old(self),
            *final(self) == (Link { target: old(self).target, marked: true }),
    {
        let seen = *self;
        self.marked = true;
        seen
    }
}

/// A node: an item with its priority, the number of shares that keep the
/// node alive, and its link in each of the two lists.
///
/// Item and priority never change while the node is alive: a push of the
/// same item with another priority deletes the node and makes a new one.
#[derive(Clone, Copy, Debug)]
pub struct Node {
    /// The item, unique among the live nodes of a queue.
    pub item: u64,
    /// The priority that the item was pushed with.
    pub priority: u64,
    /// The number of shares: one for each list that chains the node in, and
    /// one for each handle that a caller holds. Zero is final.
    pub refs: usize,
    /// The link in the list of items.
    pub next_item: Link,
    /// The link in the list of priorities.
    pub next_priority: Link,
}

impl Node {
    /// The node's link in `list`.
    pub open spec fn link(self, list: List) -> Link {
        match list {
            List::Items => self.next_item,
            List::Priorities => self.next_priority,
        }
    }

    /// The node is logically deleted from at least one list.
    pub open spec fn deleted(self) -> bool {
        self.next_item.marked || self.next_priority.marked
    }

    /// The item with its priority.
    pub open spec fn pair(self) -> (u64, u64) {
        (self.item, self.priority)
    }

    /// A node that is not chained into any list yet.
    pub fn new(item: u64, priority: u64, refs: usize) -> (node: Node)
        ensures
            node == (Node {
                item,
                priority,
                refs,
                next_item: Link { target: None, marked: false },
                next_priority: Link { target: None, marked: false },
            }),
    {
        Node { item, priority, refs, next_item: Link::null(), next_priority: Link::null() }
    }

    /// The node's link in `list`.
    pub fn next(&self, list: List) -> (link: Link)
        ensures
            link == self.link(list),
    {
        match list {
            List::Items => self.next_item,
            List::Priorities => self.next_priority,
        }
    }

    /// Takes one more share of the node, unless its count has reached zero:
    /// such a node is promised to destruction and stays so. Returns whether
    /// the share was taken.
    pub fn try_increment(&mut self) -> (taken: bool)
        requires
            old(self).refs < usize::MAX,
        ensures
            taken == (old(self).refs != 0),
            taken ==> *final(self) == (Node { refs: (old(self).refs + 1) as usize, ..*old(self) }),
            !taken ==> *final(self) == *old(self),
    {
        if self.refs == 0 {
            return false;
        }
        self.refs = self.refs + 1;
        true
    }

    /// Gives one share back. Returns whether it was the last one: whoever
    /// sees `true` has to hand the node over for destruction.
    pub fn decrement(&mut self) -> (last: bool)
        requires
            old(self).refs > 0,
        ensures
            *final(self) == (Node { refs: (old(self).refs - 1) as usize, ..*old(self) }),
            last == (old(self).refs == 1),
    {
        self.refs = self.refs - 1;
        self.refs == 0
    }

    /// Deletes the node logically from both lists, from the list of
    /// priorities first. Returns whether this call was the one that deleted
    /// it: `false` where a mark was already set.
    pub fn mark(&mut self) -> (won: bool)
        ensures
            won == !old(self).deleted(),
            *final(self) == (Node {
                next_item: Link { target: old(self).next_item.target, marked: true },
                next_priority: Link { target: old(self).next_priority.target, marked: true },
                ..*old(self)
            }),
    {
        let priority_link = self.next_priority.fetch_mark();
        let item_link = self.next_item.fetch_mark();
        !(priority_link.marked || item_link.marked)
    }
}

} // verus!
