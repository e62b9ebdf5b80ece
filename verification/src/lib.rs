//! Priority queues.
//!
//! [`RawCPQ`] maps unique items to priorities that a later push replaces.
//! It keeps its nodes in two sorted lists, deletes a node by marking it and
//! unlinks it later, and counts the shares that keep a node alive: the
//! protocol of a list that threads share, run here by one owner at a time,
//! through `&mut`. Its contracts are stated over the sequence of pairs in
//! [`model`].
//!
//! [`Queue`] is a [`RawCPQ`] that keeps itself well formed, so that its
//! operations ask nothing of the caller, and [`SharedQueue`] is a [`Queue`]
//! behind a lock, for many threads.
//!
//! [`ConcurrentPriorityQueue`] holds items in buckets by priority behind a
//! lock and is shared between threads. [`RelaxedCounter`] is the counter
//! that it keeps its length in.

pub mod bound;
mod chain;
pub mod counter;
mod lock;
pub mod model;
pub mod node;
pub mod queue;
pub mod raw;
pub mod shared;

pub use bound::Bound;
pub use counter::RelaxedCounter;
pub use queue::Buckets;
pub use queue::ConcurrentPriorityQueue;
pub use raw::Entry;
pub use raw::walk::Iter;
pub use raw::RawCPQ;
pub use raw::RefEntry;
pub use shared::Queue;
pub use shared::SharedQueue;
