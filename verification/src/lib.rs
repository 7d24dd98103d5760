//! A concurrent ordered-set engine: a sorted singly-linked chain of nodes
//! bounded by two sentinels, where every node carries its own lock and all
//! traversal follows the hand-over-hand (lock-coupling) discipline.
//!
//! The `list` module holds the data structure and the three public
//! operations (`contains`, `insert`, `remove`), all built on a single
//! traversal primitive, `find`. The `deadlock` module proves the ordering
//! argument that makes lock coupling deadlock-free: a thread that only ever
//! waits for locks past the ones it holds can never take part in a wait-for
//! cycle.

pub mod deadlock;
pub mod list;
