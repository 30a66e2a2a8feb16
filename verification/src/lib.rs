//! A Fibonacci heap: a priority queue with cheap insertion and cheap lowering of keys.
//!
//! [`FibHeap`] owns a forest of trees in heap order. Its view is a [`model::HeapModel`]:
//! the trees, the place of the cached minimum and the count. Every operation that
//! changes the heap says what it makes of that model, exactly (`insert`, `lower`, `pop`),
//! and what that means for the entries as a multiset (`decreased`, `popped`).
//!
//! - `order`: the order on keys and the equality on items that the heap relies on.
//! - `model`: the trees and the forest as mathematical values, and the operations on them.
//! - `forest`, `cut`, `buckets`, `rank`: what holds of entries and searches, of the
//!   cascading cut, of consolidation, and of the ranks.
//! - `heap`: the heap itself.
//! - `laws`: what holds of every well-formed heap and of runs of operations.

pub mod order;
pub mod model;
pub mod forest;
pub mod cut;
pub mod buckets;
pub mod rank;
mod node;
pub mod heap;
pub mod laws;

pub use heap::FibHeap;
