//! An array-backed binary heap whose ordering is chosen at construction
//! (smallest-first or largest-first), with contracts proved by Verus.
pub mod heap;
pub mod order;

pub use heap::{Heap, MaxHeap, MinHeap};
pub use order::{Comparator, Decided, HeapOrder};
