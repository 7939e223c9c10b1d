//! Generic collections — a singly-linked list, a two-ended queue, and a
//! leftist-heap priority queue — built on a shared ownership cell with
//! functional (copy-on-write) semantics.

pub mod cap;
pub mod deque;
pub mod heap;
pub mod laws;
pub mod list;
pub mod spinelist;
