//! Verified basic data structures and algorithms: a stack, a bounded
//! queue and deque, an exclusively owned node chain with three traversal
//! cursors, and searching and sorting routines over slices.

pub mod basic_data_structures;
pub mod order;
pub mod search;
pub mod sort;
