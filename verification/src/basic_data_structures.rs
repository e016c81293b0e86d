//! The basic data structures: stack, queue, deque and the owned node
//! chain with its cursors.

pub mod deque;
pub mod node_chain;
pub mod queue;
pub mod stack;
