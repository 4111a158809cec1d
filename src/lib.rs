//! A singly linked list of `i32` values whose nodes each own the rest of the chain.
//!
//! Every operation takes the list's head handle (`Option<Box<Node>>`) by value or by
//! reference, and its contract is stated over `Node::seq_of`, the sequence of payloads
//! read from head to tail.

pub mod node;
pub mod laws;
pub mod render;
