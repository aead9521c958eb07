//! Classic linear data structures with machine-checked contracts.
//!
//! - [`linkedlist::LinkedList`], a singly linked list, which doubles as a
//!   LIFO [`linkedlist::Stack`].
//! - [`queues::priority_queue::PriorityQueue`], a queue that hands its items
//!   out in ascending order.
//! - [`queues::queue::Queue`], a FIFO queue on a ring buffer that doubles its
//!   capacity when it runs full.
//!
//! Every structure is modelled by the sequence of the items it holds, front
//! first; each operation states what it does to that sequence.

pub mod linkedlist;
pub mod model;
pub mod queues;
