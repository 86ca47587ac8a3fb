//! A small shop: a fixed set of capacity-bounded customer queues, a shared
//! stock counter, a load-balancing admission policy, a sorted cross-queue
//! view, and a line-based text format for saving and restoring the state.

pub mod customer;
pub mod digits;
pub mod food_queue;
pub mod lines;
pub mod persist;
pub mod shop;
pub mod sorting;
