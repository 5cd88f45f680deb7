//! An unbounded set of computations that are polled only after they asked
//! to be, and whose results come out in the order in which they finish.

pub mod futures_unordered;
pub mod ready_to_run_queue;

pub use futures_unordered::{FuturesUnordered, Node, Phase, Step};
pub use ready_to_run_queue::{Dequeue, ReadyToRunQueue, Slot};
