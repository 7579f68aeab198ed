//! Sequential cores of a set of thread-coordination structures.
//!
//! Each structure here is the state that a concurrent wrapper keeps behind
//! one lock, together with the decisions taken while that lock is held.
//! A wrapper performs the blocking (waiting on a condition variable, sleeping,
//! exchanging messages) and asks these types what to do next.

pub mod execution_limiter;
pub mod ranking_barrier;
pub mod cache;
pub mod mpmc_channel;
pub mod delayed_queue;
pub mod dispatcher;
pub mod looper;
