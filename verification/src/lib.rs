//! The verified core of a fixed-size worker pool.
//!
//! A pool owns two shared queues, one for work and one for results, and one
//! slot per worker. Starting a thread, joining it and every queue operation
//! are the embedding program's: it hands them in as closures, and the
//! contracts say on which queue and on which handle each one is called.
pub mod pool;
pub mod relay;
pub mod run;

pub use pool::{PoolView, ThreadPool, WorkerExit};
pub use relay::{worker_step, worker_turn, WorkerStep};
