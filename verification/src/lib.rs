//! Fleet command orchestration: which checks apply to which nodes, in what
//! order they may run, how attempts are retried, and what the run amounts to.

pub mod backoff;
pub mod count;
pub mod engine;
pub mod graph;
pub mod laws;
pub mod model;
pub mod order;
pub mod report;
pub mod scheduler;
pub mod status;
