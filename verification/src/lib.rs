//! A MapReduce coordination library: a verified task scheduler that hands out
//! map and reduce tasks, records completions, enforces the map-to-reduce
//! phase barrier, and reclaims tasks whose completion never arrives.

pub mod lines;
pub mod master;
pub mod sequential;
pub mod task;
pub mod wordcount;

pub use task::Task;
pub use task::TaskContext;
pub use task::TaskId;
pub use task::TaskKind;
pub use task::TaskResult;
pub use task::UniqueId;
