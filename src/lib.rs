//! Random access to a step-by-step simulation.
//!
//! A [`timeline::Timeline`] answers "what does memory hold at frame F" for
//! any frame, replaying the simulation from the nearest cached frame, while
//! the past can be edited: an edit log keyed by frame, with frames that can
//! be inserted and deleted. A [`pipeline::PyPipeline`] resolves named,
//! qualified variables against it and reads and writes typed values.
//!
//! - `edit_log`: edits keyed by frame, with shifting insert and delete.
//! - `simulation`: the step function and the replay of frames.
//! - `timeline`: the slot cache, its invalidation, and the balancer.
//! - `variable`: qualified references to fields.
//! - `pipeline`: field resolution and typed reads and writes.

pub mod edit_log;
pub mod pipeline;
pub mod simulation;
pub mod timeline;
pub mod variable;
