//! An in-process metrics registry with counters and timers, the bookkeeping
//! that instruments request handling, and the encoders and schedules that
//! periodic reporters use to export snapshots.
//!
//! The library holds no clock, socket, lock or thread of its own. Callers
//! pass in the current time in milliseconds, share the registry as they see
//! fit, and carry out the actions that a scheduler hands back: sleeping,
//! writing to a sink, ending a task.
//!
//! - `metric`: counters and timers.
//! - `registry`: the registry that owns them, handles and snapshots.
//! - `middleware`: what is recorded for each handled request.
//! - `config`: the configuration of reporters.
//! - `reporter`: a snapshot as a line for the log and as records for a
//!   time-series store.
//! - `scheduler`: when a reporter flushes, starts and stops.
//! - `text`: numbers and names as text.
//! - `error`: the failures that are told apart.

pub mod config;
pub mod error;
pub mod metric;
pub mod middleware;
pub mod registry;
pub mod reporter;
pub mod scheduler;
pub mod text;
