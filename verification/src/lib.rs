//! Recurring background work inside a process, and its clean shutdown.
//!
//! Jobs are registered on a [`JobSet`]. Each is either a periodic job, which
//! ticks on a [`Schedule`], or one long-running task. The set owns a token that
//! they all share: a shutdown cancels it, waits for the jobs up to a grace
//! period, aborts what is left, and tells in a [`ShutdownReport`] how each job
//! ended.
//!
//! This crate decides; it does not run anything. The driver of a periodic job
//! ([`Driver`]) and a shutdown ([`Shutdown`]) take an event and give the next
//! action, and whoever runs them performs it. There is no floating point in the
//! crate: single-precision numbers are held as their patterns, and the
//! arithmetic on them is done on integers, rounding included
//! ([`jitter`]).

pub mod binary32;
pub mod duration;
pub mod jitter;
pub mod job;
pub mod job_set;
pub mod log;
pub mod rounding;
pub mod schedule;
pub mod token;

pub use duration::Duration;
pub use job::{job_fn, Action, Driver, Event, JobFn};
pub use job_set::{
    JobSet, JoinEvent, Joined, Outcome, Shutdown, ShutdownAction, ShutdownReport, ShutdownStep,
};
pub use log::{LogLine, Message};
pub use schedule::{FirstTick, Schedule};
pub use tokio_util::sync::CancellationToken;
