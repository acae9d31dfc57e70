//! The lines that are logged about a job.

use vstd::prelude::*;

verus! {

/// What a line says.
#[derive(Debug, Clone, Copy, PartialEq, Eq, Structural)]
pub enum Message {
    /// A tick succeeded; at trace level.
    TickOk,
    /// A tick returned an error; at error level, with the error.
    TickFailed,
    /// The loop of a periodic job ended after cancellation; at info level.
    Stopped,
    /// The job was still running when the shutdown grace ran out; at warn
    /// level.
    AbortedAfterGrace,
    /// The job's body panicked; at error level.
    Panicked,
}

/// A line about the job called `job`.
#[derive(Debug, Clone, Copy, PartialEq, Eq)]
pub struct LogLine {
    pub job: &'static str,
    pub message: Message,
}

} // verus!
