//! The command event: one observed shell invocation with its timing and
//! outcome metadata.
//!
//! Timestamps are kept as milliseconds since the Unix epoch and durations as
//! whole milliseconds, so that range comparison, windowing and summation are
//! exact integer operations; converting to and from calendar or fractional
//! representations is the caller's concern.

use vstd::prelude::*;

verus! {

/// The mathematical value of a [`CommandLog`]: every field as a plain
/// sequence or integer.
pub ghost struct EventView {
    pub id: Seq<char>,
    pub timestamp_ms: int,
    pub cwd: Seq<char>,
    pub command: Seq<char>,
    pub exit_code: int,
    pub duration_ms: int,
}

/// One recorded shell invocation.
pub struct CommandLog {
    /// Opaque unique identifier, assigned at capture time.
    pub id: String,
    /// Capture instant, in milliseconds since the Unix epoch.
    pub timestamp_ms: i64,
    /// Absolute path of the working directory at the time of invocation.
    pub cwd: String,
    /// The full invocation text as typed (argv joined by spaces).
    pub command: String,
    /// Exit status of the process; -1 if it could not be determined.
    pub exit_code: i32,
    /// Non-negative wall-clock duration, in whole milliseconds.
    pub duration_ms: u64,
}

impl View for CommandLog {
    type V = EventView;

    open spec fn view(&self) -> EventView {
        EventView {
            id: self.id@,
            timestamp_ms: self.timestamp_ms as int,
            cwd: self.cwd@,
            command: self.command@,
            exit_code: self.exit_code as int,
            duration_ms: self.duration_ms as int,
        }
    }
}

impl DeepView for CommandLog {
    type V = EventView;

    open spec fn deep_view(&self) -> EventView {
        self.view()
    }
}

impl Clone for CommandLog {
    fn clone(&self) -> (r: Self)
        ensures
            r@ == self@,
    {
        CommandLog {
            id: self.id.clone(),
            timestamp_ms: self.timestamp_ms,
            cwd: self.cwd.clone(),
            command: self.command.clone(),
            exit_code: self.exit_code,
            duration_ms: self.duration_ms,
        }
    }
}

} // verus!
