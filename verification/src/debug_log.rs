//! Structured advisory notifications: track-level pass/reject/skip
//! decisions and batch progress, emitted as a side channel that never
//! affects control flow.

use vstd::prelude::*;

verus! {

/// The kind of a debug notification.
#[derive(Clone, Debug)]
pub enum LogType {
    Info,
    Search,
    Passed,
    Rejected,
    Skipped,
    Found,
    Error,
    Comparison,
}

/// One structured debug message with an optional detail line and the local
/// time it was created.
#[derive(Clone, Debug)]
pub struct DebugLog {
    pub log_type: LogType,
    pub message: String,
    pub details: Option<String>,
    pub timestamp: String,
}

/// Relies on chrono::Local::now and its formatting: the local wall-clock
/// time as hours, minutes, seconds and milliseconds. Nothing further can
/// be promised of the clock.
#[verifier::external_body]
fn local_time_hms_millis() -> (r: String)
{
    chrono::Local::now().format("%H:%M:%S%.3f").to_string()
}

impl DebugLog {
    /// A new message of the given kind, stamped with the local time.
    pub fn new(log_type: LogType, message: String) -> (r: DebugLog)
        ensures
            r.log_type == log_type,
            r.message@ == message@,
            r.details is None,
    {
        DebugLog { log_type, message, details: None, timestamp: local_time_hms_millis() }
    }

    /// The same message with a detail line attached.
    pub fn with_details(self, details: String) -> (r: DebugLog)
        ensures
            r.log_type == self.log_type,
            r.message@ == self.message@,
            r.details matches Some(d) && d@ == details@,
            r.timestamp@ == self.timestamp@,
    {
        DebugLog { details: Some(details), ..self }
    }
}

} // verus!
