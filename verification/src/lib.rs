use vstd::prelude::*;

pub mod config;
pub mod cursor;
pub mod diff;
pub mod executor;
pub mod gaps;
pub mod interval;
pub mod merge;
pub mod paginate;
pub mod throttle;
pub mod paths;
pub mod record;
pub mod sync;
pub mod tree;

verus! {

/// The failure taxonomy of the synchronizer.  Transport failures and
/// rate-limit responses are retryable; a decode failure aborts the current
/// dataset's pass; `RequestFailed` marks an exhausted retry budget; a
/// persistence failure is surfaced to the caller.
#[derive(Clone, Copy, PartialEq, Eq, Debug)]
pub enum SyncError {
    TransportError,
    RateLimited,
    DecodeError,
    RequestFailed,
    PersistenceError,
}

impl SyncError {
    /// A short description, usable in log lines.
    pub fn describe(&self) -> (r: &'static str)
        ensures
            r@ == match *self {
                SyncError::TransportError => "transport error"@,
                SyncError::RateLimited => "rate limit reached"@,
                SyncError::DecodeError => "decode failed"@,
                SyncError::RequestFailed => "request failed"@,
                SyncError::PersistenceError => "persistence failed"@,
            },
    {
        match self {
            SyncError::TransportError => "transport error",
            SyncError::RateLimited => "rate limit reached",
            SyncError::DecodeError => "decode failed",
            SyncError::RequestFailed => "request failed",
            SyncError::PersistenceError => "persistence failed",
        }
    }
}

} // verus!
