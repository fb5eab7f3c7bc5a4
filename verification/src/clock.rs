//! Local wall-clock time, held as plain values and carried through the library unread.

use chrono::Local;
use vstd::prelude::*;

verus! {

/// An instant, as whole seconds since the Unix epoch and the nanoseconds past that
/// second; the local date and time of `chrono::DateTime<Local>` follow from it.
#[derive(Clone, Copy, Debug, PartialEq, Eq, Hash)]
pub struct Timestamp {
    pub secs: i64,
    pub subsec_nanos: u32,
}

/// `chrono::Local::now`, as seconds and nanoseconds since the epoch.  Nothing is
/// claimed of the result, which depends on the clock.
#[verifier::external_body]
pub(crate) fn local_now() -> (r: Timestamp) {
    let now = Local::now();
    Timestamp { secs: now.timestamp(), subsec_nanos: now.timestamp_subsec_nanos() }
}

} // verus!
