//! The time at which records are written.
use vstd::prelude::*;

verus! {

/// `SystemTime::elapsed` of the beginning of 1970: the milliseconds since then. What
/// the clock says is not stated.
#[verifier::external_body]
pub(crate) fn current_timestamp_millis() -> (now: u64) {
    std::time::UNIX_EPOCH.elapsed().unwrap_or_default().as_millis() as u64
}

} // verus!
