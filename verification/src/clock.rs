//! The wall clock.

use std::time::{SystemTime, UNIX_EPOCH};
use vstd::prelude::*;

verus! {

/// `SystemTime::now` and `SystemTime::duration_since`: the milliseconds
/// since the epoch, as the machine's clock has them at the time of the
/// call. A clock that stands before the epoch reads as zero. Nothing is
/// promised of the value.
#[verifier::external_body]
pub(crate) fn current_time_ms() -> u64 {
    match SystemTime::now().duration_since(UNIX_EPOCH) {
        Ok(elapsed) => elapsed.as_millis() as u64,
        Err(_) => 0,
    }
}

} // verus!
