//! The one reading of the wall clock that mining needs.

use vstd::prelude::*;

verus! {

/// Relies on std::time::SystemTime: the milliseconds since the Unix
/// epoch, or `None` when the clock reads before the epoch. Nothing is
/// promised of the value: it depends on the wall clock.
#[verifier::external_body]
pub fn now_millis() -> (r: Option<u128>)
{
    match std::time::SystemTime::now().duration_since(std::time::SystemTime::UNIX_EPOCH) {
        Ok(d) => Some(d.as_millis()),
        Err(_) => None,
    }
}

} // verus!
