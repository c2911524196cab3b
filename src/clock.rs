use vstd::prelude::*;

verus! {

/// Relies on `std::time::SystemTime::elapsed` (through `UNIX_EPOCH`): the wall
/// clock in milliseconds since the Unix epoch, or 0 if the clock is set before
/// it. Nothing is promised of the value, not even that it grows.
#[verifier::external_body]
pub fn now_ms() -> (r: u64) {
    match std::time::UNIX_EPOCH.elapsed() {
        Ok(d) => d.as_millis() as u64,
        Err(_) => 0,
    }
}

} // verus!
