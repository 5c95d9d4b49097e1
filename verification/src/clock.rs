//! The time of day.
use vstd::prelude::*;

verus! {

/// `std::time::SystemTime::now`, in milliseconds since the Unix epoch; nothing where the clock
/// stands before it. Nothing is promised of what it shows.
#[verifier::external_body]
fn clock() -> (t: Option<u128>) {
    match std::time::SystemTime::now().duration_since(std::time::UNIX_EPOCH) {
        Ok(d) => Some(d.as_millis()),
        Err(_) => None,
    }
}

/// A reading of the clock as a time of the records.
pub open spec fn shown(t: Option<u128>) -> u64 {
    match t {
        Some(ms) => ms as u64,
        None => 0,
    }
}

/// A reading of the clock as a time of the records: the low 64 bits, and 0 before the epoch.
pub fn reading(t: Option<u128>) -> (ms: u64)
    ensures
        ms == shown(t),
{
    match t {
        Some(ms) => ms as u64,
        None => 0,
    }
}

/// The current time in milliseconds since the Unix epoch.
pub fn now_ms() -> (ms: u64)
    ensures
        exists|t: Option<u128>| ms == #[trigger] shown(t),
{
    reading(clock())
}

} // verus!
