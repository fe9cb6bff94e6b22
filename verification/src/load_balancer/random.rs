//! Clock-seeded selection: an upstream index derived from the current time.

use vstd::prelude::*;

verus! {

/// Relies on std::time::SystemTime::now, with Duration::as_micros converting
/// its result: microseconds since the Unix epoch, or zero if the clock reads
/// earlier than the epoch.  Nothing is assumed of the value.
#[verifier::external_body]
pub(crate) fn now_micros() -> u128 {
    match std::time::SystemTime::now().duration_since(std::time::UNIX_EPOCH) {
        Ok(d) => d.as_micros(),
        Err(_) => 0,
    }
}

/// Picks an upstream index from the clock: the microsecond timestamp modulo
/// `size`.  `current` is unused; the signature matches the round-robin
/// variant so the two are interchangeable.
pub fn get_next_server(size: usize, _current: usize) -> (next: usize)
    requires
        size > 0,
    ensures
        next < size,
{
    let now = now_micros();
    let m = now % (size as u128);
    proof {
        assert(m < size as u128);
    }
    m as usize
}

} // verus!
