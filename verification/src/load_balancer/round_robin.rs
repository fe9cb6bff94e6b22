//! Round-robin selection: each call advances to the next server index.

use vstd::prelude::*;

verus! {

/// Index of the server after `current`, wrapping around at `size`.
pub fn get_next_server(size: usize, current: usize) -> (next: usize)
    requires
        size > 0,
        current < usize::MAX,
    ensures
        next == (current + 1) % (size as int),
        next < size,
{
    (current + 1) % size
}

} // verus!
