//! Configuration values shared by the whole library.

use vstd::prelude::*;

verus! {

/// Number of floors served by every elevator of the system.
pub const NUM_FLOORS: usize = 4;

} // verus!
