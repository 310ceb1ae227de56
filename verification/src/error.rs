//! The failure outcomes that the registry and the store report. Both are
//! expected results under contention, not internal errors.

use vstd::prelude::*;

verus! {

/// Why a registry or store call was refused.
///
/// `NotFound` answers a release of an id that is not held, or a read of a
/// resource with no stored blob. `Unauthorized` answers a state write whose
/// presented lock id is not currently held; the surrounding protocol surfaces
/// it the same way as a lock collision.
#[derive(Clone, Copy, Debug, PartialEq, Eq, Structural)]
pub enum StoreError {
    NotFound,
    Unauthorized,
}

} // verus!
