//! The two keyed containers that one running backend owns, created together
//! and handed by shared reference to the request-handling layer.

use vstd::prelude::*;

use crate::lock::{LockRecord, LockRegistry};
use crate::state::{StateBlob, StateStore};

verus! {

/// One backend instance: the lock registry and the state store. The two
/// keyspaces are independent; the surrounding server may guard each with its
/// own exclusion mechanism so that lock traffic and state traffic do not
/// serialize behind one another.
pub struct StateBackend {
    pub locks: LockRegistry,
    pub states: StateStore,
}

impl StateBackend {
    /// A backend holding no locks and no state at all.
    pub fn new() -> (r: Self)
        ensures
            r.locks.wf(),
            r.states.wf(),
            r.locks@ == Map::<Seq<char>, LockRecord>::empty(),
            r.states@ == Map::<Seq<char>, StateBlob>::empty(),
    {
        StateBackend { locks: LockRegistry::new(), states: StateStore::new() }
    }
}

} // verus!
