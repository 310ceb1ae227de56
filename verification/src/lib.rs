//! An in-memory coordination core for a remote state backend: a registry of
//! exclusive lock records keyed by lock id, a store of serialized state blobs
//! keyed by resource name, and the rule that a state write is accepted only
//! while a lock with the presented id is currently held.

pub mod backend;
pub mod error;
pub mod laws;
pub mod lock;
pub mod state;
