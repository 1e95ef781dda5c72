//! Errors of the key-value service.

use vstd::prelude::*;

verus! {

#[derive(Debug)]
pub enum IronRingError {
    NodeNotFound(String),
    KeyNotFound(String),
    /// Neither replica confirmed a write.
    QuorumFailed,
    ReplicationFailed(String),
    NotPrimary(String),
    InternalError(String),
}

} // verus!
