//! Errors of the memtable layer.

use vstd::prelude::*;

verus! {

/// Why the memtable layer turned a request down.
#[derive(Clone, Copy, Debug, PartialEq, Eq, Structural)]
pub enum HummockError {
    /// The batch is empty, is not in ascending key order, or holds a key that
    /// is not a full key of the batch's epoch.
    InvalidBatch,
    /// The user keys of the batch overlap a memtable of the same epoch.
    OverlappingBatch,
}

pub type HummockResult<T> = Result<T, HummockError>;

} // verus!
