//! Errors of the caches.
use vstd::prelude::*;

verus! {

/// Why a cache could not be created.
#[derive(Debug, Clone, Copy, PartialEq, Eq, Structural)]
pub enum CacheError {
    /// The capacity was zero: such a cache could hold nothing.
    Construction,
    /// The snapshot text renders no state that a cache of the requested
    /// capacity can hold.
    PersistenceRead,
}

} // verus!
