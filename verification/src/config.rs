//! Compile-time capacities of the two caches.

use vstd::prelude::*;

verus! {

/// Number of slots in the metadata sector cache.
pub const INFOSEC_CACHE_SZ: usize = 4;

/// Number of slots in the data cluster cache.
pub const DATACLU_CACHE_SZ: usize = 2;

/// Largest supported sector size in bytes.
pub const MAX_SEC_SZ: usize = 4096;

/// Largest supported cluster size in bytes.
pub const MAX_CLUS_SZ: usize = 32768;

} // verus!
