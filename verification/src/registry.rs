//! Service registry: the process-wide cached endpoint for the well-known
//! service.
//!
//! The cell starts unset; the first caller that observes it unset resolves
//! the well-known name and stores the outcome, and later callers reuse the
//! stored handle.  Nothing ever invalidates the cell: a revoked or stale
//! endpoint is only discovered indirectly, through a failed exchange.  The
//! caller serializes access to the cell (the process edge keeps it behind one
//! mutual-exclusion lock).

use crate::ports::PortSystem;
use vstd::prelude::*;

verus! {

/// The process-wide cell holding the last resolved send capability for the
/// well-known service; 0 means "not resolved yet".
pub struct PortCache {
    pub port: u32,
}

impl PortCache {
    /// A cell that no caller has populated yet.
    pub fn new() -> (c: PortCache)
        ensures
            c.port == 0,
    {
        PortCache { port: 0 }
    }
}

/// Resolve the well-known service endpoint through the cell: populate it on
/// first use, reuse it afterwards.  An unresolved name stores and yields the
/// invalid handle 0; no retry happens here.
pub fn cached_resolve(sys: &PortSystem, cache: &mut PortCache) -> (p: u32)
    ensures
        p == final(cache).port,
        old(cache).port != 0 ==> final(cache).port == old(cache).port,
        old(cache).port == 0 ==> final(cache).port == sys.registered,
{
    if cache.port == 0 {
        cache.port = sys.lookup();
    }
    cache.port
}

} // verus!
