//! Which memory regime a scan reads its bytes from.

use vstd::prelude::*;

verus! {

/// Where the bytes about to be searched are coming from.
///
/// Same pattern, same machine, same coefficients: the engine's accelerated path moves
/// with residency because its excursion re-enters a dense DFA whose table misses cache
/// in one regime and hits it in the other, while the sieve's own cost barely moves.
#[derive(Debug, Clone, Copy, PartialEq, Eq, Structural)]
pub enum Residency {
    /// The bytes are already in cache when the scan reaches them.
    Cache,
    /// The bytes are being read from main memory: a corpus larger than last-level cache,
    /// traversed once.
    Memory,
}

/// How many regimes a regime-indexed coefficient carries: the variant count of
/// [`Residency`].
pub const REGIMES: usize = 2;

/// The volume above which one pass over a corpus is reading from main memory rather than
/// from cache: eight mebibytes, past the last-level cache of every machine measured.
pub const RESIDENT_ABOVE: usize = 8 << 20;

impl Residency {
    /// The regime's column in a regime-indexed coefficient.
    pub fn index(self) -> (r: usize)
        ensures
            r < REGIMES,
            r == (if self == Residency::Cache {
                0usize
            } else {
                1usize
            }),
    {
        match self {
            Residency::Cache => 0,
            Residency::Memory => 1,
        }
    }

    /// Every regime, in coefficient-index order.
    pub fn all() -> (r: [Residency; 2])
        ensures
            r[0] == Residency::Cache,
            r[1] == Residency::Memory,
    {
        [Residency::Cache, Residency::Memory]
    }

    /// Which regime a single pass over `bytes` of haystack runs in: main memory past
    /// [`RESIDENT_ABOVE`], cache otherwise.
    ///
    /// Wrong in the unsafe direction for a working set that is re-scanned rather than
    /// traversed once, and on a machine whose last-level cache exceeds the bound; a
    /// caller in either situation should state [`Residency::Cache`] outright.
    pub fn of_working_set(bytes: usize) -> (r: Residency)
        ensures
            r == (if bytes > RESIDENT_ABOVE {
                Residency::Memory
            } else {
                Residency::Cache
            }),
    {
        if bytes > RESIDENT_ABOVE {
            Residency::Memory
        } else {
            Residency::Cache
        }
    }
}

} // verus!
