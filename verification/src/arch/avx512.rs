//! The composition kernel with four 16-lane slices to a 512-bit register.

use vstd::prelude::*;

use crate::lattice::Quotient;
use crate::shuffle::{sweep_shuffle, CHUNK};

verus! {

/// Composition chains advanced in lockstep: four times the 128-bit kernel's, because
/// each register now holds four independent 16-lane functions rather than one.
pub const WAYS: usize = crate::shuffle::WAYS * 4;

/// Bytes each chain walks per full chunk: a quarter of the 128-bit kernel's.
pub const STRIDE: usize = CHUNK / WAYS;

/// The composition kernel, four slices to a register.
pub fn refutes(q: &Quotient, hay: &[u8]) -> (r: bool)
    requires
        q.in_register(),
    ensures
        r == q.refutes_spec(hay@),
{
    sweep_shuffle(q, hay, WAYS)
}

} // verus!
