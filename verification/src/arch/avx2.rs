//! The composition kernel with two 16-lane slices to a 256-bit register: a wider
//! register buys more slices of the same sixteen-block machine, not a bigger one.

use vstd::prelude::*;

use crate::lattice::Quotient;
use crate::shuffle::{sweep_shuffle, CHUNK};

verus! {

/// Composition chains advanced in lockstep: twice the 128-bit kernel's, because each
/// register now holds two independent 16-lane functions rather than one.
pub const WAYS: usize = crate::shuffle::WAYS * 2;

/// Bytes each chain walks per full chunk: half the 128-bit kernel's, since twice as
/// many slices tile the same chunk.
pub const STRIDE: usize = CHUNK / WAYS;

/// The composition kernel, two slices to a register.
pub fn refutes(q: &Quotient, hay: &[u8]) -> (r: bool)
    requires
        q.in_register(),
    ensures
        r == q.refutes_spec(hay@),
{
    sweep_shuffle(q, hay, WAYS)
}

} // verus!
