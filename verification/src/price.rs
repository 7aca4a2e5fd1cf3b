//! The parts of pricing that are arithmetic on integers and strings: which memory regime
//! a working set runs in, what a measurement sample has to be before its timings mean
//! anything, and which machines a dormant-kernel entry speaks for. The coefficients
//! themselves, and the inequality they feed, are floating point and live with the
//! caller.

pub mod calibration;
pub mod measure;
pub mod minted;

pub use calibration::{Residency, REGIMES, RESIDENT_ABOVE};
pub use measure::{Bench, Unmeasurable, MEASURABLE_ABOVE, ROUNDS};
pub use minted::Dormant;
