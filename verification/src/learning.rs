//! Recorded experience: moments, and the memory that finds them again by resonance.

pub mod moment;
pub mod resonance;

pub use moment::{Moment, MomentType, Qualia};
pub use resonance::{
    find_sweet_spot, ResonanceCapture, ResonanceEntry, ResonanceStats, SimilarMoment,
};
