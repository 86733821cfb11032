//! The names most callers need, in one place.

pub use crate::cognitive::{CollapseDecision, GateState, ThinkingStyle};
pub use crate::fingerprint::Fingerprint;
pub use crate::learning::{Moment, MomentType, Qualia, ResonanceCapture, SimilarMoment};
pub use crate::nars::TruthValue;
