//! What holds of the collector as a whole.

pub mod arming;
pub mod barrier;
pub mod bulk;
pub mod coalescing;
pub mod copying;
pub mod counting;
pub mod deaths;
pub mod decay;
pub mod decrements;
pub mod diagnostics;
pub mod evacuation;
pub mod firsts;
pub mod increments;
pub mod observation;
pub mod owners;
pub mod parsing;
pub mod reach;
pub mod requests;
pub mod roots;
pub mod sequence;
pub mod spaces;
pub mod survival;
pub mod tracing;
