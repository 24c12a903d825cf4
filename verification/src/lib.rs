//! Reference counting for a region-based collector: the field-logging write
//! barrier, the packets of increments and decrements, and the diagnostics that
//! watch over them.

pub mod args;
pub mod barrier;
pub mod decrements;
pub mod decs;
pub mod evacuate;
pub mod inc_work;
pub mod increments;
pub mod incs;
pub mod laws;
pub mod logging;
pub mod object;
pub mod packets;
pub mod parse;
pub mod plan;
pub mod progress;
pub mod queue;
pub mod referrers;
pub mod release;
pub mod roots;
pub mod state;
pub mod stats;
pub mod table;
pub mod text;
pub mod trace;
pub mod validity;
