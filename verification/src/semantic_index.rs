//! Rebuildable semantic cue index over a committed memory.

pub mod cue_laws;
pub mod cues;
pub mod error;
pub mod format;
pub mod index;
pub mod laws;
pub mod model;
pub mod postings;
pub mod synchronize;
