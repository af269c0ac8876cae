//! The rules that come with the engine.

pub mod chunking;
pub mod detect;
pub mod pattern;
pub mod redact;
pub mod sequence;

pub use pattern::{PatternConfig, PatternPreset, PatternRule};
pub use sequence::{ForbiddenSequenceRule, SequenceConfig};
