//! A deterministic, streaming guardrail engine for text streams.
//!
//! Text is fed chunk by chunk. Each chunk is shown to a list of stateful
//! rules, and the engine answers with one forward-only [`Decision`]: let the
//! chunk pass, block the stream, or emit a replacement text instead.
//!
//! All matching is done on bytes. A rule keeps only a bounded carry buffer
//! between chunks, so a pattern split over a chunk boundary is still found.
//!
//! The functions of this crate are verified against their contracts. The
//! contracts are stated over plain mathematical models: byte sequences, the
//! view of a [`Decision`], and the model of each rule and of the engine. One
//! step is taken on trust: turning the bytes of a rewritten text into a
//! `String`, which the standard library does.

pub mod rules;
pub mod text;

mod decision;
mod engine;

pub use crate::decision::{Decision, Rule, ScoredDecision, Verdict};
pub use crate::engine::{
    ChunkTally, EngineState, GuardEngine, Outcome, RewriteMode, Tally, DECAY_ONE,
};
