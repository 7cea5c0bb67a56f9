//! Hotword-boosted CTC prefix beam search: the verified discrete core.
//!
//! The search keeps, per frame, a set of beam prefixes. This crate states and
//! proves how a prefix grows by one class (CTC collapse of blanks and repeats,
//! BPE word boundaries, hotword counting), how one frame's expansions merge,
//! which classes a frame offers, the hotword vocabulary and its partial-word
//! credit, and the hotwords that a first-pass transcript yields. Scores are
//! log-probabilities; the floating-point arithmetic on them is left to the
//! caller.

pub mod decoder;
pub mod hotwords;
pub mod rescore;
pub mod text;

pub use decoder::{CtcBeamDecoder, FrameExpansion, Prefix};
pub use hotwords::Hotwords;

use vstd::prelude::*;

verus! {

/// Beam width used when a caller gives none.
pub fn default_beam() -> (r: usize)
    ensures
        r == 100,
{
    100
}

} // verus!
