//! Chess games in PGN reduced export format: a minimal in-memory model
//! (seven mandatory headers and the bare move sequence), a builder that
//! assembles it from a stream of parse events, a deterministic text
//! renderer, and a compressed binary codec with an exact round trip.

pub mod builder;
pub mod codec;
pub mod format;
pub mod parse;
pub mod pgn_data;

use vstd::prelude::*;

verus! {

/// Greatest line width of the wrapped move/result section, in characters.
pub const LINE_WIDTH: usize = 80;

} // verus!
