//! A discrete-state Markov chain over token n-grams.
//!
//! The library learns transition frequencies between overlapping n-gram
//! states of a token sequence, persists the learned model in a compact
//! binary form, and regenerates token sequences by weighted random walks
//! over the learned transitions.

pub mod codec;
pub mod matrix;
pub mod model;
pub mod sampler;
pub mod text;
pub mod state;
pub mod state_index;
