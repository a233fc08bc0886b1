//! A dice-notation evaluator: parse expressions such as `3d6`, `d20` or
//! `4dF`, roll the dice they describe, and render and sum the results.
//!
//! Expressions split on the letter `d`; a quantity before it says how
//! many dice, the kind after it names the die: a decimal face count, or
//! `F` for a fate die with faces -1, 0 and 1. No expression is ever
//! rejected: anything malformed falls back to a single six-sided die.

pub mod dice;
pub mod laws;
pub mod notation;
mod rng;
mod text;
