//! Mastermind: scoring of guesses against a hidden pattern of four pegs in
//! six colours, and a codebreaker that finds the hidden pattern with Knuth's
//! minimax algorithm.
use vstd::prelude::*;

pub mod gameplay;
pub mod pattern;
pub mod scoring;
pub mod solver;

verus! {

} // verus!
