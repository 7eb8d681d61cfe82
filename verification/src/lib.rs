//! Expression-synthesis search engine: given a sequence of small non-negative
//! integers and a target value, decide whether some binary arithmetic
//! expression over `{+, -, *, /}` that uses each input number exactly once
//! evaluates to the target, and if so reconstruct a readable derivation.
//!
//! Intermediate values are restricted to non-negative integers below a
//! per-engine ceiling, so the search space is finite and every discovered
//! expression can be identified by the pair (value, usage mask).

pub mod laws;
pub mod ops;
pub mod render;
pub mod solver;
