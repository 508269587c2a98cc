//! LL(1) grammar analysis and predictive parsing.
//!
//! The library computes FIRST and FOLLOW sets as least fixpoints, builds a
//! conflict-checked prediction table and drives a stack-based parse over a
//! token stream. It also holds a character scanner for a small language and
//! an address-range symbol map.

pub mod symbols;
pub mod bits;
pub mod grammar;
pub mod sets;
pub mod table;
pub mod engine;
pub mod laws;
pub mod loader;
pub mod lexer;
pub mod report;
