//! A verified codec for textual DFA transition tables.
//!
//! The library converts between the textual form of a deterministic finite
//! automaton's transition table and a structured in-memory form, validating
//! strictly in both directions.  Parsing and serialization are pure functions
//! whose behaviour is pinned down by specifications, and the round-trip laws
//! relating them are proved in [`laws`].

pub mod laws;
pub mod numeral;
pub mod sorting;
pub mod text;
pub mod transition_table;
