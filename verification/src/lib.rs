//! A matcher for robots-exclusion path rules.
//!
//! A list of allow/disallow patterns is compiled once into a deterministic
//! automaton; the automaton then decides any path in time proportional to the
//! path's length, however many rules it was built from.
//!
//! [`Cylon::compile`] builds the automaton and [`Cylon::allow`] runs it.
//! Their contracts are stated over the mathematical model in [`automaton`]
//! and the description of a compiled table in [`trie`]. What follows from
//! those contracts for the users of the library is proved in
//! [`longest_match`] and [`uniqueness`].

pub mod automaton;
mod compile;
pub mod dfa;
pub mod longest_match;
pub mod order;
pub mod rule;
pub mod trie;
pub mod uniqueness;

pub use automaton::{Automaton, Edge, State, Transition};
pub use dfa::Cylon;
pub use rule::Rule;
