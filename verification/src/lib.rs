//! Deterministic and non-deterministic finite automata over an alphabet of
//! named symbols, with a verified decision procedure for the language
//! equivalence of two deterministic automata.

pub mod dfa;
pub mod names;
pub mod nfa;
pub mod parser;
pub mod query;
pub mod search;
pub mod table;
