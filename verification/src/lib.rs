//! A small regular-expression engine that compiles a textual pattern into an
//! executable recognizer: a pattern string is parsed into a syntax tree, the
//! tree is translated into a Thompson-style NFA, the NFA is flattened into a
//! transition table, epsilon edges are eliminated, and the resulting table is
//! run against input bytes to decide exact match.

pub mod node;
pub mod regex_gen;
pub mod transtable;
pub mod execute_engine;
