//! Compiles token-tagged regular expressions into a minimized byte automaton
//! for longest-match scanning.
//!
//! The stages are: [`parser::Parser`] turns pattern text into an [`nfa::Nfa`],
//! [`determinizer::Determinizer`] turns that into a [`dfa::Dfa`] by subset
//! construction, [`minimizer::Minimizer`] merges equivalent states, and
//! [`dfa::Dfa::longest_match`] scans input.
//!
//! [`syntax`] holds the grammar of patterns, [`language`] what an automaton
//! built from a pattern accepts, and [`laws`] what holds between the stages.

pub mod counting;
pub mod determinizer;
pub mod dfa;
pub mod language;
pub mod laws;
pub mod minimizer;
pub mod nfa;
pub mod parser;
pub mod sparse_set;
pub mod syntax;
pub mod vec_set;
