//! A library for building and executing finite-state automata over a
//! countable, totally ordered alphabet of symbols.
//!
//! Regular patterns are compiled into a nondeterministic automaton whose
//! transitions are labelled with inclusive symbol ranges; overlapping range
//! labels are split apart, and a subset construction then produces a
//! deterministic automaton.  A matcher executes the deterministic automaton
//! against a symbol source with longest-match semantics, and a tokenizer
//! drives the matcher repeatedly to annotate an input stream with tokens.

pub mod annotated_stream;
pub mod countable;
pub mod dfa_compiler;
pub mod matches;
pub mod ndfa;
pub mod overlapping_symbols;
pub mod pattern_matcher;
pub mod prepare;
pub mod regular_pattern;
pub mod state_machine;
pub mod symbol_range;
pub mod symbol_range_dfa;
pub mod symbol_reader;
pub mod tokenizer;
