//! Finite automata with verified construction and simulation.
//!
//! A deterministic automaton ([`dfa::DFA`]) and a nondeterministic one with
//! silent moves ([`nfa::NFA`]) are each built once from a raw description,
//! which is validated in a fixed order, and are read-only afterwards.
pub mod closure;
pub mod dfa;
pub mod nfa;
pub mod pairs;
pub mod sets;
pub mod table;
