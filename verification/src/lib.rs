//! Finite automata over characters and the subset construction, which turns
//! a nondeterministic automaton into a deterministic one that accepts the
//! same words.
//!
//! An automaton is built state by state and transition by transition
//! ([`nfa::NFA`], [`dfa::DFA`]); a mutation that names an unknown state is
//! refused with an [`error::AutomatonError`] and changes nothing.
//! [`nfa_to_dfa::convert`] makes the deterministic automaton.
//!
//! Every automaton has a mathematical view ([`nfa::NfaView`],
//! [`dfa::DfaView`]), over which the contracts of the executable operations
//! are stated. [`language`] says which words an automaton accepts,
//! [`subset_construction`] what the subset construction of an automaton is
//! and that it accepts the same words, and [`determinism`] what becomes of an
//! automaton that was deterministic already.

pub mod symbol_map;
pub mod error;
pub mod nfa;
pub mod dfa;
pub mod language;
pub mod subset_construction;
pub mod determinism;
pub mod nfa_to_dfa;
