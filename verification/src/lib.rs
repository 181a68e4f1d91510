//! Overlapping multi-pattern counting over byte strings.
//!
//! A dictionary of byte patterns is compiled once into an Aho–Corasick
//! automaton: a trie with failure links ([`nfa`]), turned into one flat,
//! premultiplied transition table ([`dfa`]). The searcher ([`ahocorasick`])
//! reports every occurrence of every pattern in a text, overlapping ones
//! included, and counts them for each entry of the dictionary. A text may be
//! cut into line-aligned chunks ([`chunks`]) that are counted one by one, and a
//! table of words with their counters is filled from such chunks
//! ([`process`]). What the contracts say is stated over the mathematical
//! model in [`model`].

pub mod ahocorasick;
pub mod automaton;
pub mod chunks;
pub mod dfa;
pub mod model;
pub mod nfa;
pub mod process;
pub mod state_id;

pub use crate::ahocorasick::{AhoCorasick, FindIter};
pub use crate::automaton::{Automaton, Match};
