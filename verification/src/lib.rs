//! Exact matching of patterns in sequences of bytes.
//!
//! The heart of the crate is the automaton of Aho and Corasick in
//! `aho_corasick`: it is built once for a list of patterns and then counts
//! the occurrences of all of them in one pass over each sequence. `trie`
//! and `breadth_first` hold its mathematical model, and `theorems` what
//! building and scanning amount to together. Beside it stand the scans for
//! a single pattern (`kmp`, `boyer_moore`, `shift_or`), the scans for a
//! pattern with gaps (`dfa_gap`, `regexp`), the format of the data files
//! (`input`) and the rules of a run (`run`).
//!
//! What a pattern's occurrences in a text are is said once, in
//! `occurrence`.

pub mod aho_corasick;
pub mod boyer_moore;
pub mod breadth_first;
pub mod dfa_gap;
pub mod input;
pub mod kmp;
pub mod occurrence;
pub mod queue;
pub mod regexp;
pub mod run;
pub mod run_mp;
pub mod shift_or;
pub mod symbol_set;
pub mod theorems;
pub mod trie;
