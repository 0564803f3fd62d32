//! Shuffled runs through a list of characters.
//!
//! `shuffle` turns a length and a 32-bit seed into a reproducible permutation
//! of positions. `run_state` is the state of one run and its transitions, each
//! with an exact contract. `shared` keeps the one current run behind a lock
//! and offers the operations that a front end calls.
pub mod run_state;
pub mod shared;
pub mod shuffle;
