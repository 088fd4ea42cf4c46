//! A grammar-guided, coverage-driven fuzzing library.
//!
//! Grammars (`rule`, `format`, `context`) are turned into size tables
//! (`counts`) from which derivation trees (`tree`) are sampled (`generate`,
//! `dumb`). Trees are mutated (`mutator`, `afl`, `chunkstore`), and the
//! inputs that reach new coverage are kept in a queue (`queue`, `fuzzer`).
pub mod afl;
pub mod chunkstore;
pub mod context;
pub mod counts;
pub mod dumb;
pub mod format;
pub mod fuzzer;
pub mod generate;
pub mod mutator;
pub mod newtypes;
pub mod queue;
pub mod random;
pub mod rule;
pub mod shared_state;
pub mod size_laws;
pub mod tree;
