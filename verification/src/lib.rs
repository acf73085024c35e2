//! Derivation of a traditional-to-simplified character table from curated
//! reviews and analogy rules.
//!
//! Reviews are explicit decisions on single characters.  Analogy rules carry a
//! premise and project it onto a family of characters.  The table is derived
//! by scoring the rules, resolving rival proposals for one character,
//! collapsing explicit decisions through the resolved analogies, and appending
//! the winning analogies behind the explicit decisions.
pub mod assemble;
pub mod cells;
pub mod laws;
pub mod mapping;
pub mod parse;
pub mod resolve;
pub mod rule;
pub mod tables;
pub mod text;
