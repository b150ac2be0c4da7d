//! Content-addressed grouping of files across directory trees, and the set
//! algebra that reports unique, duplicated and newly introduced content.
pub mod lex;
pub mod hashing;
pub mod guard;
pub mod aggregate;
pub mod report;
pub mod rolling;
pub mod laws;
