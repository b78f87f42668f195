//! Static cross-reference checker for a compiled-module ecosystem.
//!
//! Compiled module artifacts and per-application dependency descriptors are
//! decoded into an in-memory symbol model (a string interner, a module table,
//! an application table and an application dependency graph); the analyzer
//! then checks every cross-module reference for module existence, function
//! existence and application dependency reachability.

pub mod analyzer;
pub mod beam;
pub mod graph;
pub mod loader;
pub mod types;
