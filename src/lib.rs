//! Orchestration core of a Rust-to-Lean transpiler: name mangling, the
//! configuration policy, the dependency graph and the worklist engine that
//! drives translation to the transitive closure of a root definition.

pub mod deps;
pub mod engine;
pub mod mangle;
pub mod policy;
