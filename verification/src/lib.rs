//! Finds unused members ("orphans") of a multi-package source tree.
//!
//! Given a set of named compilation units, their declared inter-unit
//! dependencies, and a list of entrypoint units, the library builds a
//! directed dependency graph, marks every unit transitively required by
//! at least one entrypoint, and reports the remaining units as orphans.

pub mod entrypoints;
pub mod graph;
pub mod order;
pub mod units;

pub use entrypoints::Entrypoints;
pub use graph::DependencyGraph;
pub use graph::DependencyNode;
pub use graph::build_graph;
pub use graph::find_orphans;
pub use graph::mark_required;
pub use graph::orphans;
pub use units::CompilationUnit;
pub use units::ManifestError;
