//! Core of a conflict-driven version solver.
//!
//! Given a registry that maps packages to version lists and versions to
//! dependency ranges, the solver either selects one version for every package
//! transitively required by a root, or explains why no selection exists.
//!
//! Packages and versions are plain `u64` identifiers; a `Range` is a canonical
//! set of versions, a `Term` a signed range, an `Incompatibility` a set of
//! terms that must not all hold, and a `PartialSolution` the growing history
//! of decisions and derivations that the solver drives to a fixed point.
//!
//! The dependency provider is the in-memory `Registry`, preloaded through
//! `add_dependencies` and consulted inline: it is total and deterministic,
//! so the error taxonomy carries no variants for a provider that fails to
//! enumerate versions or fetch dependencies — with this provider such
//! failures cannot arise.

pub mod incompatibility;
pub mod partial_solution;
pub mod range;
pub mod solver;
pub mod registry;
pub mod term;
