//! Primary relational cell: declared relational topologies over loci, their
//! propagation capacity and undirected-cycle detection, together with the
//! integer-valued decisions of the Primary kernel (ρ_P classification,
//! failure modes, admissibility findings, the single-step process gate and
//! the plans of the declared sweeps).
//!
//! The floating-point operators themselves (Δ, ρ, Σ, the antisymmetric term
//! and the SVD rank) live in the application crate; they consume the
//! adjacency structure and the decisions proved here.

pub mod topology;
pub mod cycle;
pub mod node_field;
pub mod kernel;
pub mod admissibility;
pub mod experiment;
