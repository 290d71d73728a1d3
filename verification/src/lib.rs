//! An incremental linear-arithmetic constraint solver.
//!
//! The crate turns a declarative set of linear equalities and inequalities
//! over real-valued unknowns, each tagged with a priority ("strength"), into
//! a concrete assignment that satisfies every required constraint and
//! best-effort-satisfies the rest.  The solver keeps a simplex tableau and
//! re-optimizes incrementally as constraints and suggested values are added,
//! removed, or edited.  All arithmetic is exact, over rational numbers.

pub mod num;
pub mod strength;
pub mod linear;
pub mod solver;
