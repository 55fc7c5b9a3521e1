//! A circuit-building loader: represents scalar and curve values either as
//! compile-time constants or as circuit-assigned cells, folds operations on
//! constants outside the circuit, caches repeated constant-point assignments,
//! and batches weighted point sums into a single multi-scalar multiplication.

pub mod chip;
pub mod field;
pub mod group;
pub mod loader;

pub use chip::{AssignedEcPoint, AssignedScalar, Ctx, EccChip, ScalarChip};
pub use field::{Fe, FIELD_ORDER};
pub use group::Pt;
pub use loader::{EcPoint, Error, Halo2Loader, Scalar, Value};
