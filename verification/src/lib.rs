//! Dense linear-algebra kernels over exact integer scalars.
//!
//! The crate provides the level-3 blocked matrix-multiply engine (packing,
//! register-tiled microkernels, alpha/beta epilogue, cache blocking), a
//! panel-blocked triangular matrix-vector multiply, and a Hermitian rank-2
//! update.  Matrices are column-major flat buffers with a leading dimension,
//! as in the classical reference BLAS calling convention.
//!
//! The kernels compute over `i64` scalars: the blocking, packing, tiling
//! and epilogue logic is independent of the scalar type, and exact
//! arithmetic lets every contract state the result precisely, down to the
//! element.  Each entry point bounds its numeric inputs (`MAX_ELEM`,
//! `MAX_K`) so that every intermediate product sum provably fits the
//! scalar type; all extents are validated once in the precondition, never
//! inside the loops.

pub mod enums;
pub mod gemm;
pub mod her2;
pub mod sums;
pub mod trlmv;
