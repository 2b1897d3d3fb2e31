//! Dense linear algebra with proofs: a matrix type, triangular and diagonal
//! solvers, gaxpy updates and LU factorization with and without partial
//! pivoting.
//!
//! The routines are generic over the scalar (`Scalar`). Their contracts name
//! every result operation by operation, and typed errors (`LinalgError`) tell
//! a wrong shape from a singular matrix and from an operation without a
//! result. For scalars whose arithmetic is that of the real numbers (`Exact`,
//! as the rational numbers of `Ratio`), the modules `laws`, `laws_factor`,
//! `pivoting` and `elementary` prove what the routines are for: solutions
//! solve, the inverse inverts, the factors multiply back to the matrix, with
//! its rows exchanged where pivoting exchanged them, and each step in place
//! is a product with an elementary matrix.

pub mod arith;
pub mod diag;
pub mod elementary;
pub mod error;
pub mod exact;
pub mod gaxpy;
pub mod laws;
pub mod laws_factor;
pub mod matrix;
pub mod palu;
pub mod pattern;
pub mod pivoting;
pub mod ratio;
pub mod scalar;
pub mod sums;
pub mod system;
pub mod triangular;

pub use diag::solves_diag;
pub use error::LinalgError;
pub use gaxpy::{gaxpy_column, gaxpy_line};
pub use matrix::Matrix;
pub use palu::{find_pu, find_u, lu_fact};
pub use ratio::Ratio;
pub use scalar::{Exact, Scalar};
pub use triangular::{
    invert, solves_lower_triangular, solves_lower_triangular_mat, solves_upper_triangular,
};
