//! Dense matrices of real numbers with LU and PLU decomposition.

pub mod decomposition;
pub mod laws;
pub mod matrix;
pub mod scalar;

pub use matrix::{ConstructionError, Matrix, ERO};
