//! Row reduction over the two-element field GF(2): reduced row echelon form
//! with a trace of row operations, rank, kernel basis and row-space basis.

pub mod gf2_matrix;
pub mod matrix;
pub mod reduction;
pub mod theorems;

pub use gf2_matrix::GF2Matrix;
