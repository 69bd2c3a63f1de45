//! Exact linear algebra over prime fields: matrix products, determinants by
//! cofactor expansion, and two ways to invert a square matrix.
//!
//! `field` says what the engine asks of a field element and `scalar` binds the
//! scalar field of BLS12-381 to it. `matrix`, `determinant` and `elimination`
//! hold the executable functions; their contracts speak of the integer
//! matrices of `model`. `laws` states what holds of the functions taken
//! together; `congruence`, `sums`, `dots`, `laplace`, `transposition` and
//! `gauss` hold the proofs that the contracts and laws rest on.

pub mod congruence;
pub mod determinant;
pub mod dots;
pub mod elimination;
pub mod field;
pub mod gauss;
pub mod laplace;
pub mod laws;
pub mod matrix;
pub mod model;
pub mod scalar;
pub mod sums;
pub mod transposition;

pub use determinant::{
    cofactor, cofactor_matrix, determinant, determinant_with_cofactor_matrix,
    invert_with_cofactors, is_invertible,
};
pub use elimination::{eliminate, invert, solve, upper_triangular};
pub use field::FieldElement;
pub use matrix::{
    apply_matrix, columns, hadamard_vec_mul, is_identity, is_square, left_apply_matrix,
    make_identity, mat_mul, minor, rows, scalar_mul, scalar_vec_mul, transpose, vec_add, vec_mul,
    vec_sub, Matrix,
};
