//! Dense matrices stored as rows, with identity construction, Gauss-Jordan
//! reduction without pivoting, column normalization and a copy-then-transform
//! combinator.
//!
//! Every algorithm is generic over the element type: the scalar operations it
//! needs (a zero test, subtraction, multiplication, division and so on) are
//! handed in as functions, and each contract states the result exactly in
//! terms of what those functions return.

pub mod copy;
pub mod laws;
pub mod normalize;
pub mod reduce;
pub mod scalar;
pub mod shape;

pub use copy::dup;
pub use normalize::normalize;
pub use reduce::{reduced_copy, rref};
pub use shape::{identity, matrix_from_rows};
