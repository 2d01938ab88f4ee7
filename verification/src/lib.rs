//! Sparse iterative linear-solver kernel: compressed sparse-row storage with a
//! separate diagonal array, scatter-add assembly of local element blocks, a
//! generalized sparse matrix-vector product, and an incomplete LU factorization
//! with level-k fill usable as a preconditioner.
//!
//! All values are exact `i64` scalars, so every numeric contract below states
//! the result as a closed-form integer expression.

use vstd::prelude::*;

pub mod slice;
pub mod sparse_ilu;
pub mod sparse_square;

verus! {

/// The mathematical integer `x` fits in the machine scalar `i64`.
pub open spec fn fits_i64(x: int) -> bool {
    i64::MIN <= x <= i64::MAX
}

} // verus!
