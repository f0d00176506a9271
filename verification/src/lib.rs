//! A coordinate-list (COO) sparse matrix: point lookup and update, lazy
//! sorting and zero-cleanup behind dirty flags, and a sparsity-aware
//! matrix product.

pub mod laws;
pub mod sparse_matrix;
