//! Verified kernels for sparse-matrix arithmetic over compressed two-array
//! storage: accumulating matrix-vector products in row-major (CSR) and
//! column-major (CSC) layout, and a row-major sparse-sparse matrix product.

pub mod assoc;
pub mod csmat;
pub mod laws;
pub mod prod;
pub mod scalar;

pub use csmat::CompressedStorage;
pub use csmat::CsMat;
pub use csmat::FormatError;
pub use prod::csr_mul_csr;
pub use prod::mul_acc_mat_vec_csc;
pub use prod::mul_acc_mat_vec_csr;
pub use scalar::Numeric;
