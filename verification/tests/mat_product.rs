//! Tests for the sparse-sparse matrix product.

use sparse_kernels::csr_mul_csr;
use sparse_kernels::CompressedStorage;
use sparse_kernels::CsMat;
use sparse_kernels::Numeric;

/// A double-precision scalar for exercising the kernels with floating
/// point from outside the verified library.
#[derive(Clone, Copy, PartialEq, Debug)]
struct F64(f64);

impl Numeric for F64 {
    fn add_spec(self, rhs: F64) -> F64 {
        F64(self.0 + rhs.0)
    }

    fn mul_spec(self, rhs: F64) -> F64 {
        F64(self.0 * rhs.0)
    }

    fn ring_add(self, rhs: F64) -> F64 {
        F64(self.0 + rhs.0)
    }

    fn ring_mul(self, rhs: F64) -> F64 {
        F64(self.0 * rhs.0)
    }
}

fn csr_i64(
    nrows: usize,
    ncols: usize,
    indptr: Vec<usize>,
    indices: Vec<usize>,
    data: Vec<i64>,
) -> CsMat<i64> {
    CsMat::from_slices(CompressedStorage::CSR, nrows, ncols, &indptr, &indices, &data).unwrap()
}

#[test]
fn small_product() {
    // [[1, 2],     [[4, 0],     [[14, 12],
    //  [0, 3]]  x   [5, 6]]  =   [15, 18]]
    let a = csr_i64(2, 2, vec![0, 2, 3], vec![0, 1, 1], vec![1, 2, 3]);
    let b = csr_i64(2, 2, vec![0, 1, 3], vec![0, 0, 1], vec![4, 5, 6]);
    let mut ws: Vec<Option<i64>> = vec![None; 2];
    let c = csr_mul_csr(&a, &b, &mut ws);
    assert_eq!(c.rows(), 2);
    assert_eq!(c.cols(), 2);
    assert_eq!(c.indptr, vec![0, 2, 4]);
    assert_eq!(c.indices, vec![0, 1, 0, 1]);
    assert_eq!(c.data, vec![14, 12, 15, 18]);
}

/// An all-zero row in the left matrix yields an empty result row.
#[test]
fn zero_row_gives_empty_result_row() {
    let a = csr_i64(2, 2, vec![0, 0, 1], vec![1], vec![7]);
    let b = csr_i64(2, 2, vec![0, 1, 2], vec![0, 1], vec![2, 3]);
    let mut ws: Vec<Option<i64>> = vec![None; 2];
    let c = csr_mul_csr(&a, &b, &mut ws);
    assert_eq!(c.indptr, vec![0, 0, 1]);
    assert_eq!(c.indices, vec![1]);
    assert_eq!(c.data, vec![21]);
}

/// Multiplying by a diagonal matrix scales each column of the left
/// matrix by the matching diagonal entry and keeps its sparsity pattern.
#[test]
fn diagonal_product_scales_rows() {
    // [[1, 0, 2],              [[2, 0, 0],
    //  [0, 3, 0]]      x        [0, 3, 0],
    //                           [0, 0, 4]]
    let l = csr_i64(2, 3, vec![0, 2, 3], vec![0, 2, 1], vec![1, 2, 3]);
    let d = csr_i64(3, 3, vec![0, 1, 2, 3], vec![0, 1, 2], vec![2, 3, 4]);
    let mut ws: Vec<Option<i64>> = vec![None; 3];
    let c = csr_mul_csr(&l, &d, &mut ws);
    assert_eq!(c.indptr, vec![0, 2, 3]);
    assert_eq!(c.indices, vec![0, 2, 1]);
    assert_eq!(c.data, vec![2, 8, 9]);
}

/// The product is associative: (A x B) x C equals A x (B x C).
#[test]
fn product_is_associative() {
    let a = csr_i64(2, 2, vec![0, 2, 3], vec![0, 1, 1], vec![1, 2, 3]);
    let b = csr_i64(2, 2, vec![0, 1, 3], vec![0, 0, 1], vec![4, 5, 6]);
    let c = csr_i64(2, 2, vec![0, 2, 3], vec![0, 1, 0], vec![1, 1, 2]);
    let mut ws: Vec<Option<i64>> = vec![None; 2];
    let ab = csr_mul_csr(&a, &b, &mut ws);
    let ab_c = csr_mul_csr(&ab, &c, &mut ws);
    let bc = csr_mul_csr(&b, &c, &mut ws);
    let a_bc = csr_mul_csr(&a, &bc, &mut ws);
    assert_eq!(ab_c.indptr, a_bc.indptr);
    assert_eq!(ab_c.indices, a_bc.indices);
    assert_eq!(ab_c.data, a_bc.data);
    assert_eq!(ab_c.data, vec![38, 14, 51, 15]);
}

/// The same associativity, in floating point, within tolerance.
#[test]
fn product_is_associative_f64() {
    let fm = |nrows: usize, ncols: usize, indptr: Vec<usize>, indices: Vec<usize>, data: Vec<f64>| {
        let data: Vec<F64> = data.into_iter().map(F64).collect();
        CsMat::from_slices(CompressedStorage::CSR, nrows, ncols, &indptr, &indices, &data)
            .unwrap()
    };
    let a = fm(2, 2, vec![0, 2, 3], vec![0, 1, 1], vec![0.5, 2.0, -3.0]);
    let b = fm(2, 2, vec![0, 1, 3], vec![0, 0, 1], vec![4.0, 0.25, 6.5]);
    let c = fm(2, 2, vec![0, 2, 3], vec![0, 1, 0], vec![1.5, 1.0, 2.5]);
    let mut ws: Vec<Option<F64>> = vec![None; 2];
    let ab = csr_mul_csr(&a, &b, &mut ws);
    let ab_c = csr_mul_csr(&ab, &c, &mut ws);
    let bc = csr_mul_csr(&b, &c, &mut ws);
    let a_bc = csr_mul_csr(&a, &bc, &mut ws);
    assert_eq!(ab_c.indptr, a_bc.indptr);
    assert_eq!(ab_c.indices, a_bc.indices);
    for p in 0..ab_c.data.len() {
        assert!((ab_c.data[p].0 - a_bc.data[p].0).abs() < 1e-12);
    }
}

/// The workspace keeps its length across a product call.
#[test]
fn workspace_length_is_preserved() {
    let a = csr_i64(2, 2, vec![0, 2, 3], vec![0, 1, 1], vec![1, 2, 3]);
    let b = csr_i64(2, 2, vec![0, 1, 3], vec![0, 0, 1], vec![4, 5, 6]);
    let mut ws: Vec<Option<i64>> = vec![None; 2];
    let _ = csr_mul_csr(&a, &b, &mut ws);
    assert_eq!(ws.len(), 2);
}
