//! Tests for the two accumulating matrix-vector kernels.

use sparse_kernels::mul_acc_mat_vec_csc;
use sparse_kernels::mul_acc_mat_vec_csr;
use sparse_kernels::CompressedStorage;
use sparse_kernels::CsMat;
use sparse_kernels::Numeric;

/// A double-precision scalar for exercising the kernels with floating
/// point from outside the verified library.
#[derive(Clone, Copy, PartialEq, Debug)]
struct F64(f64);

impl Numeric for F64 {
    fn add_spec(self, rhs: F64) -> F64 {
        F64(self.0 + rhs.0)
    }

    fn mul_spec(self, rhs: F64) -> F64 {
        F64(self.0 * rhs.0)
    }

    fn ring_add(self, rhs: F64) -> F64 {
        F64(self.0 + rhs.0)
    }

    fn ring_mul(self, rhs: F64) -> F64 {
        F64(self.0 * rhs.0)
    }
}

fn f64_mat(
    storage: CompressedStorage,
    nrows: usize,
    ncols: usize,
    indptr: Vec<usize>,
    indices: Vec<usize>,
    data: Vec<f64>,
) -> CsMat<F64> {
    let data: Vec<F64> = data.into_iter().map(F64).collect();
    CsMat::from_slices(storage, nrows, ncols, &indptr, &indices, &data).unwrap()
}

#[test]
fn mul_csc_vec() {
    let indptr: Vec<usize> = vec![0, 2, 4, 5, 6, 7];
    let indices: Vec<usize> = vec![2, 3, 3, 4, 2, 1, 3];
    let data: Vec<f64> = vec![
        0.35310881, 0.42380633, 0.28035896, 0.58082095, 0.53350123, 0.88132896, 0.72527863,
    ];

    let mat = f64_mat(CompressedStorage::CSC, 5, 5, indptr, indices, data);
    let vector: Vec<F64> = vec![0.1, 0.2, -0.1, 0.3, 0.9].into_iter().map(F64).collect();
    let mut res_vec: Vec<F64> = vec![F64(0.); 5];
    mul_acc_mat_vec_csc(&mat, &vector, &mut res_vec);

    let expected_output = vec![0., 0.26439869, -0.01803924, 0.75120319, 0.11616419];

    let epsilon = 1e-7;

    assert!(res_vec
        .iter()
        .zip(expected_output.iter())
        .all(|(x, y)| (x.0 - *y).abs() < epsilon));
}

#[test]
fn mul_csr_vec() {
    let indptr: Vec<usize> = vec![0, 3, 3, 5, 6, 7];
    let indices: Vec<usize> = vec![1, 2, 3, 2, 3, 4, 4];
    let data: Vec<f64> = vec![
        0.75672424, 0.1649078, 0.30140296, 0.10358244, 0.6283315, 0.39244208, 0.57202407,
    ];

    let mat = f64_mat(CompressedStorage::CSR, 5, 5, indptr, indices, data);
    let vector: Vec<F64> = vec![0.1, 0.2, -0.1, 0.3, 0.9].into_iter().map(F64).collect();
    let mut res_vec: Vec<F64> = vec![F64(0.); 5];
    mul_acc_mat_vec_csr(&mat, &vector, &mut res_vec);

    let expected_output = vec![0.22527496, 0., 0.17814121, 0.35319787, 0.51482166];

    let epsilon = 1e-7;

    assert!(res_vec
        .iter()
        .zip(expected_output.iter())
        .all(|(x, y)| (x.0 - *y).abs() < epsilon));
}

/// Row-major and column-major storage of the same matrix accumulate the
/// same result.
#[test]
fn csr_csc_agree() {
    // [[1, 0, 2],
    //  [0, 3, 0]]
    let csr: CsMat<i64> = CsMat::from_slices(
        CompressedStorage::CSR,
        2,
        3,
        &vec![0, 2, 3],
        &vec![0, 2, 1],
        &vec![1, 2, 3],
    )
    .unwrap();
    let csc: CsMat<i64> = CsMat::from_slices(
        CompressedStorage::CSC,
        2,
        3,
        &vec![0, 1, 2, 3],
        &vec![0, 1, 0],
        &vec![1, 3, 2],
    )
    .unwrap();
    let v: Vec<i64> = vec![5, 7, 9];
    let mut out_csr: Vec<i64> = vec![0, 0];
    let mut out_csc: Vec<i64> = vec![0, 0];
    mul_acc_mat_vec_csr(&csr, &v, &mut out_csr);
    mul_acc_mat_vec_csc(&csc, &v, &mut out_csc);
    assert_eq!(out_csr, vec![23, 21]);
    assert_eq!(out_csr, out_csc);
}

/// Running the same accumulation twice doubles the result of one run.
#[test]
fn accumulation_is_additive() {
    let mat: CsMat<i64> = CsMat::from_slices(
        CompressedStorage::CSR,
        2,
        3,
        &vec![0, 2, 3],
        &vec![0, 2, 1],
        &vec![1, 2, 3],
    )
    .unwrap();
    let v: Vec<i64> = vec![5, 7, 9];
    let mut once: Vec<i64> = vec![0, 0];
    mul_acc_mat_vec_csr(&mat, &v, &mut once);
    let mut twice: Vec<i64> = once.clone();
    mul_acc_mat_vec_csr(&mat, &v, &mut twice);
    assert_eq!(twice, vec![2 * once[0], 2 * once[1]]);
}

/// The same, in floating point, within tolerance.
#[test]
fn accumulation_is_additive_f64() {
    let mat = f64_mat(
        CompressedStorage::CSR,
        2,
        3,
        vec![0, 2, 3],
        vec![0, 2, 1],
        vec![0.5, 2.25, -3.5],
    );
    let v: Vec<F64> = vec![0.1, 0.2, 0.3].into_iter().map(F64).collect();
    let mut once: Vec<F64> = vec![F64(0.); 2];
    mul_acc_mat_vec_csr(&mat, &v, &mut once);
    let mut twice: Vec<F64> = once.clone();
    mul_acc_mat_vec_csr(&mat, &v, &mut twice);
    for r in 0..2 {
        assert!((twice[r].0 - 2.0 * once[r].0).abs() < 1e-12);
    }
}

/// A matrix with no stored entries leaves the output untouched.
#[test]
fn zero_matrix_accumulates_nothing() {
    let zero_csr: CsMat<i64> = CsMat::from_slices(
        CompressedStorage::CSR,
        3,
        3,
        &vec![0, 0, 0, 0],
        &vec![],
        &vec![],
    )
    .unwrap();
    let zero_csc: CsMat<i64> = CsMat::from_slices(
        CompressedStorage::CSC,
        3,
        3,
        &vec![0, 0, 0, 0],
        &vec![],
        &vec![],
    )
    .unwrap();
    let v: Vec<i64> = vec![1, 2, 3];
    let mut out: Vec<i64> = vec![4, 5, 6];
    mul_acc_mat_vec_csr(&zero_csr, &v, &mut out);
    assert_eq!(out, vec![4, 5, 6]);
    mul_acc_mat_vec_csc(&zero_csc, &v, &mut out);
    assert_eq!(out, vec![4, 5, 6]);
}
