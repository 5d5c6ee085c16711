//! Tests for matrix construction, validation, and appending.

use sparse_kernels::CompressedStorage;
use sparse_kernels::CsMat;

#[test]
fn from_slices_accepts_valid_arrays() {
    let m: CsMat<i64> = CsMat::from_slices(
        CompressedStorage::CSR,
        2,
        3,
        &vec![0, 2, 3],
        &vec![0, 2, 1],
        &vec![1, 2, 3],
    )
    .unwrap();
    assert_eq!(m.rows(), 2);
    assert_eq!(m.cols(), 3);
    assert_eq!(m.nnz(), 3);
    assert_eq!(m.storage_type(), CompressedStorage::CSR);
}

#[test]
fn from_slices_rejects_wrong_pointer_length() {
    let r: Result<CsMat<i64>, _> = CsMat::from_slices(
        CompressedStorage::CSR,
        5,
        5,
        &vec![0, 1],
        &vec![0],
        &vec![9],
    );
    assert!(r.is_err());
}

#[test]
fn from_slices_rejects_nonzero_first_pointer() {
    let r: Result<CsMat<i64>, _> = CsMat::from_slices(
        CompressedStorage::CSR,
        1,
        2,
        &vec![1, 1],
        &vec![],
        &vec![],
    );
    assert!(r.is_err());
}

#[test]
fn from_slices_rejects_decreasing_pointers() {
    let r: Result<CsMat<i64>, _> = CsMat::from_slices(
        CompressedStorage::CSR,
        2,
        3,
        &vec![0, 2, 1],
        &vec![0, 1],
        &vec![1, 2],
    );
    assert!(r.is_err());
}

#[test]
fn from_slices_rejects_short_data() {
    let r: Result<CsMat<i64>, _> = CsMat::from_slices(
        CompressedStorage::CSR,
        2,
        3,
        &vec![0, 2, 3],
        &vec![0, 2, 1],
        &vec![1, 2],
    );
    assert!(r.is_err());
}

#[test]
fn from_slices_rejects_out_of_range_index() {
    let r: Result<CsMat<i64>, _> = CsMat::from_slices(
        CompressedStorage::CSR,
        2,
        3,
        &vec![0, 2, 3],
        &vec![0, 3, 1],
        &vec![1, 2, 3],
    );
    assert!(r.is_err());
}

#[test]
fn from_slices_rejects_unsorted_inner_indices() {
    let r: Result<CsMat<i64>, _> = CsMat::from_slices(
        CompressedStorage::CSR,
        2,
        3,
        &vec![0, 2, 3],
        &vec![2, 0, 1],
        &vec![1, 2, 3],
    );
    assert!(r.is_err());
}

#[test]
fn from_slices_rejects_repeated_inner_index() {
    let r: Result<CsMat<i64>, _> = CsMat::from_slices(
        CompressedStorage::CSR,
        1,
        4,
        &vec![0, 2],
        &vec![3, 3],
        &vec![1, 2],
    );
    assert!(r.is_err());
}

#[test]
fn empty_then_append_builds_rows() {
    let m: CsMat<i64> = CsMat::empty(CompressedStorage::CSR, 3);
    assert_eq!(m.rows(), 0);
    assert_eq!(m.cols(), 3);
    let m = m.append_outer(&vec![Some(1), None, Some(2)]);
    let m = m.append_outer(&vec![None, None, None]);
    assert_eq!(m.rows(), 2);
    assert_eq!(m.cols(), 3);
    assert_eq!(m.indptr, vec![0, 2, 2]);
    assert_eq!(m.indices, vec![0, 2]);
    assert_eq!(m.data, vec![1, 2]);
}

#[test]
fn empty_csc_appends_columns() {
    let m: CsMat<i64> = CsMat::empty(CompressedStorage::CSC, 2);
    let m = m.append_outer(&vec![None, Some(5)]);
    assert_eq!(m.rows(), 2);
    assert_eq!(m.cols(), 1);
    assert_eq!(m.indptr, vec![0, 1]);
    assert_eq!(m.indices, vec![1]);
    assert_eq!(m.data, vec![5]);
}
