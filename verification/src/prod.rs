//! The multiplication kernels: accumulating matrix-vector products for
//! column-major and row-major storage, and the row-major sparse-sparse
//! matrix product. Each contract pins the exact sequence of scalar
//! operations performed, so it holds for any `Numeric` scalar, including
//! ones whose addition is not associative.

use vstd::prelude::*;

use crate::csmat::CompressedStorage;
use crate::csmat::CsMat;
use crate::scalar::Numeric;

verus! {

/// Left fold of the entries of row-major slice `o` of `m` against `v`,
/// over positions `outer_start(o) .. p`: starting from `init`, each step
/// adds `v[column] * value` for the entry at the next position.
pub open spec fn row_prefix<N: Numeric>(m: CsMat<N>, v: Seq<N>, init: N, o: int, p: int) -> N
    decreases p - m.outer_start(o),
{
    if p <= m.outer_start(o) {
        init
    } else {
        row_prefix(m, v, init, o, p - 1).add_spec(
            v[m.indices@[p - 1] as int].mul_spec(m.data@[p - 1]),
        )
    }
}

/// Left fold, over all positions `0 .. p` of a column-major matrix `m`,
/// of the contributions that land on row `r`: each position whose stored
/// row index is `r` adds `v[column] * value`, where `column` is the outer
/// slice the position lies in.
pub open spec fn scatter_prefix<N: Numeric>(m: CsMat<N>, v: Seq<N>, init: N, r: int, p: int) -> N
    decreases p,
{
    if p <= 0 {
        init
    } else {
        let prev = scatter_prefix(m, v, init, r, p - 1);
        if m.indices@[p - 1] == r {
            prev.add_spec(v[m.outer_of(p - 1)].mul_spec(m.data@[p - 1]))
        } else {
            prev
        }
    }
}

/// One accumulation step into an optional workspace slot: an empty slot
/// takes the product itself, an occupied one adds the product to its
/// running sum.
pub open spec fn acc_step<N: Numeric>(prev: Option<N>, term: N) -> Option<N> {
    match prev {
        None => Some(term),
        Some(a) => Some(a.add_spec(term)),
    }
}

/// The value of workspace slot `j` after the entries of left row `i` at
/// positions `outer_start(i) .. lp` have been processed: for each left
/// entry `(k, lval)` whose matching right row `k` stores column `j`, the
/// product `lval * right[k, j]` is accumulated into the slot.
pub open spec fn prod_prefix<N: Numeric>(
    l: CsMat<N>,
    r: CsMat<N>,
    i: int,
    lp: int,
    j: int,
) -> Option<N>
    decreases lp - l.outer_start(i),
{
    if lp <= l.outer_start(i) {
        None
    } else {
        let prev = prod_prefix(l, r, i, lp - 1, j);
        let k = l.indices@[lp - 1] as int;
        if r.slice_has(k, j) {
            acc_step(prev, l.data@[lp - 1].mul_spec(r.slice_val(k, j)))
        } else {
            prev
        }
    }
}

/// The row `i`, column `j` entry of the sparse-sparse product: the whole
/// left row folded; `None` where no term contributed.
pub open spec fn prod_entry<N: Numeric>(l: CsMat<N>, r: CsMat<N>, i: int, j: int) -> Option<N> {
    prod_prefix(l, r, i, l.outer_end(i), j)
}

/// Outer slice `o` of `m` stores inner index `i` at some position before
/// `lim` (a prefix version of `slice_has`).
pub open spec fn slice_has_before<N>(m: CsMat<N>, o: int, i: int, lim: int) -> bool {
    exists|q: int| m.outer_start(o) <= q < lim && (#[trigger] m.indices@[q]) == i
}

/// `output += matrix * input` for a row-major matrix: for each row, the
/// row's sparse entries are gathered against the input in ascending column
/// order and accumulated onto that row's output slot.
#[verifier::loop_isolation(false)]
pub fn mul_acc_mat_vec_csr<N: Numeric>(mat: &CsMat<N>, in_vec: &Vec<N>, res_vec: &mut Vec<N>)
    requires
        mat.wf(),
        mat.storage == CompressedStorage::CSR,
        mat.ncols == in_vec@.len(),
        mat.nrows == old(res_vec)@.len(),
    ensures
        final(res_vec)@.len() == old(res_vec)@.len(),
        forall|r: int|
            0 <= r < old(res_vec)@.len()
                ==> final(res_vec)@[r] == row_prefix(
                    *mat,
                    in_vec@,
                    old(res_vec)@[r],
                    r,
                    mat.outer_end(r),
                ),
{
    let rows = mat.nrows;
    let mut r: usize = 0;
    while r < rows
        invariant
            r <= rows,
            res_vec@.len() == old(res_vec)@.len(),
            forall|rr: int|
                0 <= rr < r
                    ==> res_vec@[rr] == row_prefix(
                        *mat,
                        in_vec@,
                        old(res_vec)@[rr],
                        rr,
                        mat.outer_end(rr),
                    ),
            forall|rr: int| r <= rr < res_vec@.len() ==> res_vec@[rr] == old(res_vec)@[rr],
        decreases rows - r,
    {
        let start = mat.indptr[r];
        let end = mat.indptr[r + 1];
        proof {
            mat.lemma_slice_in_range(r as int);
        }
        let mut acc = res_vec[r];
        let mut p: usize = start;
        while p < end
            invariant
                start <= p <= end,
                acc == row_prefix(*mat, in_vec@, old(res_vec)@[r as int], r as int, p as int),
                res_vec@.len() == old(res_vec)@.len(),
                forall|rr: int|
                    0 <= rr < r
                        ==> res_vec@[rr] == row_prefix(
                            *mat,
                            in_vec@,
                            old(res_vec)@[rr],
                            rr,
                            mat.outer_end(rr),
                        ),
                forall|rr: int| r <= rr < res_vec@.len() ==> res_vec@[rr] == old(res_vec)@[rr],
            decreases end - p,
        {
            let c = mat.indices[p];
            acc = acc.ring_add(in_vec[c].ring_mul(mat.data[p]));
            p += 1;
        }
        res_vec.set(r, acc);
        r += 1;
    }
}

/// `output += matrix * input` for a column-major matrix: each column is
/// scaled by its input coordinate and scatter-accumulated onto the output
/// rows its entries name.
#[verifier::loop_isolation(false)]
pub fn mul_acc_mat_vec_csc<N: Numeric>(mat: &CsMat<N>, in_vec: &Vec<N>, res_vec: &mut Vec<N>)
    requires
        mat.wf(),
        mat.storage == CompressedStorage::CSC,
        mat.ncols == in_vec@.len(),
        mat.nrows == old(res_vec)@.len(),
    ensures
        final(res_vec)@.len() == old(res_vec)@.len(),
        forall|r: int|
            0 <= r < old(res_vec)@.len()
                ==> final(res_vec)@[r] == scatter_prefix(
                    *mat,
                    in_vec@,
                    old(res_vec)@[r],
                    r,
                    mat.data@.len() as int,
                ),
{
    let cols = mat.ncols;
    let mut c: usize = 0;
    while c < cols
        invariant
            c <= cols,
            res_vec@.len() == old(res_vec)@.len(),
            forall|rr: int|
                0 <= rr < res_vec@.len()
                    ==> res_vec@[rr] == scatter_prefix(
                        *mat,
                        in_vec@,
                        old(res_vec)@[rr],
                        rr,
                        mat.outer_start(c as int),
                    ),
        decreases cols - c,
    {
        let start = mat.indptr[c];
        let end = mat.indptr[c + 1];
        proof {
            mat.lemma_slice_in_range(c as int);
        }
        let multiplier = in_vec[c];
        let mut p: usize = start;
        while p < end
            invariant
                start <= p <= end,
                res_vec@.len() == old(res_vec)@.len(),
                forall|rr: int|
                    0 <= rr < res_vec@.len()
                        ==> res_vec@[rr] == scatter_prefix(
                            *mat,
                            in_vec@,
                            old(res_vec)@[rr],
                            rr,
                            p as int,
                        ),
            decreases end - p,
        {
            let row = mat.indices[p];
            proof {
                mat.lemma_outer_of(c as int, p as int);
            }
            let t = res_vec[row];
            res_vec.set(row, t.ring_add(multiplier.ring_mul(mat.data[p])));
            p += 1;
        }
        c += 1;
    }
}

/// Sparse-sparse product of two row-major matrices, row at a time: for
/// each left row, the matching right rows are scatter-accumulated into
/// the dense workspace, which is then compressed into the next row of the
/// result. The result's entries are pinned exactly by `prod_entry`.
#[verifier::loop_isolation(false)]
#[verifier::rlimit(60)]
pub fn csr_mul_csr<N: Numeric>(
    lhs: &CsMat<N>,
    rhs: &CsMat<N>,
    workspace: &mut Vec<Option<N>>,
) -> (res: CsMat<N>)
    requires
        lhs.wf(),
        rhs.wf(),
        lhs.storage == CompressedStorage::CSR,
        rhs.storage == CompressedStorage::CSR,
        lhs.ncols == rhs.nrows,
        old(workspace)@.len() == rhs.ncols,
    ensures
        res.wf(),
        res.storage == CompressedStorage::CSR,
        res.nrows == lhs.nrows,
        res.ncols == rhs.ncols,
        final(workspace)@.len() == old(workspace)@.len(),
        forall|i: int, j: int|
            0 <= i < lhs.nrows && 0 <= j < rhs.ncols
                ==> #[trigger] res.entry_opt(i, j) == prod_entry(*lhs, *rhs, i, j),
{
    let res_cols = rhs.ncols;
    let mut res: CsMat<N> = CsMat::empty(CompressedStorage::CSR, res_cols);
    let rows = lhs.nrows;
    let mut i: usize = 0;
    while i < rows
        invariant
            i <= rows,
            workspace@.len() == res_cols,
            res.wf(),
            res.storage == CompressedStorage::CSR,
            res.outer_dim() == i,
            res.inner_dim() == res_cols,
            forall|i2: int, j: int|
                0 <= i2 < i && 0 <= j < res_cols
                    ==> #[trigger] res.entry_opt(i2, j) == prod_entry(*lhs, *rhs, i2, j),
        decreases rows - i,
    {
        // reset the accumulators
        let mut j: usize = 0;
        while j < workspace.len()
            invariant
                j <= workspace@.len(),
                workspace@.len() == res_cols,
                forall|jj: int| 0 <= jj < j ==> (#[trigger] workspace@[jj]) is None,
            decreases workspace@.len() - j,
        {
            workspace.set(j, None);
            j += 1;
        }
        // accumulate the row values
        let ls = lhs.indptr[i];
        let le = lhs.indptr[i + 1];
        proof {
            lhs.lemma_slice_in_range(i as int);
        }
        let mut lp: usize = ls;
        while lp < le
            invariant
                ls <= lp <= le,
                workspace@.len() == res_cols,
                forall|jj: int|
                    0 <= jj < res_cols
                        ==> (#[trigger] workspace@[jj]) == prod_prefix(
                            *lhs,
                            *rhs,
                            i as int,
                            lp as int,
                            jj,
                        ),
            decreases le - lp,
        {
            let k = lhs.indices[lp];
            let lval = lhs.data[lp];
            let rs = rhs.indptr[k];
            let re = rhs.indptr[k + 1];
            proof {
                rhs.lemma_slice_in_range(k as int);
            }
            let mut rp: usize = rs;
            while rp < re
                invariant
                    rs <= rp <= re,
                    workspace@.len() == res_cols,
                    forall|jj: int|
                        0 <= jj < res_cols
                            ==> (#[trigger] workspace@[jj]) == (if slice_has_before(
                                *rhs,
                                k as int,
                                jj,
                                rp as int,
                            ) {
                                acc_step(
                                    prod_prefix(*lhs, *rhs, i as int, lp as int, jj),
                                    lval.mul_spec(
                                        rhs.data@[rhs.slice_pos(k as int, jj)],
                                    ),
                                )
                            } else {
                                prod_prefix(*lhs, *rhs, i as int, lp as int, jj)
                            }),
                decreases re - rp,
            {
                let j0 = rhs.indices[rp];
                let rval = rhs.data[rp];
                proof {
                    rhs.lemma_entry_at(k as int, rp as int);
                    if slice_has_before(*rhs, k as int, j0 as int, rp as int) {
                        let q = choose|q: int|
                            rhs.outer_start(k as int) <= q < rp as int
                                && (#[trigger] rhs.indices@[q]) == j0;
                        assert(rhs.slice_sorted(k as int));
                        assert(rhs.indices@[q] < rhs.indices@[rp as int]);
                    }
                }
                let prod = lval.ring_mul(rval);
                match workspace[j0] {
                    None => {
                        workspace.set(j0, Some(prod));
                    },
                    Some(acc) => {
                        workspace.set(j0, Some(acc.ring_add(prod)));
                    },
                }
                proof {
                    assert forall|jj: int| 0 <= jj < res_cols && jj != j0
                        implies slice_has_before(*rhs, k as int, jj, rp as int + 1)
                            == slice_has_before(*rhs, k as int, jj, rp as int) by {
                        if slice_has_before(*rhs, k as int, jj, rp as int + 1) {
                            let q = choose|q: int|
                                rhs.outer_start(k as int) <= q < rp as int + 1
                                    && (#[trigger] rhs.indices@[q]) == jj;
                            assert(q < rp as int);
                        }
                    }
                }
                rp += 1;
            }
            proof {
                assert forall|jj: int| 0 <= jj < res_cols
                    implies workspace@[jj] == prod_prefix(
                        *lhs,
                        *rhs,
                        i as int,
                        lp as int + 1,
                        jj,
                    ) by {
                    assert(slice_has_before(*rhs, k as int, jj, re as int)
                        == rhs.slice_has(k as int, jj));
                }
            }
            lp += 1;
        }
        // compress the workspace into the next row of the result
        res = res.append_outer(workspace);
        i += 1;
    }
    res
}

} // verus!
