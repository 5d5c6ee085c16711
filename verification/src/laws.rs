//! General properties of the kernels, stated and proved over the same
//! spec functions that the kernels' contracts use.

use vstd::arithmetic::div_mod::lemma_fundamental_div_mod;
use vstd::arithmetic::div_mod::lemma_mod_multiples_vanish;
use vstd::arithmetic::mul::lemma_mul_is_associative;
use vstd::arithmetic::mul::lemma_mul_is_commutative;
use vstd::arithmetic::mul::lemma_mul_is_distributive_add;
use vstd::arithmetic::mul::lemma_mul_is_distributive_sub;
use vstd::prelude::*;

use crate::csmat::CompressedStorage;
use crate::csmat::CsMat;
use crate::prod::prod_entry;
use crate::prod::prod_prefix;
use crate::prod::row_prefix;
use crate::prod::scatter_prefix;
use crate::prod::slice_has_before;
use crate::scalar::Numeric;

verus! {

/// Left fold of one dense row against `v` over coordinates `0 .. jlim`:
/// every occupied coordinate `j` adds `v[j] * value`. Both storage orders
/// reduce to this canonical order, which is what makes them comparable.
pub open spec fn dense_fold<N: Numeric>(
    ent: spec_fn(int) -> Option<N>,
    v: Seq<N>,
    init: N,
    jlim: int,
) -> N
    decreases jlim,
{
    if jlim <= 0 {
        init
    } else {
        let prev = dense_fold(ent, v, init, jlim - 1);
        match ent(jlim - 1) {
            Some(x) => prev.add_spec(v[jlim - 1].mul_spec(x)),
            None => prev,
        }
    }
}

/// Row `o` of a matrix read along the inner dimension.
pub open spec fn row_ent<N: Numeric>(a: CsMat<N>, o: int) -> spec_fn(int) -> Option<N> {
    |j: int| a.entry_opt(o, j)
}

/// Row `r` of a column-major matrix read along its outer (column)
/// dimension.
pub open spec fn col_ent<N: Numeric>(b: CsMat<N>, r: int) -> spec_fn(int) -> Option<N> {
    |c: int| b.entry_opt(c, r)
}

/// A dense fold moves past a run of empty coordinates unchanged.
pub proof fn lemma_dense_fold_skip<N: Numeric>(
    ent: spec_fn(int) -> Option<N>,
    v: Seq<N>,
    init: N,
    j1: int,
    j2: int,
)
    requires
        0 <= j1 <= j2,
        forall|j: int| j1 <= j < j2 ==> (#[trigger] ent(j)) is None,
    ensures
        dense_fold(ent, v, init, j2) == dense_fold(ent, v, init, j1),
    decreases j2 - j1,
{
    if j1 < j2 {
        lemma_dense_fold_skip(ent, v, init, j1, j2 - 1);
    }
}

/// Two dense rows that agree on every coordinate fold identically.
pub proof fn lemma_dense_fold_congruence<N: Numeric>(
    f: spec_fn(int) -> Option<N>,
    g: spec_fn(int) -> Option<N>,
    v: Seq<N>,
    init: N,
    jlim: int,
)
    requires
        forall|j: int| 0 <= j < jlim ==> #[trigger] f(j) == g(j),
    ensures
        dense_fold(f, v, init, jlim) == dense_fold(g, v, init, jlim),
    decreases jlim,
{
    if jlim > 0 {
        lemma_dense_fold_congruence(f, g, v, init, jlim - 1);
    }
}

/// The first inner coordinate not yet consumed after the row fold has
/// processed positions `outer_start(o) .. p`.
pub open spec fn row_bound<N>(a: CsMat<N>, o: int, p: int) -> int {
    if p <= a.outer_start(o) {
        0
    } else {
        a.indices@[p - 1] as int + 1
    }
}

/// A partial row fold equals the dense fold of the coordinates consumed
/// so far, and every position still to come names a coordinate past that
/// bound.
pub proof fn lemma_row_to_dense<N: Numeric>(a: CsMat<N>, v: Seq<N>, init: N, o: int, p: int)
    requires
        a.wf(),
        0 <= o < a.outer_dim(),
        a.outer_start(o) <= p <= a.outer_end(o),
    ensures
        row_prefix(a, v, init, o, p) == dense_fold(row_ent(a, o), v, init, row_bound(a, o, p)),
        0 <= row_bound(a, o, p) <= a.inner_dim(),
        forall|q: int|
            p <= q < a.outer_end(o) ==> (#[trigger] a.indices@[q]) >= row_bound(a, o, p),
    decreases p - a.outer_start(o),
{
    a.lemma_slice_in_range(o);
    if p <= a.outer_start(o) {
        assert(dense_fold(row_ent(a, o), v, init, 0) == init);
    } else {
        lemma_row_to_dense(a, v, init, o, p - 1);
        a.lemma_entry_at(o, p - 1);
        let jx = a.indices@[p - 1] as int;
        let jb = row_bound(a, o, p - 1);
        assert(a.slice_sorted(o));
        assert forall|j: int| jb <= j < jx implies (#[trigger] row_ent(a, o)(j)) is None by {
            if a.slice_has(o, j) {
                let q = a.slice_pos(o, j);
                assert(a.outer_start(o) <= q < a.outer_end(o) && a.indices@[q] == j);
                if q < p - 1 {
                    // the witness sits before position p - 1, so its inner
                    // index was already consumed: it lies below the bound
                    if q < p - 2 {
                        assert(a.indices@[q] < a.indices@[p - 2]);
                    }
                    assert(a.indices@[q] <= a.indices@[p - 2]);
                    assert(j < jb);
                }
            }
        }
        lemma_dense_fold_skip(row_ent(a, o), v, init, jb, jx);
        assert(row_ent(a, o)(jx) == Some(a.data@[p - 1]));
        assert(dense_fold(row_ent(a, o), v, init, jx + 1) == dense_fold(
            row_ent(a, o),
            v,
            init,
            jx,
        ).add_spec(v[jx].mul_spec(a.data@[p - 1])));
    }
}

/// A whole row's fold equals the dense fold of the full inner dimension.
pub proof fn lemma_row_total<N: Numeric>(a: CsMat<N>, v: Seq<N>, init: N, o: int)
    requires
        a.wf(),
        0 <= o < a.outer_dim(),
    ensures
        row_prefix(a, v, init, o, a.outer_end(o)) == dense_fold(
            row_ent(a, o),
            v,
            init,
            a.inner_dim(),
        ),
{
    let e = a.outer_end(o);
    lemma_row_to_dense(a, v, init, o, e);
    assert forall|j: int| row_bound(a, o, e) <= j < a.inner_dim()
        implies (#[trigger] row_ent(a, o)(j)) is None by {
        if a.slice_has(o, j) {
            let q = a.slice_pos(o, j);
            assert(a.outer_start(o) <= q < e && a.indices@[q] == j);
            assert(a.slice_sorted(o));
            if e > a.outer_start(o) {
                if q < e - 1 {
                    assert(a.indices@[q] < a.indices@[e - 1]);
                }
            }
        }
    }
    lemma_dense_fold_skip(row_ent(a, o), v, init, row_bound(a, o, e), a.inner_dim());
}

/// Within one column of a column-major matrix, the scatter fold for row
/// `r` picks up at most the single entry that column stores at `r`.
pub proof fn lemma_scatter_col<N: Numeric>(
    b: CsMat<N>,
    v: Seq<N>,
    init: N,
    r: int,
    c: int,
    q: int,
)
    requires
        b.wf(),
        0 <= c < b.outer_dim(),
        b.outer_start(c) <= q <= b.outer_end(c),
    ensures
        scatter_prefix(b, v, init, r, q) == (if slice_has_before(b, c, r, q) {
            scatter_prefix(b, v, init, r, b.outer_start(c)).add_spec(
                v[c].mul_spec(b.slice_val(c, r)),
            )
        } else {
            scatter_prefix(b, v, init, r, b.outer_start(c))
        }),
    decreases q - b.outer_start(c),
{
    b.lemma_slice_in_range(c);
    if q > b.outer_start(c) {
        lemma_scatter_col(b, v, init, r, c, q - 1);
        b.lemma_outer_of(c, q - 1);
        assert(b.slice_sorted(c));
        if b.indices@[q - 1] == r {
            b.lemma_entry_at(c, q - 1);
            if slice_has_before(b, c, r, q - 1) {
                let w = choose|w: int|
                    b.outer_start(c) <= w < q - 1 && (#[trigger] b.indices@[w]) == r;
                assert(b.indices@[w] < b.indices@[q - 1]);
            }
            assert(slice_has_before(b, c, r, q));
        } else {
            if slice_has_before(b, c, r, q) {
                let w = choose|w: int|
                    b.outer_start(c) <= w < q && (#[trigger] b.indices@[w]) == r;
                assert(w < q - 1);
                assert(slice_has_before(b, c, r, q - 1));
            }
        }
    }
}

/// The scatter fold cut at a column boundary equals the dense fold of the
/// columns already passed.
pub proof fn lemma_scatter_to_dense<N: Numeric>(b: CsMat<N>, v: Seq<N>, init: N, r: int, c: int)
    requires
        b.wf(),
        0 <= c <= b.outer_dim(),
    ensures
        scatter_prefix(b, v, init, r, b.indptr@[c] as int) == dense_fold(
            col_ent(b, r),
            v,
            init,
            c,
        ),
    decreases c,
{
    if c > 0 {
        lemma_scatter_to_dense(b, v, init, r, c - 1);
        lemma_scatter_col(b, v, init, r, c - 1, b.outer_end(c - 1));
        assert(slice_has_before(b, c - 1, r, b.outer_end(c - 1)) == b.slice_has(c - 1, r));
        assert(col_ent(b, r)(c - 1) == b.entry_opt(c - 1, r));
    }
}

/// The whole scatter fold equals the dense fold over all columns.
pub proof fn lemma_scatter_total<N: Numeric>(b: CsMat<N>, v: Seq<N>, init: N, r: int)
    requires
        b.wf(),
    ensures
        scatter_prefix(b, v, init, r, b.data@.len() as int) == dense_fold(
            col_ent(b, r),
            v,
            init,
            b.outer_dim(),
        ),
{
    lemma_scatter_to_dense(b, v, init, r, b.outer_dim());
}

/// Row-major and column-major accumulation of the same mathematical
/// matrix agree exactly, output slot by output slot: folding row `r` of
/// the row-major matrix `a` equals scattering the whole column-major
/// matrix `b` onto row `r`, whenever the two store entry-for-entry the
/// same matrix. This holds for any `Numeric` scalar — both kernels visit
/// row `r`'s entries in the same ascending column order.
pub proof fn lemma_csr_csc_agree<N: Numeric>(a: CsMat<N>, b: CsMat<N>, v: Seq<N>, init: N, r: int)
    requires
        a.wf(),
        b.wf(),
        a.storage == CompressedStorage::CSR,
        b.storage == CompressedStorage::CSC,
        a.nrows == b.nrows,
        a.ncols == b.ncols,
        forall|i: int, j: int|
            0 <= i < a.nrows && 0 <= j < a.ncols
                ==> #[trigger] a.entry_opt(i, j) == b.entry_opt(j, i),
        0 <= r < a.nrows,
    ensures
        row_prefix(a, v, init, r, a.outer_end(r)) == scatter_prefix(
            b,
            v,
            init,
            r,
            b.data@.len() as int,
        ),
{
    lemma_row_total(a, v, init, r);
    lemma_scatter_total(b, v, init, r);
    assert forall|j: int| 0 <= j < a.inner_dim()
        implies #[trigger] row_ent(a, r)(j) == col_ent(b, r)(j) by {
        assert(a.entry_opt(r, j) == b.entry_opt(j, r));
    }
    lemma_dense_fold_congruence(row_ent(a, r), col_ent(b, r), v, init, a.inner_dim());
}

/// A matrix with no stored entries accumulates nothing: both kernels
/// leave every output slot at its prior value.
pub proof fn lemma_zero_matrix<N: Numeric>(m: CsMat<N>, v: Seq<N>, init: N, r: int)
    requires
        m.wf(),
        m.data@.len() == 0,
    ensures
        0 <= r < m.outer_dim() ==> row_prefix(m, v, init, r, m.outer_end(r)) == init,
        scatter_prefix(m, v, init, r, m.data@.len() as int) == init,
{
    if 0 <= r < m.outer_dim() {
        m.lemma_slice_in_range(r);
    }
}

/// Wrapping 64-bit addition is associative.
pub proof fn lemma_i64_add_assoc(a: i64, b: i64, c: i64)
    ensures
        a.add_spec(b).add_spec(c) == a.add_spec(b.add_spec(c)),
{
}

/// Accumulation into a row-major output slot is additive for `i64`
/// scalars: a kernel call adds to the slot a delta that does not depend
/// on the slot's prior contents. Two identical calls therefore add the
/// same delta twice.
pub proof fn lemma_row_prefix_additive(m: CsMat<i64>, v: Seq<i64>, init: i64, o: int, p: int)
    ensures
        row_prefix(m, v, init, o, p) == init.add_spec(row_prefix(m, v, 0i64, o, p)),
    decreases p - m.outer_start(o),
{
    if p > m.outer_start(o) {
        lemma_row_prefix_additive(m, v, init, o, p - 1);
        lemma_i64_add_assoc(
            init,
            row_prefix(m, v, 0i64, o, p - 1),
            v[m.indices@[p - 1] as int].mul_spec(m.data@[p - 1]),
        );
    }
}

/// Accumulation into a column-major output slot is additive for `i64`
/// scalars, in the same sense as `lemma_row_prefix_additive`.
pub proof fn lemma_scatter_prefix_additive(m: CsMat<i64>, v: Seq<i64>, init: i64, r: int, p: int)
    ensures
        scatter_prefix(m, v, init, r, p) == init.add_spec(scatter_prefix(m, v, 0i64, r, p)),
    decreases p,
{
    if p > 0 {
        lemma_scatter_prefix_additive(m, v, init, r, p - 1);
        if m.indices@[p - 1] == r {
            lemma_i64_add_assoc(
                init,
                scatter_prefix(m, v, 0i64, r, p - 1),
                v[m.outer_of(p - 1)].mul_spec(m.data@[p - 1]),
            );
        }
    }
}

/// Doubling, as a corollary: starting from a zeroed slot, a second
/// identical row-major accumulation yields twice the first result.
pub proof fn lemma_row_prefix_doubles(m: CsMat<i64>, v: Seq<i64>, o: int, p: int)
    ensures
        row_prefix(m, v, row_prefix(m, v, 0i64, o, p), o, p) == row_prefix(
            m,
            v,
            0i64,
            o,
            p,
        ).add_spec(row_prefix(m, v, 0i64, o, p)),
{
    lemma_row_prefix_additive(m, v, row_prefix(m, v, 0i64, o, p), o, p);
}

/// Wrapping 64-bit addition is commutative.
pub proof fn lemma_i64_add_comm(a: i64, b: i64)
    ensures
        a.add_spec(b) == b.add_spec(a),
{
}

/// Wrapping 64-bit multiplication is commutative.
pub proof fn lemma_i64_mul_comm(a: i64, b: i64)
    ensures
        a.mul_spec(b) == b.mul_spec(a),
{
    lemma_mul_is_commutative(a as int, b as int);
}

/// Two integers congruent modulo 2^64 crop to the same 64-bit value.
proof fn lemma_crop_congruent(u: int, v: int)
    requires
        (u - v) % 0x1_0000_0000_0000_0000 == 0,
    ensures
        vstd::wrapping::i64_specs::signed_crop(u) == vstd::wrapping::i64_specs::signed_crop(v),
{
    let m = 0x1_0000_0000_0000_0000int;
    lemma_fundamental_div_mod(u - v, m);
    let k = (u - v) / m;
    assert(u == m * k + v);
    lemma_mod_multiples_vanish(k, v, m);
}

/// Cropping changes an integer by a multiple of 2^64.
proof fn lemma_crop_is_congruent(u: int)
    ensures
        (vstd::wrapping::i64_specs::signed_crop(u) - u) % 0x1_0000_0000_0000_0000 == 0,
{
    let m = 0x1_0000_0000_0000_0000int;
    lemma_fundamental_div_mod(u, m);
    let c = vstd::wrapping::i64_specs::signed_crop(u) as int;
    assert(c - u == m * (-(u / m)) || c - u == m * (-(u / m) - 1));
    lemma_mod_multiples_vanish(-(u / m), 0, m);
    lemma_mod_multiples_vanish(-(u / m) - 1, 0, m);
}

/// Two multiples of 2^64 sum to a multiple of 2^64.
proof fn lemma_mod_zero_add(a: int, b: int)
    requires
        a % 0x1_0000_0000_0000_0000 == 0,
        b % 0x1_0000_0000_0000_0000 == 0,
    ensures
        (a + b) % 0x1_0000_0000_0000_0000 == 0,
{
    let m = 0x1_0000_0000_0000_0000int;
    lemma_fundamental_div_mod(a, m);
    lemma_fundamental_div_mod(b, m);
    lemma_mod_multiples_vanish(a / m + b / m, 0, m);
}

/// Congruence modulo 2^64 survives multiplication by a common factor.
proof fn lemma_cong_mul(a: int, s: int, z: int)
    requires
        (a - s) % 0x1_0000_0000_0000_0000 == 0,
    ensures
        (a * z - s * z) % 0x1_0000_0000_0000_0000 == 0,
{
    let m = 0x1_0000_0000_0000_0000int;
    lemma_fundamental_div_mod(a - s, m);
    let k = (a - s) / m;
    assert(a - s == m * k);
    lemma_mul_is_distributive_sub(z, a, s);
    lemma_mul_is_commutative(z, a - s);
    lemma_mul_is_commutative(z, a);
    lemma_mul_is_commutative(z, s);
    assert(a * z - s * z == (m * k) * z);
    lemma_mul_is_associative(m, k, z);
    lemma_mod_multiples_vanish(k * z, 0, m);
}

/// Wrapping 64-bit addition changes the exact sum by a multiple of 2^64.
proof fn lemma_wadd_shape(x: i64, y: i64)
    ensures
        (x.add_spec(y) - (x + y)) % 0x1_0000_0000_0000_0000 == 0,
{
    let m = 0x1_0000_0000_0000_0000int;
    let a = x.add_spec(y) as int;
    assert(a - (x + y) == 0 || a - (x + y) == m || a - (x + y) == -m);
    lemma_mod_multiples_vanish(1, 0, m);
    lemma_mod_multiples_vanish(-1, 0, m);
    lemma_mod_multiples_vanish(0, 0, m);
}

/// Two 64-bit-range integers congruent modulo 2^64 are equal.
proof fn lemma_congruent_in_range(u: int, v: int)
    requires
        (u - v) % 0x1_0000_0000_0000_0000 == 0,
        i64::MIN <= u <= i64::MAX,
        i64::MIN <= v <= i64::MAX,
    ensures
        u == v,
{
    let m = 0x1_0000_0000_0000_0000int;
    lemma_fundamental_div_mod(u - v, m);
    assert(u - v == m * ((u - v) / m));
}

/// Wrapping 64-bit multiplication distributes over wrapping addition.
pub proof fn lemma_i64_mul_distributes(x: i64, y: i64, z: i64)
    ensures
        x.add_spec(y).mul_spec(z) == x.mul_spec(z).add_spec(y.mul_spec(z)),
{
    let m = 0x1_0000_0000_0000_0000int;
    let s = x as int + y as int;
    let a = x.add_spec(y) as int;
    lemma_wadd_shape(x, y);
    lemma_cong_mul(a, s, z as int);
    lemma_mul_is_distributive_add(z as int, x as int, y as int);
    lemma_mul_is_commutative(z as int, s);
    lemma_mul_is_commutative(z as int, x as int);
    lemma_mul_is_commutative(z as int, y as int);
    assert(s * z == x as int * z + y as int * z);
    // left side: crop(a * z) == crop(x*z + y*z)
    lemma_crop_congruent(a * z, x as int * z + y as int * z);
    // right side is congruent to x*z + y*z as well, and in 64-bit range
    let p = x.mul_spec(z) as int;
    let q = y.mul_spec(z) as int;
    lemma_crop_is_congruent(x as int * z);
    lemma_crop_is_congruent(y as int * z);
    lemma_wadd_shape(x.mul_spec(z), y.mul_spec(z));
    let rhs = x.mul_spec(z).add_spec(y.mul_spec(z)) as int;
    lemma_mod_zero_add(p - x as int * z, q - y as int * z);
    lemma_mod_zero_add(rhs - (p + q), (p + q) - (x as int * z + y as int * z));
    // the left side's crop is also congruent and in range, so they agree
    lemma_crop_is_congruent(x as int * z + y as int * z);
    let lhs = x.add_spec(y).mul_spec(z) as int;
    lemma_mod_zero_add(
        rhs - (x as int * z + y as int * z),
        (x as int * z + y as int * z) - lhs,
    );
    lemma_congruent_in_range(rhs, lhs);
}

/// Wrapping 64-bit multiplication is associative.
pub proof fn lemma_i64_mul_assoc(x: i64, y: i64, z: i64)
    ensures
        x.mul_spec(y).mul_spec(z) == x.mul_spec(y.mul_spec(z)),
{
    let a = x.mul_spec(y) as int;
    let b = y.mul_spec(z) as int;
    lemma_crop_is_congruent(x as int * y);
    lemma_crop_is_congruent(y as int * z);
    lemma_cong_mul(a, x as int * y, z as int);
    lemma_cong_mul(b, y as int * z, x as int);
    lemma_mul_is_commutative(b, x as int);
    lemma_mul_is_commutative(y as int * z, x as int);
    lemma_mul_is_associative(x as int, y as int, z as int);
    lemma_crop_congruent(a * z, (x as int * y) * z);
    lemma_crop_congruent(x as int * b, x as int * (y as int * z));
}

/// The matrix stores entries only on its diagonal.
pub open spec fn is_diagonal<N>(d: CsMat<N>) -> bool {
    forall|k: int, j: int| 0 <= k < d.outer_dim() && #[trigger] d.slice_has(k, j) ==> j == k
}

/// Workspace contents while multiplying by a diagonal matrix: at most the
/// left row's own entry at `j`, scaled by the diagonal entry `d[j, j]`.
proof fn lemma_diag_prefix<N: Numeric>(l: CsMat<N>, d: CsMat<N>, i: int, lp: int, j: int)
    requires
        l.wf(),
        d.wf(),
        is_diagonal(d),
        l.inner_dim() == d.outer_dim(),
        0 <= i < l.outer_dim(),
        l.outer_start(i) <= lp <= l.outer_end(i),
    ensures
        prod_prefix(l, d, i, lp, j) == (if slice_has_before(l, i, j, lp) && d.slice_has(j, j) {
            Some(l.slice_val(i, j).mul_spec(d.slice_val(j, j)))
        } else {
            None
        }),
    decreases lp - l.outer_start(i),
{
    l.lemma_slice_in_range(i);
    if lp > l.outer_start(i) {
        lemma_diag_prefix(l, d, i, lp - 1, j);
        l.lemma_entry_at(i, lp - 1);
        assert(l.slice_sorted(i));
        let k = l.indices@[lp - 1] as int;
        if d.slice_has(k, j) {
            assert(j == k);
            if slice_has_before(l, i, j, lp - 1) {
                let w = choose|w: int|
                    l.outer_start(i) <= w < lp - 1 && (#[trigger] l.indices@[w]) == j;
                assert(l.indices@[w] < l.indices@[lp - 1]);
            }
            assert(slice_has_before(l, i, j, lp));
        } else {
            if k == j {
                assert(!d.slice_has(j, j));
                assert(slice_has_before(l, i, j, lp));
            } else {
                if slice_has_before(l, i, j, lp) {
                    let w = choose|w: int|
                        l.outer_start(i) <= w < lp && (#[trigger] l.indices@[w]) == j;
                    assert(w < lp - 1);
                    assert(slice_has_before(l, i, j, lp - 1));
                }
            }
        }
    }
}

/// Multiplying by a diagonal matrix reproduces the left matrix's rows,
/// each entry scaled by the matching diagonal entry: the product's entry
/// at `(i, j)` is `l[i, j] * d[j, j]` where both exist, and is absent
/// where either is.
pub proof fn lemma_diagonal_product<N: Numeric>(l: CsMat<N>, d: CsMat<N>, i: int, j: int)
    requires
        l.wf(),
        d.wf(),
        is_diagonal(d),
        l.inner_dim() == d.outer_dim(),
        0 <= i < l.outer_dim(),
    ensures
        prod_entry(l, d, i, j) == (match l.entry_opt(i, j) {
            Some(lv) => if d.slice_has(j, j) {
                Some(lv.mul_spec(d.slice_val(j, j)))
            } else {
                None
            },
            None => None,
        }),
{
    lemma_diag_prefix(l, d, i, l.outer_end(i), j);
    assert(slice_has_before(l, i, j, l.outer_end(i)) == l.slice_has(i, j));
}

} // verus!
