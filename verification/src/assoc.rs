//! Associativity of the sparse-sparse product for the wrapping 64-bit
//! integer scalar: the entries of `(A x B) x C` and `A x (B x C)` agree
//! exactly. The proof reduces each product entry to a canonical wrapping
//! sum over scalar chains `a[i,k] * b[k,m] * c[m,j]` and exchanges the
//! two summation orders.

use vstd::prelude::*;

use crate::csmat::CsMat;
use crate::laws::lemma_i64_add_assoc;
use crate::laws::lemma_i64_add_comm;
use crate::laws::lemma_i64_mul_assoc;
use crate::laws::lemma_i64_mul_comm;
use crate::laws::lemma_i64_mul_distributes;
use crate::laws::lemma_row_to_dense;
use crate::laws::row_bound;
use crate::prod::prod_entry;
use crate::prod::prod_prefix;
use crate::scalar::Numeric;

verus! {

/// The value of an optional accumulator, an empty slot counting as zero.
pub open spec fn val0(x: Option<i64>) -> i64 {
    match x {
        Some(v) => v,
        None => 0i64,
    }
}

/// Wrapping sum of `f(0), .., f(n - 1)`, folded from the left.
pub open spec fn wsum(f: spec_fn(int) -> i64, n: int) -> i64
    decreases n,
{
    if n <= 0 {
        0i64
    } else {
        wsum(f, n - 1).add_spec(f(n - 1))
    }
}

/// The `k`-th term of the product entry at `(i, j)`: the scalar product
/// `a[i, k] * b[k, j]`, zero where either factor is absent.
pub open spec fn pair_fn(a: CsMat<i64>, b: CsMat<i64>, i: int, j: int) -> spec_fn(int) -> i64 {
    |k: int|
        if a.slice_has(i, k) && b.slice_has(k, j) {
            a.slice_val(i, k).mul_spec(b.slice_val(k, j))
        } else {
            0i64
        }
}

/// Some scalar chain `a[i, k] * b[k, j]` exists: exactly when the product
/// entry at `(i, j)` is occupied.
pub open spec fn chain2<N>(a: CsMat<N>, b: CsMat<N>, i: int, j: int) -> bool {
    exists|k: int| #[trigger] a.slice_has(i, k) && b.slice_has(k, j)
}

/// Sums of pointwise-equal terms are equal.
proof fn lemma_wsum_congruence(f: spec_fn(int) -> i64, g: spec_fn(int) -> i64, n: int)
    requires
        forall|k: int| 0 <= k < n ==> #[trigger] f(k) == g(k),
    ensures
        wsum(f, n) == wsum(g, n),
    decreases n,
{
    if n > 0 {
        lemma_wsum_congruence(f, g, n - 1);
    }
}

/// A sum of zeros is zero.
proof fn lemma_wsum_zero(f: spec_fn(int) -> i64, n: int)
    requires
        forall|k: int| 0 <= k < n ==> #[trigger] f(k) == 0i64,
    ensures
        wsum(f, n) == 0i64,
    decreases n,
{
    if n > 0 {
        lemma_wsum_zero(f, n - 1);
    }
}

/// A sum moves past a run of zero terms unchanged.
proof fn lemma_wsum_skip(f: spec_fn(int) -> i64, n1: int, n2: int)
    requires
        0 <= n1 <= n2,
        forall|k: int| n1 <= k < n2 ==> #[trigger] f(k) == 0i64,
    ensures
        wsum(f, n2) == wsum(f, n1),
    decreases n2 - n1,
{
    if n1 < n2 {
        lemma_wsum_skip(f, n1, n2 - 1);
    }
}

/// Each term scaled by `z` on the right.
pub open spec fn scale_fn(f: spec_fn(int) -> i64, z: i64) -> spec_fn(int) -> i64 {
    |k: int| f(k).mul_spec(z)
}

/// A common right factor distributes out of a wrapping sum.
proof fn lemma_wsum_scale(f: spec_fn(int) -> i64, z: i64, n: int)
    ensures
        wsum(f, n).mul_spec(z) == wsum(scale_fn(f, z), n),
    decreases n,
{
    if n <= 0 {
        assert(wsum(f, 0).mul_spec(z) == 0i64);
    } else {
        lemma_wsum_scale(f, z, n - 1);
        lemma_i64_mul_distributes(wsum(f, n - 1), f(n - 1), z);
    }
}

/// Sums add pointwise: where each term of `h` is the wrapping sum of the
/// matching terms of `u` and `v`, the sums relate the same way.
proof fn lemma_wsum_add(
    u: spec_fn(int) -> i64,
    v: spec_fn(int) -> i64,
    h: spec_fn(int) -> i64,
    n: int,
)
    requires
        forall|k: int| 0 <= k < n ==> #[trigger] h(k) == u(k).add_spec(v(k)),
    ensures
        wsum(h, n) == wsum(u, n).add_spec(wsum(v, n)),
    decreases n,
{
    if n <= 0 {
    } else {
        lemma_wsum_add(u, v, h, n - 1);
        let su = wsum(u, n - 1);
        let sv = wsum(v, n - 1);
        let tu = u(n - 1);
        let tv = v(n - 1);
        // (su + sv) + (tu + tv) == (su + tu) + (sv + tv)
        lemma_i64_add_assoc(su.add_spec(sv), tu, tv);
        lemma_i64_add_assoc(su, sv, tu);
        lemma_i64_add_comm(sv, tu);
        lemma_i64_add_assoc(su, tu, sv);
        lemma_i64_add_assoc(su.add_spec(tu), sv, tv);
    }
}

/// Column `m` of a two-variable family, as a function of `k`.
pub open spec fn fn_k_of(g: spec_fn(int, int) -> i64, m: int) -> spec_fn(int) -> i64 {
    |k: int| g(k, m)
}

/// Row `k` of a two-variable family, as a function of `m`.
pub open spec fn fn_m_of(g: spec_fn(int, int) -> i64, k: int) -> spec_fn(int) -> i64 {
    |m: int| g(k, m)
}

/// For each `m`, the sum over `k` of `g(k, m)`.
pub open spec fn colsum(g: spec_fn(int, int) -> i64, p: int) -> spec_fn(int) -> i64 {
    |m: int| wsum(fn_k_of(g, m), p)
}

/// For each `k`, the sum over `m` of `g(k, m)`.
pub open spec fn rowsum(g: spec_fn(int, int) -> i64, q: int) -> spec_fn(int) -> i64 {
    |k: int| wsum(fn_m_of(g, k), q)
}

/// The two orders of a double wrapping sum agree.
proof fn lemma_wsum_fubini(g: spec_fn(int, int) -> i64, p: int, q: int)
    ensures
        wsum(colsum(g, p), q) == wsum(rowsum(g, q), p),
    decreases q,
{
    if q <= 0 {
        assert forall|k: int| 0 <= k < p implies #[trigger] rowsum(g, q)(k) == 0i64 by {
            assert(wsum(fn_m_of(g, k), q) == 0i64);
        }
        lemma_wsum_zero(rowsum(g, q), p);
    } else {
        lemma_wsum_fubini(g, p, q - 1);
        assert forall|k: int| 0 <= k < p
            implies #[trigger] rowsum(g, q)(k) == rowsum(g, q - 1)(k).add_spec(
                fn_k_of(g, q - 1)(k),
            ) by {
            assert(wsum(fn_m_of(g, k), q) == wsum(fn_m_of(g, k), q - 1).add_spec(g(k, q - 1)));
        }
        lemma_wsum_add(rowsum(g, q - 1), fn_k_of(g, q - 1), rowsum(g, q), p);
        assert(wsum(colsum(g, p), q) == wsum(colsum(g, p), q - 1).add_spec(
            wsum(fn_k_of(g, q - 1), p),
        ));
    }
}

/// A partial product fold is occupied exactly when some already-processed
/// left entry found a matching right entry.
proof fn lemma_prod_prefix_presence<N: Numeric>(a: CsMat<N>, b: CsMat<N>, i: int, lp: int, j: int)
    requires
        a.wf(),
        0 <= i < a.outer_dim(),
        a.outer_start(i) <= lp <= a.outer_end(i),
    ensures
        (prod_prefix(a, b, i, lp, j) is Some) <==> exists|q: int|
            a.outer_start(i) <= q < lp && b.slice_has(#[trigger] a.indices@[q] as int, j),
    decreases lp - a.outer_start(i),
{
    if lp > a.outer_start(i) {
        lemma_prod_prefix_presence(a, b, i, lp - 1, j);
        let k = a.indices@[lp - 1] as int;
        if b.slice_has(k, j) {
            assert(a.outer_start(i) <= lp - 1 < lp && b.slice_has(a.indices@[lp - 1] as int, j));
        } else {
            if exists|q: int|
                a.outer_start(i) <= q < lp && b.slice_has(#[trigger] a.indices@[q] as int, j) {
                let q = choose|q: int|
                    a.outer_start(i) <= q < lp && b.slice_has(#[trigger] a.indices@[q] as int, j);
                assert(q < lp - 1);
            }
        }
    }
}

/// A product entry is occupied exactly when some scalar chain exists.
pub proof fn lemma_prod_presence<N: Numeric>(a: CsMat<N>, b: CsMat<N>, i: int, j: int)
    requires
        a.wf(),
        0 <= i < a.outer_dim(),
    ensures
        (prod_entry(a, b, i, j) is Some) <==> chain2(a, b, i, j),
{
    a.lemma_slice_in_range(i);
    lemma_prod_prefix_presence(a, b, i, a.outer_end(i), j);
    if prod_entry(a, b, i, j) is Some {
        let q = choose|q: int|
            a.outer_start(i) <= q < a.outer_end(i)
                && b.slice_has(#[trigger] a.indices@[q] as int, j);
        a.lemma_entry_at(i, q);
        assert(a.slice_has(i, a.indices@[q] as int) && b.slice_has(a.indices@[q] as int, j));
    }
    if chain2(a, b, i, j) {
        let k = choose|k: int| #[trigger] a.slice_has(i, k) && b.slice_has(k, j);
        let q = a.slice_pos(i, k);
        assert(a.outer_start(i) <= q < a.outer_end(i) && a.indices@[q] == k);
        assert(b.slice_has(a.indices@[q] as int, j));
    }
}

/// The value of a partial product fold is the wrapping sum of the pair
/// terms for the coordinates consumed so far.
proof fn lemma_prod_prefix_value(a: CsMat<i64>, b: CsMat<i64>, i: int, lp: int, j: int)
    requires
        a.wf(),
        b.wf(),
        0 <= i < a.outer_dim(),
        a.outer_start(i) <= lp <= a.outer_end(i),
    ensures
        val0(prod_prefix(a, b, i, lp, j)) == wsum(pair_fn(a, b, i, j), row_bound(a, i, lp)),
    decreases lp - a.outer_start(i),
{
    a.lemma_slice_in_range(i);
    lemma_row_to_dense(a, Seq::<i64>::empty(), 0i64, i, lp);
    if lp > a.outer_start(i) {
        lemma_prod_prefix_value(a, b, i, lp - 1, j);
        lemma_row_to_dense(a, Seq::<i64>::empty(), 0i64, i, lp - 1);
        a.lemma_entry_at(i, lp - 1);
        assert(a.slice_sorted(i));
        let k = a.indices@[lp - 1] as int;
        let jb = row_bound(a, i, lp - 1);
        let f = pair_fn(a, b, i, j);
        assert forall|kk: int| jb <= kk < k implies #[trigger] f(kk) == 0i64 by {
            if a.slice_has(i, kk) {
                let q = a.slice_pos(i, kk);
                assert(a.outer_start(i) <= q < a.outer_end(i) && a.indices@[q] == kk);
                if q < lp - 1 {
                    assert(a.indices@[q] < a.indices@[lp - 1]);
                    assert(a.indices@[q] >= jb);
                }
            }
        }
        lemma_wsum_skip(f, jb, k);
        assert(a.slice_pos(i, k) == lp - 1);
        assert(wsum(f, k + 1) == wsum(f, k).add_spec(f(k)));
        if b.slice_has(k, j) {
            assert(f(k) == a.data@[lp - 1].mul_spec(b.slice_val(k, j)));
        } else {
            assert(f(k) == 0i64);
        }
    }
}

/// A whole product entry's value is the wrapping sum of all pair terms.
pub proof fn lemma_prod_value(a: CsMat<i64>, b: CsMat<i64>, i: int, j: int)
    requires
        a.wf(),
        b.wf(),
        0 <= i < a.outer_dim(),
    ensures
        val0(prod_entry(a, b, i, j)) == wsum(pair_fn(a, b, i, j), a.inner_dim()),
{
    a.lemma_slice_in_range(i);
    let e = a.outer_end(i);
    lemma_prod_prefix_value(a, b, i, e, j);
    lemma_row_to_dense(a, Seq::<i64>::empty(), 0i64, i, e);
    let f = pair_fn(a, b, i, j);
    assert forall|kk: int| row_bound(a, i, e) <= kk < a.inner_dim()
        implies #[trigger] f(kk) == 0i64 by {
        if a.slice_has(i, kk) {
            let q = a.slice_pos(i, kk);
            assert(a.outer_start(i) <= q < e && a.indices@[q] == kk);
            assert(a.slice_sorted(i));
            if e > a.outer_start(i) && q < e - 1 {
                assert(a.indices@[q] < a.indices@[e - 1]);
            }
        }
    }
    lemma_wsum_skip(f, row_bound(a, i, e), a.inner_dim());
}

/// Where no chain exists, every pair term is zero and the sum vanishes.
proof fn lemma_no_chain_zero(a: CsMat<i64>, b: CsMat<i64>, i: int, j: int, n: int)
    requires
        !chain2(a, b, i, j),
    ensures
        wsum(pair_fn(a, b, i, j), n) == 0i64,
{
    let f = pair_fn(a, b, i, j);
    assert forall|k: int| 0 <= k < n implies #[trigger] f(k) == 0i64 by {
        if a.slice_has(i, k) && b.slice_has(k, j) {
            assert(chain2(a, b, i, j));
        }
    }
    lemma_wsum_zero(f, n);
}

/// The chain terms of a triple product, multiplied left to right.
pub open spec fn triple_left(
    a: CsMat<i64>,
    b: CsMat<i64>,
    c: CsMat<i64>,
    i: int,
    j: int,
) -> spec_fn(int, int) -> i64 {
    |k: int, m: int|
        if a.slice_has(i, k) && b.slice_has(k, m) && c.slice_has(m, j) {
            a.slice_val(i, k).mul_spec(b.slice_val(k, m)).mul_spec(c.slice_val(m, j))
        } else {
            0i64
        }
}

/// The chain terms of a triple product, multiplied right to left.
pub open spec fn triple_right(
    a: CsMat<i64>,
    b: CsMat<i64>,
    c: CsMat<i64>,
    i: int,
    j: int,
) -> spec_fn(int, int) -> i64 {
    |k: int, m: int|
        if a.slice_has(i, k) && b.slice_has(k, m) && c.slice_has(m, j) {
            a.slice_val(i, k).mul_spec(b.slice_val(k, m).mul_spec(c.slice_val(m, j)))
        } else {
            0i64
        }
}

/// The sparse-sparse product is associative for the wrapping 64-bit
/// integer scalar: where `ab` holds the entries of `a x b` and `bc` those
/// of `b x c`, the products `ab x c` and `a x bc` have identical entries
/// — the same occupancy and the same values.
#[verifier::rlimit(100)]
#[verifier::spinoff_prover]
pub proof fn lemma_product_associative(
    a: CsMat<i64>,
    b: CsMat<i64>,
    c: CsMat<i64>,
    ab: CsMat<i64>,
    bc: CsMat<i64>,
    i: int,
    j: int,
)
    requires
        a.wf(),
        b.wf(),
        c.wf(),
        ab.wf(),
        bc.wf(),
        a.inner_dim() == b.outer_dim(),
        b.inner_dim() == c.outer_dim(),
        ab.outer_dim() == a.outer_dim(),
        ab.inner_dim() == b.inner_dim(),
        bc.outer_dim() == b.outer_dim(),
        bc.inner_dim() == c.inner_dim(),
        forall|i2: int, m: int|
            0 <= i2 < a.outer_dim() && 0 <= m < b.inner_dim()
                ==> #[trigger] ab.entry_opt(i2, m) == prod_entry(a, b, i2, m),
        forall|k: int, j2: int|
            0 <= k < b.outer_dim() && 0 <= j2 < c.inner_dim()
                ==> #[trigger] bc.entry_opt(k, j2) == prod_entry(b, c, k, j2),
        0 <= i < a.outer_dim(),
        0 <= j < c.inner_dim(),
    ensures
        prod_entry(ab, c, i, j) == prod_entry(a, bc, i, j),
{
    let p = a.inner_dim();
    let q = b.inner_dim();
    let gl = triple_left(a, b, c, i, j);
    let gr = triple_right(a, b, c, i, j);
    // the left association's value, as a double sum over (m, k)
    lemma_prod_value(ab, c, i, j);
    assert forall|m: int| 0 <= m < q
        implies #[trigger] pair_fn(ab, c, i, j)(m) == colsum(gl, p)(m) by {
        lemma_prod_presence(a, b, i, m);
        lemma_prod_value(a, b, i, m);
        if c.slice_has(m, j) {
            if chain2(a, b, i, m) {
                assert(ab.entry_opt(i, m) == prod_entry(a, b, i, m));
                assert(ab.slice_has(i, m));
                let cv = c.slice_val(m, j);
                assert(ab.slice_val(i, m) == wsum(pair_fn(a, b, i, m), p));
                lemma_wsum_scale(pair_fn(a, b, i, m), cv, p);
                assert forall|k: int| 0 <= k < p
                    implies #[trigger] scale_fn(pair_fn(a, b, i, m), cv)(k)
                        == fn_k_of(gl, m)(k) by {
                    if !(a.slice_has(i, k) && b.slice_has(k, m)) {
                        assert((0i64).mul_spec(cv) == 0i64);
                    }
                }
                lemma_wsum_congruence(scale_fn(pair_fn(a, b, i, m), cv), fn_k_of(gl, m), p);
            } else {
                assert(!ab.slice_has(i, m));
                assert forall|k: int| 0 <= k < p
                    implies #[trigger] fn_k_of(gl, m)(k) == 0i64 by {
                    if a.slice_has(i, k) && b.slice_has(k, m) {
                        assert(chain2(a, b, i, m));
                    }
                }
                lemma_wsum_zero(fn_k_of(gl, m), p);
            }
        } else {
            assert forall|k: int| 0 <= k < p implies #[trigger] fn_k_of(gl, m)(k) == 0i64 by {
            }
            lemma_wsum_zero(fn_k_of(gl, m), p);
        }
    }
    lemma_wsum_congruence(pair_fn(ab, c, i, j), colsum(gl, p), q);
    lemma_wsum_fubini(gl, p, q);
    // the right association's value, as a double sum over (k, m)
    lemma_prod_value(a, bc, i, j);
    assert forall|k: int| 0 <= k < p
        implies #[trigger] pair_fn(a, bc, i, j)(k) == rowsum(gr, q)(k) by {
        lemma_prod_presence(b, c, k, j);
        lemma_prod_value(b, c, k, j);
        if a.slice_has(i, k) {
            if chain2(b, c, k, j) {
                assert(bc.entry_opt(k, j) == prod_entry(b, c, k, j));
                assert(bc.slice_has(k, j));
                let av = a.slice_val(i, k);
                let s_bc = wsum(pair_fn(b, c, k, j), q);
                assert(bc.slice_val(k, j) == s_bc);
                lemma_i64_mul_comm(av, s_bc);
                lemma_wsum_scale(pair_fn(b, c, k, j), av, q);
                assert forall|m: int| 0 <= m < q
                    implies #[trigger] scale_fn(pair_fn(b, c, k, j), av)(m)
                        == fn_m_of(gr, k)(m) by {
                    if b.slice_has(k, m) && c.slice_has(m, j) {
                        lemma_i64_mul_comm(
                            b.slice_val(k, m).mul_spec(c.slice_val(m, j)),
                            av,
                        );
                    } else {
                        assert((0i64).mul_spec(av) == 0i64);
                    }
                }
                lemma_wsum_congruence(scale_fn(pair_fn(b, c, k, j), av), fn_m_of(gr, k), q);
            } else {
                assert(!bc.slice_has(k, j));
                assert forall|m: int| 0 <= m < q
                    implies #[trigger] fn_m_of(gr, k)(m) == 0i64 by {
                    if b.slice_has(k, m) && c.slice_has(m, j) {
                        assert(chain2(b, c, k, j));
                    }
                }
                lemma_wsum_zero(fn_m_of(gr, k), q);
            }
        } else {
            assert forall|m: int| 0 <= m < q implies #[trigger] fn_m_of(gr, k)(m) == 0i64 by {
            }
            lemma_wsum_zero(fn_m_of(gr, k), q);
        }
    }
    lemma_wsum_congruence(pair_fn(a, bc, i, j), rowsum(gr, q), p);
    // the two triple families agree by associativity of multiplication
    assert forall|k: int| 0 <= k < p implies #[trigger] rowsum(gl, q)(k) == rowsum(gr, q)(k) by {
        assert forall|m: int| 0 <= m < q
            implies #[trigger] fn_m_of(gl, k)(m) == fn_m_of(gr, k)(m) by {
            if a.slice_has(i, k) && b.slice_has(k, m) && c.slice_has(m, j) {
                lemma_i64_mul_assoc(a.slice_val(i, k), b.slice_val(k, m), c.slice_val(m, j));
            }
        }
        lemma_wsum_congruence(fn_m_of(gl, k), fn_m_of(gr, k), q);
    }
    lemma_wsum_congruence(rowsum(gl, q), rowsum(gr, q), p);
    assert(val0(prod_entry(ab, c, i, j)) == val0(prod_entry(a, bc, i, j)));
    // the two associations occupy the same entries
    lemma_prod_presence(ab, c, i, j);
    lemma_prod_presence(a, bc, i, j);
    if chain2(ab, c, i, j) {
        let m = choose|m: int| #[trigger] ab.slice_has(i, m) && c.slice_has(m, j);
        ab.lemma_slice_has_bound(i, m);
        assert(ab.entry_opt(i, m) == prod_entry(a, b, i, m));
        lemma_prod_presence(a, b, i, m);
        let k = choose|k: int| #[trigger] a.slice_has(i, k) && b.slice_has(k, m);
        a.lemma_slice_has_bound(i, k);
        assert(chain2(b, c, k, j));
        lemma_prod_presence(b, c, k, j);
        assert(bc.entry_opt(k, j) == prod_entry(b, c, k, j));
        assert(bc.slice_has(k, j));
        assert(chain2(a, bc, i, j));
    }
    if chain2(a, bc, i, j) {
        let k = choose|k: int| #[trigger] a.slice_has(i, k) && bc.slice_has(k, j);
        a.lemma_slice_has_bound(i, k);
        assert(bc.entry_opt(k, j) == prod_entry(b, c, k, j));
        lemma_prod_presence(b, c, k, j);
        assert(chain2(b, c, k, j));
        let m = choose|m: int| #[trigger] b.slice_has(k, m) && c.slice_has(m, j);
        b.lemma_slice_has_bound(k, m);
        assert(chain2(a, b, i, m));
        lemma_prod_presence(a, b, i, m);
        assert(ab.entry_opt(i, m) == prod_entry(a, b, i, m));
        assert(ab.slice_has(i, m));
        assert(chain2(ab, c, i, j));
    }
    if prod_entry(ab, c, i, j) is Some {
        assert(prod_entry(a, bc, i, j) is Some);
    } else {
        assert(!chain2(ab, c, i, j));
        assert(prod_entry(a, bc, i, j) is None);
    }
}

} // verus!
