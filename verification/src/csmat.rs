//! The compressed sparse matrix container: three parallel arrays (outer
//! pointers, inner indices, values) plus a storage-order tag that fixes
//! which dimension is the outer one. The well-formedness invariant —
//! pointer monotonicity, index bounds, strictly ascending inner indices
//! within each outer slice — is what every kernel relies on.

use vstd::prelude::*;

verus! {

/// Which dimension is the outer (pointer-indexed) one: rows for `CSR`,
/// columns for `CSC`.
#[derive(Clone, Copy, PartialEq, Eq, Structural, Debug)]
pub enum CompressedStorage {
    CSR,
    CSC,
}

/// Returned by `CsMat::from_slices` when the raw arrays violate the
/// compressed-layout invariant.
#[derive(Clone, Copy, PartialEq, Eq, Structural, Debug)]
pub struct FormatError;

/// The elements of `s` are strictly ascending over positions
/// `start .. end`.
pub open spec fn strictly_ascending(s: Seq<usize>, start: int, end: int) -> bool {
    forall|p1: int, p2: int|
        start <= p1 && p1 < p2 && p2 < end ==> (#[trigger] s[p1]) < (#[trigger] s[p2])
}

/// Monotonicity of a pointer array over any distance follows from
/// monotonicity between neighbours.
pub proof fn lemma_ptr_mono(s: Seq<usize>, o1: int, o2: int)
    requires
        0 <= o1 <= o2 < s.len(),
        forall|o: int| 0 <= o < s.len() - 1 ==> (#[trigger] s[o]) <= s[o + 1],
    ensures
        s[o1] <= s[o2],
    decreases o2 - o1,
{
    if o1 < o2 {
        lemma_ptr_mono(s, o1, o2 - 1);
        assert(s[o2 - 1] <= s[o2]);
    }
}

/// A compressed sparse matrix. For each outer index `o`,
/// `indptr[o] .. indptr[o + 1]` is the half-open range of positions in
/// `indices` / `data` holding that outer slice's nonzero entries.
pub struct CsMat<N> {
    pub storage: CompressedStorage,
    pub nrows: usize,
    pub ncols: usize,
    pub indptr: Vec<usize>,
    pub indices: Vec<usize>,
    pub data: Vec<N>,
}

impl<N> CsMat<N> {
    /// Number of outer slices: rows for CSR, columns for CSC.
    pub open spec fn outer_dim(self) -> int {
        if self.storage == CompressedStorage::CSR {
            self.nrows as int
        } else {
            self.ncols as int
        }
    }

    /// Extent of the inner dimension: columns for CSR, rows for CSC.
    pub open spec fn inner_dim(self) -> int {
        if self.storage == CompressedStorage::CSR {
            self.ncols as int
        } else {
            self.nrows as int
        }
    }

    /// First position of outer slice `o` in `indices` / `data`.
    pub open spec fn outer_start(self, o: int) -> int {
        self.indptr@[o] as int
    }

    /// One past the last position of outer slice `o`.
    pub open spec fn outer_end(self, o: int) -> int {
        self.indptr@[o + 1] as int
    }

    /// Inner indices are strictly ascending within outer slice `o`.
    pub open spec fn slice_sorted(self, o: int) -> bool {
        strictly_ascending(self.indices@, self.outer_start(o), self.outer_end(o))
    }

    /// The compressed-layout invariant, stated over the raw arrays so that
    /// `from_slices` can decide it before a matrix exists.
    pub open spec fn arrays_valid(
        storage: CompressedStorage,
        nrows: usize,
        ncols: usize,
        indptr: Seq<usize>,
        indices: Seq<usize>,
        data_len: int,
    ) -> bool {
        let outer: int = if storage == CompressedStorage::CSR {
            nrows as int
        } else {
            ncols as int
        };
        let inner: int = if storage == CompressedStorage::CSR {
            ncols as int
        } else {
            nrows as int
        };
        &&& indptr.len() == outer + 1
        &&& indptr[0] == 0
        &&& (forall|o: int| 0 <= o < outer ==> (#[trigger] indptr[o]) <= indptr[o + 1])
        &&& indptr[outer] == data_len
        &&& indices.len() == data_len
        &&& (forall|p: int| 0 <= p < indices.len() ==> (#[trigger] indices[p]) < inner)
        &&& (forall|o: int|
            0 <= o < outer
                ==> #[trigger] strictly_ascending(indices, indptr[o] as int, indptr[o + 1] as int))
    }

    /// The compressed-layout invariant.
    pub open spec fn wf(self) -> bool {
        Self::arrays_valid(
            self.storage,
            self.nrows,
            self.ncols,
            self.indptr@,
            self.indices@,
            self.data@.len() as int,
        )
    }

    /// Outer slice `o` holds an entry at inner index `i`.
    pub open spec fn slice_has(self, o: int, i: int) -> bool {
        exists|p: int|
            self.outer_start(o) <= p < self.outer_end(o) && (#[trigger] self.indices@[p]) == i
    }

    /// The position of inner index `i` inside outer slice `o` (unique for a
    /// well-formed matrix, since inner indices are strictly ascending).
    pub open spec fn slice_pos(self, o: int, i: int) -> int {
        choose|p: int|
            self.outer_start(o) <= p < self.outer_end(o) && (#[trigger] self.indices@[p]) == i
    }

    /// The stored value at inner index `i` of outer slice `o`.
    pub open spec fn slice_val(self, o: int, i: int) -> N {
        self.data@[self.slice_pos(o, i)]
    }

    /// The entry of outer slice `o` at inner index `i`, or `None` where the
    /// slice stores no entry there.
    pub open spec fn entry_opt(self, o: int, i: int) -> Option<N> {
        if self.slice_has(o, i) {
            Some(self.slice_val(o, i))
        } else {
            None
        }
    }

    /// The outer pointers are monotone over any distance, not only between
    /// neighbours.
    pub proof fn lemma_indptr_mono(self, o1: int, o2: int)
        requires
            self.wf(),
            0 <= o1 <= o2 <= self.outer_dim(),
        ensures
            self.indptr@[o1] <= self.indptr@[o2],
    {
        lemma_ptr_mono(self.indptr@, o1, o2);
    }

    /// Every outer slice's position range lies inside the data arrays.
    pub proof fn lemma_slice_in_range(self, o: int)
        requires
            self.wf(),
            0 <= o < self.outer_dim(),
        ensures
            0 <= self.outer_start(o) <= self.outer_end(o) <= self.data@.len(),
    {
        self.lemma_indptr_mono(0, o);
        assert(self.indptr@[o] <= self.indptr@[o + 1]);
        self.lemma_indptr_mono(o + 1, self.outer_dim());
    }

    /// A position inside a well-formed slice is the unique witness for its
    /// inner index: `slice_pos` picks it and `entry_opt` reads its value.
    pub proof fn lemma_entry_at(self, o: int, p: int)
        requires
            self.wf(),
            0 <= o < self.outer_dim(),
            self.outer_start(o) <= p < self.outer_end(o),
        ensures
            self.slice_has(o, self.indices@[p as int] as int),
            self.slice_pos(o, self.indices@[p as int] as int) == p,
            self.entry_opt(o, self.indices@[p as int] as int)
                == Some(self.data@[p as int]),
    {
        let i = self.indices@[p] as int;
        assert(self.slice_has(o, i));
        let q = self.slice_pos(o, i);
        assert(self.outer_start(o) <= q < self.outer_end(o) && self.indices@[q] == i);
        assert(self.slice_sorted(o));
        if q < p {
            assert(self.indices@[q] < self.indices@[p]);
        } else if p < q {
            assert(self.indices@[p] < self.indices@[q]);
        }
    }

    /// An inner index that a slice stores lies inside the inner dimension.
    pub proof fn lemma_slice_has_bound(self, o: int, i: int)
        requires
            self.wf(),
            0 <= o < self.outer_dim(),
            self.slice_has(o, i),
        ensures
            0 <= i < self.inner_dim(),
    {
        let p = self.slice_pos(o, i);
        assert(self.outer_start(o) <= p < self.outer_end(o) && self.indices@[p] == i);
        self.lemma_slice_in_range(o);
    }

    /// Two well-formed matrices whose slice `o` occupies the same positions
    /// with the same indices and values have the same entries there.
    pub proof fn lemma_entry_eq_on_slice(self, other: CsMat<N>, o: int)
        requires
            self.wf(),
            other.wf(),
            0 <= o < self.outer_dim(),
            0 <= o < other.outer_dim(),
            self.outer_start(o) == other.outer_start(o),
            self.outer_end(o) == other.outer_end(o),
            forall|p: int|
                self.outer_start(o) <= p < self.outer_end(o)
                    ==> (#[trigger] self.indices@[p]) == other.indices@[p]
                        && self.data@[p] == other.data@[p],
        ensures
            forall|i: int| self.entry_opt(o, i) == #[trigger] other.entry_opt(o, i),
    {
        assert forall|i: int| self.entry_opt(o, i) == #[trigger] other.entry_opt(o, i) by {
            if self.slice_has(o, i) {
                let p = self.slice_pos(o, i);
                assert(self.outer_start(o) <= p < self.outer_end(o)
                    && self.indices@[p] == i);
                self.lemma_entry_at(o, p);
                other.lemma_entry_at(o, p);
            } else if other.slice_has(o, i) {
                let p = other.slice_pos(o, i);
                assert(other.outer_start(o) <= p < other.outer_end(o)
                    && other.indices@[p] == i);
                assert(self.indices@[p] == i);
                assert(self.slice_has(o, i));
            }
        }
    }

    /// The outer slice whose position range contains `p` (unique for a
    /// well-formed matrix).
    pub open spec fn outer_of(self, p: int) -> int {
        choose|o: int|
            0 <= o < self.outer_dim()
                && (#[trigger] self.outer_start(o)) <= p < self.outer_end(o)
    }

    /// `outer_of` recovers the slice a position lies in.
    pub proof fn lemma_outer_of(self, o: int, p: int)
        requires
            self.wf(),
            0 <= o < self.outer_dim(),
            self.outer_start(o) <= p < self.outer_end(o),
        ensures
            self.outer_of(p) == o,
    {
        assert(0 <= self.outer_of(p) < self.outer_dim()
            && self.outer_start(self.outer_of(p)) <= p < self.outer_end(self.outer_of(p)));
        let o2 = self.outer_of(p);
        if o2 < o {
            lemma_ptr_mono(self.indptr@, o2 + 1, o);
        } else if o < o2 {
            lemma_ptr_mono(self.indptr@, o + 1, o2);
        }
    }

    /// Row count.
    pub fn rows(&self) -> (r: usize)
        ensures
            r == self.nrows,
    {
        self.nrows
    }

    /// Column count.
    pub fn cols(&self) -> (r: usize)
        ensures
            r == self.ncols,
    {
        self.ncols
    }

    /// The storage-order tag.
    pub fn storage_type(&self) -> (r: CompressedStorage)
        ensures
            r == self.storage,
    {
        self.storage
    }

    /// Number of stored (nonzero) entries.
    pub fn nnz(&self) -> (r: usize)
        ensures
            r == self.data@.len(),
    {
        self.data.len()
    }

    /// A matrix with no outer slices yet: inner dimension fixed, outer
    /// dimension zero, no stored entries.
    pub fn empty(storage: CompressedStorage, inner_dim: usize) -> (r: CsMat<N>)
        ensures
            r.wf(),
            r.storage == storage,
            r.outer_dim() == 0,
            r.inner_dim() == inner_dim,
            r.data@.len() == 0,
    {
        let mut indptr: Vec<usize> = Vec::new();
        indptr.push(0);
        let (nrows, ncols): (usize, usize) = match storage {
            CompressedStorage::CSR => (0, inner_dim),
            CompressedStorage::CSC => (inner_dim, 0),
        };
        CsMat { storage, nrows, ncols, indptr, indices: Vec::new(), data: Vec::new() }
    }

    /// Build a matrix from raw arrays, validating the compressed-layout
    /// invariant: `Ok` holding exactly the given arrays when they satisfy
    /// it, `Err(FormatError)` exactly when they do not.
    #[verifier::loop_isolation(false)]
    pub fn from_slices(
        storage: CompressedStorage,
        nrows: usize,
        ncols: usize,
        indptr: &Vec<usize>,
        indices: &Vec<usize>,
        data: &Vec<N>,
    ) -> (r: Result<CsMat<N>, FormatError>) where N: Copy
        ensures
            r is Ok <==> Self::arrays_valid(
                storage,
                nrows,
                ncols,
                indptr@,
                indices@,
                data@.len() as int,
            ),
            r matches Ok(m) ==> {
                &&& m.storage == storage
                &&& m.nrows == nrows
                &&& m.ncols == ncols
                &&& m.indptr@ == indptr@
                &&& m.indices@ == indices@
                &&& m.data@ == data@
                &&& m.wf()
            },
    {
        let outer: usize = match storage {
            CompressedStorage::CSR => nrows,
            CompressedStorage::CSC => ncols,
        };
        let inner: usize = match storage {
            CompressedStorage::CSR => ncols,
            CompressedStorage::CSC => nrows,
        };
        if indptr.len() == 0 || indptr.len() - 1 != outer {
            return Err(FormatError);
        }
        if indptr[0] != 0 {
            return Err(FormatError);
        }
        if indices.len() != data.len() {
            return Err(FormatError);
        }
        if indptr[outer] != data.len() {
            return Err(FormatError);
        }
        let mut o: usize = 0;
        while o < outer
            invariant
                o <= outer,
                forall|oo: int| 0 <= oo < o ==> (#[trigger] indptr@[oo]) <= indptr@[oo + 1],
            decreases outer - o,
        {
            if indptr[o] > indptr[o + 1] {
                return Err(FormatError);
            }
            o += 1;
        }
        let mut p: usize = 0;
        while p < indices.len()
            invariant
                p <= indices@.len(),
                forall|pp: int| 0 <= pp < p ==> (#[trigger] indices@[pp]) < inner,
            decreases indices@.len() - p,
        {
            if indices[p] >= inner {
                return Err(FormatError);
            }
            p += 1;
        }
        let mut o2: usize = 0;
        while o2 < outer
            invariant
                o2 <= outer,
                forall|oo: int|
                    0 <= oo < o2
                        ==> #[trigger] strictly_ascending(
                            indices@,
                            indptr@[oo] as int,
                            indptr@[oo + 1] as int,
                        ),
            decreases outer - o2,
        {
            let s = indptr[o2];
            let e = indptr[o2 + 1];
            proof {
                lemma_ptr_mono(indptr@, o2 as int + 1, outer as int);
            }
            if s < e {
                let mut q: usize = s + 1;
                while q < e
                    invariant
                        s < q <= e,
                        strictly_ascending(indices@, s as int, q as int),
                    decreases e - q,
                {
                    if indices[q - 1] >= indices[q] {
                        proof {
                            assert(!strictly_ascending(indices@, s as int, e as int)) by {
                                assert(s <= q - 1 < q < e);
                                assert(indices@[q as int - 1] >= indices@[q as int]);
                            }
                        }
                        return Err(FormatError);
                    }
                    proof {
                        assert forall|p1: int, p2: int|
                            s as int <= p1 && p1 < p2 && p2 < q as int + 1
                                implies (indices@[p1]) < (indices@[p2]) by {
                            if p2 == q as int && p1 < q - 1 {
                                assert(indices@[p1] < indices@[q as int - 1]);
                            }
                        }
                    }
                    q += 1;
                }
            }
            o2 += 1;
        }
        let m = CsMat {
            storage,
            nrows,
            ncols,
            indptr: copy_vec(indptr),
            indices: copy_vec(indices),
            data: copy_vec(data),
        };
        Ok(m)
    }

    /// Append one outer slice, given densely as one optional value per inner
    /// index: occupied slots become the new slice's entries, in ascending
    /// inner-index order; earlier slices are untouched.
    #[verifier::loop_isolation(false)]
    #[verifier::rlimit(100)]
    #[verifier::spinoff_prover]
    pub fn append_outer(self, ws: &Vec<Option<N>>) -> (r: CsMat<N>) where N: Copy
        requires
            self.wf(),
            ws@.len() == self.inner_dim(),
        ensures
            r.wf(),
            r.storage == self.storage,
            r.outer_dim() == self.outer_dim() + 1,
            r.inner_dim() == self.inner_dim(),
            forall|o: int, i: int|
                0 <= o < self.outer_dim()
                    ==> #[trigger] r.entry_opt(o, i) == self.entry_opt(o, i),
            forall|i: int|
                0 <= i < self.inner_dim()
                    ==> #[trigger] r.entry_opt(self.outer_dim(), i) == ws@[i],
    {
        let ghost old_self = self;
        let mut m = self;
        let ghost s0 = m.data@.len() as int;
        let mut j: usize = 0;
        while j < ws.len()
            invariant
                j <= ws@.len(),
                m.storage == old_self.storage,
                m.nrows == old_self.nrows,
                m.ncols == old_self.ncols,
                m.indptr@ == old_self.indptr@,
                m.indices@.len() == m.data@.len(),
                s0 <= m.data@.len(),
                forall|p: int|
                    0 <= p < s0
                        ==> (#[trigger] m.indices@[p]) == old_self.indices@[p]
                            && m.data@[p] == old_self.data@[p],
                forall|p: int|
                    s0 <= p < m.indices@.len()
                        ==> (#[trigger] m.indices@[p]) < j
                            && ws@[m.indices@[p] as int] == Some(m.data@[p]),
                forall|i: int|
                    0 <= i < j && (#[trigger] ws@[i]) is Some
                        ==> exists|p: int|
                            s0 <= p < m.indices@.len() && (#[trigger] m.indices@[p]) == i,
                strictly_ascending(m.indices@, s0, m.indices@.len() as int),
            decreases ws@.len() - j,
        {
            let ghost prev = m.indices@;
            let ghost prev_data = m.data@;
            if let Some(v) = ws[j] {
                m.indices.push(j);
                m.data.push(v);
                proof {
                    assert(m.indices@ == prev.push(j));
                    assert(m.data@ == prev_data.push(v));
                    assert forall|p: int| 0 <= p < s0
                        implies (#[trigger] m.indices@[p]) == old_self.indices@[p]
                            && m.data@[p] == old_self.data@[p] by {
                        assert(m.indices@[p] == prev[p]);
                        assert(m.data@[p] == prev_data[p]);
                    }
                    assert forall|i: int| 0 <= i < j + 1 && (#[trigger] ws@[i]) is Some
                        implies exists|p: int|
                            s0 <= p < m.indices@.len() && (#[trigger] m.indices@[p]) == i by {
                        if i == j {
                            assert(m.indices@[m.indices@.len() - 1] == i);
                        } else {
                            let p = choose|p: int|
                                s0 <= p < prev.len() && (#[trigger] prev[p]) == i;
                            assert(m.indices@[p] == i);
                        }
                    }
                }
            }
            j += 1;
        }
        let d = m.data.len();
        m.indptr.push(d);
        let l = m.indptr.len();
        match m.storage {
            CompressedStorage::CSR => {
                m.nrows = l - 1;
            },
            CompressedStorage::CSC => {
                m.ncols = l - 1;
            },
        }
        proof {
            let outer0 = old_self.outer_dim();
            assert(m.outer_dim() == outer0 + 1);
            assert(m.outer_start(outer0) == s0);
            assert(m.outer_end(outer0) == d as int);
            assert forall|o: int| 0 <= o < m.outer_dim()
                implies (#[trigger] m.indptr@[o]) <= m.indptr@[o + 1] by {
                if o < outer0 {
                    assert(old_self.indptr@[o] <= old_self.indptr@[o + 1]);
                }
            }
            assert forall|o: int| 0 <= o < m.outer_dim()
                implies #[trigger] strictly_ascending(
                    m.indices@,
                    m.indptr@[o] as int,
                    m.indptr@[o + 1] as int,
                ) by {
                if o < outer0 {
                    old_self.lemma_slice_in_range(o);
                    assert(strictly_ascending(
                        old_self.indices@,
                        old_self.indptr@[o] as int,
                        old_self.indptr@[o + 1] as int,
                    ));
                    assert forall|p1: int, p2: int|
                        m.indptr@[o] as int <= p1 && p1 < p2 && p2 < m.indptr@[o + 1] as int
                            implies (m.indices@[p1]) < (m.indices@[p2]) by {
                        assert(old_self.indices@[p1] < old_self.indices@[p2]);
                    }
                }
            }
            assert(m.wf());
            assert forall|o: int, i: int| 0 <= o < outer0
                implies #[trigger] m.entry_opt(o, i) == old_self.entry_opt(o, i) by {
                old_self.lemma_slice_in_range(o);
                assert(m.outer_start(o) == old_self.outer_start(o));
                assert(m.outer_end(o) == old_self.outer_end(o));
                assert forall|p: int|
                    old_self.outer_start(o) <= p < old_self.outer_end(o)
                        implies (#[trigger] old_self.indices@[p]) == m.indices@[p]
                            && old_self.data@[p] == m.data@[p] by {
                    assert(old_self.outer_end(o) <= s0);
                }
                old_self.lemma_entry_eq_on_slice(m, o);
            }
            assert forall|i: int| 0 <= i < old_self.inner_dim()
                implies #[trigger] m.entry_opt(outer0, i) == ws@[i] by {
                if m.slice_has(outer0, i) {
                    let p = m.slice_pos(outer0, i);
                    assert(m.outer_start(outer0) <= p < m.outer_end(outer0)
                        && m.indices@[p] == i);
                    assert(ws@[i] == Some(m.data@[p]));
                } else {
                    if ws@[i] is Some {
                        let p = choose|p: int|
                            s0 <= p < m.indices@.len() && (#[trigger] m.indices@[p]) == i;
                        assert(m.slice_has(outer0, i));
                    }
                }
            }
        }
        m
    }
}

/// Element-for-element copy of a vector of copyable values.
fn copy_vec<T: Copy>(src: &Vec<T>) -> (r: Vec<T>)
    ensures
        r@ == src@,
{
    let mut r: Vec<T> = Vec::new();
    let mut i: usize = 0;
    while i < src.len()
        invariant
            i <= src@.len(),
            r@.len() == i,
            forall|k: int| 0 <= k < i ==> r@[k] == src@[k],
        decreases src@.len() - i,
    {
        r.push(src[i]);
        i += 1;
    }
    proof {
        assert(r@ =~= src@);
    }
    r
}

} // verus!
