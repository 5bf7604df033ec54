//! Index arithmetic of N-dimensional rectilinear performance-map grids.
//!
//! A Standard 205 performance map is a list of axes and a flat row-major
//! lookup array whose length is the product of the axis lengths.  Axis 0
//! varies slowest; the last axis varies fastest.  [`GridShape`] holds the
//! axis lengths of such a grid together with its row-major strides and
//! checks lookup arrays and queries against it.  The value arithmetic of
//! the interpolation itself is done by callers over these indices.

use vstd::prelude::*;

verus! {

/// Errors raised while building or querying a performance-map grid.
#[derive(Debug)]
pub enum InterpError {
    AxisNotMonotonic { name: String },
    SizeMismatch { got: usize, expected: usize, axes: Vec<usize> },
    EmptyAxis { name: String },
    WrongQueryArity { got: usize, expected: usize },
}

/// Product of the axis lengths `dims[i..]`.
pub open spec fn prod_from(dims: Seq<usize>, i: int) -> int
    decreases dims.len() - i,
{
    if i < 0 || i >= dims.len() {
        1
    } else {
        dims[i] * prod_from(dims, i + 1)
    }
}

/// Row-major stride of axis `i`: the product of the lengths of the axes after it.
pub open spec fn grid_stride(dims: Seq<usize>, i: int) -> int {
    prod_from(dims, i + 1)
}

/// Number of entries a lookup array over `dims` must hold (at least one).
pub open spec fn grid_total(dims: Seq<usize>) -> int {
    if prod_from(dims, 0) < 1 {
        1
    } else {
        prod_from(dims, 0)
    }
}

/// Every suffix product of the axis lengths fits in a `usize`.
pub open spec fn grid_fits(dims: Seq<usize>) -> bool {
    forall|i: int| 0 <= i <= dims.len() ==> #[trigger] prod_from(dims, i) <= usize::MAX
}

/// Whether bit `i` of the corner mask selects the upper bracket index.
pub open spec fn bit_set(mask: usize, i: int) -> bool {
    (mask >> (i as usize)) & 1usize == 1usize
}

/// Index along axis `i` of the corner chosen by `mask`.
pub open spec fn corner_pick(b: Seq<(usize, usize)>, mask: usize, i: int) -> int {
    if bit_set(mask, i) {
        b[i].1 as int
    } else {
        b[i].0 as int
    }
}

/// Row-major offset contributed by axes `k..` of the corner chosen by `mask`.
pub open spec fn corner_sum(dims: Seq<usize>, b: Seq<(usize, usize)>, mask: usize, k: int) -> int
    decreases dims.len() - k,
{
    if k < 0 || k >= dims.len() {
        0
    } else {
        corner_pick(b, mask, k) * prod_from(dims, k + 1) + corner_sum(dims, b, mask, k + 1)
    }
}

/// A corner is skipped when it asks for the upper index of a degenerate
/// bracket (lower == upper): that corner coincides with the lower one.
pub open spec fn corner_skipped(b: Seq<(usize, usize)>, mask: usize, n: int) -> bool {
    exists|i: int| 0 <= i < n && bit_set(mask, i) && b[i].0 == b[i].1
}

/// Each bracket is an ordered pair of valid indices along its axis.
pub open spec fn brackets_valid(dims: Seq<usize>, b: Seq<(usize, usize)>) -> bool {
    &&& b.len() == dims.len()
    &&& forall|i: int| 0 <= i < b.len() ==> b[i].0 <= b[i].1 && #[trigger] b[i].1 < dims[i]
}

/// Suffix products are non-negative.
proof fn lemma_prod_nonneg(dims: Seq<usize>, i: int)
    ensures
        prod_from(dims, i) >= 0,
    decreases dims.len() - i,
{
    if 0 <= i < dims.len() {
        lemma_prod_nonneg(dims, i + 1);
        assert(dims[i] * prod_from(dims, i + 1) >= 0) by (nonlinear_arith)
            requires
                dims[i] >= 0,
                prod_from(dims, i + 1) >= 0,
        ;
    }
}

/// The offset of any corner inside valid brackets lies within the
/// sub-grid spanned by axes `k..`.
pub proof fn lemma_corner_sum_bound(
    dims: Seq<usize>,
    b: Seq<(usize, usize)>,
    mask: usize,
    k: int,
)
    requires
        brackets_valid(dims, b),
        0 <= k <= dims.len(),
    ensures
        0 <= corner_sum(dims, b, mask, k) < prod_from(dims, k),
    decreases dims.len() - k,
{
    if k < dims.len() {
        lemma_corner_sum_bound(dims, b, mask, k + 1);
        lemma_prod_nonneg(dims, k + 1);
        let p = prod_from(dims, k + 1);
        let c = corner_pick(b, mask, k);
        let s = corner_sum(dims, b, mask, k + 1);
        let d = dims[k] as int;
        assert(b[k].1 < dims[k]);
        assert(0 <= c < d);
        assert(0 <= c * p + s < d * p) by (nonlinear_arith)
            requires
                0 <= c < d,
                0 <= s < p,
        ;
    }
}

/// With valid brackets every later axis is non-empty, so sub-grid sizes are positive.
proof fn lemma_prod_positive(dims: Seq<usize>, b: Seq<(usize, usize)>, k: int)
    requires
        brackets_valid(dims, b),
        0 <= k <= dims.len(),
    ensures
        prod_from(dims, k) >= 1,
    decreases dims.len() - k,
{
    if k < dims.len() {
        lemma_prod_positive(dims, b, k + 1);
        assert(b[k].1 < dims[k]);
        assert(dims[k] * prod_from(dims, k + 1) >= 1) by (nonlinear_arith)
            requires
                dims[k] >= 1,
                prod_from(dims, k + 1) >= 1,
        ;
    }
}

/// Row-major layout is one-to-one: two corners of a cell whose offsets
/// agree pick the same index along every axis, so they are the same grid point.
pub proof fn law_corner_offset_injective(
    dims: Seq<usize>,
    b: Seq<(usize, usize)>,
    m1: usize,
    m2: usize,
    k: int,
)
    requires
        brackets_valid(dims, b),
        0 <= k <= dims.len(),
        corner_sum(dims, b, m1, k) == corner_sum(dims, b, m2, k),
    ensures
        forall|i: int| k <= i < dims.len() ==> corner_pick(b, m1, i) == corner_pick(b, m2, i),
    decreases dims.len() - k,
{
    if k < dims.len() {
        lemma_corner_sum_bound(dims, b, m1, k + 1);
        lemma_corner_sum_bound(dims, b, m2, k + 1);
        lemma_prod_positive(dims, b, k + 1);
        let p = prod_from(dims, k + 1);
        let c1 = corner_pick(b, m1, k);
        let c2 = corner_pick(b, m2, k);
        let s1 = corner_sum(dims, b, m1, k + 1);
        let s2 = corner_sum(dims, b, m2, k + 1);
        assert(c1 == c2 && s1 == s2) by (nonlinear_arith)
            requires
                c1 * p + s1 == c2 * p + s2,
                0 <= s1 < p,
                0 <= s2 < p,
                c1 >= 0,
                c2 >= 0,
        {
            if c1 < c2 {
                assert(c1 * p + p <= c2 * p);
            } else if c2 < c1 {
                assert(c2 * p + p <= c1 * p);
            }
        }
        law_corner_offset_injective(dims, b, m1, m2, k + 1);
    }
}

/// Shape of an N-dimensional rectilinear grid: axis lengths, row-major
/// strides and the size a lookup array over the grid must have.
#[derive(Debug)]
pub struct GridShape {
    dims: Vec<usize>,
    strides: Vec<usize>,
    total_size: usize,
}

impl View for GridShape {
    type V = Seq<usize>;

    closed spec fn view(&self) -> Seq<usize> {
        self.dims@
    }
}

impl GridShape {
    #[verifier::type_invariant]
    closed spec fn inv(self) -> bool {
        &&& grid_fits(self.dims@)
        &&& self.strides@.len() == self.dims@.len()
        &&& forall|i: int|
            0 <= i < self.dims@.len() ==> #[trigger] self.strides@[i] == grid_stride(self.dims@, i)
        &&& self.total_size == grid_total(self.dims@)
    }

    /// Builds the shape of a grid with the given axis lengths (axis 0 first).
    pub fn new(dims: Vec<usize>) -> (g: Self)
        requires
            grid_fits(dims@),
        ensures
            g@ == dims@,
    {
        let n = dims.len();
        let mut strides: Vec<usize> = Vec::new();
        let mut k: usize = 0;
        while k < n
            invariant
                k <= n,
                strides@.len() == k,
                forall|j: int| 0 <= j < k ==> strides@[j] == 1,
            decreases n - k,
        {
            strides.push(1);
            k = k + 1;
        }
        if n > 1 {
            let mut i: usize = n - 1;
            // Fill strides right to left: strides[i - 1] = dims[i] * strides[i].
            while i > 0
                invariant
                    n == dims@.len(),
                    1 <= n,
                    i < n,
                    grid_fits(dims@),
                    strides@.len() == n,
                    forall|j: int| i <= j < n ==> #[trigger] strides@[j] == grid_stride(dims@, j),
                decreases i,
            {
                assert(prod_from(dims@, i as int) <= usize::MAX);
                let s = dims[i] * strides[i];
                strides.set(i - 1, s);
                i = i - 1;
            }
        }
        assert(forall|j: int| 0 <= j < n ==> #[trigger] strides@[j] == grid_stride(dims@, j)) by {
            if n == 1 {
                assert(prod_from(dims@, 1) == 1);
            }
        }
        let mut total: usize = 1;
        if n > 0 {
            assert(prod_from(dims@, 0) == dims@[0] * prod_from(dims@, 1));
            assert(prod_from(dims@, 0) <= usize::MAX);
            total = dims[0] * strides[0];
            if total < 1 {
                total = 1;
            }
        } else {
            assert(prod_from(dims@, 0) == 1);
        }
        GridShape { dims, strides, total_size: total }
    }

    /// Number of axes.
    pub fn num_axes(&self) -> (n: usize)
        ensures
            n == self@.len(),
    {
        self.dims.len()
    }

    /// Length of axis `i`.
    pub fn axis_len(&self, i: usize) -> (l: usize)
        requires
            i < self@.len(),
        ensures
            l == self@[i as int],
    {
        self.dims[i]
    }

    /// Number of entries every lookup array over this grid must hold.
    pub fn total_size(&self) -> (t: usize)
        ensures
            t == grid_total(self@),
    {
        proof {
            use_type_invariant(self);
        }
        self.total_size
    }

    /// Row-major stride of axis `i`.
    pub fn stride(&self, i: usize) -> (s: usize)
        requires
            i < self@.len(),
        ensures
            s == grid_stride(self@, i as int),
    {
        proof {
            use_type_invariant(self);
        }
        self.strides[i]
    }

    /// Checks that a lookup array of length `lookup_len` matches this grid.
    pub fn validate(&self, lookup_len: usize) -> (r: Result<(), InterpError>)
        ensures
            r is Ok <==> lookup_len == grid_total(self@),
            r is Err ==> (r matches Err(InterpError::SizeMismatch { got, expected, axes })
                && got == lookup_len && expected == grid_total(self@) && axes@ == self@),
    {
        proof {
            use_type_invariant(self);
        }
        if lookup_len != self.total_size {
            return Err(
                InterpError::SizeMismatch {
                    got: lookup_len,
                    expected: self.total_size,
                    axes: self.dims.clone(),
                },
            );
        }
        Ok(())
    }

    /// Checks an interpolation request: the query must give one coordinate
    /// per axis, and then the lookup array must match the grid.
    pub fn check_query(&self, lookup_len: usize, query_len: usize) -> (r: Result<(), InterpError>)
        ensures
            r is Ok <==> query_len == self@.len() && lookup_len == grid_total(self@),
            query_len != self@.len() ==> r == Err::<(), InterpError>(
                InterpError::WrongQueryArity { got: query_len, expected: self@.len() as usize },
            ),
            query_len == self@.len() && lookup_len != grid_total(self@) ==> (r matches Err(
                InterpError::SizeMismatch { got, expected, axes },
            ) && got == lookup_len && expected == grid_total(self@) && axes@ == self@),
    {
        proof {
            use_type_invariant(self);
        }
        if query_len != self.dims.len() {
            return Err(
                InterpError::WrongQueryArity { got: query_len, expected: self.dims.len() },
            );
        }
        self.validate(lookup_len)
    }

    /// Flat row-major offset of one corner of the interpolation cell.
    ///
    /// `brackets[i]` is the (lower, upper) index pair that encloses the query
    /// along axis `i`; bit `i` of `mask` selects the upper index.  Returns
    /// `None` when the mask selects the upper index of a degenerate bracket
    /// (lower == upper), whose corner is already counted by the lower index.
    pub fn corner_offset(&self, brackets: &Vec<(usize, usize)>, mask: usize) -> (r: Option<usize>)
        requires
            brackets_valid(self@, brackets@),
            self@.len() <= usize::BITS,
        ensures
            r is None <==> corner_skipped(brackets@, mask, self@.len() as int),
            r matches Some(off) ==> off == corner_sum(self@, brackets@, mask, 0) && off
                < grid_total(self@),
    {
        proof {
            use_type_invariant(self);
            lemma_corner_sum_bound(self@, brackets@, mask, 0);
        }
        let n = self.dims.len();
        let mut flat: usize = 0;
        let mut i: usize = 0;
        while i < n
            invariant
                n == self@.len(),
                n <= usize::BITS,
                i <= n,
                brackets_valid(self@, brackets@),
                self.strides@.len() == n,
                forall|j: int| 0 <= j < n ==> #[trigger] self.strides@[j] == grid_stride(self@, j),
                grid_fits(self@),
                flat == corner_sum(self@, brackets@, mask, 0) - corner_sum(
                    self@,
                    brackets@,
                    mask,
                    i as int,
                ),
                0 <= corner_sum(self@, brackets@, mask, 0) < prod_from(self@, 0),
                forall|j: int| 0 <= j < i ==> !(bit_set(mask, j) && brackets@[j].0 == brackets@[j].1),
            decreases n - i,
        {
            let (lo, hi) = brackets[i];
            let high_bit = (mask >> i) & 1 == 1;
            if high_bit && lo == hi {
                return None;
            }
            let idx = if high_bit {
                hi
            } else {
                lo
            };
            proof {
                lemma_corner_sum_bound(self@, brackets@, mask, i + 1);
                lemma_prod_nonneg(self@, i + 1);
                assert(idx * self.strides@[i as int] == corner_pick(brackets@, mask, i as int)
                    * prod_from(self@, i + 1));
            }
            flat = flat + idx * self.strides[i];
            i = i + 1;
        }
        Some(flat)
    }
}

} // verus!
