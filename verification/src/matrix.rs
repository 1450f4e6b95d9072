use vstd::prelude::*;

use crate::error::MathError;
use crate::fixed::{in_i64, lemma_flat_decompose, lemma_flat_index, lemma_flat_recompose, mul_wide, SCALE};
use crate::rng::RngSource;
use rayon::iter::{IntoParallelRefIterator, ParallelIterator};

verus! {

/// A dense, rectangular, real-valued matrix.  Scalars are fixed-point values:
/// a stored `v` stands for the real number `v / SCALE`.  The store is one
/// flat row-major buffer of `rows * cols` scalars.
#[derive(Debug, PartialEq)]
pub struct Matrix {
    pub rows: usize,
    pub cols: usize,
    pub data: Vec<i64>,
}

/// Whether every row of a nested row list has the width of the first row.
pub open spec fn uniform_rows(d: Seq<Vec<i64>>) -> bool {
    forall|i: int| 0 <= i < d.len() ==> (#[trigger] d[i]@.len()) == first_width(d)
}

/// The width of the first row of a nested row list, or zero if it is empty.
pub open spec fn first_width(d: Seq<Vec<i64>>) -> int {
    if d.len() == 0 {
        0
    } else {
        d[0]@.len() as int
    }
}

impl Matrix {
    /// The structural invariant: the flat store holds exactly one scalar per
    /// cell of the `rows * cols` rectangle.
    pub open spec fn wf(&self) -> bool {
        self.data@.len() == (self.rows as int) * (self.cols as int)
    }

    /// The stored scalar at row `i`, column `j`.
    pub open spec fn val(&self, i: int, j: int) -> i64 {
        self.data@[i * (self.cols as int) + j]
    }

    /// The mathematical value at row `i`, column `j`.
    pub open spec fn entry(&self, i: int, j: int) -> int {
        self.val(i, j) as int
    }

    /// Whether two matrices have identical dimensions.
    pub open spec fn same_shape(&self, other: &Matrix) -> bool {
        self.rows == other.rows && self.cols == other.cols
    }

    /// The error reported when two operands' dimensions disagree.
    pub open spec fn shape_err(&self, other: &Matrix) -> MathError {
        MathError::ShapeMismatch {
            left_rows: self.rows,
            left_cols: self.cols,
            right_rows: other.rows,
            right_cols: other.cols,
        }
    }

    /// Whether every entrywise sum stays in the scalar range.
    pub open spec fn sum_fits(&self, other: &Matrix) -> bool {
        forall|i: int, j: int|
            0 <= i < self.rows && 0 <= j < self.cols ==> in_i64(
                (#[trigger] self.entry(i, j)) + other.entry(i, j),
            )
    }

    /// Whether every entrywise difference stays in the scalar range.
    pub open spec fn diff_fits(&self, other: &Matrix) -> bool {
        forall|i: int, j: int|
            0 <= i < self.rows && 0 <= j < self.cols ==> in_i64(
                (#[trigger] self.entry(i, j)) - other.entry(i, j),
            )
    }

    /// Whether every entrywise product stays in the scalar range.
    pub open spec fn prod_fits(&self, other: &Matrix) -> bool {
        forall|i: int, j: int|
            0 <= i < self.rows && 0 <= j < self.cols ==> in_i64(
                (#[trigger] self.entry(i, j)) * other.entry(i, j),
            )
    }

    /// The partial inner product of row `i` of `self` and column `j` of
    /// `other`, over the first `k` terms.
    pub open spec fn prod_prefix(&self, other: &Matrix, i: int, j: int, k: int) -> int
        decreases k,
    {
        if k <= 0 {
            0
        } else {
            self.prod_prefix(other, i, j, k - 1) + self.entry(i, k - 1) * other.entry(k - 1, j)
        }
    }

    /// Entry `(i, j)` of the matrix product: the sum over all `k` of
    /// `self[i][k] * other[k][j]`.
    pub open spec fn mul_entry(&self, other: &Matrix, i: int, j: int) -> int {
        self.prod_prefix(other, i, j, self.cols as int)
    }

    /// Whether every partial sum of the matrix product stays in the scalar
    /// range, so the product can be accumulated without leaving it.
    pub open spec fn mul_fits(&self, other: &Matrix) -> bool {
        forall|i: int, j: int, k: int|
            0 <= i < self.rows && 0 <= j < other.cols && 0 <= k <= self.cols ==> in_i64(
                #[trigger] self.prod_prefix(other, i, j, k),
            )
    }

    /// The stored scalar at row `i`, column `j`.
    pub fn at(&self, i: usize, j: usize) -> (v: i64)
        requires
            self.wf(),
            i < self.rows,
            j < self.cols,
        ensures
            v == self.val(i as int, j as int),
    {
        let n: usize = self.data.len();
        proof {
            lemma_flat_index(i as int, j as int, self.rows as int, self.cols as int);
        }
        self.data[i * self.cols + j]
    }

    /// A fresh matrix with the same dimensions and the same stored scalars.
    pub fn duplicate(&self) -> (r: Matrix)
        requires
            self.wf(),
        ensures
            r.rows == self.rows,
            r.cols == self.cols,
            r.data@ == self.data@,
            r.wf(),
    {
        let n: usize = self.data.len();
        let mut data: Vec<i64> = Vec::new();
        let mut t: usize = 0;
        while t < n
            invariant
                n == self.data@.len(),
                t <= n,
                data@.len() == t,
                forall|u: int| 0 <= u < t ==> #[trigger] data@[u] == self.data@[u],
            decreases n - t,
        {
            let v: i64 = self.data[t];
            data.push(v);
            t += 1;
        }
        proof {
            assert(data@ =~= self.data@);
        }
        Matrix { rows: self.rows, cols: self.cols, data }
    }

    /// A matrix of the given dimensions with every entry zero.  Always
    /// succeeds; a zero-sized matrix is valid but degenerate.
    pub fn zeros(rows: usize, cols: usize) -> (r: Matrix)
        ensures
            r.rows == rows,
            r.cols == cols,
            r.wf(),
            forall|i: int, j: int| 0 <= i < rows && 0 <= j < cols ==> #[trigger] r.entry(i, j) == 0,
    {
        let mut data: Vec<i64> = Vec::new();
        let mut i: usize = 0;
        while i < rows
            invariant
                i <= rows,
                data@.len() == i * (cols as int),
                forall|u: int| 0 <= u < data@.len() ==> #[trigger] data@[u] == 0,
            decreases rows - i,
        {
            let mut j: usize = 0;
            while j < cols
                invariant
                    j <= cols,
                    data@.len() == i * (cols as int) + j,
                    forall|u: int| 0 <= u < data@.len() ==> #[trigger] data@[u] == 0,
                decreases cols - j,
            {
                data.push(0);
                j += 1;
            }
            proof {
                crate::fixed::lemma_mul_step(i as int, cols as int);
            }
            i += 1;
        }
        let r = Matrix { rows, cols, data };
        proof {
            assert forall|i2: int, j2: int| 0 <= i2 < rows && 0 <= j2 < cols implies #[trigger] r.entry(i2, j2) == 0 by {
                lemma_flat_index(i2, j2, rows as int, cols as int);
            }
        }
        r
    }

    /// Wraps caller-supplied rows as a matrix.  The row count is the outer
    /// length and the column count is the first row's length; rows of any
    /// other length are rejected before anything is built.
    pub fn from(data: Vec<Vec<i64>>) -> (r: Result<Matrix, MathError>)
        ensures
            uniform_rows(data@) ==> (r matches Ok(m) && m.wf() && m.rows == data@.len()
                && m.cols == first_width(data@)
                && (forall|i: int, j: int|
                    0 <= i < data@.len() && 0 <= j < first_width(data@)
                        ==> #[trigger] m.val(i, j) == data@[i]@[j])),
            !uniform_rows(data@) ==> (r matches Err(e) && (exists|i: int|
                0 <= i < data@.len() && (#[trigger] data@[i]@.len()) != first_width(data@)
                    && e == (MathError::ShapeMismatch {
                        left_rows: data@.len() as usize,
                        left_cols: first_width(data@) as usize,
                        right_rows: 1usize,
                        right_cols: data@[i]@.len() as usize,
                    }))),
    {
        let rows: usize = data.len();
        let cols: usize = if rows == 0 { 0 } else { data[0].len() };
        let mut i: usize = 0;
        while i < rows
            invariant
                rows == data@.len(),
                cols as int == first_width(data@),
                i <= rows,
                forall|u: int| 0 <= u < i ==> (#[trigger] data@[u]@.len()) == cols as int,
            decreases rows - i,
        {
            if data[i].len() != cols {
                return Err(MathError::ShapeMismatch {
                    left_rows: rows,
                    left_cols: cols,
                    right_rows: 1,
                    right_cols: data[i].len(),
                });
            }
            i += 1;
        }
        let mut flat: Vec<i64> = Vec::new();
        let mut i2: usize = 0;
        while i2 < rows
            invariant
                rows == data@.len(),
                cols as int == first_width(data@),
                uniform_rows(data@),
                i2 <= rows,
                flat@.len() == i2 * (cols as int),
                forall|u: int, v: int|
                    0 <= u < i2 && 0 <= v < cols ==> flat@[u * (cols as int) + v] == #[trigger] data@[u]@[v],
            decreases rows - i2,
        {
            let mut j: usize = 0;
            while j < cols
                invariant
                    rows == data@.len(),
                    cols as int == first_width(data@),
                    uniform_rows(data@),
                    i2 < rows,
                    j <= cols,
                    flat@.len() == i2 * (cols as int) + j,
                    forall|u: int, v: int|
                        0 <= u < i2 && 0 <= v < cols ==> flat@[u * (cols as int) + v] == #[trigger] data@[u]@[v],
                    forall|v: int| 0 <= v < j ==> flat@[i2 * (cols as int) + v] == #[trigger] data@[i2 as int]@[v],
                decreases cols - j,
            {
                let v: i64 = data[i2][j];
                flat.push(v);
                j += 1;
                proof {
                    assert forall|u: int, v2: int|
                        0 <= u < i2 && 0 <= v2 < cols implies flat@[u * (cols as int) + v2] == #[trigger] data@[u]@[v2] by {
                        lemma_flat_index(u, v2, i2 as int, cols as int);
                        crate::fixed::lemma_flat_lex(u, v2, i2 as int, j - 1, cols as int);
                    }
                }
            }
            proof {
                crate::fixed::lemma_mul_step(i2 as int, cols as int);
            }
            i2 += 1;
        }
        let m = Matrix { rows, cols, data: flat };
        proof {
            assert forall|u: int, v: int|
                0 <= u < rows && 0 <= v < cols implies #[trigger] m.val(u, v) == data@[u]@[v] by {
                lemma_flat_index(u, v, rows as int, cols as int);
            }
        }
        Ok(m)
    }

    /// A matrix of the given dimensions whose entries are drawn from the
    /// source, each in the scaled unit range `[-1, 1)`.
    pub fn random(rows: usize, cols: usize, source: &mut RngSource) -> (r: Matrix)
        ensures
            r.rows == rows,
            r.cols == cols,
            r.wf(),
            forall|i: int, j: int|
                0 <= i < rows && 0 <= j < cols
                    ==> -(SCALE as int) <= #[trigger] r.entry(i, j) < SCALE as int,
    {
        let mut data: Vec<i64> = Vec::new();
        let mut i: usize = 0;
        while i < rows
            invariant
                i <= rows,
                data@.len() == i * (cols as int),
                forall|u: int|
                    0 <= u < data@.len() ==> -SCALE <= #[trigger] data@[u] < SCALE,
            decreases rows - i,
        {
            let mut j: usize = 0;
            while j < cols
                invariant
                    j <= cols,
                    data@.len() == i * (cols as int) + j,
                    forall|u: int|
                        0 <= u < data@.len() ==> -SCALE <= #[trigger] data@[u] < SCALE,
                decreases cols - j,
            {
                let v: i64 = source.next_unit();
                data.push(v);
                j += 1;
            }
            proof {
                crate::fixed::lemma_mul_step(i as int, cols as int);
            }
            i += 1;
        }
        let r = Matrix { rows, cols, data };
        proof {
            assert forall|i2: int, j2: int|
                0 <= i2 < rows && 0 <= j2 < cols implies -(SCALE as int) <= #[trigger] r.entry(
                i2,
                j2,
            ) < SCALE as int by {
                lemma_flat_index(i2, j2, rows as int, cols as int);
            }
        }
        r
    }

    /// Entrywise sum.  Requires identical shapes; every entry of the result
    /// is the sum of the operands' entries at that place.
    pub fn add(&self, other: &Matrix) -> (r: Result<Matrix, MathError>)
        requires
            self.wf(),
            other.wf(),
        ensures
            (self.same_shape(other) && self.sum_fits(other)) ==> (r matches Ok(m) && m.wf()
                && m.rows == self.rows && m.cols == self.cols
                && (forall|i: int, j: int|
                    0 <= i < self.rows && 0 <= j < self.cols
                        ==> #[trigger] m.entry(i, j) == self.entry(i, j) + other.entry(i, j))),
            !self.same_shape(other) ==> r == Err::<Matrix, MathError>(self.shape_err(other)),
            (self.same_shape(other) && !self.sum_fits(other)) ==> r == Err::<Matrix, MathError>(
                MathError::Overflow,
            ),
    {
        if !(self.rows == other.rows && self.cols == other.cols) {
            return Err(MathError::ShapeMismatch {
                left_rows: self.rows,
                left_cols: self.cols,
                right_rows: other.rows,
                right_cols: other.cols,
            });
        }
        let n: usize = self.data.len();
        let mut data: Vec<i64> = Vec::new();
        let mut t: usize = 0;
        while t < n
            invariant
                self.wf(),
                other.wf(),
                self.same_shape(other),
                n == self.data@.len(),
                t <= n,
                data@.len() == t,
                forall|u: int|
                    0 <= u < t ==> #[trigger] data@[u] == (self.data@[u] as int) + (other.data@[u] as int),
            decreases n - t,
        {
            let a: i64 = self.data[t];
            let b: i64 = other.data[t];
            let s: i128 = (a as i128) + (b as i128);
            if s > (i64::MAX as i128) || s < (i64::MIN as i128) {
                proof {
                    if self.cols == 0 {
                        crate::fixed::lemma_mul_zero(self.rows as int, self.cols as int);
                    }
                    lemma_flat_decompose(t as int, self.rows as int, self.cols as int);
                    let i = t as int / (self.cols as int);
                    let j = t as int % (self.cols as int);
                    assert(self.entry(i, j) + other.entry(i, j) == (a as int) + (b as int));
                    assert(!self.sum_fits(other));
                }
                return Err(MathError::Overflow);
            }
            data.push(s as i64);
            t += 1;
        }
        let m = Matrix { rows: self.rows, cols: self.cols, data };
        proof {
            assert forall|i: int, j: int|
                0 <= i < self.rows && 0 <= j < self.cols implies #[trigger] m.entry(i, j)
                == self.entry(i, j) + other.entry(i, j) by {
                lemma_flat_index(i, j, self.rows as int, self.cols as int);
            }
            assert forall|i: int, j: int|
                0 <= i < self.rows && 0 <= j < self.cols implies in_i64(
                (#[trigger] self.entry(i, j)) + other.entry(i, j),
            ) by {
                lemma_flat_index(i, j, self.rows as int, self.cols as int);
                assert(m.entry(i, j) == self.entry(i, j) + other.entry(i, j));
                assert(in_i64(m.entry(i, j)));
            }
        }
        Ok(m)
    }

    /// Entrywise difference.  Requires identical shapes; every entry of the
    /// result is the left entry minus the right entry at that place.
    pub fn subtract(&self, other: &Matrix) -> (r: Result<Matrix, MathError>)
        requires
            self.wf(),
            other.wf(),
        ensures
            (self.same_shape(other) && self.diff_fits(other)) ==> (r matches Ok(m) && m.wf()
                && m.rows == self.rows && m.cols == self.cols
                && (forall|i: int, j: int|
                    0 <= i < self.rows && 0 <= j < self.cols
                        ==> #[trigger] m.entry(i, j) == self.entry(i, j) - other.entry(i, j))),
            !self.same_shape(other) ==> r == Err::<Matrix, MathError>(self.shape_err(other)),
            (self.same_shape(other) && !self.diff_fits(other)) ==> r == Err::<Matrix, MathError>(
                MathError::Overflow,
            ),
    {
        if !(self.rows == other.rows && self.cols == other.cols) {
            return Err(MathError::ShapeMismatch {
                left_rows: self.rows,
                left_cols: self.cols,
                right_rows: other.rows,
                right_cols: other.cols,
            });
        }
        let n: usize = self.data.len();
        let mut data: Vec<i64> = Vec::new();
        let mut t: usize = 0;
        while t < n
            invariant
                self.wf(),
                other.wf(),
                self.same_shape(other),
                n == self.data@.len(),
                t <= n,
                data@.len() == t,
                forall|u: int|
                    0 <= u < t ==> #[trigger] data@[u] == (self.data@[u] as int) - (other.data@[u] as int),
            decreases n - t,
        {
            let a: i64 = self.data[t];
            let b: i64 = other.data[t];
            let s: i128 = (a as i128) - (b as i128);
            if s > (i64::MAX as i128) || s < (i64::MIN as i128) {
                proof {
                    if self.cols == 0 {
                        crate::fixed::lemma_mul_zero(self.rows as int, self.cols as int);
                    }
                    lemma_flat_decompose(t as int, self.rows as int, self.cols as int);
                    let i = t as int / (self.cols as int);
                    let j = t as int % (self.cols as int);
                    assert(self.entry(i, j) - other.entry(i, j) == (a as int) - (b as int));
                    assert(!self.diff_fits(other));
                }
                return Err(MathError::Overflow);
            }
            data.push(s as i64);
            t += 1;
        }
        let m = Matrix { rows: self.rows, cols: self.cols, data };
        proof {
            assert forall|i: int, j: int|
                0 <= i < self.rows && 0 <= j < self.cols implies #[trigger] m.entry(i, j)
                == self.entry(i, j) - other.entry(i, j) by {
                lemma_flat_index(i, j, self.rows as int, self.cols as int);
            }
            assert forall|i: int, j: int|
                0 <= i < self.rows && 0 <= j < self.cols implies in_i64(
                (#[trigger] self.entry(i, j)) - other.entry(i, j),
            ) by {
                lemma_flat_index(i, j, self.rows as int, self.cols as int);
                assert(m.entry(i, j) == self.entry(i, j) - other.entry(i, j));
                assert(in_i64(m.entry(i, j)));
            }
        }
        Ok(m)
    }

    /// Entrywise (Hadamard) product.  Requires identical shapes; every entry
    /// of the result is the product of the operands' entries at that place.
    pub fn dot_multiply(&self, other: &Matrix) -> (r: Result<Matrix, MathError>)
        requires
            self.wf(),
            other.wf(),
        ensures
            (self.same_shape(other) && self.prod_fits(other)) ==> (r matches Ok(m) && m.wf()
                && m.rows == self.rows && m.cols == self.cols
                && (forall|i: int, j: int|
                    0 <= i < self.rows && 0 <= j < self.cols
                        ==> #[trigger] m.entry(i, j) == self.entry(i, j) * other.entry(i, j))),
            !self.same_shape(other) ==> r == Err::<Matrix, MathError>(self.shape_err(other)),
            (self.same_shape(other) && !self.prod_fits(other)) ==> r == Err::<Matrix, MathError>(
                MathError::Overflow,
            ),
    {
        if !(self.rows == other.rows && self.cols == other.cols) {
            return Err(MathError::ShapeMismatch {
                left_rows: self.rows,
                left_cols: self.cols,
                right_rows: other.rows,
                right_cols: other.cols,
            });
        }
        let n: usize = self.data.len();
        let mut data: Vec<i64> = Vec::new();
        let mut t: usize = 0;
        while t < n
            invariant
                self.wf(),
                other.wf(),
                self.same_shape(other),
                n == self.data@.len(),
                t <= n,
                data@.len() == t,
                forall|u: int|
                    0 <= u < t ==> #[trigger] data@[u] == (self.data@[u] as int) * (other.data@[u] as int),
            decreases n - t,
        {
            let a: i64 = self.data[t];
            let b: i64 = other.data[t];
            let p: i128 = mul_wide(a, b);
            if p > (i64::MAX as i128) || p < (i64::MIN as i128) {
                proof {
                    if self.cols == 0 {
                        crate::fixed::lemma_mul_zero(self.rows as int, self.cols as int);
                    }
                    lemma_flat_decompose(t as int, self.rows as int, self.cols as int);
                    let i = t as int / (self.cols as int);
                    let j = t as int % (self.cols as int);
                    assert(self.entry(i, j) * other.entry(i, j) == (a as int) * (b as int));
                    assert(!self.prod_fits(other));
                }
                return Err(MathError::Overflow);
            }
            data.push(p as i64);
            t += 1;
        }
        let m = Matrix { rows: self.rows, cols: self.cols, data };
        proof {
            assert forall|i: int, j: int|
                0 <= i < self.rows && 0 <= j < self.cols implies #[trigger] m.entry(i, j)
                == self.entry(i, j) * other.entry(i, j) by {
                lemma_flat_index(i, j, self.rows as int, self.cols as int);
            }
            assert forall|i: int, j: int|
                0 <= i < self.rows && 0 <= j < self.cols implies in_i64(
                (#[trigger] self.entry(i, j)) * other.entry(i, j),
            ) by {
                lemma_flat_index(i, j, self.rows as int, self.cols as int);
                assert(m.entry(i, j) == self.entry(i, j) * other.entry(i, j));
                assert(in_i64(m.entry(i, j)));
            }
        }
        Ok(m)
    }

    /// Standard matrix product.  Requires `self.cols == other.rows`; entry
    /// `(i, j)` of the result is the inner product of row `i` of `self` and
    /// column `j` of `other`.
    pub fn multiply(&self, other: &Matrix) -> (r: Result<Matrix, MathError>)
        requires
            self.wf(),
            other.wf(),
            (self.rows as int) * (other.cols as int) <= usize::MAX as int,
        ensures
            (self.cols == other.rows && self.mul_fits(other)) ==> (r matches Ok(m) && m.wf()
                && m.rows == self.rows && m.cols == other.cols
                && (forall|i: int, j: int|
                    0 <= i < self.rows && 0 <= j < other.cols
                        ==> #[trigger] m.entry(i, j) == self.mul_entry(other, i, j))),
            self.cols != other.rows ==> r == Err::<Matrix, MathError>(self.shape_err(other)),
            (self.cols == other.rows && !self.mul_fits(other)) ==> r == Err::<Matrix, MathError>(
                MathError::Overflow,
            ),
    {
        if self.cols != other.rows {
            return Err(MathError::ShapeMismatch {
                left_rows: self.rows,
                left_cols: self.cols,
                right_rows: other.rows,
                right_cols: other.cols,
            });
        }
        let ocols: usize = other.cols;
        let n: usize = self.rows * ocols;
        let mut data: Vec<i64> = Vec::new();
        let mut c: usize = 0;
        while c < n
            invariant
                self.wf(),
                other.wf(),
                self.cols == other.rows,
                ocols == other.cols,
                n == (self.rows as int) * (ocols as int),
                c <= n,
                data@.len() == c,
                forall|i2: int, j2: int|
                    0 <= i2 < self.rows && 0 <= j2 < ocols && i2 * (ocols as int) + j2 < c
                        ==> data@[i2 * (ocols as int) + j2] == #[trigger] self.mul_entry(other, i2, j2),
                forall|i2: int, j2: int, k2: int|
                    0 <= i2 < self.rows && 0 <= j2 < ocols && i2 * (ocols as int) + j2 < c && 0
                        <= k2 <= self.cols ==> in_i64(#[trigger] self.prod_prefix(other, i2, j2, k2)),
            decreases n - c,
        {
            proof {
                if ocols == 0 {
                    crate::fixed::lemma_mul_zero(self.rows as int, ocols as int);
                }
                lemma_flat_decompose(c as int, self.rows as int, ocols as int);
            }
            let i: usize = c / ocols;
            let j: usize = c % ocols;
            let mut acc: i128 = 0;
            let mut k: usize = 0;
            while k < self.cols
                invariant
                    self.wf(),
                    other.wf(),
                    self.cols == other.rows,
                    i < self.rows,
                    j < other.cols,
                    k <= self.cols,
                    acc == self.prod_prefix(other, i as int, j as int, k as int),
                    forall|k2: int|
                        0 <= k2 <= k ==> in_i64(
                            #[trigger] self.prod_prefix(other, i as int, j as int, k2),
                        ),
                decreases self.cols - k,
            {
                let a: i64 = self.at(i, k);
                let b: i64 = other.at(k, j);
                let p: i128 = mul_wide(a, b);
                proof {
                    crate::fixed::lemma_i64_mul_in_i128(a as int, b as int);
                }
                let acc2: i128 = acc + p;
                if acc2 > (i64::MAX as i128) || acc2 < (i64::MIN as i128) {
                    proof {
                        assert(self.prod_prefix(other, i as int, j as int, k as int + 1) == acc
                            + (a as int) * (b as int));
                        assert(!in_i64(self.prod_prefix(other, i as int, j as int, k as int + 1)));
                        assert(!self.mul_fits(other));
                    }
                    return Err(MathError::Overflow);
                }
                acc = acc2;
                k += 1;
            }
            data.push(acc as i64);
            c += 1;
            proof {
                assert forall|i2: int, j2: int|
                    0 <= i2 < self.rows && 0 <= j2 < ocols && i2 * (ocols as int) + j2
                        < c implies data@[i2 * (ocols as int) + j2] == #[trigger] self.mul_entry(
                    other,
                    i2,
                    j2,
                ) by {
                    lemma_flat_index(i2, j2, self.rows as int, ocols as int);
                    lemma_flat_recompose(i2, j2, ocols as int);
                }
                assert forall|i2: int, j2: int, k2: int|
                    0 <= i2 < self.rows && 0 <= j2 < ocols && i2 * (ocols as int) + j2 < c && 0
                        <= k2 <= self.cols implies in_i64(
                    #[trigger] self.prod_prefix(other, i2, j2, k2),
                ) by {
                    lemma_flat_index(i2, j2, self.rows as int, ocols as int);
                    lemma_flat_recompose(i2, j2, ocols as int);
                }
            }
        }
        let m = Matrix { rows: self.rows, cols: ocols, data };
        proof {
            assert forall|i: int, j: int|
                0 <= i < self.rows && 0 <= j < ocols implies #[trigger] m.entry(i, j)
                == self.mul_entry(other, i, j) by {
                lemma_flat_index(i, j, self.rows as int, ocols as int);
            }
            assert forall|i: int, j: int, k: int|
                0 <= i < self.rows && 0 <= j < ocols && 0 <= k <= self.cols implies in_i64(
                #[trigger] self.prod_prefix(other, i, j, k),
            ) by {
                lemma_flat_index(i, j, self.rows as int, ocols as int);
            }
        }
        Ok(m)
    }

    /// The transposed matrix: always succeeds, and entry `(i, j)` of the
    /// result is entry `(j, i)` of `self`.
    pub fn transpose(&self) -> (r: Matrix)
        requires
            self.wf(),
        ensures
            r.rows == self.cols,
            r.cols == self.rows,
            r.wf(),
            forall|i: int, j: int|
                0 <= i < self.cols && 0 <= j < self.rows
                    ==> #[trigger] r.entry(i, j) == self.entry(j, i),
    {
        let n: usize = self.data.len();
        let mut data: Vec<i64> = Vec::new();
        let mut t: usize = 0;
        while t < n
            invariant
                self.wf(),
                n == self.data@.len(),
                t <= n,
                data@.len() == t,
                forall|i2: int, j2: int|
                    0 <= i2 < self.cols && 0 <= j2 < self.rows && i2 * (self.rows as int) + j2 < t
                        ==> data@[i2 * (self.rows as int) + j2] == #[trigger] self.val(j2, i2),
            decreases n - t,
        {
            proof {
                crate::fixed::lemma_mul_comm(self.rows as int, self.cols as int);
                if self.rows == 0 {
                    crate::fixed::lemma_mul_zero(self.cols as int, self.rows as int);
                }
                lemma_flat_decompose(t as int, self.cols as int, self.rows as int);
            }
            let i: usize = t / self.rows;
            let j: usize = t % self.rows;
            let v: i64 = self.at(j, i);
            data.push(v);
            t += 1;
            proof {
                assert forall|i2: int, j2: int|
                    0 <= i2 < self.cols && 0 <= j2 < self.rows && i2 * (self.rows as int) + j2
                        < t implies data@[i2 * (self.rows as int) + j2] == #[trigger] self.val(
                    j2,
                    i2,
                ) by {
                    lemma_flat_index(i2, j2, self.cols as int, self.rows as int);
                    lemma_flat_recompose(i2, j2, self.rows as int);
                }
            }
        }
        let r = Matrix { rows: self.cols, cols: self.rows, data };
        proof {
            crate::fixed::lemma_mul_comm(self.rows as int, self.cols as int);
            assert(r.wf());
            assert forall|i: int, j: int|
                0 <= i < self.cols && 0 <= j < self.rows implies #[trigger] r.entry(i, j)
                == self.entry(j, i) by {
                lemma_flat_index(i, j, self.cols as int, self.rows as int);
            }
        }
        r
    }

    /// Applies a pure scalar function to every entry, producing a same-shaped
    /// matrix.  Evaluation order across entries is unspecified, so the
    /// function must not depend on shared state; its contract is all that is
    /// known of each result entry.
    pub fn map<F: Fn(i64) -> i64 + Send + Sync>(&self, function: F) -> (r: Matrix)
        requires
            self.wf(),
            forall|i: int, j: int|
                0 <= i < self.rows && 0 <= j < self.cols ==> call_requires(
                    function,
                    (#[trigger] self.val(i, j),),
                ),
        ensures
            r.rows == self.rows,
            r.cols == self.cols,
            r.wf(),
            forall|i: int, j: int|
                0 <= i < self.rows && 0 <= j < self.cols ==> call_ensures(
                    function,
                    (self.val(i, j),),
                    #[trigger] r.val(i, j),
                ),
    {
        proof {
            assert forall|u: int| 0 <= u < self.data@.len() implies call_requires(
                function,
                (#[trigger] self.data@[u],),
            ) by {
                if self.cols == 0 {
                    crate::fixed::lemma_mul_zero(self.rows as int, self.cols as int);
                }
                lemma_flat_decompose(u, self.rows as int, self.cols as int);
                let i = u / (self.cols as int);
                let j = u % (self.cols as int);
                assert(self.val(i, j) == self.data@[u]);
                assert(call_requires(function, (self.val(i, j),)));
            }
        }
        let data: Vec<i64> = par_map(&self.data, &function);
        let r = Matrix { rows: self.rows, cols: self.cols, data };
        proof {
            assert forall|i: int, j: int|
                0 <= i < self.rows && 0 <= j < self.cols implies call_ensures(
                function,
                (self.val(i, j),),
                #[trigger] r.val(i, j),
            ) by {
                lemma_flat_index(i, j, self.rows as int, self.cols as int);
            }
        }
        r
    }
}

/// Relies on rayon's `par_iter`/`map`/`collect`: an indexed parallel iterator
/// collects into a `Vec` in the source order, so the image of each element
/// lands at that element's own index.
#[verifier::external_body]
fn par_map<F: Fn(i64) -> i64 + Send + Sync>(v: &Vec<i64>, function: &F) -> (r: Vec<i64>)
    requires
        forall|u: int| 0 <= u < v@.len() ==> call_requires(*function, (#[trigger] v@[u],)),
    ensures
        r@.len() == v@.len(),
        forall|u: int| 0 <= u < v@.len() ==> call_ensures(*function, (v@[u],), #[trigger] r@[u]),
{
    v.par_iter().map(|x: &i64| function(*x)).collect()
}

/// Transposing twice gives back the original matrix exactly: the double
/// transpose has the original's dimensions and its very stored layout.
pub proof fn lemma_transpose_involution(a: &Matrix, t: &Matrix, u: &Matrix)
    requires
        a.wf(),
        t.wf(),
        u.wf(),
        t.rows == a.cols,
        t.cols == a.rows,
        u.rows == t.cols,
        u.cols == t.rows,
        forall|i: int, j: int|
            0 <= i < a.cols && 0 <= j < a.rows ==> #[trigger] t.entry(i, j) == a.entry(j, i),
        forall|i: int, j: int|
            0 <= i < t.cols && 0 <= j < t.rows ==> #[trigger] u.entry(i, j) == t.entry(j, i),
    ensures
        u.rows == a.rows,
        u.cols == a.cols,
        u.data@ == a.data@,
{
    assert forall|n: int| 0 <= n < a.data@.len() implies u.data@[n] == a.data@[n] by {
        if a.cols == 0 {
            assert((a.rows as int) * (a.cols as int) == 0);
        }
        lemma_flat_decompose(n, a.rows as int, a.cols as int);
        let i = n / (a.cols as int);
        let j = n % (a.cols as int);
        assert(u.entry(i, j) == t.entry(j, i));
        assert(t.entry(j, i) == a.entry(i, j));
        assert(u.val(i, j) == a.val(i, j));
    }
    assert(u.data@ =~= a.data@);
}

/// Mapping with a function whose contract forces the identity gives back the
/// original matrix: same dimensions, same stored layout.
pub proof fn lemma_map_identity<F: Fn(i64) -> i64>(a: &Matrix, r: &Matrix, function: &F)
    requires
        a.wf(),
        r.wf(),
        r.rows == a.rows,
        r.cols == a.cols,
        forall|i: int, j: int|
            0 <= i < a.rows && 0 <= j < a.cols ==> call_ensures(
                *function,
                (a.val(i, j),),
                #[trigger] r.val(i, j),
            ),
        forall|x: i64, y: i64| #[trigger] call_ensures(*function, (x,), y) ==> y == x,
    ensures
        r.data@ == a.data@,
{
    assert forall|n: int| 0 <= n < a.data@.len() implies r.data@[n] == a.data@[n] by {
        if a.cols == 0 {
            assert((a.rows as int) * (a.cols as int) == 0);
        }
        lemma_flat_decompose(n, a.rows as int, a.cols as int);
        let i = n / (a.cols as int);
        let j = n % (a.cols as int);
        assert(call_ensures(*function, (a.val(i, j),), r.val(i, j)));
        assert(r.val(i, j) == a.val(i, j));
    }
    assert(r.data@ =~= a.data@);
}

} // verus!
