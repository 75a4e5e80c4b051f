//! A dense row-major matrix of field elements.
use crate::galois::{group_galois16, Galois16};
use vstd::prelude::*;

verus! {

broadcast use group_galois16;

/// Two positions of a row-major layout with rows of length `c` coincide
/// exactly when their rows and columns do.
pub proof fn lemma_index_unique(i: int, j: int, k: int, l: int, c: int)
    requires
        0 <= j < c,
        0 <= l < c,
        0 <= i,
        0 <= k,
    ensures
        (i * c + j == k * c + l) <==> (i == k && j == l),
{
    if i < k {
        assert(i * c + c <= k * c) by (nonlinear_arith)
            requires
                i < k,
                0 <= c,
        ;
    } else if k < i {
        assert(k * c + c <= i * c) by (nonlinear_arith)
            requires
                k < i,
                0 <= c,
        ;
    }
}

/// A position inside an `r`-by-`c` layout.
pub proof fn lemma_index_bound(i: int, j: int, r: int, c: int)
    requires
        0 <= i < r,
        0 <= j < c,
    ensures
        0 <= i * c,
        i * c + j < r * c,
        i * c + c <= r * c,
{
    assert(0 <= i * c && i * c + c <= r * c) by (nonlinear_arith)
        requires
            0 <= i < r,
            0 <= j < c,
    ;
}

/// Galois field matrix for Reed-Solomon operations, stored row by row.
#[derive(Clone)]
pub struct Matrix {
    pub data: Vec<Galois16>,
    pub rows: usize,
    pub cols: usize,
}

impl Matrix {
    /// The storage holds exactly `rows * cols` entries.
    pub open spec fn wf(&self) -> bool {
        &&& self.data@.len() == self.rows * self.cols
        &&& self.rows * self.cols <= usize::MAX
    }

    /// The entry at `(i, j)`.
    pub open spec fn entry(&self, i: int, j: int) -> u16 {
        self.data@[i * self.cols + j]@
    }

    /// Create a new matrix with the given dimensions, initialized to zeros.
    pub fn new(rows: usize, cols: usize) -> (m: Self)
        requires
            rows * cols <= usize::MAX,
        ensures
            m.wf(),
            m.rows == rows,
            m.cols == cols,
            forall|k: int| 0 <= k < m.data@.len() ==> (#[trigger] m.data@[k])@ == 0,
            forall|i: int, j: int| 0 <= i < rows && 0 <= j < cols ==> #[trigger] m.entry(i, j) == 0,
    {
        let n = rows * cols;
        let mut data: Vec<Galois16> = Vec::with_capacity(n);
        let mut k: usize = 0;
        while k < n
            invariant
                k <= n,
                data@.len() == k,
                forall|t: int| 0 <= t < k ==> (#[trigger] data@[t])@ == 0,
            decreases n - k,
        {
            data.push(Galois16::new(0));
            k = k + 1;
        }
        let m = Self { data, rows, cols };
        proof {
            assert forall|i: int, j: int| 0 <= i < rows && 0 <= j < cols implies #[trigger] m.entry(i, j) == 0 by {
                lemma_index_bound(i, j, rows as int, cols as int);
            }
        }
        m
    }

    /// Create an identity matrix of the given size.
    pub fn identity(size: usize) -> (m: Self)
        requires
            size * size <= usize::MAX,
        ensures
            m.wf(),
            m.rows == size,
            m.cols == size,
            forall|i: int, j: int| 0 <= i < size && 0 <= j < size ==> #[trigger] m.entry(i, j) == (if i == j { 1u16 } else { 0u16 }),
    {
        let mut m = Self::new(size, size);
        let mut i: usize = 0;
        while i < size
            invariant
                i <= size,
                m.wf(),
                m.rows == size,
                m.cols == size,
                forall|a: int, b: int| 0 <= a < size && 0 <= b < size ==> #[trigger] m.entry(a, b) == (if a == b && a < i { 1u16 } else { 0u16 }),
            decreases size - i,
        {
            m.set(i, i, Galois16::new(1));
            i = i + 1;
        }
        m
    }

    /// Get the element at `(row, col)`.
    pub fn get(&self, row: usize, col: usize) -> (v: Galois16)
        requires
            self.wf(),
            row < self.rows,
            col < self.cols,
        ensures
            v@ == self.entry(row as int, col as int),
    {
        proof {
            lemma_index_bound(row as int, col as int, self.rows as int, self.cols as int);
        }
        self.data[row * self.cols + col]
    }

    /// Set the element at `(row, col)`; every other entry is kept.
    pub fn set(&mut self, row: usize, col: usize, val: Galois16)
        requires
            old(self).wf(),
            row < old(self).rows,
            col < old(self).cols,
        ensures
            final(self).wf(),
            final(self).rows == old(self).rows,
            final(self).cols == old(self).cols,
            forall|i: int, j: int| 0 <= i < old(self).rows && 0 <= j < old(self).cols ==> #[trigger] final(self).entry(i, j) == (if i == row && j == col {
                val@
            } else {
                old(self).entry(i, j)
            }),
    {
        proof {
            lemma_index_bound(row as int, col as int, self.rows as int, self.cols as int);
        }
        let idx = row * self.cols + col;
        self.data.set(idx, val);
        proof {
            assert forall|i: int, j: int| 0 <= i < old(self).rows && 0 <= j < old(self).cols implies #[trigger] self.entry(i, j) == (if i == row && j == col {
                val@
            } else {
                old(self).entry(i, j)
            }) by {
                lemma_index_bound(i, j, self.rows as int, self.cols as int);
                lemma_index_unique(i, j, row as int, col as int, self.cols as int);
            }
        }
    }

    /// Immutable access to a row.
    pub fn row(&self, row: usize) -> (r: &[Galois16])
        requires
            self.wf(),
            row < self.rows,
        ensures
            r@.len() == self.cols,
            forall|j: int| 0 <= j < self.cols ==> (#[trigger] r@[j])@ == self.entry(row as int, j),
    {
        proof {
            assert(0 <= row * self.cols && row * self.cols + self.cols <= self.rows * self.cols) by (nonlinear_arith)
                requires
                    row < self.rows,
            ;
        }
        let start = row * self.cols;
        let end = start + self.cols;
        &self.data.as_slice()[start..end]
    }

    /// Mutable access to a row; writes through it change that row alone.
    pub fn row_mut(&mut self, row: usize) -> (r: &mut [Galois16])
        requires
            old(self).wf(),
            row < old(self).rows,
        ensures
            r@ == old(self).data@.subrange(row * old(self).cols, row * old(self).cols + old(self).cols),
            final(r)@.len() == old(self).cols ==> final(self).data@ == old(self).data@.subrange(0, row * old(self).cols) + final(r)@
                + old(self).data@.subrange(row * old(self).cols + old(self).cols, old(self).data@.len() as int),
            final(self).rows == old(self).rows,
            final(self).cols == old(self).cols,
    {
        proof {
            assert(0 <= row * self.cols && row * self.cols + self.cols <= self.rows * self.cols) by (nonlinear_arith)
                requires
                    row < self.rows,
            ;
        }
        let start = row * self.cols;
        let cols = self.cols;
        let (_, rest) = self.data.as_mut_slice().split_at_mut(start);
        let (r, _) = rest.split_at_mut(cols);
        r
    }

    /// Swap two rows.
    pub fn swap_rows(&mut self, r1: usize, r2: usize)
        requires
            old(self).wf(),
            r1 < old(self).rows,
            r2 < old(self).rows,
        ensures
            final(self).wf(),
            final(self).rows == old(self).rows,
            final(self).cols == old(self).cols,
            forall|i: int, j: int| 0 <= i < old(self).rows && 0 <= j < old(self).cols ==> #[trigger] final(self).entry(i, j) == (if i == r1 {
                old(self).entry(r2 as int, j)
            } else if i == r2 {
                old(self).entry(r1 as int, j)
            } else {
                old(self).entry(i, j)
            }),
    {
        if r1 == r2 {
            return;
        }
        let cols = self.cols;
        let mut j: usize = 0;
        while j < cols
            invariant
                self.wf(),
                self.rows == old(self).rows,
                self.cols == cols,
                cols == old(self).cols,
                r1 < self.rows,
                r2 < self.rows,
                r1 != r2,
                j <= cols,
                forall|i: int, k: int| 0 <= i < self.rows && 0 <= k < cols ==> #[trigger] self.entry(i, k) == (if k < j && i == r1 {
                    old(self).entry(r2 as int, k)
                } else if k < j && i == r2 {
                    old(self).entry(r1 as int, k)
                } else {
                    old(self).entry(i, k)
                }),
            decreases cols - j,
        {
            let a = self.get(r1, j);
            let b = self.get(r2, j);
            self.set(r1, j, b);
            self.set(r2, j, a);
            j = j + 1;
        }
    }

    /// Get dimensions.
    pub fn dims(&self) -> (d: (usize, usize))
        ensures
            d == (self.rows, self.cols),
    {
        (self.rows, self.cols)
    }

    /// Convert a square matrix to the augmented matrix `[self | identity]`.
    pub fn augment_with_identity(&self) -> (aug: Self)
        requires
            self.wf(),
            self.rows == self.cols,
            self.rows * (2 * self.rows) <= usize::MAX,
        ensures
            aug.wf(),
            aug.rows == self.rows,
            aug.cols == 2 * self.rows,
            forall|i: int, j: int| 0 <= i < self.rows && 0 <= j < 2 * self.rows ==> #[trigger] aug.entry(i, j) == (if j < self.rows {
                self.entry(i, j)
            } else if j - self.rows == i {
                1u16
            } else {
                0u16
            }),
    {
        let size = self.rows;
        proof {
            assert(size * 2 <= usize::MAX) by (nonlinear_arith)
                requires
                    size * (2 * size) <= usize::MAX,
            ;
        }
        let mut aug = Self::new(size, size * 2);
        let mut i: usize = 0;
        while i < size
            invariant
                self.wf(),
                size == self.rows,
                size == self.cols,
                i <= size,
                aug.wf(),
                aug.rows == size,
                aug.cols == 2 * size,
                forall|a: int, b: int| 0 <= a < size && 0 <= b < 2 * size ==> #[trigger] aug.entry(a, b) == (if a >= i {
                    0u16
                } else if b < size {
                    self.entry(a, b)
                } else if b - size == a {
                    1u16
                } else {
                    0u16
                }),
            decreases size - i,
        {
            let mut j: usize = 0;
            while j < size
                invariant
                    self.wf(),
                    size == self.rows,
                    size == self.cols,
                    i < size,
                    j <= size,
                    aug.wf(),
                    aug.rows == size,
                    aug.cols == 2 * size,
                    forall|a: int, b: int| 0 <= a < size && 0 <= b < 2 * size ==> #[trigger] aug.entry(a, b) == (if a > i || (a == i && !(b < j || (b >= size && b - size < j))) {
                        0u16
                    } else if b < size {
                        self.entry(a, b)
                    } else if b - size == a {
                        1u16
                    } else {
                        0u16
                    }),
                decreases size - j,
            {
                let v = self.get(i, j);
                aug.set(i, j, v);
                let one_or_zero = if i == j {
                    Galois16::new(1)
                } else {
                    Galois16::new(0)
                };
                aug.set(i, size + j, one_or_zero);
                j = j + 1;
            }
            i = i + 1;
        }
        aug
    }

    /// Extract the right half of an augmented matrix.
    pub fn extract_right_half(&self) -> (r: Self)
        requires
            self.wf(),
            self.cols % 2 == 0,
        ensures
            r.wf(),
            r.rows == self.rows,
            r.cols == self.cols / 2,
            forall|i: int, j: int| 0 <= i < r.rows && 0 <= j < r.cols ==> #[trigger] r.entry(i, j) == self.entry(i, self.cols / 2 + j),
    {
        let half = self.cols / 2;
        proof {
            assert(self.rows * half <= self.rows * self.cols) by (nonlinear_arith)
                requires
                    half <= self.cols,
            ;
        }
        let mut result = Self::new(self.rows, half);
        let mut i: usize = 0;
        while i < self.rows
            invariant
                self.wf(),
                half == self.cols / 2,
                i <= self.rows,
                result.wf(),
                result.rows == self.rows,
                result.cols == half,
                forall|a: int, b: int| 0 <= a < self.rows && 0 <= b < half ==> #[trigger] result.entry(a, b) == (if a < i {
                    self.entry(a, half + b)
                } else {
                    0u16
                }),
            decreases self.rows - i,
        {
            let mut j: usize = 0;
            while j < half
                invariant
                    self.wf(),
                    half == self.cols / 2,
                    i < self.rows,
                    j <= half,
                    result.wf(),
                    result.rows == self.rows,
                    result.cols == half,
                    forall|a: int, b: int| 0 <= a < self.rows && 0 <= b < half ==> #[trigger] result.entry(a, b) == (if a < i || (a == i && b < j) {
                        self.entry(a, half + b)
                    } else {
                        0u16
                    }),
                decreases half - j,
            {
                let v = self.get(i, half + j);
                result.set(i, j, v);
                j = j + 1;
            }
            i = i + 1;
        }
        result
    }

    /// Whether every element is zero.
    pub fn is_singular(&self) -> (r: bool)
        ensures
            r == (forall|k: int| 0 <= k < self.data@.len() ==> (#[trigger] self.data@[k])@ == 0),
    {
        let mut k: usize = 0;
        while k < self.data.len()
            invariant
                k <= self.data@.len(),
                forall|t: int| 0 <= t < k ==> (#[trigger] self.data@[t])@ == 0,
            decreases self.data@.len() - k,
        {
            if self.data[k].value() != 0 {
                return false;
            }
            k = k + 1;
        }
        true
    }
}

/// The right half of a square matrix augmented with the identity is the
/// identity: what `augment_with_identity` and then `extract_right_half`
/// produce, by their contracts.
pub proof fn lemma_right_half_of_augmented(m: Matrix, aug: Matrix, r: Matrix)
    requires
        m.rows == m.cols,
        aug.rows == m.rows,
        aug.cols == 2 * m.rows,
        forall|i: int, j: int| 0 <= i < m.rows && 0 <= j < 2 * m.rows ==> #[trigger] aug.entry(i, j) == (if j < m.rows {
            m.entry(i, j)
        } else if j - m.rows == i {
            1u16
        } else {
            0u16
        }),
        r.rows == aug.rows,
        r.cols == aug.cols / 2,
        forall|i: int, j: int| 0 <= i < r.rows && 0 <= j < r.cols ==> #[trigger] r.entry(i, j) == aug.entry(i, aug.cols / 2 + j),
    ensures
        r.rows == m.rows,
        r.cols == m.rows,
        forall|i: int, j: int| 0 <= i < m.rows && 0 <= j < m.rows ==> #[trigger] r.entry(i, j) == (if i == j { 1u16 } else { 0u16 }),
{
    assert forall|i: int, j: int| 0 <= i < m.rows && 0 <= j < m.rows implies #[trigger] r.entry(i, j) == (if i == j { 1u16 } else { 0u16 }) by {
        assert(r.entry(i, j) == aug.entry(i, aug.cols / 2 + j));
        assert(aug.entry(i, m.rows + j) == (if m.rows + j < m.rows { m.entry(i, m.rows + j) } else if j == i { 1u16 } else { 0u16 }));
    }
}

} // verus!
