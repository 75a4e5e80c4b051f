//! Matrices and helper types whose dimensions, lengths and bounds are
//! carried in const generic parameters.
use crate::elimination::{gauss_jordan, gmat, gseq, left_identity};
use crate::galois::{gf_div, group_galois16, Galois16};
use crate::linalg::{
    col, identity, is_matrix, is_product, lemma_dot_unit, lemma_left_inverse_is_right_inverse, lemma_left_inverse_not_singular, lemma_singular_same_block, mat_mul_entry, singular, unit,
};
use vstd::prelude::*;

verus! {

broadcast use group_galois16;

/// Matrix with const generic dimensions, stored as an array of rows.
#[derive(Clone, Debug)]
pub struct Matrix<const ROWS: usize, const COLS: usize> {
    pub data: [[Galois16; COLS]; ROWS],
}

impl<const ROWS: usize, const COLS: usize> Matrix<ROWS, COLS> {
    /// The entries as rows of representations.
    pub open spec fn entries(&self) -> Seq<Seq<u16>> {
        Seq::new(ROWS as nat, |i: int| gseq(self.data@[i]@))
    }

    /// Create a new zero matrix.
    pub fn new() -> (m: Self)
        ensures
            forall|i: int, j: int| 0 <= i < ROWS && 0 <= j < COLS ==> (#[trigger] m.data@[i]@[j])@ == 0,
    {
        Self { data: [[Galois16::new(0); COLS]; ROWS] }
    }

    /// Get the element at `(row, col)`.
    pub fn get(&self, row: usize, col: usize) -> (v: Galois16)
        requires
            row < ROWS,
            col < COLS,
        ensures
            v == self.data@[row as int]@[col as int],
    {
        self.data[row][col]
    }

    /// Set the element at `(row, col)`; every other entry is kept.
    pub fn set(&mut self, row: usize, col: usize, value: Galois16)
        requires
            row < ROWS,
            col < COLS,
        ensures
            forall|i: int, j: int| 0 <= i < ROWS && 0 <= j < COLS ==> #[trigger] final(self).data@[i]@[j] == (if i == row && j == col {
                value
            } else {
                old(self).data@[i]@[j]
            }),
    {
        self.data[row][col] = value;
    }

    /// The dimensions `(ROWS, COLS)`.
    pub fn dimensions() -> (d: (usize, usize))
        ensures
            d == (ROWS, COLS),
    {
        (ROWS, COLS)
    }

    /// The number of rows.
    pub fn rows() -> (r: usize)
        ensures
            r == ROWS,
    {
        ROWS
    }

    /// The number of columns.
    pub fn cols() -> (c: usize)
        ensures
            c == COLS,
    {
        COLS
    }

    /// A row as a fixed-size array.
    pub fn row(&self, row: usize) -> (r: &[Galois16; COLS])
        requires
            row < ROWS,
        ensures
            *r == self.data@[row as int],
    {
        &self.data[row]
    }

    /// A row as a mutable fixed-size array; writes through it change that
    /// row alone.
    pub fn row_mut(&mut self, row: usize) -> (r: &mut [Galois16; COLS])
        requires
            row < ROWS,
        ensures
            *r == old(self).data@[row as int],
            final(self).data@ == old(self).data@.update(row as int, *final(r)),
    {
        &mut self.data[row]
    }

    /// Get the element at type-checked indices.
    pub fn get_safe(&self, row: RowIndex<ROWS>, col: ColIndex<COLS>) -> (v: Galois16)
        ensures
            v == self.data@[row@ as int]@[col@ as int],
    {
        proof {
            use_type_invariant(&row);
            use_type_invariant(&col);
        }
        self.data[row.get()][col.get()]
    }

    /// Set the element at type-checked indices.
    pub fn set_safe(&mut self, row: RowIndex<ROWS>, col: ColIndex<COLS>, value: Galois16)
        ensures
            forall|i: int, j: int| 0 <= i < ROWS && 0 <= j < COLS ==> #[trigger] final(self).data@[i]@[j] == (if i == row@ && j == col@ {
                value
            } else {
                old(self).data@[i]@[j]
            }),
    {
        proof {
            use_type_invariant(&row);
            use_type_invariant(&col);
        }
        self.set(row.get(), col.get(), value);
    }
}

impl<const ROWS: usize, const COLS: usize> Default for Matrix<ROWS, COLS> {
    fn default() -> (m: Self)
        ensures
            forall|i: int, j: int| 0 <= i < ROWS && 0 <= j < COLS ==> (#[trigger] m.data@[i]@[j])@ == 0,
    {
        Self::new()
    }
}

impl<const SIZE: usize> Matrix<SIZE, SIZE> {
    /// Create an identity matrix.
    pub fn identity() -> (m: Self)
        ensures
            forall|i: int, j: int| 0 <= i < SIZE && 0 <= j < SIZE ==> (#[trigger] m.data@[i]@[j])@ == (if i == j { 1u16 } else { 0u16 }),
    {
        let mut m = Self::new();
        let mut i: usize = 0;
        while i < SIZE
            invariant
                i <= SIZE,
                forall|a: int, b: int| 0 <= a < SIZE && 0 <= b < SIZE ==> (#[trigger] m.data@[a]@[b])@ == (if a == b && a < i { 1u16 } else { 0u16 }),
            decreases SIZE - i,
        {
            m.set(i, i, Galois16::new(1));
            i = i + 1;
        }
        m
    }

    /// Invert the matrix in place by Gauss-Jordan elimination.  On success
    /// the new matrix `B` satisfies `B * A == I` for the old one `A`; it
    /// fails only on a singular matrix, which it leaves unchanged.
    pub fn invert(&mut self) -> (res: Result<(), &'static str>)
        requires
            2 * SIZE <= usize::MAX,
        ensures
            res is Err ==> final(self).data@ == old(self).data@,
            res is Err <==> singular(old(self).entries(), SIZE as nat),
            res matches Err(m) ==> m@ == "Matrix is singular"@,
            res is Ok ==> is_product(final(self).entries(), old(self).entries(), identity(SIZE as nat), SIZE as nat, SIZE as nat),
            res is Ok ==> is_product(old(self).entries(), final(self).entries(), identity(SIZE as nat), SIZE as nat, SIZE as nat),
    {
        let n = SIZE;
        let ghost a = self.entries();
        let mut aug: Vec<Vec<Galois16>> = Vec::with_capacity(n);
        let mut i: usize = 0;
        while i < n
            invariant
                n == SIZE,
                2 * n <= usize::MAX,
                a == self.entries(),
                i <= n,
                aug@.len() == i,
                forall|k: int| 0 <= k < i ==> #[trigger] aug@[k]@.len() == 2 * n,
                forall|k: int| 0 <= k < i ==> #[trigger] gseq(aug@[k]@) == a[k] + unit(n as nat, k),
            decreases n - i,
        {
            let mut row: Vec<Galois16> = Vec::with_capacity(2 * n);
            let mut j: usize = 0;
            while j < 2 * n
                invariant
                    n == SIZE,
                    2 * n <= usize::MAX,
                    a == self.entries(),
                    i < n,
                    j <= 2 * n,
                    gseq(row@) == (a[i as int] + unit(n as nat, i as int)).take(j as int),
                decreases 2 * n - j,
            {
                let ghost prev = row@;
                let v = if j < n {
                    self.data[i][j]
                } else if j - n == i {
                    Galois16::new(1)
                } else {
                    Galois16::new(0)
                };
                row.push(v);
                proof {
                    assert(gseq(row@) =~= gseq(prev).push(v@));
                    assert(gseq(row@) =~= (a[i as int] + unit(n as nat, i as int)).take(j as int + 1));
                }
                j = j + 1;
            }
            proof {
                assert((a[i as int] + unit(n as nat, i as int)).take(2 * n as int) =~= a[i as int] + unit(n as nat, i as int));
            }
            aug.push(row);
            i = i + 1;
        }
        let ghost a0 = gmat(aug@);
        if gauss_jordan(&mut aug, n, 2 * n).is_err() {
            proof {
                assert forall|k: int| 0 <= k < n implies #[trigger] a0[k].subrange(0, n as int) == a[k].subrange(0, n as int) by {
                    assert(a0[k].subrange(0, n as int) =~= a[k].subrange(0, n as int));
                }
                lemma_singular_same_block(a0, a, n as nat);
            }
            return Err("Matrix is singular");
        }
        let ghost af = gmat(aug@);
        let mut r: usize = 0;
        while r < n
            invariant
                n == SIZE,
                2 * n <= usize::MAX,
                aug@.len() == n,
                forall|k: int| 0 <= k < n ==> #[trigger] aug@[k]@.len() == 2 * n,
                af == gmat(aug@),
                r <= n,
                forall|k: int| 0 <= k < r ==> #[trigger] gseq(self.data@[k]@) == af[k].subrange(n as int, 2 * n as int),
            decreases n - r,
        {
            let mut j: usize = 0;
            while j < n
                invariant
                    n == SIZE,
                    2 * n <= usize::MAX,
                    aug@.len() == n,
                    forall|k: int| 0 <= k < n ==> #[trigger] aug@[k]@.len() == 2 * n,
                    af == gmat(aug@),
                    r < n,
                    j <= n,
                    forall|k: int| 0 <= k < r ==> #[trigger] gseq(self.data@[k]@) == af[k].subrange(n as int, 2 * n as int),
                    forall|t: int| 0 <= t < j ==> (#[trigger] self.data@[r as int]@[t])@ == af[r as int][n + t],
                decreases n - j,
            {
                let v = aug[r][n + j];
                let ghost prev = self.data;
                self.set(r, j, v);
                proof {
                    assert forall|k: int| 0 <= k < r implies #[trigger] self.data@[k]@ =~= prev@[k]@ by {
                        assert forall|t: int| 0 <= t < n implies #[trigger] self.data@[k]@[t] == prev@[k]@[t] by {}
                    }
                    assert forall|k: int| 0 <= k < r implies #[trigger] gseq(self.data@[k]@) == af[k].subrange(n as int, 2 * n as int) by {
                        assert(self.data@[k]@ == prev@[k]@);
                    }
                }
                j = j + 1;
            }
            proof {
                assert(gseq(self.data@[r as int]@) =~= af[r as int].subrange(n as int, 2 * n as int));
            }
            r = r + 1;
        }
        proof {
            let w2: nat = (2 * n) as nat;
            let (e, f) = choose|e: Seq<Seq<u16>>, f: Seq<Seq<u16>>| #![trigger is_product(f, e, identity(n as nat), n as nat, n as nat)]
                is_product(e, a0, af, n as nat, w2) && is_product(f, e, identity(n as nat), n as nat, n as nat);
            let inv = self.entries();
            assert forall|k: int| 0 <= k < n implies #[trigger] inv[k] == e[k] by {
                assert forall|j: int| 0 <= j < n implies #[trigger] inv[k][j] == e[k][j] by {
                    assert(af[k][n + j] == mat_mul_entry(e, a0, k, n + j));
                    assert(col(a0, n + j) =~= unit(n as nat, j));
                    lemma_dot_unit(e[k], j);
                }
                assert(inv[k] =~= e[k]);
            }
            assert forall|i: int, j: int| 0 <= i < n && 0 <= j < n implies #[trigger] identity(n as nat)[i][j] == mat_mul_entry(inv, a, i, j) by {
                assert(af[i][j] == mat_mul_entry(e, a0, i, j));
                assert(col(a0, j) =~= col(a, j));
                assert(left_identity(af, n as nat));
            }
            assert(is_matrix(a, n as nat, n as nat));
            assert(is_matrix(inv, n as nat, n as nat));
            lemma_left_inverse_not_singular(inv, a, n as nat);
            assert(inv =~= e);
            lemma_left_inverse_is_right_inverse(inv, a, f, n as nat);
        }
        Ok(())
    }
}

/// Marker for a slice length fixed at compile time.
#[derive(Clone, Copy, Debug, PartialEq, Eq)]
pub struct SliceLength<const N: usize>;

/// `&[T]` to `&[T; N]` through the standard `TryFrom`.
#[verifier::external_body]
fn slice_as_array<T, const N: usize>(slice: &[T]) -> (r: Option<&[T; N]>)
    ensures
        r is Some <==> slice@.len() == N,
        r matches Some(a) ==> a@ == slice@,
{
    <&[T; N]>::try_from(slice).ok()
}

/// `&mut [T]` to `&mut [T; N]` through the standard `TryFrom`; writes
/// through the array are writes to the slice.
#[verifier::external_body]
fn slice_as_array_mut<T, const N: usize>(slice: &mut [T]) -> (r: Option<&mut [T; N]>)
    ensures
        r is Some <==> old(slice)@.len() == N,
        r matches Some(a) ==> (*a)@ == old(slice)@,
        r matches Some(a) ==> final(slice)@ == (*final(a))@,
        r is None ==> final(slice)@ == old(slice)@,
{
    <&mut [T; N]>::try_from(slice).ok()
}

impl<const N: usize> SliceLength<N> {
    /// Create a slice length marker.
    pub fn new() -> (s: Self) {
        Self
    }

    /// The length.
    pub fn len() -> (n: usize)
        ensures
            n == N,
    {
        N
    }

    /// The slice as an array when its length is `N`.
    pub fn validate_slice<T>(slice: &[T]) -> (r: Result<&[T; N], &'static str>)
        ensures
            r is Ok <==> slice@.len() == N,
            r matches Ok(a) ==> a@ == slice@,
            r matches Err(m) ==> m@ == "Slice length mismatch"@,
    {
        match slice_as_array(slice) {
            Some(a) => Ok(a),
            None => Err("Slice length mismatch"),
        }
    }
}

impl<const N: usize> SliceLength<N> {
    /// The mutable slice as an array when its length is `N`.
    pub fn validate_slice_mut<T>(slice: &mut [T]) -> (r: Result<&mut [T; N], &'static str>)
        ensures
            r is Ok <==> old(slice)@.len() == N,
            r matches Ok(a) ==> (*a)@ == old(slice)@,
            r matches Ok(a) ==> final(slice)@ == (*final(a))@,
            r is Err ==> final(slice)@ == old(slice)@,
            r matches Err(m) ==> m@ == "Slice length mismatch"@,
    {
        match slice_as_array_mut(slice) {
            Some(a) => Ok(a),
            None => Err("Slice length mismatch"),
        }
    }
}

impl<const N: usize> Default for SliceLength<N> {
    fn default() -> (s: Self) {
        Self::new()
    }
}

/// A nonzero field element.
#[derive(Clone, Copy, Debug, PartialEq, Eq)]
pub struct NonZeroGalois16 {
    value: u16,
}

impl View for NonZeroGalois16 {
    type V = u16;

    closed spec fn view(&self) -> u16 {
        self.value
    }
}

impl NonZeroGalois16 {
    #[verifier::type_invariant]
    spec fn inv(self) -> bool {
        self.value != 0
    }

    /// The element `value`, unless it is zero.
    pub fn new(value: u16) -> (r: Option<Self>)
        ensures
            r is Some <==> value != 0,
            r matches Some(x) ==> x@ == value,
    {
        if value != 0 {
            Some(Self { value })
        } else {
            None
        }
    }

    /// The underlying value, never zero.
    pub fn get(self) -> (v: u16)
        ensures
            v == self@,
            v != 0,
    {
        proof {
            use_type_invariant(&self);
        }
        self.value
    }

    /// Convert to a field element.
    pub fn to_galois16(self) -> (g: Galois16)
        ensures
            g@ == self@,
            g@ != 0,
    {
        Galois16::new(self.get())
    }

    /// Division by an element that is known to be nonzero.
    pub fn divide(dividend: Galois16, divisor: Self) -> (q: Galois16)
        ensures
            q@ == gf_div(dividend@, divisor@),
    {
        dividend / divisor.to_galois16()
    }
}

/// A row index below `MAX_ROWS`.
#[derive(Clone, Copy, Debug, PartialEq, Eq, PartialOrd, Ord)]
pub struct RowIndex<const MAX_ROWS: usize> {
    index: usize,
}

impl<const MAX_ROWS: usize> View for RowIndex<MAX_ROWS> {
    type V = usize;

    closed spec fn view(&self) -> usize {
        self.index
    }
}

impl<const MAX_ROWS: usize> RowIndex<MAX_ROWS> {
    #[verifier::type_invariant]
    spec fn inv(self) -> bool {
        self.index < MAX_ROWS
    }

    /// The index, when it is below `MAX_ROWS`.
    pub fn new(index: usize) -> (r: Option<Self>)
        ensures
            r is Some <==> index < MAX_ROWS,
            r matches Some(x) ==> x@ == index,
    {
        if index < MAX_ROWS {
            Some(Self { index })
        } else {
            None
        }
    }

    /// The index value.
    pub fn get(self) -> (v: usize)
        ensures
            v == self@,
            v < MAX_ROWS,
    {
        proof {
            use_type_invariant(&self);
        }
        self.index
    }
}

/// A column index below `MAX_COLS`.
#[derive(Clone, Copy, Debug, PartialEq, Eq, PartialOrd, Ord)]
pub struct ColIndex<const MAX_COLS: usize> {
    index: usize,
}

impl<const MAX_COLS: usize> View for ColIndex<MAX_COLS> {
    type V = usize;

    closed spec fn view(&self) -> usize {
        self.index
    }
}

impl<const MAX_COLS: usize> ColIndex<MAX_COLS> {
    #[verifier::type_invariant]
    spec fn inv(self) -> bool {
        self.index < MAX_COLS
    }

    /// The index, when it is below `MAX_COLS`.
    pub fn new(index: usize) -> (r: Option<Self>)
        ensures
            r is Some <==> index < MAX_COLS,
            r matches Some(x) ==> x@ == index,
    {
        if index < MAX_COLS {
            Some(Self { index })
        } else {
            None
        }
    }

    /// The index value.
    pub fn get(self) -> (v: usize)
        ensures
            v == self@,
            v < MAX_COLS,
    {
        proof {
            use_type_invariant(&self);
        }
        self.index
    }
}

/// Marker for a chunk size fixed at compile time.
#[derive(Clone, Copy, Debug, PartialEq, Eq)]
pub struct AlignedChunkSize<const SIZE: usize>;

impl<const SIZE: usize> AlignedChunkSize<SIZE> {
    /// Create a chunk size marker.
    pub fn new() -> (s: Self) {
        Self
    }

    /// The chunk size.
    pub fn size() -> (n: usize)
        ensures
            n == SIZE,
    {
        SIZE
    }

    /// The buffer as an array when its length is `SIZE`.
    pub fn validate_buffer<T: Copy>(buffer: &[T]) -> (r: Result<&[T; SIZE], &'static str>)
        ensures
            r is Ok <==> buffer@.len() == SIZE,
            r matches Ok(a) ==> a@ == buffer@,
            r matches Err(m) ==> m@ == "Buffer size does not match required chunk size"@,
    {
        if buffer.len() == SIZE {
            match slice_as_array(buffer) {
                Some(a) => Ok(a),
                None => Err("Buffer size validation failed"),
            }
        } else {
            Err("Buffer size does not match required chunk size")
        }
    }
}

impl<const SIZE: usize> Default for AlignedChunkSize<SIZE> {
    fn default() -> (s: Self) {
        Self::new()
    }
}

/// A recovery configuration of `DATA_BLOCKS` data and `RECOVERY_BLOCKS`
/// recovery blocks.
#[derive(Clone, Copy, Debug, PartialEq, Eq)]
pub struct RecoveryConfig<const DATA_BLOCKS: usize, const RECOVERY_BLOCKS: usize>;

impl<const DATA_BLOCKS: usize, const RECOVERY_BLOCKS: usize> RecoveryConfig<DATA_BLOCKS, RECOVERY_BLOCKS> {
    /// Create a recovery configuration.
    pub fn new() -> (c: Self) {
        Self
    }

    /// Data block count.
    pub fn data_blocks() -> (n: usize)
        ensures
            n == DATA_BLOCKS,
    {
        DATA_BLOCKS
    }

    /// Recovery block count.
    pub fn recovery_blocks() -> (n: usize)
        ensures
            n == RECOVERY_BLOCKS,
    {
        RECOVERY_BLOCKS
    }

    /// Total block count.
    pub fn total_blocks() -> (n: usize)
        requires
            DATA_BLOCKS + RECOVERY_BLOCKS <= usize::MAX,
        ensures
            n == DATA_BLOCKS + RECOVERY_BLOCKS,
    {
        DATA_BLOCKS + RECOVERY_BLOCKS
    }

    /// Whether `missing_blocks` missing blocks can be recovered.
    pub fn can_recover(missing_blocks: usize) -> (r: bool)
        ensures
            r == (missing_blocks <= RECOVERY_BLOCKS),
    {
        missing_blocks <= RECOVERY_BLOCKS
    }
}

impl<const DATA_BLOCKS: usize, const RECOVERY_BLOCKS: usize> Default for RecoveryConfig<DATA_BLOCKS, RECOVERY_BLOCKS> {
    fn default() -> (c: Self) {
        Self::new()
    }
}

} // verus!
