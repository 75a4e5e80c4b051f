//! Reconstruction of missing input slices from recovery slices.
use crate::bases::{base_value, generate_base_values};
use crate::elimination::{gauss_jordan, gmat, gseq, left_identity};
use crate::galois::{decimal_spec, group_galois16, push_decimal, Galois16};
use vstd::string::StringExecFns;
use crate::linalg::{
    col, dot, identity, is_matrix, is_product, lemma_dot_unit, lemma_left_inverse_is_right_inverse, lemma_left_inverse_not_singular, lemma_right_inverse_solves, lemma_singular_same_block, mat_mul_entry, singular, unit,
};
use vstd::prelude::*;

verus! {

broadcast use group_galois16;

/// A recovery slice: the exponent of its Vandermonde row and its data.
#[derive(Debug, Clone)]
pub struct RecoverySlicePacket {
    pub length: u64,
    pub md5: [u8; 16],
    pub set_id: [u8; 16],
    pub type_of_packet: [u8; 16],
    pub exponent: u32,
    pub recovery_data: Vec<u8>,
}

/// The leading `n`-by-`n` block of a matrix given by rows.
pub open spec fn square_part(m: Seq<Vec<Galois16>>, n: nat) -> Seq<Seq<u16>> {
    Seq::new(n, |i: int| gseq(m[i]@).subrange(0, n as int))
}

/// The rows of `m` have at least `n` entries each.
pub open spec fn rows_at_least(m: Seq<Vec<Galois16>>, n: nat) -> bool {
    forall|i: int| 0 <= i < m.len() ==> #[trigger] m[i]@.len() >= n
}

/// The message reported for a matrix without a pivot in column `c`.
pub open spec fn singular_text(c: nat) -> Seq<char> {
    "Singular matrix at column "@ + decimal_spec(c)
}

/// The message reported for a matrix without a pivot in a column.
fn singular_message(col: usize) -> (m: String)
    ensures
        m@ == singular_text(col as nat),
{
    let mut m = String::new();
    m.append("Singular matrix at column ");
    push_decimal(&mut m, col);
    proof {
        assert(m@ =~= singular_text(col as nat));
    }
    m
}

/// Reconstruction engine for PAR2-compatible Reed-Solomon operations.
pub struct ReconstructionEngine {
    pub slice_size: usize,
    pub total_input_slices: usize,
    pub recovery_slices: Vec<RecoverySlicePacket>,
    pub base_values: Vec<u16>,
}

impl ReconstructionEngine {
    /// Creates the engine and the base value of each input slice.
    pub fn new(slice_size: usize, total_input_slices: usize, recovery_slices: Vec<RecoverySlicePacket>) -> (e: Self)
        ensures
            e.slice_size == slice_size,
            e.total_input_slices == total_input_slices,
            e.recovery_slices@ == recovery_slices@,
            e.base_values@.len() == total_input_slices,
            forall|k: int| 0 <= k < total_input_slices ==> #[trigger] e.base_values@[k] == base_value(k as nat),
    {
        let base_values = generate_base_values(total_input_slices);
        Self { slice_size, total_input_slices, recovery_slices, base_values }
    }

    /// Whether there are at least `missing_count` recovery slices.
    pub fn can_reconstruct(&self, missing_count: usize) -> (r: bool)
        ensures
            r == (self.recovery_slices@.len() >= missing_count),
    {
        self.recovery_slices.len() >= missing_count
    }

    /// Invert a square matrix by Gauss-Jordan elimination on `[A | I]`.
    /// On success the result `B` satisfies `B * A == I`; it fails only on
    /// a matrix that is not square or is singular.
    pub fn invert_gf_matrix(&self, matrix: &[Vec<Galois16>]) -> (res: Result<Vec<Vec<Galois16>>, String>)
        requires
            matrix@.len() > 0 && matrix@[0]@.len() == matrix@.len() ==> rows_at_least(matrix@, matrix@.len() as nat),
            2 * matrix@.len() <= usize::MAX,
        ensures
            (matrix@.len() == 0 || matrix@[0]@.len() != matrix@.len()) ==> (res matches Err(m) && m@ == "Invalid matrix dimensions"@),
            res is Err <==> (matrix@.len() == 0 || matrix@[0]@.len() != matrix@.len()
                || singular(square_part(matrix@, matrix@.len() as nat), matrix@.len() as nat)),
            matrix@.len() > 0 && matrix@[0]@.len() == matrix@.len() ==> (res matches Err(m) ==>
                exists|c: nat| c < matrix@.len() && #[trigger] singular_text(c) == m@),
            res matches Ok(inv) ==> {
                &&& is_matrix(gmat(inv@), matrix@.len() as nat, matrix@.len() as nat)
                &&& is_product(gmat(inv@), square_part(matrix@, matrix@.len() as nat), identity(matrix@.len() as nat), matrix@.len() as nat, matrix@.len() as nat)
                &&& is_product(square_part(matrix@, matrix@.len() as nat), gmat(inv@), identity(matrix@.len() as nat), matrix@.len() as nat, matrix@.len() as nat)
            },
    {
        let n = matrix.len();
        if n == 0 || matrix[0].len() != n {
            return Err("Invalid matrix dimensions".to_string());
        }
        let ghost a = square_part(matrix@, n as nat);
        let mut aug: Vec<Vec<Galois16>> = Vec::with_capacity(n);
        let mut i: usize = 0;
        while i < n
            invariant
                n == matrix@.len(),
                2 * n <= usize::MAX,
                rows_at_least(matrix@, n as nat),
                a == square_part(matrix@, n as nat),
                i <= n,
                aug@.len() == i,
                forall|k: int| 0 <= k < i ==> #[trigger] aug@[k]@.len() == 2 * n,
                forall|k: int| 0 <= k < i ==> #[trigger] gseq(aug@[k]@) == a[k] + unit(n as nat, k),
            decreases n - i,
        {
            let mut row: Vec<Galois16> = Vec::with_capacity(2 * n);
            let mut j: usize = 0;
            while j < 2 * n
                invariant
                    n == matrix@.len(),
                    2 * n <= usize::MAX,
                    rows_at_least(matrix@, n as nat),
                    a == square_part(matrix@, n as nat),
                    i < n,
                    j <= 2 * n,
                    gseq(row@) == (a[i as int] + unit(n as nat, i as int)).take(j as int),
                decreases 2 * n - j,
            {
                let ghost prev = row@;
                let v = if j < n {
                    matrix[i][j]
                } else if j - n == i {
                    Galois16::new(1)
                } else {
                    Galois16::new(0)
                };
                row.push(v);
                proof {
                    assert(gseq(row@) =~= gseq(prev).push(v@));
                    assert(gseq(row@) =~= (a[i as int] + unit(n as nat, i as int)).take(j as int + 1));
                }
                j = j + 1;
            }
            proof {
                assert((a[i as int] + unit(n as nat, i as int)).take(2 * n as int) =~= a[i as int] + unit(n as nat, i as int));
            }
            aug.push(row);
            i = i + 1;
        }
        let ghost a0 = gmat(aug@);
        match gauss_jordan(&mut aug, n, 2 * n) {
            Err(c) => {
                proof {
                    assert forall|k: int| 0 <= k < n implies #[trigger] a0[k].subrange(0, n as int) == a[k].subrange(0, n as int) by {
                        assert(a0[k].subrange(0, n as int) =~= a[k].subrange(0, n as int));
                    }
                    lemma_singular_same_block(a0, a, n as nat);
                }
                let m = singular_message(c);
                proof {
                    assert(singular_text(c as nat) == m@);
                }
                return Err(m);
            },
            Ok(()) => {},
        }
        let ghost af = gmat(aug@);
        let mut inverse: Vec<Vec<Galois16>> = Vec::with_capacity(n);
        let mut r: usize = 0;
        while r < n
            invariant
                n == matrix@.len(),
                2 * n <= usize::MAX,
                aug@.len() == n,
                forall|k: int| 0 <= k < n ==> #[trigger] aug@[k]@.len() == 2 * n,
                af == gmat(aug@),
                r <= n,
                inverse@.len() == r,
                forall|k: int| 0 <= k < r ==> #[trigger] gseq(inverse@[k]@) == af[k].subrange(n as int, 2 * n as int),
            decreases n - r,
        {
            let mut row: Vec<Galois16> = Vec::with_capacity(n);
            let mut j: usize = 0;
            while j < n
                invariant
                    n == matrix@.len(),
                    2 * n <= usize::MAX,
                    aug@.len() == n,
                    forall|k: int| 0 <= k < n ==> #[trigger] aug@[k]@.len() == 2 * n,
                    af == gmat(aug@),
                    r < n,
                    j <= n,
                    gseq(row@) == af[r as int].subrange(n as int, n + j),
                decreases n - j,
            {
                let ghost prev = row@;
                let v = aug[r][n + j];
                row.push(v);
                proof {
                    assert(gseq(row@) =~= gseq(prev).push(v@));
                    assert(gseq(row@) =~= af[r as int].subrange(n as int, n + j + 1));
                }
                j = j + 1;
            }
            inverse.push(row);
            r = r + 1;
        }
        proof {
            let w2: nat = (2 * n) as nat;
            let (e, f) = choose|e: Seq<Seq<u16>>, f: Seq<Seq<u16>>| #![trigger is_product(f, e, identity(n as nat), n as nat, n as nat)]
                is_product(e, a0, af, n as nat, w2) && is_product(f, e, identity(n as nat), n as nat, n as nat);
            let inv = gmat(inverse@);
            assert forall|k: int| 0 <= k < n implies #[trigger] inv[k] == e[k] by {
                assert forall|j: int| 0 <= j < n implies #[trigger] inv[k][j] == e[k][j] by {
                    assert(af[k][n + j] == mat_mul_entry(e, a0, k, n + j));
                    assert(col(a0, n + j) =~= unit(n as nat, j));
                    lemma_dot_unit(e[k], j);
                }
                assert(inv[k] =~= e[k]);
            }
            assert forall|k: int| 0 <= k < n implies #[trigger] inv[k].len() == n by {}
            assert forall|i: int, j: int| 0 <= i < n && 0 <= j < n implies #[trigger] identity(n as nat)[i][j] == mat_mul_entry(inv, a, i, j) by {
                assert(af[i][j] == mat_mul_entry(e, a0, i, j));
                assert(col(a0, j) =~= col(a, j));
                assert(left_identity(af, n as nat));
            }
            lemma_left_inverse_not_singular(inv, a, n as nat);
            assert(inv =~= e);
            lemma_left_inverse_is_right_inverse(inv, a, f, n as nat);
        }
        Ok(inverse)
    }

    /// Solve `A * x = b` by Gauss-Jordan elimination on `[A | b]`.  On
    /// success `x = E * b` for a matrix `E` with `E * A == I`; it fails only
    /// on inputs of mismatched sizes or a singular matrix.
    pub fn solve_gf_system(&self, matrix: &[Vec<Galois16>], rhs: &[Galois16]) -> (res: Result<Vec<Galois16>, String>)
        requires
            matrix@.len() > 0 && matrix@[0]@.len() == matrix@.len() ==> rows_at_least(matrix@, matrix@.len() as nat),
            matrix@.len() < usize::MAX,
        ensures
            (matrix@.len() == 0 || matrix@[0]@.len() != matrix@.len() || rhs@.len() != matrix@.len()) ==> (res matches Err(m) && m@ == "Invalid matrix dimensions"@),
            res is Err <==> (matrix@.len() == 0 || matrix@[0]@.len() != matrix@.len() || rhs@.len() != matrix@.len()
                || singular(square_part(matrix@, matrix@.len() as nat), matrix@.len() as nat)),
            matrix@.len() > 0 && matrix@[0]@.len() == matrix@.len() && rhs@.len() == matrix@.len() ==> (res matches Err(m) ==>
                exists|c: nat| c < matrix@.len() && #[trigger] singular_text(c) == m@),
            res matches Ok(x) ==> x@.len() == matrix@.len() && exists|e: Seq<Seq<u16>>| {
                &&& is_product(e, square_part(matrix@, matrix@.len() as nat), identity(matrix@.len() as nat), matrix@.len() as nat, matrix@.len() as nat)
                &&& forall|i: int| 0 <= i < matrix@.len() ==> #[trigger] x@[i]@ == dot(e[i], gseq(rhs@))
            },
            res matches Ok(x) ==> forall|i: int| 0 <= i < matrix@.len() ==>
                #[trigger] dot(square_part(matrix@, matrix@.len() as nat)[i], gseq(x@)) == rhs@[i]@,
    {
        let n = matrix.len();
        if n == 0 || matrix[0].len() != n || rhs.len() != n {
            return Err("Invalid matrix dimensions".to_string());
        }
        let ghost a = square_part(matrix@, n as nat);
        let mut aug: Vec<Vec<Galois16>> = Vec::with_capacity(n);
        let mut i: usize = 0;
        while i < n
            invariant
                n == matrix@.len(),
                n == rhs@.len(),
                n < usize::MAX,
                rows_at_least(matrix@, n as nat),
                a == square_part(matrix@, n as nat),
                i <= n,
                aug@.len() == i,
                forall|k: int| 0 <= k < i ==> #[trigger] aug@[k]@.len() == n + 1,
                forall|k: int| 0 <= k < i ==> #[trigger] gseq(aug@[k]@) == a[k].push(rhs@[k]@),
            decreases n - i,
        {
            let mut row: Vec<Galois16> = Vec::with_capacity(n + 1);
            let mut j: usize = 0;
            while j < n
                invariant
                    n == matrix@.len(),
                    rows_at_least(matrix@, n as nat),
                    a == square_part(matrix@, n as nat),
                    i < n,
                    j <= n,
                    gseq(row@) == a[i as int].take(j as int),
                decreases n - j,
            {
                let ghost prev = row@;
                let v = matrix[i][j];
                row.push(v);
                proof {
                    assert(gseq(row@) =~= gseq(prev).push(v@));
                    assert(gseq(row@) =~= a[i as int].take(j as int + 1));
                }
                j = j + 1;
            }
            let ghost prev = row@;
            row.push(rhs[i]);
            proof {
                assert(gseq(row@) =~= gseq(prev).push(rhs@[i as int]@));
                assert(a[i as int].take(n as int) =~= a[i as int]);
            }
            aug.push(row);
            i = i + 1;
        }
        let ghost a0 = gmat(aug@);
        match gauss_jordan(&mut aug, n, n + 1) {
            Err(c) => {
                proof {
                    assert forall|k: int| 0 <= k < n implies #[trigger] a0[k].subrange(0, n as int) == a[k].subrange(0, n as int) by {
                        assert(a0[k].subrange(0, n as int) =~= a[k].subrange(0, n as int));
                    }
                    lemma_singular_same_block(a0, a, n as nat);
                }
                let m = singular_message(c);
                proof {
                    assert(singular_text(c as nat) == m@);
                }
                return Err(m);
            },
            Ok(()) => {},
        }
        let ghost af = gmat(aug@);
        let mut x: Vec<Galois16> = Vec::with_capacity(n);
        let mut r: usize = 0;
        while r < n
            invariant
                n == matrix@.len(),
                n < usize::MAX,
                aug@.len() == n,
                forall|k: int| 0 <= k < n ==> #[trigger] aug@[k]@.len() == n + 1,
                af == gmat(aug@),
                r <= n,
                x@.len() == r,
                forall|k: int| 0 <= k < r ==> (#[trigger] x@[k])@ == af[k][n as int],
            decreases n - r,
        {
            x.push(aug[r][n]);
            r = r + 1;
        }
        proof {
            let w1: nat = (n + 1) as nat;
            let (e, f) = choose|e: Seq<Seq<u16>>, f: Seq<Seq<u16>>| #![trigger is_product(f, e, identity(n as nat), n as nat, n as nat)]
                is_product(e, a0, af, n as nat, w1) && is_product(f, e, identity(n as nat), n as nat, n as nat);
            assert(col(a0, n as int) =~= gseq(rhs@));
            assert forall|i: int, j: int| 0 <= i < n && 0 <= j < n implies #[trigger] identity(n as nat)[i][j] == mat_mul_entry(e, a, i, j) by {
                assert(af[i][j] == mat_mul_entry(e, a0, i, j));
                assert(col(a0, j) =~= col(a, j));
                assert(left_identity(af, n as nat));
            }
            assert forall|i: int| 0 <= i < n implies #[trigger] x@[i]@ == dot(e[i], gseq(rhs@)) by {
                assert(af[i][n as int] == mat_mul_entry(e, a0, i, n as int));
            }
            assert(is_matrix(a, n as nat, n as nat));
            assert(is_matrix(identity(n as nat), n as nat, n as nat));
            assert(is_product(e, a, identity(n as nat), n as nat, n as nat));
            lemma_left_inverse_not_singular(e, a, n as nat);
            lemma_left_inverse_is_right_inverse(e, a, f, n as nat);
            let xs = gseq(x@);
            assert forall|k: int| 0 <= k < n implies #[trigger] xs[k] == dot(e[k], gseq(rhs@)) by {
                assert(x@[k]@ == dot(e[k], gseq(rhs@)));
            }
            lemma_right_inverse_solves(a, e, gseq(rhs@), xs, n as nat);
        }
        Ok(x)
    }
}

} // verus!
