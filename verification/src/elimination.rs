//! Gauss-Jordan elimination over GF(2^16) on augmented matrices held as
//! rows of field elements.
use crate::field::{
    gf_mul, gf_pow, lemma_gf_mul_comm, lemma_gf_mul_one_right, lemma_gf_mul_zero_left, lemma_xor,
};
use crate::galois::{gf_inv, gf_mul_word, gf_pow_word, group_galois16, Galois16};
use crate::generator::{lemma_div_inverts_mul, lemma_nonzero_pow_65535};
use crate::linalg::{
    axpy, dot, identity, in_kernel, is_matrix, is_product, lemma_dot_axpy, lemma_dot_comm, lemma_dot_scale,
    lemma_dot_unit, lemma_dot_zero_left, lemma_identity_product, lemma_product_axpy, lemma_product_scale,
    lemma_product_swap, scale, singular, unit, block_at, leading_singular, lemma_inverse_axpy, lemma_inverse_scale,
    lemma_inverse_swap,
};
use vstd::prelude::*;

verus! {

broadcast use group_galois16;

/// Representations of a row of field elements.
pub open spec fn gseq(s: Seq<Galois16>) -> Seq<u16> {
    Seq::new(s.len(), |i: int| s[i]@)
}

/// Representations of a matrix given as rows of field elements.
pub open spec fn gmat(m: Seq<Vec<Galois16>>) -> Seq<Seq<u16>> {
    Seq::new(m.len(), |i: int| gseq(m[i]@))
}

/// Columns `0..n` of `b` form the identity.
pub open spec fn left_identity(b: Seq<Seq<u16>>, n: nat) -> bool {
    forall|i: int, k: int| 0 <= i < n && 0 <= k < n ==> #[trigger] b[i][k] == (if i == k { 1u16 } else { 0u16 })
}

/// Column `j` of `a` is zero in its first `n` rows.
pub open spec fn zero_in_rows(a: Seq<Seq<u16>>, j: int, n: nat) -> bool {
    forall|k: int| 0 <= k < n ==> #[trigger] a[k][j] == 0
}

/// `dst + f * src`, row by row.
pub fn row_axpy(dst: &Vec<Galois16>, f: Galois16, src: &Vec<Galois16>) -> (r: Vec<Galois16>)
    requires
        dst@.len() == src@.len(),
    ensures
        gseq(r@) == axpy(gseq(dst@), f@, gseq(src@)),
{
    let mut r: Vec<Galois16> = Vec::with_capacity(dst.len());
    let mut j: usize = 0;
    while j < dst.len()
        invariant
            j <= dst@.len(),
            dst@.len() == src@.len(),
            r@.len() == j,
            forall|k: int| 0 <= k < j ==> #[trigger] r@[k]@ == dst@[k]@ ^ gf_mul(f@, src@[k]@),
        decreases dst@.len() - j,
    {
        let v = dst[j] - f * src[j];
        r.push(v);
        j = j + 1;
    }
    assert(gseq(r@) =~= axpy(gseq(dst@), f@, gseq(src@)));
    r
}

/// `f * row`, entry by entry.
pub fn row_scale(f: Galois16, row: &Vec<Galois16>) -> (r: Vec<Galois16>)
    ensures
        gseq(r@) == scale(f@, gseq(row@)),
{
    let mut r: Vec<Galois16> = Vec::with_capacity(row.len());
    let mut j: usize = 0;
    while j < row.len()
        invariant
            j <= row@.len(),
            r@.len() == j,
            forall|k: int| 0 <= k < j ==> #[trigger] r@[k]@ == gf_mul(f@, row@[k]@),
        decreases row@.len() - j,
    {
        let v = row[j] * f;
        proof {
            lemma_gf_mul_comm(row@[j as int]@, f@);
        }
        r.push(v);
        j = j + 1;
    }
    assert(gseq(r@) =~= scale(f@, gseq(row@)));
    r
}

/// A nonzero factor cancels: `f * x == 0` forces `x == 0`.
proof fn lemma_nonzero_factor(f: u16, x: u16)
    requires
        f != 0,
        gf_mul(f, x) == 0,
    ensures
        x == 0,
{
    lemma_div_inverts_mul(x, f);
    lemma_gf_mul_comm(x, f);
    lemma_gf_mul_zero_left(gf_inv(f));
}

/// Swapping two rows keeps the solutions of the homogeneous system.
proof fn lemma_kernel_swap(b: Seq<Seq<u16>>, n: nat, c: int, p: int)
    requires
        b.len() == n,
        0 <= c < n,
        0 <= p < n,
    ensures
        forall|v: Seq<u16>| #[trigger] in_kernel(b.update(c, b[p]).update(p, b[c]), n, v) ==> in_kernel(b, n, v),
{
    let b2 = b.update(c, b[p]).update(p, b[c]);
    assert forall|v: Seq<u16>| #[trigger] in_kernel(b2, n, v) implies in_kernel(b, n, v) by {
        assert forall|i: int| 0 <= i < n implies #[trigger] dot(b[i].subrange(0, n as int), v) == 0 by {
            if i == c {
                assert(dot(b2[p].subrange(0, n as int), v) == 0);
            } else if i == p {
                assert(dot(b2[c].subrange(0, n as int), v) == 0);
            } else {
                assert(dot(b2[i].subrange(0, n as int), v) == 0);
            }
        }
    }
}

/// Scaling a row by a nonzero factor keeps the solutions of the
/// homogeneous system.
proof fn lemma_kernel_scale(b: Seq<Seq<u16>>, n: nat, c: int, f: u16)
    requires
        b.len() == n,
        0 <= c < n,
        b[c].len() >= n,
        f != 0,
    ensures
        forall|v: Seq<u16>| #[trigger] in_kernel(b.update(c, scale(f, b[c])), n, v) ==> in_kernel(b, n, v),
{
    let b2 = b.update(c, scale(f, b[c]));
    assert forall|v: Seq<u16>| #[trigger] in_kernel(b2, n, v) implies in_kernel(b, n, v) by {
        assert forall|i: int| 0 <= i < n implies #[trigger] dot(b[i].subrange(0, n as int), v) == 0 by {
            assert(dot(b2[i].subrange(0, n as int), v) == 0);
            if i == c {
                let u = b[c].subrange(0, n as int);
                assert(scale(f, b[c]).subrange(0, n as int) =~= scale(f, u));
                lemma_dot_scale(f, u, v);
                lemma_nonzero_factor(f, dot(u, v));
            }
        }
    }
}

/// Adding a multiple of another row keeps the solutions of the homogeneous
/// system.
proof fn lemma_kernel_axpy(b: Seq<Seq<u16>>, n: nat, r: int, c: int, f: u16)
    requires
        b.len() == n,
        0 <= r < n,
        0 <= c < n,
        r != c,
        b[r].len() >= n,
        b[c].len() == b[r].len(),
    ensures
        forall|v: Seq<u16>| #[trigger] in_kernel(b.update(r, axpy(b[r], f, b[c])), n, v) ==> in_kernel(b, n, v),
{
    let b2 = b.update(r, axpy(b[r], f, b[c]));
    assert forall|v: Seq<u16>| #[trigger] in_kernel(b2, n, v) implies in_kernel(b, n, v) by {
        assert forall|i: int| 0 <= i < n implies #[trigger] dot(b[i].subrange(0, n as int), v) == 0 by {
            assert(dot(b2[i].subrange(0, n as int), v) == 0);
            if i == r {
                let u = b[r].subrange(0, n as int);
                let t = b[c].subrange(0, n as int);
                assert(dot(b2[c].subrange(0, n as int), v) == 0);
                assert(axpy(b[r], f, b[c]).subrange(0, n as int) =~= axpy(u, f, t));
                lemma_dot_axpy(u, f, t, v);
                assert(gf_mul(f, 0) == 0);
                lemma_xor(dot(u, v), 0, 0);
            }
        }
    }
}

/// Beyond position `m` the second argument is zero: the dot product is
/// that of the first `m` entries.
proof fn lemma_dot_prefix(u: Seq<u16>, v: Seq<u16>, m: int)
    requires
        u.len() == v.len(),
        0 <= m <= u.len(),
        forall|k: int| m <= k < v.len() ==> #[trigger] v[k] == 0,
    ensures
        dot(u, v) == dot(u.take(m), v.take(m)),
    decreases u.len(),
{
    if u.len() == m {
        assert(u.take(m) =~= u);
        assert(v.take(m) =~= v);
    } else {
        lemma_dot_prefix(u.drop_last(), v.drop_last(), m);
        assert(u.drop_last().take(m) =~= u.take(m));
        assert(v.drop_last().take(m) =~= v.take(m));
        assert(v.last() == v[v.len() - 1]);
        assert(gf_mul(u.last(), 0) == 0);
        lemma_xor(dot(u.drop_last(), v.drop_last()), 0, 0);
    }
}

/// When columns `0..c` hold the identity and column `c` is zero from row
/// `c` on, the vector with `-b[k][c]` at `k < c` (in characteristic two,
/// `b[k][c]` itself) and one at `c` solves the homogeneous system.
proof fn lemma_no_pivot_kernel(b: Seq<Seq<u16>>, n: nat, c: int) -> (v: Seq<u16>)
    requires
        b.len() == n,
        0 <= c < n,
        forall|i: int| 0 <= i < n ==> #[trigger] b[i].len() >= n,
        forall|i: int, k: int| 0 <= i < n && 0 <= k < c ==> #[trigger] b[i][k] == (if i == k { 1u16 } else { 0u16 }),
        forall|q: int| c <= q < n ==> #[trigger] b[q][c] == 0,
    ensures
        in_kernel(b, n, v),
        v[c] == 1,
{
    let v = Seq::new(n, |k: int| if k < c { b[k][c] } else if k == c { 1u16 } else { 0u16 });
    assert forall|i: int| 0 <= i < n implies #[trigger] dot(b[i].subrange(0, n as int), v) == 0 by {
        let u = b[i].subrange(0, n as int);
        lemma_dot_prefix(u, v, c + 1);
        let uc = u.take(c + 1);
        let vc = v.take(c + 1);
        assert(uc.drop_last() =~= u.take(c));
        assert(vc.drop_last() =~= v.take(c));
        assert(dot(uc, vc) == dot(u.take(c), v.take(c)) ^ gf_mul(b[i][c], 1));
        lemma_gf_mul_one_right(b[i][c]);
        if i < c {
            assert(u.take(c) =~= unit(c as nat, i));
            lemma_dot_comm(u.take(c), v.take(c));
            lemma_dot_unit(v.take(c), i);
            lemma_xor(b[i][c], b[i][c], 0);
        } else {
            assert forall|k: int| 0 <= k < u.take(c).len() implies #[trigger] u.take(c)[k] == 0 by {}
            lemma_dot_zero_left(u.take(c), v.take(c));
            lemma_xor(0, 0, 0);
        }
    }
    v
}

/// Scaling a row keeps every solution of the homogeneous system.
proof fn lemma_kernel_scale_rev(b: Seq<Seq<u16>>, n: nat, c: int, f: u16)
    requires
        b.len() == n,
        0 <= c < n,
        b[c].len() >= n,
    ensures
        forall|v: Seq<u16>| #[trigger] in_kernel(b, n, v) ==> in_kernel(b.update(c, scale(f, b[c])), n, v),
{
    let b2 = b.update(c, scale(f, b[c]));
    assert forall|v: Seq<u16>| #[trigger] in_kernel(b, n, v) implies in_kernel(b2, n, v) by {
        assert forall|i: int| 0 <= i < n implies #[trigger] dot(b2[i].subrange(0, n as int), v) == 0 by {
            assert(dot(b[i].subrange(0, n as int), v) == 0);
            if i == c {
                let u = b[c].subrange(0, n as int);
                assert(scale(f, b[c]).subrange(0, n as int) =~= scale(f, u));
                lemma_dot_scale(f, u, v);
                assert(gf_mul(f, 0) == 0);
            }
        }
    }
}

/// Adding a multiple of another row keeps every solution of the
/// homogeneous system.
proof fn lemma_kernel_axpy_rev(b: Seq<Seq<u16>>, n: nat, r: int, c: int, f: u16)
    requires
        b.len() == n,
        0 <= r < n,
        0 <= c < n,
        r != c,
        b[r].len() >= n,
        b[c].len() == b[r].len(),
    ensures
        forall|v: Seq<u16>| #[trigger] in_kernel(b, n, v) ==> in_kernel(b.update(r, axpy(b[r], f, b[c])), n, v),
{
    let b2 = b.update(r, axpy(b[r], f, b[c]));
    assert forall|v: Seq<u16>| #[trigger] in_kernel(b, n, v) implies in_kernel(b2, n, v) by {
        assert forall|i: int| 0 <= i < n implies #[trigger] dot(b2[i].subrange(0, n as int), v) == 0 by {
            assert(dot(b[i].subrange(0, n as int), v) == 0);
            if i == r {
                let u = b[r].subrange(0, n as int);
                let t = b[c].subrange(0, n as int);
                assert(dot(b[c].subrange(0, n as int), v) == 0);
                assert(axpy(b[r], f, b[c]).subrange(0, n as int) =~= axpy(u, f, t));
                lemma_dot_axpy(u, f, t, v);
                assert(gf_mul(f, 0) == 0);
                lemma_xor(0, 0, 0);
            }
        }
    }
}

/// Scaling row `c < m` by a nonzero factor keeps the solutions of the
/// leading block of size `m`.
proof fn lemma_block_scale(b: Seq<Seq<u16>>, rows: nat, w: nat, off: nat, c: int, f: u16, m: nat)
    requires
        is_matrix(b, rows, w),
        off + m <= w,
        0 <= c < m,
        m <= rows,
        f != 0,
    ensures
        forall|v: Seq<u16>| #[trigger] in_kernel(block_at(b.update(c, scale(f, b[c])), m, off), m, v)
            <==> in_kernel(block_at(b, m, off), m, v),
{
    let bb = block_at(b, m, off);
    let row = bb[c];
    assert(block_at(b.update(c, scale(f, b[c])), m, off) =~= bb.update(c, scale(f, row))) by {
        assert(scale(f, b[c]).subrange(off as int, (off + m) as int) =~= scale(f, row));
    }
    lemma_kernel_scale(bb, m, c, f);
    lemma_kernel_scale_rev(bb, m, c, f);
}

/// Adding a multiple of row `c < m` to another row keeps the solutions of
/// the leading block of size `m`.
proof fn lemma_block_axpy(b: Seq<Seq<u16>>, rows: nat, w: nat, off: nat, r: int, c: int, f: u16, m: nat)
    requires
        is_matrix(b, rows, w),
        off + m <= w,
        0 <= c < m,
        0 <= r < rows,
        r != c,
        m <= rows,
    ensures
        forall|v: Seq<u16>| #[trigger] in_kernel(block_at(b.update(r, axpy(b[r], f, b[c])), m, off), m, v)
            <==> in_kernel(block_at(b, m, off), m, v),
{
    let bb = block_at(b, m, off);
    if r < m {
        assert(block_at(b.update(r, axpy(b[r], f, b[c])), m, off) =~= bb.update(r, axpy(bb[r], f, bb[c]))) by {
            assert(axpy(b[r], f, b[c]).subrange(off as int, (off + m) as int) =~= axpy(bb[r], f, bb[c]));
        }
        lemma_kernel_axpy(bb, m, r, c, f);
        lemma_kernel_axpy_rev(bb, m, r, c, f);
    } else {
        assert(block_at(b.update(r, axpy(b[r], f, b[c])), m, off) =~= bb);
    }
}

/// A block whose columns `0..c` hold the identity and whose row `c` is zero
/// but for a nonzero entry at column `c` has only the zero solution.
proof fn lemma_pivot_block_nonsingular(b: Seq<Seq<u16>>, c: int)
    requires
        0 <= c,
        b.len() == c + 1,
        forall|i: int| 0 <= i <= c ==> #[trigger] b[i].len() == c + 1,
        forall|i: int, k: int| 0 <= i <= c && 0 <= k < c ==> #[trigger] b[i][k] == (if i == k { 1u16 } else { 0u16 }),
        b[c][c] != 0,
    ensures
        !singular(b, (c + 1) as nat),
{
    let n = (c + 1) as nat;
    if singular(b, n) {
        let (v, t) = choose|v: Seq<u16>, k: int| #![trigger in_kernel(b, n, v), v[k]] in_kernel(b, n, v) && 0 <= k < n && v[k] != 0;
        // the last row gives v[c] == 0
        let p = b[c][c];
        assert(b[c].subrange(0, n as int) =~= scale(p, unit(n, c))) by {
            assert forall|k: int| 0 <= k < n implies #[trigger] b[c].subrange(0, n as int)[k] == scale(p, unit(n, c))[k] by {
                if k == c {
                    lemma_gf_mul_one_right(p);
                } else {
                    assert(gf_mul(p, 0) == 0);
                }
            }
        }
        assert(dot(b[c].subrange(0, n as int), v) == 0);
        lemma_dot_scale(p, unit(n, c), v);
        lemma_dot_comm(unit(n, c), v);
        lemma_dot_unit(v, c);
        lemma_nonzero_factor(p, v[c]);
        // every other row gives v[j] == 0
        assert forall|j: int| 0 <= j < c implies #[trigger] v[j] == 0 by {
            let u = b[j].subrange(0, n as int);
            assert(u =~= axpy(unit(n, j), b[j][c], unit(n, c))) by {
                assert forall|k: int| 0 <= k < n implies #[trigger] u[k] == axpy(unit(n, j), b[j][c], unit(n, c))[k] by {
                    if k == c {
                        lemma_gf_mul_one_right(b[j][c]);
                        lemma_xor(b[j][c], 0, 0);
                    } else {
                        assert(gf_mul(b[j][c], 0) == 0);
                        lemma_xor(u[k], 0, 0);
                    }
                }
            }
            assert(dot(u, v) == 0);
            lemma_dot_axpy(unit(n, j), b[j][c], unit(n, c), v);
            lemma_dot_comm(unit(n, j), v);
            lemma_dot_unit(v, j);
            lemma_dot_comm(unit(n, c), v);
            lemma_dot_unit(v, c);
            assert(gf_mul(b[j][c], 0) == 0);
            lemma_xor(v[j], 0, 0);
        }
        assert(v[t] == 0);
    }
}

/// Reduces the first `n` columns of an `n`-row augmented matrix to the
/// identity by row operations.  On success the result is `e * aug` for some
/// `n`-by-`n` matrix `e` whose left block product is the identity; `Err(c)`
/// reports the column at which no pivot was found, and then the square
/// matrix of the first `n` columns is singular.
pub fn gauss_jordan(aug: &mut Vec<Vec<Galois16>>, n: usize, w: usize) -> (res: Result<(), usize>)
    requires
        n <= w,
        old(aug)@.len() == n,
        forall|i: int| 0 <= i < n ==> #[trigger] old(aug)@[i]@.len() == w,
    ensures
        final(aug)@.len() == n,
        forall|i: int| 0 <= i < n ==> #[trigger] final(aug)@[i]@.len() == w,
        res matches Err(c) ==> c < n,
        res is Err ==> singular(gmat(old(aug)@), n as nat),
        res is Ok ==> left_identity(gmat(final(aug)@), n as nat),
        res is Ok ==> exists|e: Seq<Seq<u16>>| is_product(e, gmat(old(aug)@), gmat(final(aug)@), n as nat, w as nat),
        res is Ok ==> exists|e: Seq<Seq<u16>>, f: Seq<Seq<u16>>| #![trigger is_product(f, e, identity(n as nat), n as nat, n as nat)]
            is_product(e, gmat(old(aug)@), gmat(final(aug)@), n as nat, w as nat) && is_product(f, e, identity(n as nat), n as nat, n as nat),
{
    let ghost a0 = gmat(aug@);
    let ghost mut e: Seq<Seq<u16>> = identity(n as nat);
    let ghost mut f: Seq<Seq<u16>> = identity(n as nat);
    proof {
        assert(is_matrix(identity(n as nat), n as nat, n as nat)) by {
            assert forall|i: int| 0 <= i < n implies #[trigger] identity(n as nat)[i].len() == n by {}
        }
        lemma_identity_product(identity(n as nat), n as nat, n as nat);
        assert(is_matrix(a0, n as nat, w as nat));
        lemma_identity_product(a0, n as nat, w as nat);
    }
    let mut c: usize = 0;
    while c < n
        invariant
            n <= w,
            c <= n,
            aug@.len() == n,
            forall|i: int| 0 <= i < n ==> #[trigger] aug@[i]@.len() == w,
            is_product(e, a0, gmat(aug@), n as nat, w as nat),
            is_product(f, e, identity(n as nat), n as nat, n as nat),
            forall|i: int, k: int| 0 <= i < n && 0 <= k < c ==> #[trigger] gmat(aug@)[i][k] == (if i == k { 1u16 } else { 0u16 }),
            forall|v: Seq<u16>| #[trigger] in_kernel(gmat(aug@), n as nat, v) ==> in_kernel(a0, n as nat, v),
            a0 == gmat(old(aug)@),
        decreases n - c,
    {
        // Find a pivot in column c at or below row c.
        let mut p: usize = c;
        while p < n && aug[p][c].value() == 0
            invariant
                c <= p <= n,
                c < n,
                n <= w,
                aug@.len() == n,
                forall|i: int| 0 <= i < n ==> #[trigger] aug@[i]@.len() == w,
                forall|i: int, k: int| 0 <= i < n && 0 <= k < c ==> #[trigger] gmat(aug@)[i][k] == (if i == k { 1u16 } else { 0u16 }),
                forall|v: Seq<u16>| #[trigger] in_kernel(gmat(aug@), n as nat, v) ==> in_kernel(a0, n as nat, v),
                forall|q: int| c <= q < p ==> #[trigger] gmat(aug@)[q][c as int] == 0,
                a0 == gmat(old(aug)@),
            decreases n - p,
        {
            p = p + 1;
        }
        if p == n {
            proof {
                let b = gmat(aug@);
                assert forall|i: int| 0 <= i < n implies #[trigger] b[i].len() >= n by {}
                let v = lemma_no_pivot_kernel(b, n as nat, c as int);
                assert(in_kernel(a0, n as nat, v));
                assert(v[c as int] != 0);
                assert(singular(a0, n as nat));
            }
            return Err(c);
        }
        proof {
            assert(gmat(aug@)[p as int][c as int] != 0);
        }
        // Move the pivot row into place.
        if p != c {
            let ghost b = gmat(aug@);
            proof {
                lemma_product_swap(e, a0, b, n as nat, w as nat, c as int, p as int);
                lemma_kernel_swap(b, n as nat, c as int, p as int);
                lemma_inverse_swap(f, e, n as nat, c as int, p as int);
                f = Seq::new(n as nat, |i: int| f[i].update(c as int, f[i][p as int]).update(p as int, f[i][c as int]));
                e = e.update(c as int, e[p as int]).update(p as int, e[c as int]);
            }
            let row_p = aug.remove(p);
            let row_c = aug.remove(c);
            aug.insert(c, row_p);
            aug.insert(p, row_c);
            proof {
                assert(gmat(aug@) =~= b.update(c as int, b[p as int]).update(p as int, b[c as int]));
            }
        }
        // Scale the pivot row so that the pivot becomes one.
        let pivot = aug[c][c];
        let inv = Galois16::new(gf_pow_word(pivot.value(), 65534));
        let scaled = row_scale(inv, &aug[c]);
        let ghost b = gmat(aug@);
        proof {
            assert(b[c as int][c as int] == pivot@ && pivot@ != 0);
            lemma_nonzero_pow_65535(pivot@);
            assert(gf_pow(pivot@, 65535) == gf_mul(gf_pow(pivot@, 65534), pivot@));
            if inv@ == 0 {
                lemma_gf_mul_zero_left(pivot@);
            }
            assert(inv@ != 0);
            lemma_kernel_scale(b, n as nat, c as int, inv@);
            lemma_product_scale(e, a0, b, n as nat, w as nat, c as int, inv@);
            lemma_gf_mul_comm(inv@, pivot@);
            lemma_inverse_scale(f, e, n as nat, c as int, pivot@, inv@);
            f = Seq::new(n as nat, |i: int| f[i].update(c as int, gf_mul(f[i][c as int], pivot@)));
            e = e.update(c as int, scale(inv@, e[c as int]));
        }
        proof {
            assert(gseq(scaled@).len() == scaled@.len());
            assert(gseq(aug@[c as int]@).len() == aug@[c as int]@.len());
        }
        aug.set(c, scaled);
        proof {
            assert forall|i: int| 0 <= i < n implies #[trigger] aug@[i]@.len() == w by {}
            assert(gmat(aug@) =~= b.update(c as int, scale(inv@, b[c as int])));
            assert forall|k: int| 0 <= k < c implies #[trigger] gmat(aug@)[c as int][k] == 0 by {
                assert(b[c as int][k] == 0);
                lemma_gf_mul_comm(inv@, 0);
                lemma_gf_mul_one_right(inv@);
            }
        }
        proof {
            assert(gmat(aug@)[c as int][c as int] == gf_mul(inv@, pivot@));
            assert(gmat(aug@)[c as int][c as int] == 1);
        }
        // Clear column c in every other row.
        let mut r: usize = 0;
        while r < n
            invariant
                n <= w,
                c < n,
                r <= n,
                aug@.len() == n,
                forall|i: int| 0 <= i < n ==> #[trigger] aug@[i]@.len() == w,
                is_product(e, a0, gmat(aug@), n as nat, w as nat),
                is_product(f, e, identity(n as nat), n as nat, n as nat),
                forall|v: Seq<u16>| #[trigger] in_kernel(gmat(aug@), n as nat, v) ==> in_kernel(a0, n as nat, v),
                gmat(aug@)[c as int][c as int] == 1,
                forall|k: int| 0 <= k < c ==> #[trigger] gmat(aug@)[c as int][k] == 0,
                forall|i: int, k: int| 0 <= i < n && i != c && 0 <= k < c ==> #[trigger] gmat(aug@)[i][k] == (if i == k { 1u16 } else { 0u16 }),
                forall|i: int| 0 <= i < r && i != c ==> #[trigger] gmat(aug@)[i][c as int] == 0,
            decreases n - r,
        {
            if r != c {
                let factor = aug[r][c];
                let updated = row_axpy(&aug[r], factor, &aug[c]);
                let ghost b = gmat(aug@);
                proof {
                    lemma_product_axpy(e, a0, b, n as nat, w as nat, r as int, c as int, factor@);
                    lemma_kernel_axpy(b, n as nat, r as int, c as int, factor@);
                    lemma_inverse_axpy(f, e, n as nat, r as int, c as int, factor@);
                    f = Seq::new(n as nat, |i: int| f[i].update(c as int, f[i][c as int] ^ gf_mul(factor@, f[i][r as int])));
                    e = e.update(r as int, axpy(e[r as int], factor@, e[c as int]));
                }
                proof {
                    assert(gseq(updated@).len() == updated@.len());
                    assert(gseq(aug@[r as int]@).len() == aug@[r as int]@.len());
                }
                aug.set(r, updated);
                proof {
                    assert forall|i: int| 0 <= i < n implies #[trigger] aug@[i]@.len() == w by {}
                    assert(gmat(aug@) =~= b.update(r as int, axpy(b[r as int], factor@, b[c as int])));
                    let row = gmat(aug@)[r as int];
                    assert forall|k: int| 0 <= k < c implies #[trigger] row[k] == (if r as int == k { 1u16 } else { 0u16 }) by {
                        assert(b[c as int][k] == 0);
                        lemma_gf_mul_one_right(factor@);
                        lemma_xor(b[r as int][k], 0, 0);
                    }
                    lemma_gf_mul_one_right(factor@);
                    lemma_xor(factor@, 0, 0);
                    assert(row[c as int] == 0);
                }
            }
            r = r + 1;
        }
        proof {
            assert forall|i: int, k: int| 0 <= i < n && 0 <= k < c + 1 implies #[trigger] gmat(aug@)[i][k] == (if i == k { 1u16 } else { 0u16 }) by {
                if k == c {
                } else if i == c {
                }
            }
        }
        c = c + 1;
    }
    Ok(())
}

/// Eliminates with fixed pivots: for `k < pivots`, the pivot of row `k` is
/// in column `offset + k`; no rows are exchanged.  On success the result is
/// `e * aug` for some `rows`-by-`rows` matrix `e`, and the pivot columns
/// hold the identity.  `Err(k)` reports the first pivot that is zero (or
/// whose inverse does not normalize it).
pub fn eliminate_fixed_pivots(
    aug: &mut Vec<Vec<Galois16>>,
    rows: usize,
    w: usize,
    pivots: usize,
    offset: usize,
) -> (res: Result<(), usize>)
    requires
        pivots <= rows,
        offset + pivots <= w,
        old(aug)@.len() == rows,
        forall|i: int| 0 <= i < rows ==> #[trigger] old(aug)@[i]@.len() == w,
    ensures
        final(aug)@.len() == rows,
        forall|i: int| 0 <= i < rows ==> #[trigger] final(aug)@[i]@.len() == w,
        res matches Err(k) ==> k < pivots,
        res is Err <==> leading_singular(gmat(old(aug)@), pivots as nat, offset as nat),
        res is Ok ==> forall|i: int, k: int|
            0 <= i < rows && 0 <= k < pivots ==> #[trigger] gmat(final(aug)@)[i][offset + k] == (if i == k { 1u16 } else { 0u16 }),
        res is Ok ==> exists|e: Seq<Seq<u16>>| is_product(e, gmat(old(aug)@), gmat(final(aug)@), rows as nat, w as nat),
        res is Ok ==> forall|i: int, j: int|
            0 <= i < rows && 0 <= j < w && zero_in_rows(gmat(old(aug)@), j, pivots as nat) ==> #[trigger] gmat(final(aug)@)[i][j] == gmat(old(aug)@)[i][j],
{
    let ghost a0 = gmat(aug@);
    let ghost mut e: Seq<Seq<u16>> = identity(rows as nat);
    proof {
        assert(is_matrix(a0, rows as nat, w as nat));
        lemma_identity_product(a0, rows as nat, w as nat);
    }
    let mut c: usize = 0;
    while c < pivots
        invariant
            pivots <= rows,
            offset + pivots <= w,
            c <= pivots,
            aug@.len() == rows,
            forall|i: int| 0 <= i < rows ==> #[trigger] aug@[i]@.len() == w,
            is_product(e, a0, gmat(aug@), rows as nat, w as nat),
            forall|i: int, k: int| 0 <= i < rows && 0 <= k < c ==> #[trigger] gmat(aug@)[i][offset + k] == (if i == k { 1u16 } else { 0u16 }),
            forall|i: int, j: int|
                0 <= i < rows && 0 <= j < w && zero_in_rows(a0, j, pivots as nat) ==> #[trigger] gmat(aug@)[i][j] == a0[i][j],
            a0 == gmat(old(aug)@),
            forall|m: nat, v: Seq<u16>| #![trigger in_kernel(block_at(gmat(aug@), m, offset as nat), m, v)]
                #![trigger in_kernel(block_at(a0, m, offset as nat), m, v)]
                c < m <= pivots ==> (in_kernel(block_at(gmat(aug@), m, offset as nat), m, v) <==> in_kernel(block_at(a0, m, offset as nat), m, v)),
            forall|m: nat| 1 <= m <= c ==> !#[trigger] singular(block_at(a0, m, offset as nat), m),
        decreases pivots - c,
    {
        let pivot = aug[c][offset + c];
        let ghost m1: nat = (c + 1) as nat;
        let ghost blk = block_at(gmat(aug@), m1, offset as nat);
        proof {
            assert forall|i: int| 0 <= i <= c implies #[trigger] blk[i].len() == c + 1 by {}
            assert forall|i: int, k: int| 0 <= i <= c && 0 <= k < c implies #[trigger] blk[i][k] == (if i == k { 1u16 } else { 0u16 }) by {
                assert(gmat(aug@)[i][offset + k] == (if i == k { 1u16 } else { 0u16 }));
            }
        }
        if pivot.value() == 0 {
            proof {
                assert forall|q: int| c <= q < m1 implies #[trigger] blk[q][c as int] == 0 by {}
                assert forall|i: int| 0 <= i < m1 implies #[trigger] blk[i].len() >= m1 by {}
                let v = lemma_no_pivot_kernel(blk, m1, c as int);
                assert(in_kernel(block_at(a0, m1, offset as nat), m1, v));
                assert(v[c as int] != 0);
                assert(singular(block_at(a0, m1, offset as nat), m1));
                assert(leading_singular(a0, pivots as nat, offset as nat));
            }
            return Err(c);
        }
        proof {
            lemma_pivot_block_nonsingular(blk, c as int);
            if singular(block_at(a0, m1, offset as nat), m1) {
                let (v, t) = choose|v: Seq<u16>, k: int| #![trigger in_kernel(block_at(a0, m1, offset as nat), m1, v), v[k]]
                    in_kernel(block_at(a0, m1, offset as nat), m1, v) && 0 <= k < m1 && v[k] != 0;
                assert(in_kernel(blk, m1, v));
                assert(singular(blk, m1));
            }
            assert forall|m: nat| 1 <= m <= c + 1 implies !#[trigger] singular(block_at(a0, m, offset as nat), m) by {
                if m <= c {
                } else {
                    assert(m == m1);
                }
            }
        }
        let inv = Galois16::new(gf_pow_word(pivot.value(), 65534));
        let scaled = row_scale(inv, &aug[c]);
        let ghost b = gmat(aug@);
        proof {
            lemma_nonzero_pow_65535(pivot@);
            assert(gf_pow(pivot@, 65535) == gf_mul(gf_pow(pivot@, 65534), pivot@));
            if inv@ == 0 {
                lemma_gf_mul_zero_left(pivot@);
            }
            assert(inv@ != 0);
            assert(is_matrix(b, rows as nat, w as nat));
            lemma_product_scale(e, a0, b, rows as nat, w as nat, c as int, inv@);
            e = e.update(c as int, scale(inv@, e[c as int]));
            assert(gseq(scaled@).len() == scaled@.len());
            assert(gseq(aug@[c as int]@).len() == aug@[c as int]@.len());
        }
        aug.set(c, scaled);
        proof {
            assert forall|i: int| 0 <= i < rows implies #[trigger] aug@[i]@.len() == w by {}
            assert(gmat(aug@) =~= b.update(c as int, scale(inv@, b[c as int])));
            assert forall|m: nat, v: Seq<u16>| #![trigger in_kernel(block_at(gmat(aug@), m, offset as nat), m, v)]
                #![trigger in_kernel(block_at(a0, m, offset as nat), m, v)]
                c < m <= pivots implies (in_kernel(block_at(gmat(aug@), m, offset as nat), m, v) <==> in_kernel(block_at(a0, m, offset as nat), m, v)) by {
                lemma_block_scale(b, rows as nat, w as nat, offset as nat, c as int, inv@, m);
                assert(in_kernel(block_at(b, m, offset as nat), m, v) <==> in_kernel(block_at(a0, m, offset as nat), m, v));
            }
            assert forall|k: int| 0 <= k < c implies #[trigger] gmat(aug@)[c as int][offset + k] == 0 by {
                assert(b[c as int][offset + k] == 0);
                lemma_gf_mul_comm(inv@, 0);
                lemma_gf_mul_one_right(inv@);
            }
            assert forall|i: int, j: int|
                0 <= i < rows && 0 <= j < w && zero_in_rows(a0, j, pivots as nat) implies #[trigger] gmat(aug@)[i][j] == a0[i][j] by {
                if i == c {
                    assert(a0[c as int][j] == 0);
                    assert(b[c as int][j] == 0);
                    assert(gf_mul(inv@, 0) == 0);
                } else {
                    assert(gmat(aug@)[i][j] == b[i][j]);
                }
            }
        }
        proof {
            assert(gmat(aug@)[c as int][offset + c] == gf_mul(inv@, pivot@));
            assert(gmat(aug@)[c as int][offset + c] == 1);
        }
        let mut r: usize = 0;
        while r < rows
            invariant
                pivots <= rows,
                offset + pivots <= w,
                c < pivots,
                r <= rows,
                aug@.len() == rows,
                forall|i: int| 0 <= i < rows ==> #[trigger] aug@[i]@.len() == w,
                is_product(e, a0, gmat(aug@), rows as nat, w as nat),
                gmat(aug@)[c as int][offset + c] == 1,
                forall|k: int| 0 <= k < c ==> #[trigger] gmat(aug@)[c as int][offset + k] == 0,
                forall|i: int, k: int| 0 <= i < rows && i != c && 0 <= k < c ==> #[trigger] gmat(aug@)[i][offset + k] == (if i == k { 1u16 } else { 0u16 }),
                forall|i: int| 0 <= i < r && i != c ==> #[trigger] gmat(aug@)[i][offset + c] == 0,
                forall|i: int, j: int|
                    0 <= i < rows && 0 <= j < w && zero_in_rows(a0, j, pivots as nat) ==> #[trigger] gmat(aug@)[i][j] == a0[i][j],
                a0 == gmat(old(aug)@),
                forall|m: nat, v: Seq<u16>| #![trigger in_kernel(block_at(gmat(aug@), m, offset as nat), m, v)]
                    #![trigger in_kernel(block_at(a0, m, offset as nat), m, v)]
                    c < m <= pivots ==> (in_kernel(block_at(gmat(aug@), m, offset as nat), m, v) <==> in_kernel(block_at(a0, m, offset as nat), m, v)),
                forall|m: nat| 1 <= m <= c + 1 ==> !#[trigger] singular(block_at(a0, m, offset as nat), m),
            decreases rows - r,
        {
            if r != c {
                let factor = aug[r][offset + c];
                let updated = row_axpy(&aug[r], factor, &aug[c]);
                let ghost b = gmat(aug@);
                proof {
                    assert(is_matrix(b, rows as nat, w as nat));
                    lemma_product_axpy(e, a0, b, rows as nat, w as nat, r as int, c as int, factor@);
                    e = e.update(r as int, axpy(e[r as int], factor@, e[c as int]));
                    assert(gseq(updated@).len() == updated@.len());
                    assert(gseq(aug@[r as int]@).len() == aug@[r as int]@.len());
                }
                aug.set(r, updated);
                proof {
                    assert forall|i: int| 0 <= i < rows implies #[trigger] aug@[i]@.len() == w by {}
                    assert(gmat(aug@) =~= b.update(r as int, axpy(b[r as int], factor@, b[c as int])));
                    assert forall|m: nat, v: Seq<u16>| #![trigger in_kernel(block_at(gmat(aug@), m, offset as nat), m, v)]
                        #![trigger in_kernel(block_at(a0, m, offset as nat), m, v)]
                        c < m <= pivots implies (in_kernel(block_at(gmat(aug@), m, offset as nat), m, v) <==> in_kernel(block_at(a0, m, offset as nat), m, v)) by {
                        lemma_block_axpy(b, rows as nat, w as nat, offset as nat, r as int, c as int, factor@, m);
                        assert(in_kernel(block_at(b, m, offset as nat), m, v) <==> in_kernel(block_at(a0, m, offset as nat), m, v));
                    }
                    let row = gmat(aug@)[r as int];
                    assert forall|k: int| 0 <= k < c implies #[trigger] row[offset + k] == (if r as int == k { 1u16 } else { 0u16 }) by {
                        assert(b[c as int][offset + k] == 0);
                        lemma_gf_mul_one_right(factor@);
                        lemma_xor(b[r as int][offset + k], 0, 0);
                    }
                    lemma_gf_mul_one_right(factor@);
                    lemma_xor(factor@, 0, 0);
                    assert(row[offset + c] == 0);
                    assert forall|i: int, j: int|
                        0 <= i < rows && 0 <= j < w && zero_in_rows(a0, j, pivots as nat) implies #[trigger] gmat(aug@)[i][j] == a0[i][j] by {
                        if i == r {
                            assert(a0[c as int][j] == 0);
                            assert(b[c as int][j] == 0);
                            assert(gf_mul(factor@, 0) == 0);
                            lemma_xor(b[r as int][j], 0, 0);
                        } else {
                            assert(gmat(aug@)[i][j] == b[i][j]);
                        }
                    }
                }
            }
            r = r + 1;
        }
        proof {
            assert forall|i: int, k: int| 0 <= i < rows && 0 <= k < c + 1 implies #[trigger] gmat(aug@)[i][offset + k] == (if i == k { 1u16 } else { 0u16 }) by {
                if k == c {
                } else if i == c {
                }
            }
        }
        c = c + 1;
    }
    proof {
        if leading_singular(a0, pivots as nat, offset as nat) {
            let m = choose|m: nat| 1 <= m <= pivots && #[trigger] singular(block_at(a0, m, offset as nat), m);
        }
    }
    Ok(())
}

} // verus!
