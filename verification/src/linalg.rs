//! Linear algebra over GF(2^16) in the specification: dot products,
//! matrix products and the row operations of Gauss-Jordan elimination.
use crate::field::{
    gf_mul, lemma_gf_mul_assoc, lemma_gf_mul_comm, lemma_gf_mul_distrib_left, lemma_gf_mul_distrib_right,
    lemma_gf_mul_one_left, lemma_gf_mul_one_right, lemma_gf_mul_zero_left, lemma_xor,
};
use vstd::prelude::*;

verus! {

/// Sum over `i` of `u[i] * v[i]` (up to the shorter length).
pub open spec fn dot(u: Seq<u16>, v: Seq<u16>) -> u16
    decreases u.len(),
{
    if u.len() == 0 || v.len() == 0 {
        0
    } else {
        dot(u.drop_last(), v.drop_last()) ^ gf_mul(u.last(), v.last())
    }
}

/// Column `j` of a matrix given by its rows.
pub open spec fn col(a: Seq<Seq<u16>>, j: int) -> Seq<u16> {
    Seq::new(a.len(), |i: int| a[i][j])
}

/// Entry `(i, j)` of the product `e * a`.
pub open spec fn mat_mul_entry(e: Seq<Seq<u16>>, a: Seq<Seq<u16>>, i: int, j: int) -> u16 {
    dot(e[i], col(a, j))
}

/// `u + f * w`, entrywise.
pub open spec fn axpy(u: Seq<u16>, f: u16, w: Seq<u16>) -> Seq<u16> {
    Seq::new(u.len(), |i: int| u[i] ^ gf_mul(f, w[i]))
}

/// `f * u`, entrywise.
pub open spec fn scale(f: u16, u: Seq<u16>) -> Seq<u16> {
    Seq::new(u.len(), |i: int| gf_mul(f, u[i]))
}

/// The unit vector of length `n` with a one at position `k`.
pub open spec fn unit(n: nat, k: int) -> Seq<u16> {
    Seq::new(n, |i: int| if i == k { 1u16 } else { 0u16 })
}

/// The `n`-by-`n` identity matrix.
pub open spec fn identity(n: nat) -> Seq<Seq<u16>> {
    Seq::new(n, |i: int| unit(n, i))
}

/// A matrix with `r` rows of length `c`.
pub open spec fn is_matrix(a: Seq<Seq<u16>>, r: nat, c: nat) -> bool {
    &&& a.len() == r
    &&& forall|i: int| 0 <= i < r ==> #[trigger] a[i].len() == c
}

/// `e * a == b` for an `n`-by-`n` matrix `e` and `n`-row matrices `a`, `b`
/// of width `w`.
pub open spec fn is_product(e: Seq<Seq<u16>>, a: Seq<Seq<u16>>, b: Seq<Seq<u16>>, n: nat, w: nat) -> bool {
    &&& is_matrix(e, n, n)
    &&& is_matrix(a, n, w)
    &&& is_matrix(b, n, w)
    &&& forall|i: int, j: int| 0 <= i < n && 0 <= j < w ==> #[trigger] b[i][j] == mat_mul_entry(e, a, i, j)
}

/// `v` solves the homogeneous system of the first `n` columns of the first
/// `n` rows of `a`: every such row has dot product zero with `v`.
pub open spec fn in_kernel(a: Seq<Seq<u16>>, n: nat, v: Seq<u16>) -> bool {
    &&& v.len() == n
    &&& forall|i: int| 0 <= i < n ==> #[trigger] dot(a[i].subrange(0, n as int), v) == 0
}

/// The square matrix of the first `n` columns of the first `n` rows of `a`
/// is singular: it maps some nonzero vector to zero.
pub open spec fn singular(a: Seq<Seq<u16>>, n: nat) -> bool {
    exists|v: Seq<u16>, k: int| #![trigger in_kernel(a, n, v), v[k]] in_kernel(a, n, v) && 0 <= k < n && v[k] != 0
}

/// The `m`-by-`m` block of `a` in rows `0..m` and columns `off..off + m`.
pub open spec fn block_at(a: Seq<Seq<u16>>, m: nat, off: nat) -> Seq<Seq<u16>> {
    Seq::new(m, |i: int| a[i].subrange(off as int, (off + m) as int))
}

/// One of the leading blocks of `a` (rows `0..m`, columns `off..off + m`)
/// with `1 <= m <= p` is singular.
pub open spec fn leading_singular(a: Seq<Seq<u16>>, p: nat, off: nat) -> bool {
    exists|m: nat| 1 <= m <= p && #[trigger] singular(block_at(a, m, off), m)
}

/// Singularity depends only on the first `n` columns of the first `n` rows.
pub proof fn lemma_singular_same_block(a: Seq<Seq<u16>>, b: Seq<Seq<u16>>, n: nat)
    requires
        forall|i: int| 0 <= i < n ==> #[trigger] a[i].subrange(0, n as int) == b[i].subrange(0, n as int),
        singular(a, n),
    ensures
        singular(b, n),
{
    let (v, k) = choose|v: Seq<u16>, k: int| #![trigger in_kernel(a, n, v), v[k]] in_kernel(a, n, v) && 0 <= k < n && v[k] != 0;
    assert forall|i: int| 0 <= i < n implies #[trigger] dot(b[i].subrange(0, n as int), v) == 0 by {
        assert(dot(a[i].subrange(0, n as int), v) == 0);
    }
    assert(in_kernel(b, n, v));
}

/// The combination `sum over k < m of b[k] * a[k]` of the rows of `a`
/// (rows of length `w`).
pub open spec fn row_comb(b: Seq<u16>, a: Seq<Seq<u16>>, m: nat, w: nat) -> Seq<u16>
    decreases m,
{
    if m == 0 {
        Seq::new(w, |j: int| 0u16)
    } else {
        axpy(row_comb(b, a, (m - 1) as nat, w), b[m - 1], a[m - 1])
    }
}

/// Entry `j` of a row combination is the dot product with column `j`.
proof fn lemma_row_comb_entry(b: Seq<u16>, a: Seq<Seq<u16>>, m: nat, w: nat, j: int)
    requires
        m <= b.len(),
        m <= a.len(),
        forall|k: int| 0 <= k < a.len() ==> #[trigger] a[k].len() == w,
        0 <= j < w,
    ensures
        row_comb(b, a, m, w).len() == w,
        row_comb(b, a, m, w)[j] == dot(b.take(m as int), col(a, j).take(m as int)),
    decreases m,
{
    if m > 0 {
        lemma_row_comb_entry(b, a, (m - 1) as nat, w, j);
        let bm = b.take(m as int);
        let cm = col(a, j).take(m as int);
        assert(bm.drop_last() =~= b.take(m - 1));
        assert(cm.drop_last() =~= col(a, j).take(m - 1));
        lemma_gf_mul_comm(b[m - 1], a[m - 1][j]);
    }
}

/// The dot product of a row combination with `v` combines the dot
/// products of the rows with `v`.
proof fn lemma_row_comb_dot(b: Seq<u16>, a: Seq<Seq<u16>>, m: nat, w: nat, v: Seq<u16>, av: Seq<u16>)
    requires
        m <= b.len(),
        m <= a.len(),
        m <= av.len(),
        v.len() == w,
        forall|k: int| 0 <= k < a.len() ==> #[trigger] a[k].len() == w,
        forall|k: int| 0 <= k < m ==> #[trigger] av[k] == dot(a[k], v),
    ensures
        dot(row_comb(b, a, m, w), v) == dot(b.take(m as int), av.take(m as int)),
    decreases m,
{
    if m == 0 {
        lemma_dot_zero_left(row_comb(b, a, 0, w), v);
    } else {
        lemma_row_comb_dot(b, a, (m - 1) as nat, w, v, av);
        lemma_row_comb_len(b, a, (m - 1) as nat, w);
        lemma_dot_axpy(row_comb(b, a, (m - 1) as nat, w), b[m - 1], a[m - 1], v);
        let bm = b.take(m as int);
        let am = av.take(m as int);
        assert(bm.drop_last() =~= b.take(m - 1));
        assert(am.drop_last() =~= av.take(m - 1));
    }
}

/// A row combination has the length of the rows.
proof fn lemma_row_comb_len(b: Seq<u16>, a: Seq<Seq<u16>>, m: nat, w: nat)
    ensures
        row_comb(b, a, m, w).len() == w,
    decreases m,
{
    if m > 0 {
        lemma_row_comb_len(b, a, (m - 1) as nat, w);
    }
}

/// A square matrix with a left inverse is not singular: when `b * a` is
/// the identity, `a * v == 0` forces `v == 0`.
pub proof fn lemma_left_inverse_not_singular(b: Seq<Seq<u16>>, a: Seq<Seq<u16>>, n: nat)
    requires
        is_product(b, a, identity(n), n, n),
    ensures
        !singular(a, n),
{
    if singular(a, n) {
        let (v, k) = choose|v: Seq<u16>, k: int| #![trigger in_kernel(a, n, v), v[k]] in_kernel(a, n, v) && 0 <= k < n && v[k] != 0;
        let av = Seq::new(n, |t: int| dot(a[t], v));
        assert forall|t: int| 0 <= t < n implies #[trigger] av[t] == 0 by {
            assert(a[t].subrange(0, n as int) =~= a[t]);
            assert(dot(a[t].subrange(0, n as int), v) == 0);
        }
        let bk = b[k];
        // row k of b * a is the unit row k
        let r = row_comb(bk, a, n, n);
        lemma_row_comb_len(bk, a, n, n);
        assert forall|j: int| 0 <= j < n implies #[trigger] r[j] == unit(n, k)[j] by {
            lemma_row_comb_entry(bk, a, n, n, j);
            assert(bk.take(n as int) =~= bk);
            assert(col(a, j).take(n as int) =~= col(a, j));
            assert(identity(n)[k][j] == mat_mul_entry(b, a, k, j));
        }
        assert(r =~= unit(n, k));
        lemma_row_comb_dot(bk, a, n, n, v, av);
        assert(bk.take(n as int) =~= bk);
        assert(av.take(n as int) =~= av);
        lemma_dot_zero_left(av, bk);
        lemma_dot_comm(bk, av);
        lemma_dot_comm(unit(n, k), v);
        lemma_dot_unit(v, k);
    }
}

/// Every row of a left inverse has a nonzero entry.
pub proof fn lemma_inverse_row_nonzero(b: Seq<Seq<u16>>, a: Seq<Seq<u16>>, n: nat, i: int)
    requires
        is_product(b, a, identity(n), n, n),
        0 <= i < n,
    ensures
        exists|k: int| 0 <= k < n && #[trigger] b[i][k] != 0,
{
    if forall|k: int| 0 <= k < n ==> #[trigger] b[i][k] == 0 {
        assert(identity(n)[i][i] == mat_mul_entry(b, a, i, i));
        lemma_dot_zero_left(b[i], col(a, i));
    }
}

/// Changing entry `k` of both arguments changes the dot product by the
/// difference of the two products at `k`.
pub proof fn lemma_dot_update(u: Seq<u16>, v: Seq<u16>, k: int, x: u16, y: u16)
    requires
        u.len() == v.len(),
        0 <= k < u.len(),
    ensures
        dot(u.update(k, x), v.update(k, y)) == dot(u, v) ^ gf_mul(u[k], v[k]) ^ gf_mul(x, y),
    decreases u.len(),
{
    let u2 = u.update(k, x);
    let v2 = v.update(k, y);
    let l = u.len() - 1;
    if k == l {
        assert(u2.drop_last() =~= u.drop_last());
        assert(v2.drop_last() =~= v.drop_last());
        let d = dot(u.drop_last(), v.drop_last());
        lemma_xor_rearrange(d, gf_mul(u[k], v[k]), gf_mul(u[k], v[k]), gf_mul(x, y));
        lemma_xor(d, gf_mul(u[k], v[k]), gf_mul(x, y));
        lemma_xor(gf_mul(u[k], v[k]), 0, 0);
        lemma_xor(d, 0, 0);
        assert(gf_mul(u[k], v[k]) ^ gf_mul(u[k], v[k]) == 0);
    } else {
        assert(u2.drop_last() =~= u.drop_last().update(k, x));
        assert(v2.drop_last() =~= v.drop_last().update(k, y));
        lemma_dot_update(u.drop_last(), v.drop_last(), k, x, y);
        let d = dot(u.drop_last(), v.drop_last());
        let p = gf_mul(u[k], v[k]);
        let q = gf_mul(x, y);
        let t = gf_mul(u.last(), v.last());
        lemma_xor_rearrange(d, p ^ q, t, 0);
        lemma_xor((d ^ p) ^ q, t, 0);
        lemma_xor(d, p, q);
        lemma_xor(d ^ t, p, q);
        lemma_xor(d, p ^ q, t);
        lemma_xor(d, t, p ^ q);
        lemma_xor(t, p ^ q, 0);
        lemma_xor(p ^ q, 0, 0);
    }
}

/// Multiplying by the identity on the right changes nothing.
pub proof fn lemma_right_identity(a: Seq<Seq<u16>>, n: nat)
    requires
        is_matrix(a, n, n),
    ensures
        is_product(a, identity(n), a, n, n),
{
    assert forall|i: int, j: int| 0 <= i < n && 0 <= j < n implies #[trigger] a[i][j] == mat_mul_entry(a, identity(n), i, j) by {
        assert(col(identity(n), j) =~= unit(n, j));
        lemma_dot_unit(a[i], j);
    }
    assert forall|i: int| 0 <= i < n implies #[trigger] identity(n)[i].len() == n by {}
}

/// The matrix product is associative: `(x * y) * z == x * (y * z)`.
pub proof fn lemma_product_assoc(
    x: Seq<Seq<u16>>,
    y: Seq<Seq<u16>>,
    z: Seq<Seq<u16>>,
    xy: Seq<Seq<u16>>,
    yz: Seq<Seq<u16>>,
    p: Seq<Seq<u16>>,
    n: nat,
    w: nat,
)
    requires
        is_product(x, y, xy, n, n),
        is_product(y, z, yz, n, w),
        is_product(xy, z, p, n, w),
    ensures
        is_product(x, yz, p, n, w),
{
    assert forall|i: int, l: int| 0 <= i < n && 0 <= l < w implies #[trigger] p[i][l] == mat_mul_entry(x, yz, i, l) by {
        let r = row_comb(x[i], y, n, n);
        lemma_row_comb_len(x[i], y, n, n);
        assert forall|j: int| 0 <= j < n implies #[trigger] r[j] == xy[i][j] by {
            lemma_row_comb_entry(x[i], y, n, n, j);
            assert(x[i].take(n as int) =~= x[i]);
            assert(col(y, j).take(n as int) =~= col(y, j));
        }
        assert(r =~= xy[i]);
        let v = col(z, l);
        let av = col(yz, l);
        assert forall|k: int| 0 <= k < n implies #[trigger] av[k] == dot(y[k], v) by {
            assert(yz[k][l] == mat_mul_entry(y, z, k, l));
        }
        lemma_row_comb_dot(x[i], y, n, n, v, av);
        assert(x[i].take(n as int) =~= x[i]);
        assert(av.take(n as int) =~= av);
        assert(p[i][l] == mat_mul_entry(xy, z, i, l));
    }
}

/// Swapping columns `c` and `q` of `f` and rows `c` and `q` of `e` keeps
/// `f * e == I`.
pub proof fn lemma_inverse_swap(f: Seq<Seq<u16>>, e: Seq<Seq<u16>>, n: nat, c: int, q: int)
    requires
        is_product(f, e, identity(n), n, n),
        0 <= c < n,
        0 <= q < n,
    ensures
        is_product(
            Seq::new(n, |i: int| f[i].update(c, f[i][q]).update(q, f[i][c])),
            e.update(c, e[q]).update(q, e[c]),
            identity(n),
            n,
            n,
        ),
{
    let f2 = Seq::new(n, |i: int| f[i].update(c, f[i][q]).update(q, f[i][c]));
    let e2 = e.update(c, e[q]).update(q, e[c]);
    assert forall|i: int, j: int| 0 <= i < n && 0 <= j < n implies #[trigger] identity(n)[i][j] == mat_mul_entry(f2, e2, i, j) by {
        assert(identity(n)[i][j] == mat_mul_entry(f, e, i, j));
        if c != q {
            let u = f[i];
            let v = col(e, j);
            let u1 = u.update(c, u[q]);
            let v1 = v.update(c, v[q]);
            lemma_dot_update(u, v, c, u[q], v[q]);
            lemma_dot_update(u1, v1, q, u[c], v[c]);
            assert(f2[i] =~= u1.update(q, u[c]));
            assert(col(e2, j) =~= v1.update(q, v[c]));
            let d = dot(u, v);
            let a = gf_mul(u[c], v[c]);
            let b = gf_mul(u[q], v[q]);
            lemma_xor(d ^ a, b, 0);
            lemma_xor(d, a, b);
            lemma_xor(d ^ b, a, 0);
            lemma_xor(d, b, a);
            lemma_xor(a, b, 0);
            lemma_xor(b, b, 0);
            lemma_xor(a, a, 0);
            lemma_xor(d, a ^ b, b ^ a);
        } else {
            assert(f2[i] =~= f[i]);
            assert(e2 =~= e);
        }
    }
    assert forall|i: int| 0 <= i < n implies #[trigger] f2[i].len() == n by {}
    assert forall|i: int| 0 <= i < n implies #[trigger] e2[i].len() == n by {}
}

/// Scaling column `c` of `f` by `p` and row `c` of `e` by `g` with
/// `p * g == 1` keeps `f * e == I`.
pub proof fn lemma_inverse_scale(f: Seq<Seq<u16>>, e: Seq<Seq<u16>>, n: nat, c: int, p: u16, g: u16)
    requires
        is_product(f, e, identity(n), n, n),
        0 <= c < n,
        gf_mul(p, g) == 1,
    ensures
        is_product(
            Seq::new(n, |i: int| f[i].update(c, gf_mul(f[i][c], p))),
            e.update(c, scale(g, e[c])),
            identity(n),
            n,
            n,
        ),
{
    let f2 = Seq::new(n, |i: int| f[i].update(c, gf_mul(f[i][c], p)));
    let e2 = e.update(c, scale(g, e[c]));
    assert forall|i: int, j: int| 0 <= i < n && 0 <= j < n implies #[trigger] identity(n)[i][j] == mat_mul_entry(f2, e2, i, j) by {
        assert(identity(n)[i][j] == mat_mul_entry(f, e, i, j));
        let u = f[i];
        let v = col(e, j);
        lemma_dot_update(u, v, c, gf_mul(u[c], p), gf_mul(g, v[c]));
        assert(f2[i] =~= u.update(c, gf_mul(u[c], p)));
        assert(col(e2, j) =~= v.update(c, gf_mul(g, v[c])));
        // (u_c * p) * (g * v_c) == u_c * v_c
        lemma_gf_mul_assoc(gf_mul(u[c], p), g, v[c]);
        lemma_gf_mul_assoc(u[c], p, g);
        lemma_gf_mul_one_right(u[c]);
        let d = dot(u, v);
        let a = gf_mul(u[c], v[c]);
        lemma_xor(d, a, a);
        lemma_xor(a, a, 0);
        lemma_xor(d, 0, 0);
    }
    assert forall|i: int| 0 <= i < n implies #[trigger] f2[i].len() == n by {}
    assert forall|i: int| 0 <= i < n implies #[trigger] e2[i].len() == n by {}
}

/// Adding `t` times column `r` of `f` to its column `c`, and `t` times row
/// `c` of `e` to its row `r` (`r != c`), keeps `f * e == I`.
pub proof fn lemma_inverse_axpy(f: Seq<Seq<u16>>, e: Seq<Seq<u16>>, n: nat, r: int, c: int, t: u16)
    requires
        is_product(f, e, identity(n), n, n),
        0 <= r < n,
        0 <= c < n,
        r != c,
    ensures
        is_product(
            Seq::new(n, |i: int| f[i].update(c, f[i][c] ^ gf_mul(t, f[i][r]))),
            e.update(r, axpy(e[r], t, e[c])),
            identity(n),
            n,
            n,
        ),
{
    let f2 = Seq::new(n, |i: int| f[i].update(c, f[i][c] ^ gf_mul(t, f[i][r])));
    let e2 = e.update(r, axpy(e[r], t, e[c]));
    assert forall|i: int, j: int| 0 <= i < n && 0 <= j < n implies #[trigger] identity(n)[i][j] == mat_mul_entry(f2, e2, i, j) by {
        assert(identity(n)[i][j] == mat_mul_entry(f, e, i, j));
        let u = f[i];
        let v = col(e, j);
        let x = u[c] ^ gf_mul(t, u[r]);
        let y = v[r] ^ gf_mul(t, v[c]);
        let u1 = u.update(c, x);
        lemma_dot_update(u, v, c, x, v[c]);
        assert(v.update(c, v[c]) =~= v);
        lemma_dot_update(u1, v, r, u[r], y);
        assert(u1.update(r, u[r]) =~= u1);
        assert(f2[i] =~= u1);
        assert(col(e2, j) =~= v.update(r, y));
        // the two corrections cancel: x*v_c ^ u_c*v_c == t*u_r*v_c == u_r*y ^ u_r*v_r
        lemma_gf_mul_distrib_left(u[c], gf_mul(t, u[r]), v[c]);
        lemma_gf_mul_distrib_right(u[r], v[r], gf_mul(t, v[c]));
        lemma_gf_mul_assoc(t, u[r], v[c]);
        lemma_gf_mul_assoc(u[r], t, v[c]);
        lemma_gf_mul_comm(t, u[r]);
        let d = dot(u, v);
        let a = gf_mul(u[c], v[c]);
        let b = gf_mul(u[r], v[r]);
        let m = gf_mul(gf_mul(t, u[r]), v[c]);
        assert(gf_mul(x, v[c]) == a ^ m);
        assert(gf_mul(u[r], y) == b ^ m);
        lemma_xor_rearrange(d, a, b, m);
    }
    assert forall|i: int| 0 <= i < n implies #[trigger] f2[i].len() == n by {}
    assert forall|i: int| 0 <= i < n implies #[trigger] e2[i].len() == n by {}
}

/// For square matrices a left inverse is also a right inverse: when
/// `e * a == I` and `f * e == I`, also `a * e == I`.
pub proof fn lemma_left_inverse_is_right_inverse(e: Seq<Seq<u16>>, a: Seq<Seq<u16>>, f: Seq<Seq<u16>>, n: nat)
    requires
        is_product(e, a, identity(n), n, n),
        is_product(f, e, identity(n), n, n),
    ensures
        is_product(a, e, identity(n), n, n),
{
    // f == f * (e * a) == (f * e) * a == a
    lemma_identity_product(a, n, n);
    lemma_product_assoc(f, e, a, identity(n), identity(n), a, n, n);
    lemma_right_identity(f, n);
    assert forall|i: int| 0 <= i < n implies #[trigger] a[i] =~= f[i] by {
        assert forall|j: int| 0 <= j < n implies #[trigger] a[i][j] == f[i][j] by {
            assert(a[i][j] == mat_mul_entry(f, identity(n), i, j));
            assert(f[i][j] == mat_mul_entry(f, identity(n), i, j));
        }
    }
    assert forall|i: int, j: int| 0 <= i < n && 0 <= j < n implies #[trigger] identity(n)[i][j] == mat_mul_entry(a, e, i, j) by {
        assert(a[i] == f[i]);
        assert(identity(n)[i][j] == mat_mul_entry(f, e, i, j));
    }
}

/// When `a * e == I`, the vector `e * b` solves `a * x == b`.
pub proof fn lemma_right_inverse_solves(a: Seq<Seq<u16>>, e: Seq<Seq<u16>>, b: Seq<u16>, x: Seq<u16>, n: nat)
    requires
        is_product(a, e, identity(n), n, n),
        b.len() == n,
        x.len() == n,
        forall|k: int| 0 <= k < n ==> #[trigger] x[k] == dot(e[k], b),
    ensures
        forall|i: int| 0 <= i < n ==> #[trigger] dot(a[i], x) == b[i],
{
    assert forall|i: int| 0 <= i < n implies #[trigger] dot(a[i], x) == b[i] by {
        let r = row_comb(a[i], e, n, n);
        lemma_row_comb_len(a[i], e, n, n);
        assert forall|j: int| 0 <= j < n implies #[trigger] r[j] == unit(n, i)[j] by {
            lemma_row_comb_entry(a[i], e, n, n, j);
            assert(a[i].take(n as int) =~= a[i]);
            assert(col(e, j).take(n as int) =~= col(e, j));
            assert(identity(n)[i][j] == mat_mul_entry(a, e, i, j));
        }
        assert(r =~= unit(n, i));
        lemma_row_comb_dot(a[i], e, n, n, b, x);
        assert(a[i].take(n as int) =~= a[i]);
        assert(x.take(n as int) =~= x);
        lemma_dot_comm(unit(n, i), b);
        lemma_dot_unit(b, i);
    }
}

/// The dot product is linear in its first argument: adding a scaled row.
pub proof fn lemma_dot_axpy(u: Seq<u16>, f: u16, w: Seq<u16>, v: Seq<u16>)
    requires
        u.len() == w.len(),
        u.len() == v.len(),
    ensures
        dot(axpy(u, f, w), v) == dot(u, v) ^ gf_mul(f, dot(w, v)),
    decreases u.len(),
{
    let x = axpy(u, f, w);
    if u.len() == 0 {
        lemma_gf_mul_one_right(f);
        lemma_xor(0, 0, 0);
    } else {
        assert(x.drop_last() =~= axpy(u.drop_last(), f, w.drop_last()));
        lemma_dot_axpy(u.drop_last(), f, w.drop_last(), v.drop_last());
        let du = dot(u.drop_last(), v.drop_last());
        let dw = dot(w.drop_last(), v.drop_last());
        let ul = u.last();
        let wl = w.last();
        let vl = v.last();
        // (du ^ f*dw) ^ (ul ^ f*wl)*vl == (du ^ ul*vl) ^ f*(dw ^ wl*vl)
        lemma_gf_mul_comm(ul ^ gf_mul(f, wl), vl);
        crate::field::lemma_gf_mul_distrib_left(ul, gf_mul(f, wl), vl);
        lemma_gf_mul_comm(ul, vl);
        lemma_gf_mul_comm(gf_mul(f, wl), vl);
        lemma_gf_mul_comm(wl, vl);
        lemma_gf_mul_assoc(f, wl, vl);
        lemma_gf_mul_comm(f, wl);
        lemma_gf_mul_assoc(vl, f, wl);
        lemma_gf_mul_comm(vl, f);
        lemma_gf_mul_assoc(f, vl, wl);
        lemma_gf_mul_distrib_right(f, dw, gf_mul(wl, vl));
        lemma_xor_rearrange(du, gf_mul(f, dw), gf_mul(ul, vl), gf_mul(f, gf_mul(wl, vl)));
    }
}

proof fn lemma_xor_rearrange(a: u16, b: u16, c: u16, d: u16)
    by (bit_vector)
    ensures
        (a ^ b) ^ (c ^ d) == (a ^ c) ^ (b ^ d),
        ((a ^ b ^ (b ^ d)) ^ c ^ (c ^ d)) == a,
{
}

/// Scaling the first argument scales the dot product.
pub proof fn lemma_dot_scale(f: u16, u: Seq<u16>, v: Seq<u16>)
    requires
        u.len() == v.len(),
    ensures
        dot(scale(f, u), v) == gf_mul(f, dot(u, v)),
    decreases u.len(),
{
    let x = scale(f, u);
    if u.len() == 0 {
        lemma_gf_mul_one_right(f);
    } else {
        assert(x.drop_last() =~= scale(f, u.drop_last()));
        lemma_dot_scale(f, u.drop_last(), v.drop_last());
        lemma_gf_mul_assoc(f, u.last(), v.last());
        lemma_gf_mul_distrib_right(f, dot(u.drop_last(), v.drop_last()), gf_mul(u.last(), v.last()));
    }
}

/// The dot product with a unit vector picks out one entry.
pub proof fn lemma_dot_unit(u: Seq<u16>, k: int)
    requires
        0 <= k < u.len(),
    ensures
        dot(u, unit(u.len(), k)) == u[k],
    decreases u.len(),
{
    lemma_dot_unit_gen(u, unit(u.len(), k), k);
}

proof fn lemma_dot_unit_gen(u: Seq<u16>, e: Seq<u16>, k: int)
    requires
        u.len() == e.len(),
        forall|i: int| 0 <= i < e.len() ==> #[trigger] e[i] == (if i == k { 1u16 } else { 0u16 }),
    ensures
        dot(u, e) == (if 0 <= k < u.len() { u[k] } else { 0 }),
    decreases u.len(),
{
    if u.len() > 0 {
        lemma_dot_unit_gen(u.drop_last(), e.drop_last(), k);
        let l = u.len() - 1;
        lemma_gf_mul_one_right(u.last());
        assert(e.last() == e[l]);
        if k == l {
            lemma_xor(u.last(), 0, 0);
        } else {
            lemma_xor(dot(u.drop_last(), e.drop_last()), 0, 0);
        }
    }
}

/// The dot product with a zero vector on the left is zero.
pub proof fn lemma_dot_zero_left(u: Seq<u16>, v: Seq<u16>)
    requires
        forall|i: int| 0 <= i < u.len() ==> #[trigger] u[i] == 0,
    ensures
        dot(u, v) == 0,
    decreases u.len(),
{
    if u.len() > 0 && v.len() > 0 {
        lemma_dot_zero_left(u.drop_last(), v.drop_last());
        lemma_gf_mul_zero_left(v.last());
        lemma_xor(0, 0, 0);
    }
}

/// The dot product only depends on the first `n` entries when both have
/// length `n`: a row of the identity reproduces a column entry.
pub proof fn lemma_identity_product(a: Seq<Seq<u16>>, n: nat, w: nat)
    requires
        is_matrix(a, n, w),
    ensures
        is_product(identity(n), a, a, n, w),
{
    assert forall|i: int, j: int| 0 <= i < n && 0 <= j < w implies #[trigger] a[i][j]
        == mat_mul_entry(identity(n), a, i, j) by {
        let c = col(a, j);
        lemma_dot_comm(unit(n, i), c);
        lemma_dot_unit(c, i);
    }
    assert forall|i: int| 0 <= i < n implies #[trigger] identity(n)[i].len() == n by {}
}

/// The dot product is symmetric.
pub proof fn lemma_dot_comm(u: Seq<u16>, v: Seq<u16>)
    requires
        u.len() == v.len(),
    ensures
        dot(u, v) == dot(v, u),
    decreases u.len(),
{
    if u.len() > 0 {
        lemma_dot_comm(u.drop_last(), v.drop_last());
        lemma_gf_mul_comm(u.last(), v.last());
    }
}

/// Adding `f` times row `c` to row `r` of both `e` and `b` keeps
/// `e * a == b`.
pub proof fn lemma_product_axpy(
    e: Seq<Seq<u16>>,
    a: Seq<Seq<u16>>,
    b: Seq<Seq<u16>>,
    n: nat,
    w: nat,
    r: int,
    c: int,
    f: u16,
)
    requires
        is_product(e, a, b, n, w),
        0 <= r < n,
        0 <= c < n,
    ensures
        is_product(e.update(r, axpy(e[r], f, e[c])), a, b.update(r, axpy(b[r], f, b[c])), n, w),
{
    let e2 = e.update(r, axpy(e[r], f, e[c]));
    let b2 = b.update(r, axpy(b[r], f, b[c]));
    assert forall|i: int, j: int| 0 <= i < n && 0 <= j < w implies #[trigger] b2[i][j]
        == mat_mul_entry(e2, a, i, j) by {
        if i == r {
            lemma_dot_axpy(e[r], f, e[c], col(a, j));
            assert(b[r][j] == mat_mul_entry(e, a, r, j));
            assert(b[c][j] == mat_mul_entry(e, a, c, j));
        } else {
            assert(b[i][j] == mat_mul_entry(e, a, i, j));
        }
    }
    assert forall|i: int| 0 <= i < n implies #[trigger] e2[i].len() == n by {}
    assert forall|i: int| 0 <= i < n implies #[trigger] b2[i].len() == w by {}
}

/// Scaling row `r` of both `e` and `b` by `f` keeps `e * a == b`.
pub proof fn lemma_product_scale(
    e: Seq<Seq<u16>>,
    a: Seq<Seq<u16>>,
    b: Seq<Seq<u16>>,
    n: nat,
    w: nat,
    r: int,
    f: u16,
)
    requires
        is_product(e, a, b, n, w),
        0 <= r < n,
    ensures
        is_product(e.update(r, scale(f, e[r])), a, b.update(r, scale(f, b[r])), n, w),
{
    let e2 = e.update(r, scale(f, e[r]));
    let b2 = b.update(r, scale(f, b[r]));
    assert forall|i: int, j: int| 0 <= i < n && 0 <= j < w implies #[trigger] b2[i][j]
        == mat_mul_entry(e2, a, i, j) by {
        if i == r {
            lemma_dot_scale(f, e[r], col(a, j));
            assert(b[r][j] == mat_mul_entry(e, a, r, j));
        } else {
            assert(b[i][j] == mat_mul_entry(e, a, i, j));
        }
    }
    assert forall|i: int| 0 <= i < n implies #[trigger] e2[i].len() == n by {}
    assert forall|i: int| 0 <= i < n implies #[trigger] b2[i].len() == w by {}
}

/// Swapping rows `r` and `c` of both `e` and `b` keeps `e * a == b`.
pub proof fn lemma_product_swap(
    e: Seq<Seq<u16>>,
    a: Seq<Seq<u16>>,
    b: Seq<Seq<u16>>,
    n: nat,
    w: nat,
    r: int,
    c: int,
)
    requires
        is_product(e, a, b, n, w),
        0 <= r < n,
        0 <= c < n,
    ensures
        is_product(e.update(r, e[c]).update(c, e[r]), a, b.update(r, b[c]).update(c, b[r]), n, w),
{
    let e2 = e.update(r, e[c]).update(c, e[r]);
    let b2 = b.update(r, b[c]).update(c, b[r]);
    assert forall|i: int, j: int| 0 <= i < n && 0 <= j < w implies #[trigger] b2[i][j]
        == mat_mul_entry(e2, a, i, j) by {
        if i == c {
            assert(b[r][j] == mat_mul_entry(e, a, r, j));
        } else if i == r {
            assert(b[c][j] == mat_mul_entry(e, a, c, j));
        } else {
            assert(b[i][j] == mat_mul_entry(e, a, i, j));
        }
    }
    assert forall|i: int| 0 <= i < n implies #[trigger] e2[i].len() == n by {}
    assert forall|i: int| 0 <= i < n implies #[trigger] b2[i].len() == w by {}
}

/// The rows of a matrix laid out one after another (row-major order).
pub open spec fn flatten(m: Seq<Seq<u16>>) -> Seq<u16>
    decreases m.len(),
{
    if m.len() == 0 {
        Seq::empty()
    } else {
        flatten(m.drop_last()) + m.last()
    }
}

/// The `r` rows of length `c` of a row-major layout.
pub open spec fn rows_of(s: Seq<u16>, r: nat, c: nat) -> Seq<Seq<u16>> {
    Seq::new(r, |i: int| s.subrange(i * c, i * c + c))
}

/// Entry `(i, j)` of a matrix with rows of length `c` sits at `i * c + j`
/// of its row-major layout.
pub proof fn lemma_flatten_index(m: Seq<Seq<u16>>, c: nat)
    requires
        forall|i: int| 0 <= i < m.len() ==> #[trigger] m[i].len() == c,
    ensures
        flatten(m).len() == m.len() * c,
        forall|i: int, j: int| 0 <= i < m.len() && 0 <= j < c ==> #[trigger] flatten(m)[i * c + j] == m[i][j],
    decreases m.len(),
{
    if m.len() > 0 {
        let p = m.drop_last();
        lemma_flatten_index(p, c);
        let n = p.len();
        assert(flatten(m) == flatten(p) + m.last());
        assert((n + 1) * c == n * c + c) by (nonlinear_arith);
        assert forall|i: int, j: int| 0 <= i < m.len() && 0 <= j < c implies #[trigger] flatten(m)[i * c + j] == m[i][j] by {
            if i < n {
                assert(i * c + j < n * c) by (nonlinear_arith)
                    requires
                        i < n,
                        j < c,
                        0 <= i,
                ;
                assert(flatten(m)[i * c + j] == flatten(p)[i * c + j]);
                assert(p[i] == m[i]);
            } else {
                assert(i == n);
                assert(flatten(m)[i * c + j] == m.last()[j]);
            }
        }
    }
}

/// Reading the rows back from a row-major layout gives the matrix.
pub proof fn lemma_rows_of_flatten(m: Seq<Seq<u16>>, c: nat)
    requires
        forall|i: int| 0 <= i < m.len() ==> #[trigger] m[i].len() == c,
    ensures
        rows_of(flatten(m), m.len(), c) == m,
{
    lemma_flatten_index(m, c);
    let f = flatten(m);
    assert forall|i: int| 0 <= i < m.len() implies #[trigger] rows_of(f, m.len(), c)[i] == m[i] by {
        assert(i * c + c <= m.len() * c) by (nonlinear_arith)
            requires
                i < m.len(),
                0 <= i,
        ;
        assert(0 <= i * c) by (nonlinear_arith)
            requires
                0 <= i,
        ;
        assert forall|j: int| 0 <= j < c implies #[trigger] f.subrange(i * c, i * c + c)[j] == m[i][j] by {
            assert(f[i * c + j] == m[i][j]);
        }
        assert(f.subrange(i * c, i * c + c) =~= m[i]);
    }
    assert(rows_of(f, m.len(), c) =~= m);
}

/// Columns `0..c` of each row.
pub open spec fn left_part(b: Seq<Seq<u16>>, c: nat) -> Seq<Seq<u16>> {
    Seq::new(b.len(), |i: int| b[i].subrange(0, c as int))
}

/// Columns `c..c + d` of each row.
pub open spec fn right_part(b: Seq<Seq<u16>>, c: nat, d: nat) -> Seq<Seq<u16>> {
    Seq::new(b.len(), |i: int| b[i].subrange(c as int, (c + d) as int))
}

/// Row operations on a matrix made of two blocks side by side act on each
/// block alone.
pub proof fn lemma_product_split(
    e: Seq<Seq<u16>>,
    l: Seq<Seq<u16>>,
    r: Seq<Seq<u16>>,
    a: Seq<Seq<u16>>,
    b: Seq<Seq<u16>>,
    n: nat,
    c: nat,
    d: nat,
)
    requires
        is_product(e, a, b, n, c + d),
        is_matrix(l, n, c),
        is_matrix(r, n, d),
        forall|i: int| 0 <= i < n ==> #[trigger] a[i] == l[i] + r[i],
    ensures
        is_product(e, l, left_part(b, c), n, c),
        is_product(e, r, right_part(b, c, d), n, d),
{
    assert forall|i: int, j: int| 0 <= i < n && 0 <= j < c implies #[trigger] left_part(b, c)[i][j] == mat_mul_entry(e, l, i, j) by {
        assert(b[i][j] == mat_mul_entry(e, a, i, j));
        assert(col(a, j) =~= col(l, j));
    }
    assert forall|i: int, j: int| 0 <= i < n && 0 <= j < d implies #[trigger] right_part(b, c, d)[i][j] == mat_mul_entry(e, r, i, j) by {
        assert(b[i][c + j] == mat_mul_entry(e, a, i, c + j));
        assert(col(a, c + j) =~= col(r, j));
    }
}

} // verus!
