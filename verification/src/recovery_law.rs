//! Reconstruction inverts encoding: when the recovery slices were encoded
//! from the data, the slices rebuilt from them and the present slices are
//! the missing data.  The proof works on 16-bit words and on XOR sums.
use crate::field::{
    gf_mul, lemma_gf_mul_assoc, lemma_gf_mul_distrib_left, lemma_gf_mul_distrib_right,
    lemma_gf_mul_one_left, lemma_gf_mul_zero_left, lemma_xor,
};
use crate::encoder::{coefficients, encode_spec};
use crate::linalg::{col, identity, is_product, mat_mul_entry};
use crate::reedsolomon::codec::gpow;
use crate::reedsolomon::engine::ReconstructionEngine;
use crate::reedsolomon::recover::{
    combined_coefficient, key_coefficients, local_system, missing_system, output_coefficients,
    output_data, padded,
    present_term, reconstructed, recovery_exponent, rhs_vector, rhs_word, solves, word_at,
    ChunkedReconstructionPlan,
};
use crate::field::lemma_shr1;
use crate::linalg::dot;
use crate::reedsolomon::{hi_byte, le_word, lo_byte, mul_into, mul_word_byte, WriteOp};
use vstd::prelude::*;

verus! {

/// `g(0) ^ g(1) ^ ... ^ g(n - 1)`.
pub open spec fn xsum(g: spec_fn(int) -> u16, n: nat) -> u16
    decreases n,
{
    if n == 0 {
        0
    } else {
        xsum(g, (n - 1) as nat) ^ g(n - 1)
    }
}

/// Sums of functions that agree below `n` are equal.
pub proof fn lemma_xsum_ext(g1: spec_fn(int) -> u16, g2: spec_fn(int) -> u16, n: nat)
    requires
        forall|i: int| 0 <= i < n ==> #[trigger] g1(i) == g2(i),
    ensures
        xsum(g1, n) == xsum(g2, n),
    decreases n,
{
    if n > 0 {
        lemma_xsum_ext(g1, g2, (n - 1) as nat);
    }
}

/// The sum of a pointwise XOR is the XOR of the sums.
pub proof fn lemma_xsum_xor(g1: spec_fn(int) -> u16, g2: spec_fn(int) -> u16, n: nat)
    ensures
        xsum(|i: int| g1(i) ^ g2(i), n) == xsum(g1, n) ^ xsum(g2, n),
    decreases n,
{
    if n == 0 {
        lemma_xor(0, 0, 0);
    } else {
        lemma_xsum_xor(g1, g2, (n - 1) as nat);
        let a = xsum(g1, (n - 1) as nat);
        let b = xsum(g2, (n - 1) as nat);
        let x = g1(n - 1);
        let y = g2(n - 1);
        lemma_xor4(a, b, x, y);
    }
}

proof fn lemma_xor4(a: u16, b: u16, x: u16, y: u16)
    by (bit_vector)
    ensures
        (a ^ b) ^ (x ^ y) == (a ^ x) ^ (b ^ y),
{
}

/// A sum of zeros is zero.
pub proof fn lemma_xsum_zero(g: spec_fn(int) -> u16, n: nat)
    requires
        forall|i: int| 0 <= i < n ==> #[trigger] g(i) == 0,
    ensures
        xsum(g, n) == 0,
    decreases n,
{
    if n > 0 {
        lemma_xsum_zero(g, (n - 1) as nat);
        lemma_xor(0, 0, 0);
    }
}

/// A sum with a single nonzero term is that term.
pub proof fn lemma_xsum_single(g: spec_fn(int) -> u16, n: nat, k: int)
    requires
        0 <= k < n,
        forall|i: int| 0 <= i < n && i != k ==> #[trigger] g(i) == 0,
    ensures
        xsum(g, n) == g(k),
    decreases n,
{
    if k == n - 1 {
        lemma_xsum_zero(g, (n - 1) as nat);
        lemma_xor(g(k), 0, 0);
    } else {
        lemma_xsum_single(g, (n - 1) as nat, k);
        lemma_xor(g(k), 0, 0);
    }
}

/// Multiplying a sum multiplies each term (on the left).
pub proof fn lemma_xsum_scale_left(a: u16, g: spec_fn(int) -> u16, n: nat)
    ensures
        gf_mul(a, xsum(g, n)) == xsum(|i: int| gf_mul(a, g(i)), n),
    decreases n,
{
    if n == 0 {
        assert(gf_mul(a, 0) == 0);
    } else {
        lemma_xsum_scale_left(a, g, (n - 1) as nat);
        lemma_gf_mul_distrib_right(a, xsum(g, (n - 1) as nat), g(n - 1));
    }
}

/// Multiplying a sum multiplies each term (on the right).
pub proof fn lemma_xsum_scale_right(g: spec_fn(int) -> u16, b: u16, n: nat)
    ensures
        gf_mul(xsum(g, n), b) == xsum(|i: int| gf_mul(g(i), b), n),
    decreases n,
{
    if n == 0 {
        lemma_gf_mul_zero_left(b);
    } else {
        lemma_xsum_scale_right(g, b, (n - 1) as nat);
        lemma_gf_mul_distrib_left(xsum(g, (n - 1) as nat), g(n - 1), b);
    }
}

/// Double sums can be taken in either order.
pub proof fn lemma_xsum_swap(h: spec_fn(int, int) -> u16, n: nat, m: nat)
    ensures
        xsum(|i: int| xsum(|j: int| h(i, j), m), n) == xsum(|j: int| xsum(|i: int| h(i, j), n), m),
    decreases n,
{
    let lhs = |i: int| xsum(|j: int| h(i, j), m);
    let rhs = |j: int| xsum(|i: int| h(i, j), n);
    if n == 0 {
        assert forall|j: int| 0 <= j < m implies #[trigger] rhs(j) == 0 by {}
        lemma_xsum_zero(rhs, m);
    } else {
        let n1 = (n - 1) as nat;
        lemma_xsum_swap(h, n1, m);
        let rhs1 = |j: int| xsum(|i: int| h(i, j), n1);
        let row = |j: int| h(n1 as int, j);
        assert(xsum(lhs, n) == xsum(lhs, n1) ^ lhs(n1 as int));
        assert(lhs(n1 as int) == xsum(row, m)) by {
            lemma_xsum_ext(|j: int| h(n1 as int, j), row, m);
        }
        lemma_xsum_xor(rhs1, row, m);
        assert forall|j: int| 0 <= j < m implies #[trigger] rhs(j) == rhs1(j) ^ row(j) by {
            assert(xsum(|i: int| h(i, j), n) == xsum(|i: int| h(i, j), n1) ^ h(n1 as int, j));
        }
        lemma_xsum_ext(rhs, |j: int| rhs1(j) ^ row(j), m);
        assert(xsum(lhs, n1) == xsum(rhs1, m));
    }
}

/// The sum of the first `a + b` terms splits after `a` terms.
pub proof fn lemma_xsum_split(g: spec_fn(int) -> u16, a: nat, b: nat)
    ensures
        xsum(g, a + b) == xsum(g, a) ^ xsum(|i: int| g(a + i), b),
    decreases b,
{
    if b == 0 {
        lemma_xor(xsum(g, a), 0, 0);
    } else {
        lemma_xsum_split(g, a, (b - 1) as nat);
        lemma_xor(xsum(g, a), xsum(|i: int| g(a + i), (b - 1) as nat), g(a + b - 1));
    }
}

/// The dot product is the sum of the products of matching entries.
pub proof fn lemma_dot_xsum(u: Seq<u16>, v: Seq<u16>)
    requires
        u.len() == v.len(),
    ensures
        dot(u, v) == xsum(|i: int| gf_mul(u[i], v[i]), u.len()),
    decreases u.len(),
{
    if u.len() > 0 {
        lemma_dot_xsum(u.drop_last(), v.drop_last());
        lemma_xsum_ext(
            |i: int| gf_mul(u.drop_last()[i], v.drop_last()[i]),
            |i: int| gf_mul(u[i], v[i]),
            (u.len() - 1) as nat,
        );
    }
}

/// Summing over a list of distinct indices below `t` is summing over the
/// indices below `t` that the list contains.
pub proof fn lemma_xsum_over_list(f: spec_fn(int) -> u16, ks: Seq<usize>, t: nat)
    requires
        ks.no_duplicates(),
        t <= usize::MAX,
        forall|k: int| 0 <= k < ks.len() ==> #[trigger] ks[k] < t,
    ensures
        xsum(|k: int| f(ks[k] as int), ks.len()) == xsum(|j: int| if ks.contains(j as usize) { f(j) } else { 0 }, t),
    decreases ks.len(),
{
    let gk = |j: int| if ks.contains(j as usize) { f(j) } else { 0 };
    if ks.len() == 0 {
        assert forall|j: int| 0 <= j < t implies #[trigger] gk(j) == 0 by {}
        lemma_xsum_zero(gk, t);
    } else {
        let p = ks.drop_last();
        let last = ks.last();
        assert(p.no_duplicates());
        lemma_xsum_over_list(f, p, t);
        lemma_xsum_ext(|k: int| f(p[k] as int), |k: int| f(ks[k] as int), p.len());
        let gp = |j: int| if p.contains(j as usize) { f(j) } else { 0 };
        let gl = |j: int| if j == last as int { f(j) } else { 0 };
        assert forall|j: int| 0 <= j < t implies #[trigger] gk(j) == gp(j) ^ gl(j) by {
            if j == last as int {
                assert(ks[ks.len() - 1] == j as usize);
                assert(ks.contains(j as usize));
                if p.contains(j as usize) {
                    let q = choose|q: int| 0 <= q < p.len() && p[q] == j as usize;
                    assert(ks[q] == ks[ks.len() - 1]);
                }
                assert(!p.contains(j as usize));
                lemma_xor(f(j), 0, 0);
            } else {
                assert(j as usize != last);
                if ks.contains(j as usize) {
                    let q = choose|q: int| 0 <= q < ks.len() && ks[q] == j as usize;
                    assert(q < ks.len() - 1);
                    assert(p[q] == j as usize);
                    assert(p.contains(j as usize));
                }
                if p.contains(j as usize) {
                    let q = choose|q: int| 0 <= q < p.len() && p[q] == j as usize;
                    assert(ks[q] == j as usize);
                    assert(ks.contains(j as usize));
                }
                assert(gl(j) == 0);
                assert(gk(j) == gp(j));
                lemma_xor(gp(j), 0, 0);
            }
        }
        lemma_xsum_ext(gk, |j: int| gp(j) ^ gl(j), t);
        lemma_xsum_xor(gp, gl, t);
        lemma_xsum_single(gl, t, last as int);
        let g = |k: int| f(ks[k] as int);
        assert(xsum(g, ks.len()) == xsum(g, p.len()) ^ g(p.len() as int));
    }
}

/// Word `i` (little-endian) of a byte sequence.
pub open spec fn word(d: Seq<u8>, i: int) -> u16 {
    le_word(d[2 * i], d[2 * i + 1])
}

proof fn lemma_word_bits(a: u8, b: u8, x: u16)
    by (bit_vector)
    ensures
        (((a ^ ((x & 0xffu16) as u8)) as u16) | (((b ^ ((x >> 8u16) as u8)) as u16) << 8u16)) == (((a as u16) | ((b as u16) << 8u16)) ^ x),
        (((a as u16) | ((b as u16) << 8u16)) & 0xffu16) as u8 == a,
        (((a as u16) | ((b as u16) << 8u16)) >> 8u16) as u8 == b,
{
}

proof fn lemma_le_word_bits(a: u8, b: u8)
    by (bit_vector)
    ensures
        ((a as u16) | ((b as u16) << 8u16)) == ((a as int + 256 * (b as int)) as u16),
{
}

/// Adding `x` to the bytes of a word adds it to the word.
pub proof fn lemma_word_add(a: u8, b: u8, x: u16)
    ensures
        le_word(a ^ lo_byte(x), b ^ hi_byte(x)) == le_word(a, b) ^ x,
        lo_byte(le_word(a, b)) == a,
        hi_byte(le_word(a, b)) == b,
{
    lemma_shr1(x);
    lemma_word_bits(a, b, x);
    lemma_le_word_bits(a, b);
    lemma_le_word_bits(a ^ ((x & 0xffu16) as u8), b ^ ((x >> 8u16) as u8));
    let w = le_word(a, b);
    lemma_shr1(w);
}

/// Byte sequences of the same even length with the same words are equal.
pub proof fn lemma_words_determine(d1: Seq<u8>, d2: Seq<u8>)
    requires
        d1.len() == d2.len(),
        d1.len() % 2 == 0,
        forall|i: int| 0 <= i < d1.len() / 2 ==> #[trigger] word(d1, i) == word(d2, i),
    ensures
        d1 == d2,
{
    assert forall|k: int| 0 <= k < d1.len() implies d1[k] == d2[k] by {
        let i = k / 2;
        assert(word(d1, i) == word(d2, i));
        lemma_word_add(d1[2 * i], d1[2 * i + 1], 0);
        lemma_word_add(d2[2 * i], d2[2 * i + 1], 0);
        assert(k == 2 * i || k == 2 * i + 1);
    }
    assert(d1 =~= d2);
}

/// Every block has `len` bytes.
pub open spec fn all_len(blocks: Seq<Seq<u8>>, len: nat) -> bool {
    forall|j: int| 0 <= j < blocks.len() ==> (#[trigger] blocks[j]).len() == len
}

/// The words of an encoded block: word `i` is the sum of every block's
/// word `i` times its coefficient.
pub proof fn lemma_encode_words(blocks: Seq<Seq<u8>>, coeffs: Seq<u16>, len: nat)
    requires
        len % 2 == 0,
        all_len(blocks, len),
        coeffs.len() >= blocks.len(),
    ensures
        encode_spec(blocks, coeffs, len).len() == len,
        forall|i: int| 0 <= i < len / 2 ==> #[trigger] word(encode_spec(blocks, coeffs, len), i)
            == xsum(|j: int| gf_mul(coeffs[j], word(blocks[j], i)), blocks.len()),
    decreases blocks.len(),
{
    if blocks.len() == 0 {
        let z = encode_spec(blocks, coeffs, len);
        assert forall|i: int| 0 <= i < len / 2 implies #[trigger] word(z, i) == xsum(|j: int| gf_mul(coeffs[j], word(blocks[j], i)), blocks.len()) by {
            assert(z[2 * i] == 0u8 && z[2 * i + 1] == 0u8);
            lemma_le_word_bits(0, 0);
            assert((0u8 as u16) | ((0u8 as u16) << 8u16) == 0u16) by (bit_vector);
        }
    } else {
        let p = blocks.drop_last();
        let n1 = p.len();
        assert(all_len(p, len));
        lemma_encode_words(p, coeffs, len);
        let prev = encode_spec(p, coeffs, len);
        let c = coeffs[n1 as int];
        let last = blocks.last();
        let r = encode_spec(blocks, coeffs, len);
        assert(r == mul_into(c, last, prev, WriteOp::Add));
        assert forall|i: int| 0 <= i < len / 2 implies #[trigger] word(r, i) == xsum(|j: int| gf_mul(coeffs[j], word(blocks[j], i)), blocks.len()) by {
            let x = gf_mul(c, le_word(last[2 * i], last[2 * i + 1]));
            assert((len as int / 2) * 2 == len);
            assert((2 * i) / 2 == i);
            assert((2 * i + 1) / 2 == i);
            assert(r[2 * i] == mul_word_byte(c, last, prev, len as int, 2 * i, WriteOp::Add));
            assert(r[2 * i + 1] == mul_word_byte(c, last, prev, len as int, 2 * i + 1, WriteOp::Add));
            assert(r[2 * i] == prev[2 * i] ^ lo_byte(x));
            assert(r[2 * i + 1] == prev[2 * i + 1] ^ hi_byte(x));
            lemma_word_add(prev[2 * i], prev[2 * i + 1], x);
            assert(word(prev, i) == xsum(|j: int| gf_mul(coeffs[j], word(p[j], i)), n1));
            assert forall|j: int| 0 <= j < n1 implies #[trigger] p[j] == blocks[j] by {}
            lemma_xsum_ext(|j: int| gf_mul(coeffs[j], word(p[j], i)), |j: int| gf_mul(coeffs[j], word(blocks[j], i)), n1);
            assert(word(last, i) == le_word(last[2 * i], last[2 * i + 1]));
            let g = |j: int| gf_mul(coeffs[j], word(blocks[j], i));
            assert(xsum(g, blocks.len()) == xsum(g, n1) ^ g(n1 as int));
            assert(g(n1 as int) == x);
            assert(word(r, i) == le_word(r[2 * i], r[2 * i + 1]));
        }
    }
}

/// The coefficient that the row `inv_row` of the inverse gives input slice
/// `j` in the sum of the recovery slices.
pub open spec fn gen_coeff(e: &ReconstructionEngine, inv_row: Seq<u16>, j: int) -> u16 {
    xsum(|eq: int| gf_mul(inv_row[eq], gpow(e.base_values@[j], recovery_exponent(e, eq))), inv_row.len())
}

/// The inverse picks out the missing slices: row `out` gives missing slice
/// `c` the coefficient one when `c == out`, zero otherwise.
pub proof fn lemma_gen_coeff_missing(e: &ReconstructionEngine, missing: Seq<usize>, inv: Seq<Seq<u16>>, out: int, c: int)
    requires
        is_product(inv, missing_system(e, missing), identity(missing.len()), missing.len(), missing.len()),
        0 <= out < missing.len(),
        0 <= c < missing.len(),
    ensures
        gen_coeff(e, inv[out], missing[c] as int) == (if out == c { 1u16 } else { 0u16 }),
{
    let m = missing_system(e, missing);
    let n = missing.len();
    assert(identity(n)[out][c] == mat_mul_entry(inv, m, out, c));
    assert(inv[out].len() == n);
    lemma_dot_xsum(inv[out], col(m, c));
    lemma_xsum_ext(
        |eq: int| gf_mul(inv[out][eq], col(m, c)[eq]),
        |eq: int| gf_mul(inv[out][eq], gpow(e.base_values@[missing[c] as int], recovery_exponent(e, eq))),
        n,
    );
}

/// A system with an inverse has distinct missing slices.
pub proof fn lemma_missing_distinct(e: &ReconstructionEngine, missing: Seq<usize>, inv: Seq<Seq<u16>>)
    requires
        is_product(inv, missing_system(e, missing), identity(missing.len()), missing.len(), missing.len()),
    ensures
        missing.no_duplicates(),
{
    assert forall|c1: int, c2: int| 0 <= c1 < missing.len() && 0 <= c2 < missing.len() && c1 != c2 implies missing[c1] != missing[c2] by {
        lemma_gen_coeff_missing(e, missing, inv, c1, c1);
        lemma_gen_coeff_missing(e, missing, inv, c1, c2);
    }
}

/// The combined coefficient of a present slice is its coefficient in the
/// sum of the recovery slices.
pub proof fn lemma_combined_is_gen(e: &ReconstructionEngine, inv_row: Seq<u16>, key: usize)
    requires
        key < e.total_input_slices,
    ensures
        combined_coefficient(e, inv_row, key) == gen_coeff(e, inv_row, key as int),
{
    let kc = key_coefficients(e, key, inv_row.len());
    lemma_dot_xsum(inv_row, kc);
    lemma_xsum_ext(
        |eq: int| gf_mul(inv_row[eq], kc[eq]),
        |eq: int| gf_mul(inv_row[eq], gpow(e.base_values@[key as int], recovery_exponent(e, eq))),
        inv_row.len(),
    );
}

/// The recovery slices were encoded from `data`: each is the sum of the
/// data blocks times their bases raised to its exponent.
pub open spec fn encoded_from(e: &ReconstructionEngine, data: Seq<Seq<u8>>, n: nat) -> bool {
    forall|eq: int| 0 <= eq < n ==> (#[trigger] e.recovery_slices@[eq]).recovery_data@
        == encode_spec(data, coefficients(e.base_values@, recovery_exponent(e, eq)), e.slice_size as nat)
}

/// `rec[eq]` (for the first `n` recovery slices) is the encoding of `data`
/// with the exponent of recovery slice `eq`, in blocks of `len` bytes.
pub open spec fn rec_encoded(e: &ReconstructionEngine, data: Seq<Seq<u8>>, rec: Seq<Seq<u8>>, n: nat, len: nat) -> bool {
    forall|eq: int| 0 <= eq < n ==> #[trigger] rec[eq] == encode_spec(data, coefficients(e.base_values@, recovery_exponent(e, eq)), len)
}

/// Weighting the recovery data by a row of the inverse weights each data
/// block by its combined coefficient.
pub proof fn lemma_recovery_part(e: &ReconstructionEngine, data: Seq<Seq<u8>>, rec: Seq<Seq<u8>>, inv_row: Seq<u16>, i: int, len: nat)
    requires
        e.base_values@.len() == data.len(),
        len % 2 == 0,
        all_len(data, len),
        inv_row.len() <= e.recovery_slices@.len(),
        rec_encoded(e, data, rec, inv_row.len(), len),
        0 <= i < len / 2,
    ensures
        xsum(|eq: int| gf_mul(inv_row[eq], word(rec[eq], i)), inv_row.len())
            == xsum(|j: int| gf_mul(gen_coeff(e, inv_row, j), word(data[j], i)), data.len()),
{
    let n = inv_row.len();
    let t = data.len();
    let dw = |j: int| word(data[j], i);
    let h = |eq: int, j: int| gf_mul(gf_mul(inv_row[eq], gpow(e.base_values@[j], recovery_exponent(e, eq))), dw(j));
    // Each weighted recovery word is a double sum.
    assert forall|eq: int| 0 <= eq < n implies #[trigger] gf_mul(inv_row[eq], word(rec[eq], i))
        == xsum(|j: int| h(eq, j), t) by {
        let cs = coefficients(e.base_values@, recovery_exponent(e, eq));
        lemma_encode_words(data, cs, len);
        assert(rec[eq] == encode_spec(data, cs, len));
        let inner = |j: int| gf_mul(cs[j], word(data[j], i));
        assert(word(encode_spec(data, cs, len), i) == xsum(inner, t));
        lemma_xsum_scale_left(inv_row[eq], inner, t);
        assert forall|j: int| 0 <= j < t implies #[trigger] gf_mul(inv_row[eq], inner(j)) == h(eq, j) by {
            lemma_gf_mul_assoc(inv_row[eq], cs[j], dw(j));
        }
        lemma_xsum_ext(|j: int| gf_mul(inv_row[eq], inner(j)), |j: int| h(eq, j), t);
    }
    lemma_xsum_ext(
        |eq: int| gf_mul(inv_row[eq], word(rec[eq], i)),
        |eq: int| xsum(|j: int| h(eq, j), t),
        n,
    );
    lemma_xsum_swap(h, n, t);
    let col_sum = |j: int| xsum(|eq: int| h(eq, j), n);
    assert forall|j: int| 0 <= j < t implies #[trigger] col_sum(j) == gf_mul(gen_coeff(e, inv_row, j), dw(j)) by {
        let g = |eq: int| gf_mul(inv_row[eq], gpow(e.base_values@[j], recovery_exponent(e, eq)));
        lemma_xsum_scale_right(g, dw(j), n);
        lemma_xsum_ext(|eq: int| gf_mul(g(eq), dw(j)), |eq: int| h(eq, j), n);
    }
    lemma_xsum_ext(col_sum, |j: int| gf_mul(gen_coeff(e, inv_row, j), word(data[j], i)), t);
}

/// What a missing slice is rebuilt as: the first `inv_row.len()` recovery
/// data times the row of the inverse, plus the present slices (listed by
/// `keys`, with data `present`) times their combined coefficients.
pub open spec fn rebuilt(e: &ReconstructionEngine, rec: Seq<Seq<u8>>, keys: Seq<usize>, present: Seq<Seq<u8>>, inv_row: Seq<u16>, len: nat) -> Seq<u8> {
    encode_spec(rec.take(inv_row.len() as int) + present, output_coefficients(e, inv_row, keys), len)
}

/// Reconstruction inverts encoding: when the recovery data were encoded
/// from `data` (blocks of an even number of bytes), the present slices are
/// exactly the ones not missing and hold their data, and the system of the
/// missing slices has the inverse `inv`, then the slice rebuilt for missing
/// slice `out` is its data, whatever the order of the present slices.
pub proof fn lemma_rebuilt_recovers(
    e: &ReconstructionEngine,
    data: Seq<Seq<u8>>,
    rec: Seq<Seq<u8>>,
    keys: Seq<usize>,
    present: Seq<Seq<u8>>,
    missing: Seq<usize>,
    inv: Seq<Seq<u16>>,
    out: int,
    len: nat,
)
    requires
        e.base_values@.len() == e.total_input_slices,
        data.len() == e.total_input_slices,
        len % 2 == 0,
        all_len(data, len),
        missing.len() <= e.recovery_slices@.len(),
        rec.len() >= missing.len(),
        rec_encoded(e, data, rec, missing.len(), len),
        forall|c: int| 0 <= c < missing.len() ==> #[trigger] missing[c] < e.total_input_slices,
        keys.no_duplicates(),
        present.len() == keys.len(),
        forall|k: int| 0 <= k < keys.len() ==> #[trigger] keys[k] < e.total_input_slices && present[k] == data[keys[k] as int],
        forall|j: usize| j < e.total_input_slices ==> (#[trigger] keys.contains(j) <==> !missing.contains(j)),
        is_product(inv, missing_system(e, missing), identity(missing.len()), missing.len(), missing.len()),
        0 <= out < missing.len(),
    ensures
        rebuilt(e, rec, keys, present, inv[out], len) == data[missing[out] as int],
{
    let n = missing.len();
    let t = data.len();
    let inv_o = inv[out];
    assert(inv_o.len() == n);
    let datas = rec.take(n as int) + present;
    let coeffs = output_coefficients(e, inv_o, keys);
    lemma_missing_distinct(e, missing, inv);
    assert(all_len(datas, len)) by {
        assert forall|j: int| 0 <= j < datas.len() implies (#[trigger] datas[j]).len() == len by {
            if j < n {
                let cs = coefficients(e.base_values@, recovery_exponent(e, j));
                lemma_encode_words(data, cs, len);
                assert(rec[j] == encode_spec(data, cs, len));
            } else {
                assert(present[j - n] == data[keys[j - n] as int]);
            }
        }
    }
    lemma_encode_words(datas, coeffs, len);
    let r = rebuilt(e, rec, keys, present, inv_o, len);
    let target = data[missing[out] as int];
    assert forall|i: int| 0 <= i < len / 2 implies #[trigger] word(r, i) == word(target, i) by {
        let g = |j: int| gf_mul(coeffs[j], word(datas[j], i));
        assert(word(r, i) == xsum(g, datas.len()));
        lemma_xsum_split(g, n, keys.len());
        let f = |j: int| gf_mul(gen_coeff(e, inv_o, j), word(data[j], i));
        // The recovery part.
        lemma_xsum_ext(g, |eq: int| gf_mul(inv_o[eq], word(rec[eq], i)), n);
        lemma_recovery_part(e, data, rec, inv_o, i, len);
        // The present part.
        assert forall|k: int| 0 <= k < keys.len() implies #[trigger] g(n + k) == f(keys[k] as int) by {
            lemma_combined_is_gen(e, inv_o, keys[k]);
            assert(datas[n + k] == present[k]);
        }
        lemma_xsum_ext(|k: int| g(n + k), |k: int| f(keys[k] as int), keys.len());
        lemma_xsum_over_list(f, keys, t);
        let gk = |j: int| if keys.contains(j as usize) { f(j) } else { 0 };
        lemma_xsum_xor(f, gk, t);
        // Only the missing slice `out` is left.
        let only = |j: int| f(j) ^ gk(j);
        assert forall|j: int| 0 <= j < t && j != missing[out] as int implies #[trigger] only(j) == 0 by {
            if keys.contains(j as usize) {
                lemma_xor(f(j), f(j), 0);
            } else {
                assert(missing.contains(j as usize));
                let c = choose|c: int| 0 <= c < missing.len() && missing[c] == j as usize;
                assert(c != out);
                lemma_gen_coeff_missing(e, missing, inv, out, c);
                lemma_gf_mul_zero_left(word(data[j], i));
                lemma_xor(0, 0, 0);
            }
        }
        let jm = missing[out] as int;
        assert(only(jm) == word(target, i)) by {
            assert(missing.contains(missing[out]));
            assert(!keys.contains(missing[out]));
            lemma_gen_coeff_missing(e, missing, inv, out, out);
            lemma_gf_mul_one_left(word(data[jm], i));
            lemma_xor(word(data[jm], i), 0, 0);
        }
        lemma_xsum_single(only, t, jm);
    }
    lemma_words_determine(r, target);
}

/// Reconstruction inverts encoding, for present slices given as a map:
/// when the first recovery slices were encoded from `data`, the slices that
/// are present hold their data, and the system of the missing slices has
/// the inverse `inv`, then the slice rebuilt for missing slice `out` (with
/// the present slices taken in any order `ks`) is its data.
pub proof fn lemma_reconstruction_recovers_data(
    e: &ReconstructionEngine,
    data: Seq<Seq<u8>>,
    slices: Map<usize, Vec<u8>>,
    missing: Seq<usize>,
    ks: Seq<usize>,
    inv: Seq<Seq<u16>>,
    out: int,
)
    requires
        e.base_values@.len() == e.total_input_slices,
        data.len() == e.total_input_slices,
        e.slice_size % 2 == 0,
        all_len(data, e.slice_size as nat),
        missing.len() <= e.recovery_slices@.len(),
        encoded_from(e, data, missing.len()),
        forall|c: int| 0 <= c < missing.len() ==> #[trigger] missing[c] < e.total_input_slices,
        forall|k: usize| #[trigger] slices.contains_key(k) <==> (k < e.total_input_slices && !missing.contains(k)),
        forall|k: usize| #[trigger] slices.contains_key(k) ==> slices[k]@ == data[k as int],
        ks.no_duplicates(),
        ks.to_set() == slices.dom(),
        is_product(inv, missing_system(e, missing), identity(missing.len()), missing.len(), missing.len()),
        0 <= out < missing.len(),
    ensures
        reconstructed(e, slices, ks, inv[out]) == data[missing[out] as int],
{
    let n = missing.len();
    let len = e.slice_size as nat;
    let rec = Seq::new(n, |eq: int| e.recovery_slices@[eq].recovery_data@);
    let present = Seq::new(ks.len(), |i: int| slices[ks[i]]@);
    assert(inv[out].len() == n);
    assert(rec_encoded(e, data, rec, n, len)) by {
        assert forall|eq: int| 0 <= eq < n implies #[trigger] rec[eq] == encode_spec(data, coefficients(e.base_values@, recovery_exponent(e, eq)), len) by {
            assert(e.recovery_slices@[eq].recovery_data@ == encode_spec(data, coefficients(e.base_values@, recovery_exponent(e, eq)), len));
        }
    }
    assert forall|k: int| 0 <= k < ks.len() implies #[trigger] ks[k] < e.total_input_slices && present[k] == data[ks[k] as int] by {
        assert(ks.to_set().contains(ks[k]));
        assert(slices.contains_key(ks[k]));
    }
    assert forall|j: usize| j < e.total_input_slices implies (#[trigger] ks.contains(j) <==> !missing.contains(j)) by {
        if ks.contains(j) {
            assert(ks.to_set().contains(j));
        }
        if slices.contains_key(j) {
            assert(ks.to_set().contains(j));
        }
    }
    lemma_rebuilt_recovers(e, data, rec, ks, present, missing, inv, out, len);
    assert(rec.take(n as int) =~= rec);
    assert(output_data(e, slices, ks, n) =~= rec.take(n as int) + present);
}

/// `data` holds every input slice (an even number of bytes each), and
/// the present slices are exactly the ones not missing, holding their data.
pub open spec fn data_layout(e: &ReconstructionEngine, data: Seq<Seq<u8>>, slices: Map<usize, Vec<u8>>, missing: Seq<usize>) -> bool {
    &&& data.len() == e.total_input_slices
    &&& e.slice_size % 2 == 0
    &&& all_len(data, e.slice_size as nat)
    &&& forall|k: usize| #[trigger] slices.contains_key(k) <==> (k < e.total_input_slices && !missing.contains(k))
    &&& forall|k: usize| #[trigger] slices.contains_key(k) ==> slices[k]@ == data[k as int]
}

/// `data` holds every input slice (an even number of bytes each); the
/// missing slices and the present ones are given by file-local index, and
/// `gmap` places every one of them at a global index, the present ones at
/// distinct places; every global index is either present or missing.
pub open spec fn local_layout(
    e: &ReconstructionEngine,
    data: Seq<Seq<u8>>,
    existing: Map<usize, Vec<u8>>,
    gmap: Map<usize, usize>,
    missing: Seq<usize>,
) -> bool {
    &&& data.len() == e.total_input_slices
    &&& e.slice_size % 2 == 0
    &&& all_len(data, e.slice_size as nat)
    &&& forall|c: int| 0 <= c < missing.len() ==> gmap.contains_key(#[trigger] missing[c]) && gmap[missing[c]] < e.total_input_slices
    &&& forall|k: usize| #[trigger] existing.contains_key(k) ==> gmap.contains_key(k) && gmap[k] < e.total_input_slices && existing[k]@ == data[gmap[k] as int]
    &&& forall|k1: usize, k2: usize| #[trigger] existing.contains_key(k1) && #[trigger] existing.contains_key(k2) && gmap[k1] == gmap[k2] ==> k1 == k2
    &&& forall|j: usize| j < e.total_input_slices ==> (is_present_global(existing, gmap, j) <==> !is_missing_global(gmap, missing, j))
}

/// Some present slice sits at global index `j`.
pub open spec fn is_present_global(existing: Map<usize, Vec<u8>>, gmap: Map<usize, usize>, j: usize) -> bool {
    exists|k: usize| #[trigger] existing.contains_key(k) && gmap[k] == j
}

/// Some missing slice sits at global index `j`.
pub open spec fn is_missing_global(gmap: Map<usize, usize>, missing: Seq<usize>, j: usize) -> bool {
    exists|c: int| 0 <= c < missing.len() && gmap[#[trigger] missing[c]] == j
}

/// The right-hand side is the sum over the present slices, in the order
/// `ks`, taken off the recovery word.
pub proof fn lemma_rhs_word_sum(e: &ReconstructionEngine, existing: Map<usize, Vec<u8>>, gmap: Map<usize, usize>, ks: Seq<usize>, eq: int, wp: int)
    ensures
        rhs_word(e, existing, gmap, ks, eq, wp) == word_at(e.recovery_slices@[eq].recovery_data@, wp)
            ^ xsum(|k: int| present_term(e, existing, gmap, ks[k], eq, wp), ks.len()),
    decreases ks.len(),
{
    if ks.len() == 0 {
        lemma_xor(word_at(e.recovery_slices@[eq].recovery_data@, wp), 0, 0);
    } else {
        let p = ks.drop_last();
        lemma_rhs_word_sum(e, existing, gmap, p, eq, wp);
        lemma_xsum_ext(|k: int| present_term(e, existing, gmap, p[k], eq, wp), |k: int| present_term(e, existing, gmap, ks[k], eq, wp), p.len());
        let g = |k: int| present_term(e, existing, gmap, ks[k], eq, wp);
        assert(xsum(g, ks.len()) == xsum(g, p.len()) ^ g(p.len() as int));
        lemma_xor(word_at(e.recovery_slices@[eq].recovery_data@, wp), xsum(g, p.len()), g(p.len() as int));
    }
}

/// A solvable local system has distinct global places for its missing
/// slices, and the inverse picks them out.
pub proof fn lemma_local_inverse(
    e: &ReconstructionEngine,
    missing: Seq<usize>,
    gmap: Map<usize, usize>,
    inv: Seq<Seq<u16>>,
    out: int,
    c: int,
)
    requires
        is_product(inv, local_system(e, missing, gmap), identity(missing.len()), missing.len(), missing.len()),
        forall|d: int| 0 <= d < missing.len() ==> gmap.contains_key(#[trigger] missing[d]),
        0 <= out < missing.len(),
        0 <= c < missing.len(),
    ensures
        xsum(|eq: int| gf_mul(inv[out][eq], gpow(e.base_values@[gmap[missing[c]] as int], recovery_exponent(e, eq))), missing.len())
            == (if out == c { 1u16 } else { 0u16 }),
{
    let a = local_system(e, missing, gmap);
    let n = missing.len();
    assert(identity(n)[out][c] == mat_mul_entry(inv, a, out, c));
    assert(inv[out].len() == n);
    lemma_dot_xsum(inv[out], col(a, c));
    lemma_xsum_ext(
        |eq: int| gf_mul(inv[out][eq], col(a, c)[eq]),
        |eq: int| gf_mul(inv[out][eq], gpow(e.base_values@[gmap[missing[c]] as int], recovery_exponent(e, eq))),
        n,
    );
}

/// Solving the local system at a word position gives the words of the
/// missing slices, when the recovery slices were encoded from `data` and
/// the layout holds.
pub proof fn lemma_local_solution(
    e: &ReconstructionEngine,
    data: Seq<Seq<u8>>,
    existing: Map<usize, Vec<u8>>,
    gmap: Map<usize, usize>,
    missing: Seq<usize>,
    ks: Seq<usize>,
    sol: Seq<u16>,
    wp: int,
    i: int,
)
    requires
        e.base_values@.len() == e.total_input_slices,
        missing.len() <= e.recovery_slices@.len(),
        encoded_from(e, data, missing.len()),
        local_layout(e, data, existing, gmap, missing),
        ks.no_duplicates(),
        ks.to_set() == existing.dom(),
        solves(local_system(e, missing, gmap), rhs_vector(e, existing, gmap, ks, missing.len(), wp), sol, missing.len()),
        0 <= wp < e.slice_size / 2,
        0 <= i < missing.len(),
    ensures
        sol[i] == word(data[gmap[missing[i]] as int], wp),
{
    let n = missing.len();
    let t = data.len();
    let len = e.slice_size as nat;
    let a = local_system(e, missing, gmap);
    let rhs = rhs_vector(e, existing, gmap, ks, n, wp);
    let inv = choose|inv: Seq<Seq<u16>>| {
        &&& is_product(inv, a, identity(n), n, n)
        &&& sol.len() == n
        &&& forall|q: int| 0 <= q < n ==> #[trigger] sol[q] == dot(inv[q], rhs)
    };
    let gm = Seq::new(n, |c: int| gmap[missing[c]]);
    let gks = Seq::new(ks.len(), |k: int| gmap[ks[k]]);
    let xw = |c: int| word(data[gm[c] as int], wp);
    // Where the slices sit.
    assert forall|k: int| 0 <= k < ks.len() implies existing.contains_key(#[trigger] ks[k]) by {
        assert(ks.to_set().contains(ks[k]));
    }
    assert(gks.no_duplicates()) by {
        assert forall|k1: int, k2: int| 0 <= k1 < gks.len() && 0 <= k2 < gks.len() && k1 != k2 implies gks[k1] != gks[k2] by {
            assert(existing.contains_key(ks[k1]) && existing.contains_key(ks[k2]));
        }
    }
    assert forall|k: int| 0 <= k < gks.len() implies #[trigger] gks[k] < t by {
        assert(existing.contains_key(ks[k]));
    }
    assert(gm.no_duplicates()) by {
        assert forall|c1: int, c2: int| 0 <= c1 < n && 0 <= c2 < n && c1 != c2 implies gm[c1] != gm[c2] by {
            lemma_local_inverse(e, missing, gmap, inv, c1, c1);
            lemma_local_inverse(e, missing, gmap, inv, c1, c2);
        }
    }
    assert forall|c: int| 0 <= c < gm.len() implies #[trigger] gm[c] < t by {}
    // The right-hand side is the system times the missing words.
    assert forall|eq: int| 0 <= eq < n implies #[trigger] rhs[eq] == xsum(|c: int| gf_mul(a[eq][c], xw(c)), n) by {
        let cs = coefficients(e.base_values@, recovery_exponent(e, eq));
        let f = |j: int| gf_mul(cs[j], word(data[j], wp));
        lemma_rhs_word_sum(e, existing, gmap, ks, eq, wp);
        lemma_encode_words(data, cs, len);
        assert(e.recovery_slices@[eq].recovery_data@ == encode_spec(data, cs, len));
        assert(word_at(e.recovery_slices@[eq].recovery_data@, wp) == word(e.recovery_slices@[eq].recovery_data@, wp));
        assert(word(e.recovery_slices@[eq].recovery_data@, wp) == xsum(f, t));
        assert forall|k: int| 0 <= k < ks.len() implies #[trigger] present_term(e, existing, gmap, ks[k], eq, wp) == f(gks[k] as int) by {
            assert(existing.contains_key(ks[k]));
            assert(existing[ks[k]]@ == data[gks[k] as int]);
        }
        lemma_xsum_ext(|k: int| present_term(e, existing, gmap, ks[k], eq, wp), |k: int| f(gks[k] as int), ks.len());
        lemma_xsum_over_list(f, gks, t);
        lemma_xsum_over_list(f, gm, t);
        let gp = |j: int| if gks.contains(j as usize) { f(j) } else { 0 };
        let gq = |j: int| if gm.contains(j as usize) { f(j) } else { 0 };
        lemma_xsum_xor(f, gp, t);
        assert forall|j: int| 0 <= j < t implies #[trigger] gq(j) == f(j) ^ gp(j) by {
            let ju = j as usize;
            if gks.contains(ju) {
                let k = choose|k: int| 0 <= k < gks.len() && gks[k] == ju;
                assert(existing.contains_key(ks[k]) && gmap[ks[k]] == ju);
                assert(is_present_global(existing, gmap, ju));
            } else {
                if is_present_global(existing, gmap, ju) {
                    let k = choose|k: usize| #[trigger] existing.contains_key(k) && gmap[k] == ju;
                    assert(ks.to_set().contains(k));
                    let q = choose|q: int| 0 <= q < ks.len() && ks[q] == k;
                    assert(gks[q] == ju);
                }
            }
            if gm.contains(ju) {
                let c = choose|c: int| 0 <= c < gm.len() && gm[c] == ju;
                assert(is_missing_global(gmap, missing, ju));
            } else {
                if is_missing_global(gmap, missing, ju) {
                    let c = choose|c: int| 0 <= c < missing.len() && gmap[#[trigger] missing[c]] == ju;
                    assert(gm[c] == ju);
                }
            }
            lemma_xor(f(j), f(j), 0);
        }
        lemma_xsum_ext(gq, |j: int| f(j) ^ gp(j), t);
        assert forall|c: int| 0 <= c < n implies #[trigger] f(gm[c] as int) == gf_mul(a[eq][c], xw(c)) by {}
        lemma_xsum_ext(|c: int| f(gm[c] as int), |c: int| gf_mul(a[eq][c], xw(c)), n);
        assert(rhs[eq] == rhs_word(e, existing, gmap, ks, eq, wp));
    }
    // The inverse applied to the system picks out word `i`.
    let h = |eq: int, c: int| gf_mul(gf_mul(inv[i][eq], a[eq][c]), xw(c));
    lemma_dot_xsum(inv[i], rhs);
    assert forall|eq: int| 0 <= eq < n implies #[trigger] gf_mul(inv[i][eq], rhs[eq]) == xsum(|c: int| h(eq, c), n) by {
        let inner = |c: int| gf_mul(a[eq][c], xw(c));
        lemma_xsum_scale_left(inv[i][eq], inner, n);
        assert forall|c: int| 0 <= c < n implies #[trigger] gf_mul(inv[i][eq], inner(c)) == h(eq, c) by {
            lemma_gf_mul_assoc(inv[i][eq], a[eq][c], xw(c));
        }
        lemma_xsum_ext(|c: int| gf_mul(inv[i][eq], inner(c)), |c: int| h(eq, c), n);
    }
    lemma_xsum_ext(|q: int| gf_mul(inv[i][q], rhs[q]), |eq: int| xsum(|c: int| h(eq, c), n), n);
    lemma_xsum_swap(h, n, n);
    let col_sum = |c: int| xsum(|eq: int| h(eq, c), n);
    assert forall|c: int| 0 <= c < n implies #[trigger] col_sum(c) == (if c == i { xw(c) } else { 0u16 }) by {
        let g = |eq: int| gf_mul(inv[i][eq], a[eq][c]);
        lemma_xsum_scale_right(g, xw(c), n);
        lemma_xsum_ext(|eq: int| gf_mul(g(eq), xw(c)), |eq: int| h(eq, c), n);
        lemma_local_inverse(e, missing, gmap, inv, i, c);
        lemma_xsum_ext(g, |eq: int| gf_mul(inv[i][eq], gpow(e.base_values@[gmap[missing[c]] as int], recovery_exponent(e, eq))), n);
        lemma_gf_mul_one_left(xw(c));
        lemma_gf_mul_zero_left(xw(c));
    }
    lemma_xsum_single(col_sum, n, i);
}

/// Chunked reconstruction inverts encoding chunk by chunk: with a plan
/// whose recovery coefficients are the rows of an inverse of the system of
/// the missing slices and whose present coefficients are the combined
/// ones, when the (padded) recovery chunks were encoded from the data
/// chunks and the (padded) input chunks are the data chunks of the
/// available slices, exactly the ones not missing, then the chunk rebuilt
/// for missing slice `o` is its data chunk.
pub proof fn lemma_chunk_rebuilds_data(
    e: &ReconstructionEngine,
    plan: ChunkedReconstructionPlan,
    inv: Seq<Seq<u16>>,
    data_chunks: Seq<Seq<u8>>,
    recovery_chunks: Seq<Vec<u8>>,
    input_chunks: Seq<Vec<u8>>,
    len: nat,
    o: int,
)
    requires
        e.base_values@.len() == e.total_input_slices,
        plan.wf(),
        plan.missing@.len() <= e.recovery_slices@.len(),
        is_product(inv, missing_system(e, plan.missing@), identity(plan.missing@.len()), plan.missing@.len(), plan.missing@.len()),
        forall|q: int| 0 <= q < plan.missing@.len() ==> (#[trigger] plan.recovery_coefficients@[q])@ == inv[q],
        forall|q: int, i: int| 0 <= q < plan.missing@.len() && 0 <= i < plan.available@.len()
            ==> #[trigger] plan.present_coefficients@[q]@[i] == combined_coefficient(e, inv[q], plan.available@[i]),
        data_chunks.len() == e.total_input_slices,
        len % 2 == 0,
        all_len(data_chunks, len),
        recovery_chunks.len() == plan.missing@.len(),
        rec_encoded(e, data_chunks, Seq::new(recovery_chunks.len(), |eq: int| padded(recovery_chunks[eq]@, len)), plan.missing@.len(), len),
        input_chunks.len() == plan.available@.len(),
        plan.available@.no_duplicates(),
        forall|i: int| 0 <= i < plan.available@.len() ==> #[trigger] plan.available@[i] < e.total_input_slices
            && padded(input_chunks[i]@, len) == data_chunks[plan.available@[i] as int],
        forall|c: int| 0 <= c < plan.missing@.len() ==> #[trigger] plan.missing@[c] < e.total_input_slices,
        forall|j: usize| j < e.total_input_slices ==> (#[trigger] plan.available@.contains(j) <==> !plan.missing@.contains(j)),
        0 <= o < plan.missing@.len(),
    ensures
        encode_spec(
            Seq::new(recovery_chunks.len(), |eq: int| padded(recovery_chunks[eq]@, len))
                + Seq::new(input_chunks.len(), |i: int| padded(input_chunks[i]@, len)),
            plan.coefficients_of(o),
            len,
        ) == data_chunks[plan.missing@[o] as int],
{
    let n = plan.missing@.len();
    let rec = Seq::new(recovery_chunks.len(), |eq: int| padded(recovery_chunks[eq]@, len));
    let present = Seq::new(input_chunks.len(), |i: int| padded(input_chunks[i]@, len));
    assert(inv[o].len() == n);
    lemma_rebuilt_recovers(e, data_chunks, rec, plan.available@, present, plan.missing@, inv, o, len);
    assert(rec.take(n as int) =~= rec);
    assert(plan.present_coefficients@[o]@ =~= Seq::new(plan.available@.len(), |i: int| combined_coefficient(e, inv[o], plan.available@[i])));
    assert(plan.coefficients_of(o) =~= output_coefficients(e, inv[o], plan.available@));
}

} // verus!
