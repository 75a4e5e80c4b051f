//! The element `x` (the value 2) generates every nonzero element of the
//! field: its powers `x^0 .. x^65534` are pairwise distinct, so they are
//! exactly the 65535 nonzero elements.  From this follow the logarithm
//! and antilogarithm laws and Fermat's law `a^65535 == 1` for every nonzero
//! `a`.
//!
//! The order of `x` divides 65535 = 3 * 5 * 17 * 257 (`x^65535 == 1`), and
//! `x^(65535 / p)` is not one for each of the four primes `p`, so the order
//! is 65535.
use crate::field::{
    alog, antilog_spec, gf_mul, gf_pow, lemma_alog_add, lemma_alog_is_pow, lemma_alog_nonzero, lemma_gf_mul_assoc,
    lemma_gf_mul_one_left, lemma_gf_mul_one_right, lemma_gf_pow_1, lemma_gf_pow_add, lemma_gf_pow_one, lemma_gf_pow_pow,
    lemma_log_upto_found, lemma_log_upto_inverts, lemma_x_pow_65535, lemma_x_square_chain, log_spec,
};
use crate::galois::{gf_div, lemma_div_undoes_mul};
use vstd::prelude::*;
use vstd::relations::injective_on;
use vstd::set_lib::{lemma_int_range, lemma_map_size, lemma_subset_equality, set_int_range};

verus! {

/// Products of repeated squares of `x` that make up `x^(65535 / p)` for
/// the primes `p` of 65535.
proof fn lemma_cofactor_products()
    by (bit_vector)
    ensures
        gf_mul(0x8000u16, 0x0b2fu16) == 0x1005u16,
        gf_mul(0x1005u16, 0x169eu16) == 0x4494u16,
        gf_mul(0x4494u16, 0x0a78u16) == 0xf115u16,
        gf_mul(0xf115u16, 0x1780u16) == 0x4d78u16,
        gf_mul(0x0008u16, 0x100bu16) == 0x8058u16,
        gf_mul(0x8058u16, 0x1bfeu16) == 0x41beu16,
        gf_mul(0x41beu16, 0x0b2fu16) == 0x7c64u16,
        gf_mul(0x7c64u16, 0x169eu16) == 0xe977u16,
        gf_mul(0xe977u16, 0x1b27u16) == 0x4adcu16,
        gf_mul(0x4adcu16, 0x0d65u16) == 0x1ce8u16,
        gf_mul(0x0002u16, 0x0010u16) == 0x0020u16,
        gf_mul(0x0020u16, 0x100bu16) == 0x2176u16,
        gf_mul(0x2176u16, 0x5c24u16) == 0x1539u16,
        gf_mul(0x1539u16, 0x0b2fu16) == 0x3308u16,
        gf_mul(0x3308u16, 0x0a78u16) == 0xd6b8u16,
        gf_mul(0xd6b8u16, 0x1b27u16) == 0xf0ecu16,
        gf_mul(0xf0ecu16, 0x564du16) == 0x015eu16,
{
}

/// The repeated squares `x^(2^k)` for `k < 16`.
proof fn lemma_x_squares()
    ensures
        gf_pow(2, 1) == 0x0002u16,
        gf_pow(2, 2) == 0x0004u16,
        gf_pow(2, 4) == 0x0010u16,
        gf_pow(2, 8) == 0x0100u16,
        gf_pow(2, 16) == 0x100bu16,
        gf_pow(2, 32) == 0x1bfeu16,
        gf_pow(2, 64) == 0x5c24u16,
        gf_pow(2, 128) == 0xe647u16,
        gf_pow(2, 256) == 0x0b2fu16,
        gf_pow(2, 512) == 0x169eu16,
        gf_pow(2, 1024) == 0x0a78u16,
        gf_pow(2, 2048) == 0x1780u16,
        gf_pow(2, 4096) == 0x1b27u16,
        gf_pow(2, 8192) == 0x0d65u16,
        gf_pow(2, 16384) == 0x564du16,
{
    lemma_x_square_chain();
    lemma_gf_pow_1(2);
    lemma_gf_pow_add(2, 1, 1);
    lemma_gf_pow_add(2, 2, 2);
    lemma_gf_pow_add(2, 4, 4);
    lemma_gf_pow_add(2, 8, 8);
    lemma_gf_pow_add(2, 16, 16);
    lemma_gf_pow_add(2, 32, 32);
    lemma_gf_pow_add(2, 64, 64);
    lemma_gf_pow_add(2, 128, 128);
    lemma_gf_pow_add(2, 256, 256);
    lemma_gf_pow_add(2, 512, 512);
    lemma_gf_pow_add(2, 1024, 1024);
    lemma_gf_pow_add(2, 2048, 2048);
    lemma_gf_pow_add(2, 4096, 4096);
    lemma_gf_pow_add(2, 8192, 8192);
}

/// `x^(65535 / p)` is not one for the primes 3, 5, 17 and 257 of 65535.
proof fn lemma_x_cofactor_powers()
    ensures
        gf_pow(2, 21845) != 1,
        gf_pow(2, 13107) != 1,
        gf_pow(2, 3855) != 1,
        gf_pow(2, 255) != 1,
{
    lemma_x_squares();
    lemma_x_square_chain();
    lemma_cofactor_products();
    // 255 = 1 + 2 + 4 + ... + 128
    lemma_gf_pow_add(2, 1, 2);
    lemma_gf_pow_add(2, 3, 4);
    lemma_gf_pow_add(2, 7, 8);
    lemma_gf_pow_add(2, 15, 16);
    lemma_gf_pow_add(2, 31, 32);
    lemma_gf_pow_add(2, 63, 64);
    lemma_gf_pow_add(2, 127, 128);
    // 3855 = 15 + 256 + 512 + 1024 + 2048
    lemma_gf_pow_add(2, 15, 256);
    lemma_gf_pow_add(2, 271, 512);
    lemma_gf_pow_add(2, 783, 1024);
    lemma_gf_pow_add(2, 1807, 2048);
    // 13107 = 3 + 16 + 32 + 256 + 512 + 4096 + 8192
    lemma_gf_pow_add(2, 3, 16);
    lemma_gf_pow_add(2, 19, 32);
    lemma_gf_pow_add(2, 51, 256);
    lemma_gf_pow_add(2, 307, 512);
    lemma_gf_pow_add(2, 819, 4096);
    lemma_gf_pow_add(2, 4915, 8192);
    // 21845 = 1 + 4 + 16 + 64 + 256 + 1024 + 4096 + 16384
    lemma_gf_pow_add(2, 1, 4);
    lemma_gf_pow_add(2, 5, 16);
    lemma_gf_pow_add(2, 21, 64);
    lemma_gf_pow_add(2, 85, 256);
    lemma_gf_pow_add(2, 341, 1024);
    lemma_gf_pow_add(2, 1365, 4096);
    lemma_gf_pow_add(2, 5461, 16384);
}

/// Euclid's lemma for the small primes of 65535: a prime that divides a
/// product and not one factor divides the other.
proof fn lemma_small_prime_divides(x: int, y: int, p: int)
    requires
        p == 3 || p == 5 || p == 17,
        (x * y) % p == 0,
        y % p != 0,
    ensures
        x % p == 0,
{
    vstd::arithmetic::div_mod::lemma_mul_mod_noop(x, y, p);
    let a = x % p;
    let b = y % p;
    assert(0 <= a < p && 0 < b < p);
    assert((a * b) % p == 0);
    if a != 0 {
        assert(false) by (nonlinear_arith)
            requires
                p == 3 || p == 5 || p == 17,
                0 < a < p,
                0 < b < p,
                (a * b) % p == 0,
        ;
    }
}

/// 257 is prime: a factorisation `d * c == 257` with `c >= 2` has
/// `c == 257`.
proof fn lemma_257_prime(d: int, c: int)
    requires
        d * c == 257,
        c >= 2,
    ensures
        c == 257,
{
    assert(d >= 1) by (nonlinear_arith)
        requires
            d * c == 257,
            c >= 2,
    ;
    if c != 257 {
        assert(d >= 2) by (nonlinear_arith)
            requires
                d * c == 257,
                c >= 2,
                c != 257,
                d >= 1,
        ;
        // one factor is at most 16, since 17 * 17 > 257
        let t = if c <= 16 { c } else { d };
        let u = if c <= 16 { d } else { c };
        assert(t * u == 257);
        assert(2 <= t <= 16) by (nonlinear_arith)
            requires
                d * c == 257,
                c >= 2,
                d >= 2,
                t == (if c <= 16 { c } else { d }),
        ;
        vstd::arithmetic::div_mod::lemma_mod_multiples_basic(u, t);
        assert((u * t) % t == 0);
        assert(u * t == 257) by (nonlinear_arith)
            requires
                t * u == 257,
        ;
        assert(257int % t == 0);
        assert(257int % 2 == 1 && 257int % 3 == 2 && 257int % 4 == 1 && 257int % 5 == 2 && 257int % 6 == 5
            && 257int % 7 == 5 && 257int % 8 == 1 && 257int % 9 == 5 && 257int % 10 == 7 && 257int % 11 == 4
            && 257int % 12 == 5 && 257int % 13 == 10 && 257int % 14 == 5 && 257int % 15 == 2 && 257int % 16 == 1);
        assert(t == 2 || t == 3 || t == 4 || t == 5 || t == 6 || t == 7 || t == 8 || t == 9 || t == 10
            || t == 11 || t == 12 || t == 13 || t == 14 || t == 15 || t == 16);
    }
}

/// Every factor `c >= 2` of 65535 is a multiple of one of its primes
/// 3, 5, 17, 257.
proof fn lemma_factor_has_prime(d: int, c: int)
    requires
        d * c == 65535,
        c >= 2,
    ensures
        c % 3 == 0 || c % 5 == 0 || c % 17 == 0 || c % 257 == 0,
{
    if c % 3 != 0 && c % 5 != 0 && c % 17 != 0 {
        lemma_small_prime_divides(d, c, 3);
        let d1 = d / 3;
        assert(d1 * c == 21845) by (nonlinear_arith)
            requires
                d * c == 65535,
                d % 3 == 0,
                d1 == d / 3,
        ;
        lemma_small_prime_divides(d1, c, 5);
        let d2 = d1 / 5;
        assert(d2 * c == 4369) by (nonlinear_arith)
            requires
                d1 * c == 21845,
                d1 % 5 == 0,
                d2 == d1 / 5,
        ;
        lemma_small_prime_divides(d2, c, 17);
        let d3 = d2 / 17;
        assert(d3 * c == 257) by (nonlinear_arith)
            requires
                d2 * c == 4369,
                d2 % 17 == 0,
                d3 == d2 / 17,
        ;
        lemma_257_prime(d3, c);
    }
}

/// Euclid's greatest common divisor on exponents.
spec fn exp_gcd(a: nat, b: nat) -> nat
    decreases b,
{
    if b == 0 {
        a
    } else {
        exp_gcd(b, a % b)
    }
}

/// A multiple of an exponent that gives one gives one.
proof fn lemma_alog_one_multiple(k: nat, q: nat)
    requires
        alog(k) == 1,
    ensures
        alog(k * q) == 1,
{
    lemma_alog_is_pow(k);
    lemma_alog_is_pow(k * q);
    lemma_gf_pow_pow(2, k, q);
    lemma_gf_pow_one(q);
}

/// The exponents that give one are closed under remainder.
proof fn lemma_alog_one_mod(a: nat, b: nat)
    requires
        b > 0,
        alog(a) == 1,
        alog(b) == 1,
    ensures
        alog(a % b) == 1,
{
    vstd::arithmetic::div_mod::lemma_fundamental_div_mod(a as int, b as int);
    let q = a / b;
    let r = a % b;
    lemma_alog_one_multiple(b, q);
    assert(a == b * q + r);
    lemma_alog_add(b * q, r);
    lemma_gf_mul_one_left(alog(r));
}

/// Euclid's algorithm keeps both the common divisors and the property of
/// giving one.
proof fn lemma_exp_gcd(a: nat, b: nat)
    requires
        a > 0,
        alog(a) == 1,
        alog(b) == 1,
    ensures
        exp_gcd(a, b) > 0,
        a % exp_gcd(a, b) == 0,
        b % exp_gcd(a, b) == 0,
        alog(exp_gcd(a, b)) == 1,
    decreases b,
{
    if b == 0 {
        vstd::arithmetic::div_mod::lemma_mod_self_0(a as int);
        vstd::arithmetic::div_mod::lemma_small_mod(0, a);
    } else {
        lemma_alog_one_mod(a, b);
        let r = a % b;
        if r == 0 {
            assert(exp_gcd(b, r) == b);
            vstd::arithmetic::div_mod::lemma_mod_self_0(b as int);
            vstd::arithmetic::div_mod::lemma_small_mod(0, b);
        } else {
            lemma_exp_gcd(b, r);
            let g = exp_gcd(b, r);
            assert(exp_gcd(a, b) == g);
            vstd::arithmetic::div_mod::lemma_fundamental_div_mod(a as int, b as int);
            vstd::arithmetic::div_mod::lemma_fundamental_div_mod(b as int, g as int);
            vstd::arithmetic::div_mod::lemma_fundamental_div_mod(r as int, g as int);
            let q = a / b;
            let s1 = b / g;
            let s2 = r / g;
            assert(a == g * (s1 * q + s2)) by (nonlinear_arith)
                requires
                    a == b * q + r,
                    b == g * s1,
                    r == g * s2,
            ;
            vstd::arithmetic::div_mod::lemma_mod_multiples_basic((s1 * q + s2) as int, g as int);
            assert(g * (s1 * q + s2) == (s1 * q + s2) * g) by (nonlinear_arith);
        }
    }
}

/// The powers `x^k` for `0 < k < 65535` are not one: `x` has order 65535.
pub proof fn lemma_x_order(k: nat)
    requires
        0 < k < 65535,
    ensures
        alog(k) != 1,
{
    if alog(k) == 1 {
        lemma_x_pow_65535();
        lemma_alog_is_pow(65535);
        lemma_exp_gcd(65535, k);
        let g = exp_gcd(65535, k);
        vstd::arithmetic::div_mod::lemma_fundamental_div_mod(65535, g as int);
        vstd::arithmetic::div_mod::lemma_fundamental_div_mod(k as int, g as int);
        let c: nat = 65535nat / g;
        assert(g * c == 65535);
        assert(g <= k) by (nonlinear_arith)
            requires
                k == g * (k / g),
                k > 0,
                g > 0,
        ;
        assert(c >= 2) by (nonlinear_arith)
            requires
                g * c == 65535,
                g < 65535,
                g > 0,
        ;
        lemma_factor_has_prime(g as int, c as int);
        lemma_x_cofactor_powers();
        lemma_cofactor_gives_one(g, c, 3, 21845);
        lemma_cofactor_gives_one(g, c, 5, 13107);
        lemma_cofactor_gives_one(g, c, 17, 3855);
        lemma_cofactor_gives_one(g, c, 257, 255);
    }
}

/// When `p` divides the cofactor `c` of `g` in 65535 and `x^g` is one, so
/// is `x^(65535 / p)`.
proof fn lemma_cofactor_gives_one(g: nat, c: nat, p: nat, m: nat)
    requires
        g * c == 65535,
        p > 0,
        p * m == 65535,
        alog(g) == 1,
    ensures
        c % p == 0 ==> gf_pow(2, m) == 1,
{
    if c % p == 0 {
        vstd::arithmetic::div_mod::lemma_fundamental_div_mod(c as int, p as int);
        let c1 = c / p;
        assert(g * c1 == m) by (nonlinear_arith)
            requires
                g * c == 65535,
                c == p * c1,
                p * m == 65535,
                p > 0,
        ;
        lemma_alog_one_multiple(g, c1);
        lemma_alog_is_pow(m);
    }
}

/// Every power of `x` raised to 65535 is one.
proof fn lemma_alog_pow_65535(l: nat)
    ensures
        gf_pow(alog(l), 65535) == 1,
{
    lemma_alog_is_pow(l);
    lemma_gf_pow_pow(2, l, 65535);
    lemma_gf_pow_pow(2, 65535, l);
    lemma_x_pow_65535();
    lemma_gf_pow_one(l);
}

/// The powers `x^0 .. x^65534` are pairwise distinct.
pub proof fn lemma_alog_distinct(i: nat, j: nat)
    requires
        i < j < 65535,
    ensures
        alog(i) != alog(j),
{
    if alog(i) == alog(j) {
        let a = alog(i);
        let d = (j - i) as nat;
        lemma_alog_add(i, d);
        lemma_gf_mul_one_right(a);
        lemma_alog_pow_65535(i);
        lemma_div_undoes_mul(a, alog(d));
        lemma_div_undoes_mul(a, 1);
        lemma_x_order(d);
    }
}

/// The nonzero elements of the field.
spec fn nonzero_elements() -> Set<u16> {
    Set::new(|v: u16| v != 0)
}

/// There are 65535 nonzero elements.
proof fn lemma_nonzero_elements_len()
    ensures
        nonzero_elements().finite(),
        nonzero_elements().len() == 65535,
{
    let r = set_int_range(1, 65536);
    lemma_int_range(1, 65536);
    let f = |i: int| i as u16;
    assert(injective_on(f, r));
    assert(r.map(f) =~= nonzero_elements()) by {
        assert forall|v: u16| nonzero_elements().contains(v) implies r.map(f).contains(v) by {
            assert(r.contains(v as int) && f(v as int) == v);
        }
    }
    lemma_map_size(r, nonzero_elements(), f);
}

/// The powers `x^0 .. x^65534`.
spec fn powers_of_x() -> Set<u16> {
    set_int_range(0, 65535).map(|i: int| alog(i as nat))
}

/// Every nonzero element is a power `x^l` with `l < 65535`.
pub proof fn lemma_nonzero_is_power(v: u16)
    requires
        v != 0,
    ensures
        exists|l: nat| l < 65535 && #[trigger] alog(l) == v,
{
    let r = set_int_range(0, 65535);
    lemma_int_range(0, 65535);
    let f = |i: int| alog(i as nat);
    assert(injective_on(f, r)) by {
        assert forall|a: int, b: int| r.contains(a) && r.contains(b) && #[trigger] f(a) == #[trigger] f(b) implies a == b by {
            if a < b {
                lemma_alog_distinct(a as nat, b as nat);
            } else if b < a {
                lemma_alog_distinct(b as nat, a as nat);
            }
        }
    }
    lemma_map_size(r, powers_of_x(), f);
    lemma_nonzero_elements_len();
    assert(powers_of_x().subset_of(nonzero_elements())) by {
        assert forall|w: u16| powers_of_x().contains(w) implies nonzero_elements().contains(w) by {
            let i = choose|i: int| r.contains(i) && w == f(i);
            lemma_alog_nonzero(i as nat);
        }
    }
    lemma_subset_equality(powers_of_x(), nonzero_elements());
    assert(nonzero_elements().contains(v));
    assert(powers_of_x().contains(v));
    let i = choose|i: int| r.contains(i) && v == f(i);
    assert(alog(i as nat) == v);
}

/// Fermat's law: every nonzero element raised to 65535 is one.
pub proof fn lemma_nonzero_pow_65535(a: u16)
    requires
        a != 0,
    ensures
        gf_pow(a, 65535) == 1,
{
    lemma_nonzero_is_power(a);
    let l = choose|l: nat| l < 65535 && #[trigger] alog(l) == a;
    lemma_alog_pow_65535(l);
}

/// The logarithm of a nonzero element is an exponent below 65535 whose
/// antilogarithm gives the element back.
pub proof fn lemma_antilog_of_log(v: u16)
    requires
        v != 0,
    ensures
        log_spec(v) < 65535,
        antilog_spec(log_spec(v)) == v,
{
    lemma_nonzero_is_power(v);
    let l = choose|l: nat| l < 65535 && #[trigger] alog(l) == v;
    lemma_log_upto_found(v, 65535, l);
}

/// The antilogarithm of an exponent below 65535 is nonzero, and its
/// logarithm is that exponent.
pub proof fn lemma_log_of_antilog(l: nat)
    requires
        l < 65535,
    ensures
        antilog_spec(l) != 0,
        log_spec(antilog_spec(l)) == l,
{
    lemma_alog_nonzero(l);
    assert forall|i: nat, j: nat| i < j < 65535 implies alog(i) != alog(j) by {
        lemma_alog_distinct(i, j);
    }
    lemma_log_upto_inverts(l, 65535);
}

/// Division by a nonzero element undoes multiplication by it, and the
/// element divided by itself is one.
pub proof fn lemma_div_inverts_mul(a: u16, b: u16)
    requires
        b != 0,
    ensures
        gf_div(gf_mul(a, b), b) == a,
        gf_div(gf_mul(b, a), b) == a,
        gf_mul(gf_div(a, b), b) == a,
        gf_div(b, b) == 1,
{
    lemma_nonzero_pow_65535(b);
    lemma_div_undoes_mul(b, a);
    lemma_div_undoes_mul(b, 1);
    lemma_gf_mul_one_left(b);
    // (a * b^65534) * b == a * b^65535 == a
    assert(gf_pow(b, 65535) == gf_mul(gf_pow(b, 65534), b));
    lemma_gf_mul_assoc(a, gf_pow(b, 65534), b);
    lemma_gf_mul_one_right(a);
}

} // verus!
