//! Mathematical model of GF(2^16) as polynomials over GF(2) modulo the PAR2
//! generator x^16 + x^12 + x^3 + x + 1 (0x1100B).
//!
//! An element is a `u16` whose bit `i` is the coefficient of `x^i`.  Addition
//! is XOR; multiplication is carry-less multiplication reduced modulo the
//! generator, written here as shift-and-add over the bits of the right
//! operand.  The lemmas prove the ring laws of this multiplication.
use vstd::prelude::*;

verus! {

/// Multiplication by `x`, reduced modulo the generator.
pub open spec fn xtime(a: u16) -> u16 {
    if a & 0x8000u16 != 0u16 {
        (a << 1u16) ^ 0x100bu16
    } else {
        a << 1u16
    }
}

/// Field multiplication: `a * b` as polynomials modulo the generator.
pub open spec fn gf_mul(a: u16, b: u16) -> u16
    decreases b,
{
    if b == 0 {
        0
    } else {
        let rest = gf_mul(xtime(a), b / 2);
        if b % 2 == 1 {
            a ^ rest
        } else {
            rest
        }
    }
}

/// `a` raised to the `n`-th power in the field.
pub open spec fn gf_pow(a: u16, n: nat) -> u16
    decreases n,
{
    if n == 0 {
        1
    } else {
        gf_mul(gf_pow(a, (n - 1) as nat), a)
    }
}

/// The `l`-th power of the generator element `x` (the value `2`):
/// what the antilog table holds at index `l`.
pub open spec fn alog(l: nat) -> u16
    decreases l,
{
    if l == 0 {
        1
    } else {
        xtime(alog((l - 1) as nat))
    }
}

/// The largest `l < n` with `alog(l) == v`, or 0 when there is none.
pub open spec fn log_upto(v: u16, n: nat) -> nat
    decreases n,
{
    if n == 0 {
        0
    } else if alog((n - 1) as nat) == v {
        (n - 1) as nat
    } else {
        log_upto(v, (n - 1) as nat)
    }
}

/// What the log table holds for `v`: 65535 for zero, otherwise the
/// largest exponent `l < 65535` with `alog(l) == v` (0 if none exists).
pub open spec fn log_spec(v: u16) -> nat {
    if v == 0 {
        65535
    } else {
        log_upto(v, 65535)
    }
}

/// What the antilog table holds at index `l` (`l <= 65535`).
pub open spec fn antilog_spec(l: nat) -> u16 {
    if l >= 65535 {
        0
    } else {
        alog(l)
    }
}

/// XOR facts used throughout.
pub proof fn lemma_xor(a: u16, b: u16, c: u16)
    by (bit_vector)
    ensures
        a ^ b == b ^ a,
        (a ^ b) ^ c == a ^ (b ^ c),
        a ^ 0u16 == a,
        0u16 ^ a == a,
        a ^ a == 0u16,
        (a ^ b) ^ b == a,
{
}

/// Shift and mask facts relating the bit operations to arithmetic.
pub proof fn lemma_shr1(b: u16)
    by (bit_vector)
    ensures
        b >> 1u16 == b / 2,
        (b & 1u16 != 0u16) == (b % 2 == 1),
        (b & 1u16) == b % 2,
        b >> 8u16 == b / 256,
        b & 0xffu16 == b % 256,
{
}

/// `xtime` distributes over XOR and maps only zero to zero.
pub proof fn lemma_xtime_linear(a: u16, c: u16)
    by (bit_vector)
    ensures
        xtime(a ^ c) == xtime(a) ^ xtime(c),
        xtime(0u16) == 0u16,
        xtime(a) == 0u16 ==> a == 0u16,
{
}

/// Reduction identity: x^16 == x^12 + x^3 + x + 1 modulo the generator,
/// stated on an arbitrary element and its successive `xtime` images.
#[verifier::rlimit(100)]
proof fn lemma_xtime16(
    a: u16, x1: u16, x2: u16, x3: u16, x4: u16, x5: u16, x6: u16, x7: u16, x8: u16,
    x9: u16, x10: u16, x11: u16, x12: u16, x13: u16, x14: u16, x15: u16,
)
    by (bit_vector)
    requires
        x1 == xtime(a), x2 == xtime(x1), x3 == xtime(x2), x4 == xtime(x3), x5 == xtime(x4),
        x6 == xtime(x5), x7 == xtime(x6), x8 == xtime(x7), x9 == xtime(x8), x10 == xtime(x9),
        x11 == xtime(x10), x12 == xtime(x11), x13 == xtime(x12), x14 == xtime(x13),
        x15 == xtime(x14),
    ensures
        xtime(x15) == x12 ^ x3 ^ x1 ^ a,
{
}

/// Bit decomposition of a word: its low bit plus twice its upper part.
proof fn lemma_split_low_bit(b: u16)
    by (bit_vector)
    ensures
        b == ((b >> 1u16) << 1u16) ^ (b & 1u16),
        (b >> 1u16) & 0x8000u16 == 0u16,
        (b >> 1u16) << 1u16 == xtime(b >> 1u16),
        b & 0x7fffu16 == b ^ (b & 0x8000u16),
        (b & 0x8000u16 != 0u16) ==> (b << 1u16) == ((b & 0x7fffu16) << 1u16),
        (b & 0x8000u16 == 0u16) ==> b & 0x7fffu16 == b,
        (b & 0x7fffu16) & 0x8000u16 == 0u16,
        (b & 0x8000u16 != 0u16) ==> (b & 0x8000u16) == 0x8000u16,
{
}

pub proof fn lemma_gf_mul_zero_left(b: u16)
    ensures
        gf_mul(0, b) == 0,
    decreases b,
{
    if b != 0 {
        lemma_xtime_linear(0, 0);
        lemma_gf_mul_zero_left(b / 2);
        lemma_xor(0, 0, 0);
    }
}

pub proof fn lemma_gf_mul_one_right(a: u16)
    ensures
        gf_mul(a, 1) == a,
        gf_mul(a, 0) == 0,
        gf_mul(a, 2) == xtime(a),
{
    assert(gf_mul(xtime(a), 0) == 0);
    lemma_xor(a, 0, 0);
    assert(gf_mul(a, 1) == a);
    assert(gf_mul(xtime(xtime(a)), 0) == 0);
    assert(gf_mul(xtime(a), 1) == xtime(a)) by {
        lemma_xor(xtime(a), 0, 0);
    }
}

/// Multiplication distributes over addition on the left operand.
pub proof fn lemma_gf_mul_distrib_left(a: u16, c: u16, b: u16)
    ensures
        gf_mul(a ^ c, b) == gf_mul(a, b) ^ gf_mul(c, b),
    decreases b,
{
    if b == 0 {
        lemma_xor(0, 0, 0);
    } else {
        lemma_xtime_linear(a, c);
        lemma_gf_mul_distrib_left(xtime(a), xtime(c), b / 2);
        let ra = gf_mul(xtime(a), b / 2);
        let rc = gf_mul(xtime(c), b / 2);
        if b % 2 == 1 {
            // (a ^ c) ^ (ra ^ rc) == (a ^ ra) ^ (c ^ rc)
            lemma_xor4(a, c, ra, rc);
        }
    }
}

proof fn lemma_xor4(a: u16, c: u16, ra: u16, rc: u16)
    by (bit_vector)
    ensures
        (a ^ c) ^ (ra ^ rc) == (a ^ ra) ^ (c ^ rc),
{
}

/// `xtime` commutes with multiplication on the left operand.
pub proof fn lemma_gf_mul_xtime_left(a: u16, b: u16)
    ensures
        gf_mul(xtime(a), b) == xtime(gf_mul(a, b)),
    decreases b,
{
    if b == 0 {
        lemma_xtime_linear(0, 0);
    } else {
        lemma_gf_mul_xtime_left(xtime(a), b / 2);
        let r = gf_mul(xtime(a), b / 2);
        if b % 2 == 1 {
            lemma_xtime_linear(a, r);
        }
    }
}

/// Multiplication distributes over addition on the right operand.
pub proof fn lemma_gf_mul_distrib_right(a: u16, b: u16, c: u16)
    ensures
        gf_mul(a, b ^ c) == gf_mul(a, b) ^ gf_mul(a, c),
    decreases b as int + c as int,
{
    lemma_shr1(b);
    lemma_shr1(c);
    lemma_shr1(b ^ c);
    lemma_xor_halves(b, c);
    if b == 0 {
        lemma_xor(c, 0, 0);
        lemma_xor(gf_mul(a, c), 0, 0);
    } else if c == 0 {
        lemma_xor(b, 0, 0);
        lemma_xor(gf_mul(a, b), 0, 0);
    } else {
        lemma_gf_mul_distrib_right(xtime(a), b / 2, c / 2);
        let rb = gf_mul(xtime(a), b / 2);
        let rc = gf_mul(xtime(a), c / 2);
        // gf_mul(xtime(a), (b ^ c) / 2) == rb ^ rc
        if b ^ c == 0 {
            lemma_xor_zero_eq(b, c);
            lemma_xor(rb, rb, 0);
            lemma_xor(gf_mul(a, b), 0, 0);
        } else {
            let bb = b % 2 == 1;
            let cc = c % 2 == 1;
            if bb && cc {
                lemma_xor_rearrange(a, rb, rc);
            } else if bb {
                lemma_xor(a, rb, rc);
            } else if cc {
                lemma_xor_rearrange(a, rb, rc);
            }
        }
    }
}

proof fn lemma_xor_halves(b: u16, c: u16)
    by (bit_vector)
    ensures
        (b ^ c) / 2 == (b / 2) ^ (c / 2),
        ((b ^ c) % 2 == 1) == ((b % 2 == 1) != (c % 2 == 1)),
{
}

proof fn lemma_xor_zero_eq(b: u16, c: u16)
    by (bit_vector)
    ensures
        (b ^ c == 0u16) ==> b == c,
{
}

proof fn lemma_xor_rearrange(a: u16, rb: u16, rc: u16)
    by (bit_vector)
    ensures
        rb ^ rc == (a ^ rb) ^ (a ^ rc),
        a ^ (rb ^ rc) == rb ^ (a ^ rc),
{
}

/// Multiplying by `x^15` (0x8000) and then by `x` equals multiplying by the
/// reduction polynomial: the defining relation of the generator.
proof fn lemma_gf_mul_top_bit(a: u16)
    ensures
        xtime(gf_mul(a, 0x8000)) == gf_mul(a, 0x100b),
{
    reveal_with_fuel(gf_mul, 17);
    let x1 = xtime(a);
    let x2 = xtime(x1);
    let x3 = xtime(x2);
    let x4 = xtime(x3);
    let x5 = xtime(x4);
    let x6 = xtime(x5);
    let x7 = xtime(x6);
    let x8 = xtime(x7);
    let x9 = xtime(x8);
    let x10 = xtime(x9);
    let x11 = xtime(x10);
    let x12 = xtime(x11);
    let x13 = xtime(x12);
    let x14 = xtime(x13);
    let x15 = xtime(x14);
    lemma_xor(0, 0, 0);
    lemma_xor(x15, 0, 0);
    assert(gf_mul(x15, 1) == x15);
    assert(gf_mul(a, 0x8000) == x15);
    lemma_xor(x12, 0, 0);
    assert(gf_mul(x12, 1) == x12);
    assert(gf_mul(x3, 0x200) == x12);
    assert(gf_mul(x3, 0x201) == x3 ^ x12);
    assert(gf_mul(x1, 0x804) == gf_mul(x3, 0x201));
    assert(gf_mul(x1, 0x805) == x1 ^ (x3 ^ x12));
    assert(gf_mul(a, 0x100b) == a ^ (x1 ^ (x3 ^ x12)));
    lemma_xtime16(a, x1, x2, x3, x4, x5, x6, x7, x8, x9, x10, x11, x12, x13, x14, x15);
    lemma_xor_order4(a, x1, x3, x12);
}

proof fn lemma_xor_order4(a: u16, b: u16, c: u16, d: u16)
    by (bit_vector)
    ensures
        d ^ c ^ b ^ a == a ^ (b ^ (c ^ d)),
{
}

/// `xtime` commutes with multiplication on the right operand.
pub proof fn lemma_gf_mul_xtime_right(a: u16, b: u16)
    ensures
        gf_mul(a, xtime(b)) == xtime(gf_mul(a, b)),
{
    lemma_split_low_bit(b);
    let lo = b & 0x7fffu16;
    // gf_mul(a, lo << 1) == gf_mul(xtime(a), lo)
    assert(gf_mul(a, lo << 1u16) == gf_mul(xtime(a), lo)) by {
        lemma_shl_lo(lo);
        lemma_shr1(lo << 1u16);
        lemma_xor(gf_mul(xtime(a), lo), 0, 0);
    }
    lemma_gf_mul_xtime_left(a, lo);
    if b & 0x8000u16 != 0u16 {
        // xtime(b) == (lo << 1) ^ 0x100b and b == lo ^ 0x8000
        lemma_xtime_split(b);
        lemma_gf_mul_distrib_right(a, lo << 1u16, 0x100b);
        lemma_gf_mul_distrib_right(a, lo, 0x8000);
        lemma_gf_mul_top_bit(a);
        lemma_xtime_linear(gf_mul(a, lo), gf_mul(a, 0x8000));
    } else {
        lemma_xtime_split(b);
    }
}

proof fn lemma_shl_lo(lo: u16)
    by (bit_vector)
    requires
        lo & 0x8000u16 == 0u16,
    ensures
        (lo << 1u16) / 2 == lo,
        (lo << 1u16) % 2 == 0,
        lo << 1u16 == 0u16 ==> lo == 0u16,
{
}

proof fn lemma_xtime_split(b: u16)
    by (bit_vector)
    ensures
        (b & 0x8000u16 != 0u16) ==> xtime(b) == ((b & 0x7fffu16) << 1u16) ^ 0x100bu16,
        (b & 0x8000u16 != 0u16) ==> b == (b & 0x7fffu16) ^ 0x8000u16,
        (b & 0x8000u16 == 0u16) ==> xtime(b) == ((b & 0x7fffu16) << 1u16),
        (b & 0x8000u16 == 0u16) ==> b == (b & 0x7fffu16),
{
}

/// Multiplication by the unit element.
pub proof fn lemma_gf_mul_one_left(a: u16)
    ensures
        gf_mul(1, a) == a,
{
    lemma_gf_mul_comm(1, a);
    lemma_gf_mul_one_right(a);
}

/// Multiplication is commutative.
pub proof fn lemma_gf_mul_comm(a: u16, b: u16)
    ensures
        gf_mul(a, b) == gf_mul(b, a),
    decreases b,
{
    if b == 0 {
        lemma_gf_mul_zero_left(a);
    } else {
        let h = b / 2;
        lemma_shr1(b);
        lemma_gf_mul_comm(a, h);
        lemma_gf_mul_xtime_left(a, h);
        lemma_gf_mul_xtime_left(h, a);
        // b == xtime(h) ^ (b % 2)
        lemma_split_low_bit(b);
        lemma_gf_mul_distrib_left(xtime(h), b % 2, a);
        if b % 2 == 1 {
            lemma_gf_mul_one_right(1);
            lemma_gf_mul_unit_left_bit(a);
            lemma_xor(a, gf_mul(xtime(h), a), 0);
        } else {
            lemma_gf_mul_zero_left(a);
            lemma_xor(gf_mul(xtime(h), a), 0, 0);
        }
    }
}

/// `gf_mul(1, a) == a`, proved directly by induction on `a`.
proof fn lemma_gf_mul_unit_left_bit(a: u16)
    ensures
        gf_mul(1, a) == a,
{
    lemma_pow16_values(0);
    lemma_gf_mul_shift_left(0, a);
    lemma_shift_zero(a);
}

proof fn lemma_shift_zero(a: u16)
    by (bit_vector)
    ensures
        1u16 << 0u16 == 1u16,
        a << 0u16 == a,
{
}

/// For `a < 2^(16-k)`, multiplying `x^k` by `a` is a plain left shift.
proof fn lemma_gf_mul_shift_left(k: u16, a: u16)
    requires
        k < 16,
        (a as int) < pow16(16 - k as int),
    ensures
        gf_mul(1u16 << k, a) == a << k,
    decreases a,
{
    lemma_shift_facts(k, a);
    lemma_shift_combine(k, a);
    if a == 0 {
    } else {
        lemma_shr1(a);
        let one_k = 1u16 << k;
        let rest = gf_mul(xtime(one_k), a / 2);
        assert(gf_mul(one_k, a) == if a % 2 == 1 { one_k ^ rest } else { rest });
        if k < 15 {
            lemma_pow16_half(k, a);
            lemma_gf_mul_shift_left((k + 1) as u16, a / 2);
            assert(rest == (a / 2) << ((k + 1) as u16));
        } else {
            assert(a == 1);
            assert(rest == 0);
            lemma_xor(one_k, 0, 0);
        }
    }
}

spec fn pow16(e: int) -> int
    decreases e,
{
    if e <= 0 {
        1
    } else {
        2 * pow16(e - 1)
    }
}

proof fn lemma_pow16_half(k: u16, a: u16)
    requires
        k < 15,
        (a as int) < pow16(16 - k as int),
    ensures
        ((a / 2) as int) < pow16(16 - (k + 1) as int),
{
    assert(pow16(16 - k as int) == 2 * pow16(16 - (k + 1) as int));
}

proof fn lemma_pow16_values(k: u16)
    requires
        k < 16,
    ensures
        k == 15 ==> pow16(16 - k as int) == 2,
        k == 0 ==> pow16(16 - k as int) == 0x10000,
{
    reveal_with_fuel(pow16, 17);
}

proof fn lemma_shift_facts(k: u16, a: u16)
    requires
        k < 16,
        (a as int) < pow16(16 - k as int),
    ensures
        k < 15 ==> xtime(1u16 << k) == 1u16 << ((k + 1) as u16),
        k == 15 ==> a < 2,
{
    lemma_xtime_pow(k);
    lemma_pow16_values(k);
}

proof fn lemma_xtime_pow(k: u16)
    by (bit_vector)
    requires
        k < 16,
    ensures
        k < 15 ==> xtime(1u16 << k) == 1u16 << ((k + 1) as u16),
{
}

proof fn lemma_shift_combine(k: u16, a: u16)
    by (bit_vector)
    requires
        k < 16,
        k == 15 ==> a < 2,
    ensures
        a % 2 == 1 ==> ((1u16 << k) ^ ((a / 2) << ((k + 1) as u16))) == a << k || k == 15,
        a % 2 == 0 ==> ((a / 2) << ((k + 1) as u16)) == a << k || k == 15,
        (k == 15 && a == 1) ==> (1u16 << k) == a << k,
        0u16 << k == 0u16,
{
}

/// Multiplication is associative.
pub proof fn lemma_gf_mul_assoc(a: u16, b: u16, c: u16)
    ensures
        gf_mul(gf_mul(a, b), c) == gf_mul(a, gf_mul(b, c)),
    decreases c,
{
    if c == 0 {
        lemma_gf_mul_one_right(b);
        lemma_gf_mul_one_right(a);
    } else {
        let h = c / 2;
        lemma_shr1(c);
        lemma_gf_mul_xtime_left(a, b);
        lemma_gf_mul_assoc(xtime(a), b, h);
        lemma_gf_mul_xtime_left(a, gf_mul(b, h));
        lemma_gf_mul_xtime_right(a, gf_mul(b, h));
        lemma_gf_mul_xtime_right(b, h);
        // c == xtime(h) ^ (c % 2)
        lemma_split_low_bit(c);
        lemma_gf_mul_distrib_right(b, xtime(h), c % 2);
        lemma_gf_mul_distrib_right(a, gf_mul(b, xtime(h)), gf_mul(b, c % 2));
        lemma_gf_mul_one_right(b);
        lemma_gf_mul_one_right(a);
        lemma_gf_mul_one_right(gf_mul(a, b));
        let ab = gf_mul(a, b);
        let rest = gf_mul(a, gf_mul(b, xtime(h)));
        if c % 2 == 1 {
            lemma_xor(ab, rest, 0);
        } else {
            lemma_xor(rest, 0, 0);
        }
    }
}

/// Powers add: `a^(m+n) == a^m * a^n`.
pub proof fn lemma_gf_pow_add(a: u16, m: nat, n: nat)
    ensures
        gf_pow(a, m + n) == gf_mul(gf_pow(a, m), gf_pow(a, n)),
    decreases n,
{
    if n == 0 {
        lemma_gf_mul_one_right(gf_pow(a, m));
    } else {
        lemma_gf_pow_add(a, m, (n - 1) as nat);
        assert(gf_pow(a, m + n) == gf_mul(gf_pow(a, (m + n - 1) as nat), a));
        lemma_gf_mul_assoc(gf_pow(a, m), gf_pow(a, (n - 1) as nat), a);
    }
}

/// Squaring halves the exponent: `a^(2k) == (a*a)^k`.
pub proof fn lemma_gf_pow_double(a: u16, k: nat)
    ensures
        gf_pow(a, 2 * k) == gf_pow(gf_mul(a, a), k),
    decreases k,
{
    if k > 0 {
        lemma_gf_pow_double(a, (k - 1) as nat);
        let p = gf_pow(a, (2 * k - 2) as nat);
        assert(gf_pow(a, (2 * k - 1) as nat) == gf_mul(p, a));
        assert(gf_pow(a, 2 * k) == gf_mul(gf_mul(p, a), a));
        lemma_gf_mul_assoc(p, a, a);
    }
}

/// One is a fixed point of every power.
pub proof fn lemma_gf_pow_one(n: nat)
    ensures
        gf_pow(1, n) == 1,
    decreases n,
{
    if n > 0 {
        lemma_gf_pow_one((n - 1) as nat);
        lemma_gf_mul_one_right(1);
    }
}

/// The first power is the element itself.
pub proof fn lemma_gf_pow_1(a: u16)
    ensures
        gf_pow(a, 1) == a,
{
    assert(gf_pow(a, 1) == gf_mul(gf_pow(a, 0), a));
    lemma_gf_mul_one_left(a);
}

/// Powers of a product: `(a*b)^n == a^n * b^n`.
pub proof fn lemma_gf_pow_mul(a: u16, b: u16, n: nat)
    ensures
        gf_pow(gf_mul(a, b), n) == gf_mul(gf_pow(a, n), gf_pow(b, n)),
    decreases n,
{
    if n == 0 {
        lemma_gf_mul_one_right(1);
    } else {
        lemma_gf_pow_mul(a, b, (n - 1) as nat);
        let pa = gf_pow(a, (n - 1) as nat);
        let pb = gf_pow(b, (n - 1) as nat);
        // (pa*pb)*(a*b) == (pa*a)*(pb*b)
        lemma_gf_mul_assoc(gf_mul(pa, pb), a, b);
        lemma_gf_mul_assoc(pa, pb, a);
        lemma_gf_mul_comm(pb, a);
        lemma_gf_mul_assoc(pa, a, pb);
        lemma_gf_mul_assoc(gf_mul(pa, a), pb, b);
    }
}

/// Powers of powers multiply: `(a^m)^n == a^(m*n)`.
pub proof fn lemma_gf_pow_pow(a: u16, m: nat, n: nat)
    ensures
        gf_pow(gf_pow(a, m), n) == gf_pow(a, m * n),
    decreases n,
{
    if n == 0 {
        assert(m * 0 == 0) by (nonlinear_arith);
    } else {
        lemma_gf_pow_pow(a, m, (n - 1) as nat);
        assert(m * n == m * (n - 1) + m) by (nonlinear_arith)
            requires
                n > 0,
        ;
        lemma_gf_pow_add(a, m * (n - 1) as nat, m);
    }
}

/// The antilog sequence consists of the powers of the element `x` (2).
pub proof fn lemma_alog_is_pow(l: nat)
    ensures
        alog(l) == gf_pow(2, l),
    decreases l,
{
    if l > 0 {
        lemma_alog_is_pow((l - 1) as nat);
        lemma_gf_mul_one_right(gf_pow(2, (l - 1) as nat));
    }
}

/// Antilogs add their exponents under multiplication.
pub proof fn lemma_alog_add(m: nat, n: nat)
    ensures
        alog(m + n) == gf_mul(alog(m), alog(n)),
{
    lemma_alog_is_pow(m);
    lemma_alog_is_pow(n);
    lemma_alog_is_pow(m + n);
    lemma_gf_pow_add(2, m, n);
}

/// No power of `x` is zero.
pub proof fn lemma_alog_nonzero(l: nat)
    ensures
        alog(l) != 0,
    decreases l,
{
    if l > 0 {
        lemma_alog_nonzero((l - 1) as nat);
        lemma_xtime_linear(alog((l - 1) as nat), 0);
    }
}

/// When `v` occurs among the first `n` antilogs, `log_upto` finds an
/// exponent that maps back to `v`.
pub proof fn lemma_log_upto_found(v: u16, n: nat, l: nat)
    requires
        l < n,
        alog(l) == v,
    ensures
        alog(log_upto(v, n)) == v,
        log_upto(v, n) < n,
        log_upto(v, n) >= l,
    decreases n,
{
    if alog((n - 1) as nat) != v {
        lemma_log_upto_found(v, (n - 1) as nat, l);
    }
}

/// When the antilogs below `n` are pairwise distinct, `log_upto` inverts them.
pub proof fn lemma_log_upto_inverts(l: nat, n: nat)
    requires
        l < n,
        forall|i: nat, j: nat| i < j < n ==> alog(i) != alog(j),
    ensures
        log_upto(alog(l), n) == l,
{
    lemma_log_upto_found(alog(l), n, l);
    let k = log_upto(alog(l), n);
    if k != l {
        assert(alog(l) != alog(k));
    }
}

/// The repeated squares of `x` and their running products, up to
/// `x^(2^16 - 1)`.
pub(crate) proof fn lemma_x_square_chain()
    by (bit_vector)
    ensures
        gf_mul(0x0002u16, 0x0002u16) == 0x0004u16,
        gf_mul(0x0004u16, 0x0004u16) == 0x0010u16,
        gf_mul(0x0010u16, 0x0010u16) == 0x0100u16,
        gf_mul(0x0100u16, 0x0100u16) == 0x100bu16,
        gf_mul(0x100bu16, 0x100bu16) == 0x1bfeu16,
        gf_mul(0x1bfeu16, 0x1bfeu16) == 0x5c24u16,
        gf_mul(0x5c24u16, 0x5c24u16) == 0xe647u16,
        gf_mul(0xe647u16, 0xe647u16) == 0x0b2fu16,
        gf_mul(0x0b2fu16, 0x0b2fu16) == 0x169eu16,
        gf_mul(0x169eu16, 0x169eu16) == 0x0a78u16,
        gf_mul(0x0a78u16, 0x0a78u16) == 0x1780u16,
        gf_mul(0x1780u16, 0x1780u16) == 0x1b27u16,
        gf_mul(0x1b27u16, 0x1b27u16) == 0x0d65u16,
        gf_mul(0x0d65u16, 0x0d65u16) == 0x564du16,
        gf_mul(0x564du16, 0x564du16) == 0xf0c6u16,
        gf_mul(0x0002u16, 0x0004u16) == 0x0008u16,
        gf_mul(0x0008u16, 0x0010u16) == 0x0080u16,
        gf_mul(0x0080u16, 0x0100u16) == 0x8000u16,
        gf_mul(0x8000u16, 0x100bu16) == 0x0dffu16,
        gf_mul(0x0dffu16, 0x1bfeu16) == 0x2e12u16,
        gf_mul(0x2e12u16, 0x5c24u16) == 0xfb26u16,
        gf_mul(0xfb26u16, 0xe647u16) == 0x8d92u16,
        gf_mul(0x8d92u16, 0x0b2fu16) == 0x0b4fu16,
        gf_mul(0x0b4fu16, 0x169eu16) == 0x053cu16,
        gf_mul(0x053cu16, 0x0a78u16) == 0x0bc0u16,
        gf_mul(0x0bc0u16, 0x1780u16) == 0x8596u16,
        gf_mul(0x8596u16, 0x1b27u16) == 0x8eb7u16,
        gf_mul(0x8eb7u16, 0x0d65u16) == 0xa323u16,
        gf_mul(0xa323u16, 0x564du16) == 0x7863u16,
        gf_mul(0x7863u16, 0xf0c6u16) == 0x0001u16,
{
}

/// `x` to the power `2^16 - 1` is one: the powers of `x` repeat with a
/// period dividing 65535.
pub proof fn lemma_x_pow_65535()
    ensures
        gf_pow(2, 65535) == 1,
{
    lemma_x_square_chain();
    lemma_gf_pow_1(2);
    lemma_gf_pow_add(2, 1, 1);
    lemma_gf_pow_add(2, 1, 2);
    lemma_gf_pow_add(2, 2, 2);
    lemma_gf_pow_add(2, 3, 4);
    lemma_gf_pow_add(2, 4, 4);
    lemma_gf_pow_add(2, 7, 8);
    lemma_gf_pow_add(2, 8, 8);
    lemma_gf_pow_add(2, 15, 16);
    lemma_gf_pow_add(2, 16, 16);
    lemma_gf_pow_add(2, 31, 32);
    lemma_gf_pow_add(2, 32, 32);
    lemma_gf_pow_add(2, 63, 64);
    lemma_gf_pow_add(2, 64, 64);
    lemma_gf_pow_add(2, 127, 128);
    lemma_gf_pow_add(2, 128, 128);
    lemma_gf_pow_add(2, 255, 256);
    lemma_gf_pow_add(2, 256, 256);
    lemma_gf_pow_add(2, 511, 512);
    lemma_gf_pow_add(2, 512, 512);
    lemma_gf_pow_add(2, 1023, 1024);
    lemma_gf_pow_add(2, 1024, 1024);
    lemma_gf_pow_add(2, 2047, 2048);
    lemma_gf_pow_add(2, 2048, 2048);
    lemma_gf_pow_add(2, 4095, 4096);
    lemma_gf_pow_add(2, 4096, 4096);
    lemma_gf_pow_add(2, 8191, 8192);
    lemma_gf_pow_add(2, 8192, 8192);
    lemma_gf_pow_add(2, 16383, 16384);
    lemma_gf_pow_add(2, 16384, 16384);
    lemma_gf_pow_add(2, 32767, 32768);
}

} // verus!
