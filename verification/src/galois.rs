//! Galois Field GF(2^16) arithmetic for PAR2 Reed-Solomon operations.
//!
//! The field is built on the PAR2 generator polynomial 0x1100B
//! (x^16 + x^12 + x^3 + x + 1).  Every operation is specified against the
//! polynomial model in `crate::field`.
use crate::field::{
    alog, antilog_spec, gf_mul, gf_pow, lemma_alog_is_pow, lemma_alog_nonzero, lemma_gf_mul_assoc,
    lemma_gf_mul_comm, lemma_gf_mul_one_left, lemma_gf_mul_one_right, lemma_gf_mul_zero_left,
    lemma_gf_pow_1, lemma_gf_pow_add, lemma_gf_pow_double, lemma_shr1, lemma_xor, log_spec,
    log_upto, xtime,
};
use vstd::prelude::*;
use vstd::string::StringExecFns;

verus! {

/// PAR2 GF(2^16) generator polynomial: 0x1100B (x^16 + x^12 + x^3 + x + 1).
pub const GF16_GENERATOR: u32 = 0x1100B;

/// Bits per field element.
pub const BITS: usize = 16;

/// Number of field elements.
pub const COUNT: usize = 65536;

/// Order of the multiplicative group (and the log of zero).
pub const LIMIT: usize = 65535;

/// Multiplies two field elements by shift-and-add over the bits of `b`.
pub fn gf_mul_word(a: u16, b: u16) -> (r: u16)
    ensures
        r == gf_mul(a, b),
{
    let mut input = a;
    let mut coeff = b;
    let mut result: u16 = 0;
    proof {
        lemma_xor(gf_mul(a, b), 0, 0);
    }
    while coeff != 0
        invariant
            result ^ gf_mul(input, coeff) == gf_mul(a, b),
        decreases coeff,
    {
        proof {
            lemma_shr1(coeff);
        }
        let ghost c = coeff;
        let ghost i = input;
        let ghost r0 = result;
        let ghost rest = gf_mul(xtime(i), c / 2);
        if coeff & 1 != 0 {
            result = result ^ input;
        }
        coeff = coeff >> 1;
        if coeff != 0 {
            let carry = input & 0x8000 != 0;
            input = input << 1;
            if carry {
                input = input ^ 0x100b;
            }
        }
        proof {
            if c % 2 == 1 {
                lemma_xor(r0, i, rest);
            }
            if coeff == 0 {
                assert(gf_mul(input, coeff) == 0);
                assert(rest == 0);
            } else {
                assert(input == xtime(i));
            }
        }
    }
    proof {
        lemma_xor(result, 0, 0);
    }
    result
}

/// Raises `a` to the power `e` by square-and-multiply.
pub fn gf_pow_word(a: u16, e: u32) -> (r: u16)
    ensures
        r == gf_pow(a, e as nat),
{
    let mut result: u16 = 1;
    let mut base = a;
    let mut exp = e;
    proof {
        lemma_gf_mul_one_left(gf_pow(a, e as nat));
    }
    while exp > 0
        invariant
            gf_mul(result, gf_pow(base, exp as nat)) == gf_pow(a, e as nat),
        decreases exp,
    {
        let ghost k = (exp / 2) as nat;
        let ghost r0 = result;
        let ghost b0 = base;
        proof {
            lemma_gf_pow_add(b0, 2 * k, (exp % 2) as nat);
            lemma_gf_pow_double(b0, k);
        }
        if exp % 2 == 1 {
            result = gf_mul_word(result, base);
            proof {
                let pk = gf_pow(gf_mul(b0, b0), k);
                lemma_gf_pow_1(b0);
                // r0 * (pk * b0) == (r0 * b0) * pk
                lemma_gf_mul_comm(pk, b0);
                lemma_gf_mul_assoc(r0, b0, pk);
            }
        } else {
            proof {
                lemma_gf_mul_one_right(gf_pow(gf_mul(b0, b0), k));
            }
        }
        base = gf_mul_word(base, base);
        exp = exp / 2;
    }
    proof {
        lemma_gf_mul_one_right(result);
    }
    result
}

/// Multiplicative inverse as the field's own definition gives it:
/// `b^(65534)`, the element that multiplied by `b` yields `b^65535`.
pub open spec fn gf_inv(b: u16) -> u16 {
    gf_pow(b, 65534)
}

/// Field division `a / b`, defined as multiplication by the inverse of `b`.
pub open spec fn gf_div(a: u16, b: u16) -> u16 {
    gf_mul(a, gf_inv(b))
}

/// Galois Field lookup tables for fast arithmetic.
pub struct GaloisTable {
    pub log: Vec<u16>,
    pub antilog: Vec<u16>,
}

impl GaloisTable {
    /// The tables hold the logarithm and antilogarithm of every element.
    pub open spec fn wf(&self) -> bool {
        &&& self.log@.len() == COUNT
        &&& self.antilog@.len() == COUNT
        &&& forall|l: int| 0 <= l < COUNT ==> #[trigger] self.antilog@[l] == antilog_spec(l as nat)
        &&& forall|v: int|
            0 <= v < COUNT ==> #[trigger] self.log@[v] as nat == log_spec(v as u16)
    }

    pub fn new() -> (table: Self)
        ensures
            table.wf(),
    {
        let mut table = GaloisTable { log: vec_of_zeros(COUNT), antilog: vec_of_zeros(COUNT) };
        table.build_tables();
        table
    }

    fn build_tables(&mut self)
        requires
            old(self).log@.len() == COUNT,
            old(self).antilog@.len() == COUNT,
            forall|i: int| 0 <= i < COUNT ==> #[trigger] old(self).log@[i] == 0,
            forall|i: int| 0 <= i < COUNT ==> #[trigger] old(self).antilog@[i] == 0,
        ensures
            final(self).wf(),
    {
        let mut b: u32 = 1;
        let mut l: usize = 0;
        while l < LIMIT
            invariant
                0 <= l <= LIMIT,
                self.log@.len() == COUNT,
                self.antilog@.len() == COUNT,
                b < 65536,
                b as u16 == alog(l as nat),
                forall|i: int| 0 <= i < l ==> #[trigger] self.antilog@[i] == alog(i as nat),
                forall|i: int| l <= i < COUNT ==> #[trigger] self.antilog@[i] == 0,
                forall|v: int|
                    0 < v < COUNT ==> #[trigger] self.log@[v] as nat == log_upto(
                        v as u16,
                        l as nat,
                    ),
                self.log@[0] == 0,
            decreases LIMIT - l,
        {
            proof {
                lemma_alog_nonzero(l as nat);
                lemma_u16_cast_roundtrip(b);
            }
            self.log.set(b as usize, l as u16);
            self.antilog.set(l, b as u16);
            let ghost prev = b;
            b = b << 1;
            if b & (COUNT as u32) != 0 {
                b = b ^ GF16_GENERATOR;
            }
            proof {
                lemma_table_step(prev);
                assert forall|v: int| 0 < v < COUNT implies #[trigger] self.log@[v] as nat
                    == log_upto(v as u16, (l + 1) as nat) by {
                    lemma_u16_int_cast(v);
                    if v == prev as int {
                    } else {
                        assert(alog(l as nat) != v as u16);
                    }
                }
            }
            l = l + 1;
        }
        self.log.set(0, LIMIT as u16);
        self.antilog.set(LIMIT, 0);
        proof {
            assert forall|v: int| 0 <= v < COUNT implies #[trigger] self.log@[v] as nat == log_spec(
                v as u16,
            ) by {
                lemma_u16_int_cast(v);
            }
        }
    }
}

proof fn lemma_u16_cast_roundtrip(b: u32)
    requires
        b < 65536,
    ensures
        (b as u16) as u32 == b,
        (b as u16) as int == b as int,
{
}

proof fn lemma_u16_int_cast(v: int)
    requires
        0 <= v < 65536,
    ensures
        (v as u16) as int == v,
{
}

/// One step of the table builder's generator recurrence matches `xtime`.
proof fn lemma_table_step(b: u32)
    by (bit_vector)
    requires
        b < 65536,
    ensures
        ({
            let s = b << 1u32;
            let n = if s & 65536u32 != 0u32 {
                s ^ 0x1100Bu32
            } else {
                s
            };
            n < 65536 && n as u16 == xtime(b as u16)
        }),
{
}

/// A vector of `n` zero words.
pub fn vec_of_zeros(n: usize) -> (v: Vec<u16>)
    ensures
        v@.len() == n,
        forall|i: int| 0 <= i < n ==> #[trigger] v@[i] == 0,
{
    let mut v: Vec<u16> = Vec::with_capacity(n);
    let mut i: usize = 0;
    while i < n
        invariant
            i <= n,
            v@.len() == i,
            forall|j: int| 0 <= j < i ==> #[trigger] v@[j] == 0,
        decreases n - i,
    {
        v.push(0);
        i = i + 1;
    }
    v
}

/// Galois Field GF(2^16) element.
#[derive(Debug, Clone, Copy, PartialEq, Eq, Structural)]
pub struct Galois16 {
    value: u16,
}

impl View for Galois16 {
    type V = u16;

    closed spec fn view(&self) -> u16 {
        self.value
    }
}

/// The field element whose representation is `v`.
pub closed spec fn galois16_of(v: u16) -> Galois16 {
    Galois16 { value: v }
}

/// An element is determined by its representation.
pub broadcast proof fn lemma_galois16_repr(v: u16)
    ensures
        #[trigger] galois16_of(v)@ == v,
{
}

/// Rebuilding an element from its representation gives it back.
pub broadcast proof fn lemma_galois16_rebuild(a: Galois16)
    ensures
        #[trigger] galois16_of(a@) == a,
{
}

/// Two elements are equal exactly when their representations are.
pub broadcast proof fn lemma_galois16_ext(a: Galois16, b: Galois16)
    ensures
        #![trigger a@, b@]
        (a@ == b@) == (a == b),
{
}

pub broadcast group group_galois16 {
    lemma_galois16_repr,
    lemma_galois16_rebuild,
    lemma_galois16_ext,
}

impl Galois16 {
    /// Create a new Galois16 element.
    pub fn new(value: u16) -> (r: Self)
        ensures
            r@ == value,
    {
        Self { value }
    }

    /// Check if this element is zero.
    pub fn is_zero(self) -> (r: bool)
        ensures
            r == (self@ == 0),
    {
        self.value == 0
    }

    /// Checked division that returns `None` for division by zero.
    pub fn checked_div(self, rhs: Self) -> (r: Option<Self>)
        ensures
            r.is_none() <==> rhs@ == 0,
            r matches Some(q) ==> q@ == gf_div(self@, rhs@),

    {
        if rhs.value == 0 {
            return None;
        }
        if self.value == 0 {
            proof {
                lemma_gf_mul_zero_left(gf_inv(rhs@));
            }
            return Some(Self::new(0));
        }
        let inv = gf_pow_word(rhs.value, 65534);
        Some(Self::new(gf_mul_word(self.value, inv)))
    }

    pub fn value(&self) -> (r: u16)
        ensures
            r == self@,
    {
        self.value
    }

    /// Power operation; zero to any power (even the zeroth) is zero.
    pub fn pow(&self, exponent: u16) -> (r: Self)
        ensures
            r@ == (if self@ == 0 {
                0
            } else {
                gf_pow(self@, exponent as nat)
            }),
    {
        if self.value == 0 {
            return Self::new(0);
        }
        Self::new(gf_pow_word(self.value, exponent as u32))
    }

    /// Logarithm to base `x` (2): what the log table holds for this element.
    pub fn log(&self) -> (r: u16)
        ensures
            r as nat == log_spec(self@),
    {
        if self.value == 0 {
            return LIMIT as u16;
        }
        let mut b: u16 = 1;
        let mut l: u32 = 0;
        let mut found: u16 = 0;
        while l < 65535
            invariant
                l <= 65535,
                b == alog(l as nat),
                found as nat == log_upto(self@, l as nat),
                self@ != 0,
            decreases 65535 - l,
        {
            if b == self.value {
                found = l as u16;
            }
            b = xtime_word(b);
            l = l + 1;
        }
        found
    }

    /// The decimal representation of the element's value.
    pub fn to_string(&self) -> (r: String)
        ensures
            r@ == decimal_spec(self@ as nat),
    {
        let mut s = String::new();
        push_decimal(&mut s, self.value as usize);
        proof {
            assert(s@ =~= decimal_spec(self@ as nat));
        }
        s
    }

    /// Antilogarithm: what the antilog table holds at index `self`.
    pub fn antilog(&self) -> (r: u16)
        ensures
            r == antilog_spec(self@ as nat),
    {
        alog_word(self.value)
    }

    /// Antilogarithm used to derive the base value of each input block.
    pub fn alog(&self) -> (r: u16)
        ensures
            r == antilog_spec(self@ as nat),
    {
        alog_word(self.value)
    }
}

/// Multiplication by `x` on a single word.
pub fn xtime_word(a: u16) -> (r: u16)
    ensures
        r == xtime(a),
{
    if a & 0x8000 != 0 {
        (a << 1) ^ 0x100b
    } else {
        a << 1
    }
}

/// The antilog table entry at index `l`, computed by fast exponentiation.
pub fn alog_word(l: u16) -> (r: u16)
    ensures
        r == antilog_spec(l as nat),
{
    if l as usize == LIMIT {
        return 0;
    }
    proof {
        lemma_alog_is_pow(l as nat);
    }
    gf_pow_word(2, l as u32)
}

/// Addition in GF(2^16) is XOR of the representations.
impl core::ops::Add for Galois16 {
    type Output = Self;

    fn add(self, rhs: Self) -> (r: Self) {
        Self::new(self.value ^ rhs.value)
    }
}

impl vstd::std_specs::ops::AddSpecImpl for Galois16 {
    open spec fn obeys_add_spec() -> bool {
        true
    }

    open spec fn add_req(self, rhs: Self) -> bool {
        true
    }

    open spec fn add_spec(self, rhs: Self) -> Self {
        galois16_of(self@ ^ rhs@)
    }
}

/// Subtraction coincides with addition in characteristic 2.
impl core::ops::Sub for Galois16 {
    type Output = Self;

    fn sub(self, rhs: Self) -> (r: Self) {
        Self::new(self.value ^ rhs.value)
    }
}

impl vstd::std_specs::ops::SubSpecImpl for Galois16 {
    open spec fn obeys_sub_spec() -> bool {
        true
    }

    open spec fn sub_req(self, rhs: Self) -> bool {
        true
    }

    open spec fn sub_spec(self, rhs: Self) -> Self {
        galois16_of(self@ ^ rhs@)
    }
}

/// Field multiplication.
impl core::ops::Mul for Galois16 {
    type Output = Self;

    fn mul(self, rhs: Self) -> (r: Self) {
        Self::new(gf_mul_word(self.value, rhs.value))
    }
}

impl vstd::std_specs::ops::MulSpecImpl for Galois16 {
    open spec fn obeys_mul_spec() -> bool {
        true
    }

    open spec fn mul_req(self, rhs: Self) -> bool {
        true
    }

    open spec fn mul_spec(self, rhs: Self) -> Self {
        galois16_of(gf_mul(self@, rhs@))
    }
}

impl core::ops::AddAssign for Galois16 {
    fn add_assign(&mut self, rhs: Self)
        ensures
            final(self)@ == old(self)@ ^ rhs@,
    {
        self.value = self.value ^ rhs.value;
    }
}

impl core::ops::SubAssign for Galois16 {
    fn sub_assign(&mut self, rhs: Self)
        ensures
            final(self)@ == old(self)@ ^ rhs@,
    {
        self.value = self.value ^ rhs.value;
    }
}

impl core::ops::MulAssign for Galois16 {
    fn mul_assign(&mut self, rhs: Self)
        ensures
            final(self)@ == gf_mul(old(self)@, rhs@),
    {
        self.value = gf_mul_word(self.value, rhs.value);
    }
}

/// In-place division.  A trait method cannot demand a nonzero divisor, so
/// dividing by zero leaves zero (the field division of any element by zero
/// is taken to be zero).
impl core::ops::DivAssign for Galois16 {
    fn div_assign(&mut self, rhs: Self)
        ensures
            final(self)@ == gf_div(old(self)@, rhs@),
    {
        let inv = gf_pow_word(rhs.value, 65534);
        self.value = gf_mul_word(self.value, inv);
    }
}

impl From<u16> for Galois16 {
    fn from(value: u16) -> (r: Self) {
        Self::new(value)
    }
}

impl vstd::std_specs::convert::FromSpecImpl<u16> for Galois16 {
    open spec fn obeys_from_spec() -> bool {
        true
    }

    open spec fn from_spec(v: u16) -> Self {
        galois16_of(v)
    }
}

impl From<Galois16> for u16 {
    fn from(val: Galois16) -> (r: Self) {
        val.value
    }
}

impl vstd::std_specs::convert::FromSpecImpl<Galois16> for u16 {
    open spec fn obeys_from_spec() -> bool {
        true
    }

    open spec fn from_spec(v: Galois16) -> Self {
        v@
    }
}

/// Field division; the divisor must be nonzero.
impl core::ops::Div for Galois16 {
    type Output = Self;

    fn div(self, rhs: Self) -> (r: Self) {
        if self.value == 0 {
            proof {
                lemma_gf_mul_zero_left(gf_inv(rhs@));
            }
            return Self::new(0);
        }
        let inv = gf_pow_word(rhs.value, 65534);
        Self::new(gf_mul_word(self.value, inv))
    }
}

impl vstd::std_specs::ops::DivSpecImpl for Galois16 {
    open spec fn obeys_div_spec() -> bool {
        true
    }

    open spec fn div_req(self, rhs: Self) -> bool {
        rhs@ != 0
    }

    open spec fn div_spec(self, rhs: Self) -> Self {
        galois16_of(gf_div(self@, rhs@))
    }
}

/// `r` is the greatest common divisor of two positive numbers: it divides
/// both, and every common divisor divides it.
pub open spec fn is_gcd(r: nat, a: nat, b: nat) -> bool {
    &&& r > 0
    &&& a % r == 0
    &&& b % r == 0
    &&& forall|d: nat| d > 0 && #[trigger] (a % d) == 0 && b % d == 0 ==> r % d == 0
}

/// GCD as PAR2 base selection uses it: 0 when either argument is 0, otherwise the
/// greatest common divisor.
pub fn gcd(a: u32, b: u32) -> (r: u32)
    ensures
        (a == 0 || b == 0) ==> r == 0,
        (a != 0 && b != 0) ==> is_gcd(r as nat, a as nat, b as nat),
{
    let ghost a0 = a as nat;
    let ghost b0 = b as nat;
    let mut a = a;
    let mut b = b;
    if a != 0 && b != 0 {
        while a != 0 && b != 0
            invariant
                a0 > 0,
                b0 > 0,
                a > 0 || b > 0,
                forall|d: nat|
                    d > 0 ==> ((#[trigger] (a0 % d) == 0 && b0 % d == 0) <==> ((a as nat) % d == 0
                        && (b as nat) % d == 0)),
            decreases a as int + b as int,
        {
            let ghost pa = a as nat;
            let ghost pb = b as nat;
            if a > b {
                a = a % b;
                proof {
                    assert forall|d: nat| d > 0 implies ((#[trigger] (pa % d) == 0 && pb % d == 0) <==> ((a as nat)
                        % d == 0 && pb % d == 0)) by {
                        if pb % d == 0 {
                            lemma_mod_step(pa, pb, d);
                        }
                    }
                }
            } else {
                b = b % a;
                proof {
                    assert forall|d: nat| d > 0 implies ((#[trigger] (pa % d) == 0 && pb % d == 0) <==> (pa % d
                        == 0 && (b as nat) % d == 0)) by {
                        if pa % d == 0 {
                            lemma_mod_step(pb, pa, d);
                        }
                    }
                }
            }
        }
        let r = a + b;
        proof {
            let rn = r as nat;
            assert(rn > 0);
            assert(forall|d: nat|
                    d > 0 ==> ((#[trigger] (a0 % d) == 0 && b0 % d == 0) <==> ((a as nat) % d == 0
                        && (b as nat) % d == 0)));
            let t = a0 % rn;
            vstd::arithmetic::div_mod::lemma_mod_self_0(rn as int);
            assert(0nat % rn == 0) by {
                vstd::arithmetic::div_mod::lemma_small_mod(0, rn);
            }
            assert((a as nat) % rn == 0 && (b as nat) % rn == 0);
            assert(rn > 0 ==> ((a0 % rn == 0 && b0 % rn == 0) <==> ((a as nat) % rn == 0 && (b as nat)
                % rn == 0)));
            assert(a0 % rn == 0 && b0 % rn == 0);
            assert forall|d: nat| d > 0 && #[trigger] (a0 % d) == 0 && b0 % d == 0 implies rn % d
                == 0 by {
                assert((a as nat) % d == 0 && (b as nat) % d == 0);
                vstd::arithmetic::div_mod::lemma_small_mod(0, d);
            }
        }
        r
    } else {
        0
    }
}

/// When `b` is a multiple of `d`, `a` is a multiple of `d` exactly when
/// `a % b` is.
pub(crate) proof fn lemma_mod_step(a: nat, b: nat, d: nat)
    requires
        b > 0,
        d > 0,
        b % d == 0,
    ensures
        (a % d == 0) <==> ((a % b) % d == 0),
{
    let q = a / b;
    let r = a % b;
    vstd::arithmetic::div_mod::lemma_fundamental_div_mod(a as int, b as int);
    vstd::arithmetic::div_mod::lemma_mul_mod_noop_left(b as int, q as int, d as int);
    assert((b % d) * q == 0) by (nonlinear_arith)
        requires
            b % d == 0,
    ;
    vstd::arithmetic::div_mod::lemma_small_mod(0, d);
    vstd::arithmetic::div_mod::lemma_add_mod_noop((b * q) as int, r as int, d as int);
    vstd::arithmetic::div_mod::lemma_mod_twice(r as int, d as int);
}

/// The greatest common divisor is unique.
pub proof fn lemma_gcd_unique(r: nat, s: nat, a: nat, b: nat)
    requires
        is_gcd(r, a, b),
        is_gcd(s, a, b),
    ensures
        r == s,
{
    assert(r % s == 0);
    assert(s % r == 0);
    vstd::arithmetic::div_mod::lemma_fundamental_div_mod(r as int, s as int);
    vstd::arithmetic::div_mod::lemma_fundamental_div_mod(s as int, r as int);
    let k1 = r / s;
    let k2 = s / r;
    assert(r == s * k1);
    assert(s == r * k2);
    if k1 == 0 {
        assert(s * 0 == 0) by (nonlinear_arith);
    }
    if k2 == 0 {
        assert(r * 0 == 0) by (nonlinear_arith);
    }
    assert(r >= s) by (nonlinear_arith)
        requires
            r == s * k1,
            k1 >= 1,
            s > 0,
    ;
    assert(s >= r) by (nonlinear_arith)
        requires
            s == r * k2,
            k2 >= 1,
            r > 0,
    ;
}

/// The greatest common divisor does not depend on the order of the
/// arguments, so `gcd(a, b) == gcd(b, a)`.
pub proof fn lemma_gcd_symmetric(r: nat, s: nat, a: nat, b: nat)
    requires
        is_gcd(r, a, b),
        is_gcd(s, b, a),
    ensures
        r == s,
{
    assert(is_gcd(s, a, b)) by {
        assert forall|d: nat| d > 0 && #[trigger] (a % d) == 0 && b % d == 0 implies s % d == 0 by {
            assert(b % d == 0 && a % d == 0);
        }
    }
    lemma_gcd_unique(r, s, a, b);
}

/// Division undoes multiplication by any element whose 65535-th power is
/// one: `(a * b) / a == b`.
pub proof fn lemma_div_undoes_mul(a: u16, b: u16)
    requires
        gf_pow(a, 65535) == 1,
    ensures
        gf_div(gf_mul(a, b), a) == b,
        gf_div(gf_mul(b, a), a) == b,
{
    let inv = gf_pow(a, 65534);
    assert(gf_pow(a, 65535) == gf_mul(inv, a));
    lemma_gf_mul_assoc(b, a, inv);
    lemma_gf_mul_comm(a, inv);
    lemma_gf_mul_one_right(b);
    lemma_gf_mul_comm(a, b);
}

/// The character of a decimal digit.
pub open spec fn digit_char(d: nat) -> char {
    if d == 0 {
        '0'
    } else if d == 1 {
        '1'
    } else if d == 2 {
        '2'
    } else if d == 3 {
        '3'
    } else if d == 4 {
        '4'
    } else if d == 5 {
        '5'
    } else if d == 6 {
        '6'
    } else if d == 7 {
        '7'
    } else if d == 8 {
        '8'
    } else {
        '9'
    }
}

/// The decimal digits of `n`, most significant first, without leading
/// zeros (zero is the single digit `0`).
pub open spec fn decimal_spec(n: nat) -> Seq<char>
    decreases n,
{
    if n < 10 {
        seq![digit_char(n)]
    } else {
        decimal_spec(n / 10) + seq![digit_char(n % 10)]
    }
}

/// The one-character string of a decimal digit.
fn digit_str(d: u16) -> (s: &'static str)
    requires
        d < 10,
    ensures
        s@ == seq![digit_char(d as nat)],
{
    if d == 0 {
        proof { reveal_strlit("0"); }
        "0"
    } else if d == 1 {
        proof { reveal_strlit("1"); }
        "1"
    } else if d == 2 {
        proof { reveal_strlit("2"); }
        "2"
    } else if d == 3 {
        proof { reveal_strlit("3"); }
        "3"
    } else if d == 4 {
        proof { reveal_strlit("4"); }
        "4"
    } else if d == 5 {
        proof { reveal_strlit("5"); }
        "5"
    } else if d == 6 {
        proof { reveal_strlit("6"); }
        "6"
    } else if d == 7 {
        proof { reveal_strlit("7"); }
        "7"
    } else if d == 8 {
        proof { reveal_strlit("8"); }
        "8"
    } else {
        proof { reveal_strlit("9"); }
        "9"
    }
}

/// Append the decimal digits of `n`.
pub fn push_decimal(s: &mut String, n: usize)
    ensures
        final(s)@ == old(s)@ + decimal_spec(n as nat),
    decreases n,
{
    if n >= 10 {
        push_decimal(s, n / 10);
    }
    s.append(digit_str((n % 10) as u16));
    proof {
        assert(s@ =~= old(s)@ + decimal_spec(n as nat));
    }
}

} // verus!
