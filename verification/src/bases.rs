//! The PAR2 base values: one per input block, the antilogs of the
//! successive exponents that are relatively prime to 65535.
use crate::field::antilog_spec;
use crate::galois::{gcd, is_gcd, lemma_gcd_unique, lemma_mod_step, Galois16};
use vstd::prelude::*;

verus! {

/// `x` is relatively prime to 65535 (zero is not).
pub open spec fn coprime_65535(x: nat) -> bool {
    x > 0 && is_gcd(1, 65535, x)
}

/// Distance from `x` to the next number congruent to 1 modulo 65535.
pub open spec fn dist_to_one(x: nat) -> nat {
    let r = x % 65535;
    if r == 0 {
        1
    } else if r == 1 {
        0
    } else {
        (65536 - r) as nat
    }
}

/// Every number congruent to 1 modulo 65535 is relatively prime to it.
pub proof fn lemma_one_mod_coprime(x: nat)
    requires
        x % 65535 == 1,
    ensures
        coprime_65535(x),
{
    assert(x > 0);
    assert(65535nat % 1 == 0);
    assert(x % 1 == 0);
    assert forall|d: nat| d > 0 && #[trigger] (65535nat % d) == 0 && x % d == 0 implies 1nat % d == 0 by {
        let q = x / 65535;
        vstd::arithmetic::div_mod::lemma_fundamental_div_mod(x as int, 65535);
        assert(x == 65535 * q + 1);
        vstd::arithmetic::div_mod::lemma_mul_mod_noop_right(q as int, 65535, d as int);
        assert(((q * 65535) as int) % (d as int) == 0) by {
            assert(((q as int) * (65535nat % d) as int) == 0);
            vstd::arithmetic::div_mod::lemma_small_mod(0, d);
        }
        vstd::arithmetic::div_mod::lemma_add_mod_noop((q * 65535) as int, 1, d as int);
        if d > 1 {
            vstd::arithmetic::div_mod::lemma_small_mod(1, d);
        }
    }
}

/// The least `y >= x` relatively prime to 65535.
pub open spec fn next_coprime(x: nat) -> nat
    decreases dist_to_one(x),
{
    if coprime_65535(x) {
        x
    } else {
        proof {
            if x % 65535 == 1 {
                lemma_one_mod_coprime(x);
            }
            assert((x + 1) % 65535 == if x % 65535 == 65534 { 0 } else { x % 65535 + 1 });
        }
        next_coprime(x + 1)
    }
}

/// The exponent (logbase) used for input block `k`.
pub open spec fn logbase_seq(k: nat) -> nat
    decreases k,
{
    if k == 0 {
        next_coprime(0)
    } else {
        next_coprime(logbase_seq((k - 1) as nat) + 1)
    }
}

/// The base value of input block `k`: the antilog of its logbase taken as a
/// 16-bit index.
pub open spec fn base_value(k: nat) -> u16 {
    antilog_spec(((logbase_seq(k) % 65536) as u16) as nat)
}

/// `next_coprime` finds a coprime number at most 65535 steps away.
pub proof fn lemma_next_coprime(x: nat)
    ensures
        x <= next_coprime(x) <= x + dist_to_one(x),
        coprime_65535(next_coprime(x)),
        forall|z: nat| x <= z < next_coprime(x) ==> !coprime_65535(z),
        dist_to_one(x) <= 65535,
    decreases dist_to_one(x),
{
    if !coprime_65535(x) {
        if x % 65535 == 1 {
            lemma_one_mod_coprime(x);
        }
        assert((x + 1) % 65535 == if x % 65535 == 65534 { 0 } else { x % 65535 + 1 });
        lemma_next_coprime(x + 1);
        assert forall|z: nat| x <= z < next_coprime(x) implies !coprime_65535(z) by {
            if z > x {
            }
        }
    }
}

/// The logbases strictly increase, at most 65536 apart.
pub proof fn lemma_logbase_bound(k: nat)
    ensures
        logbase_seq(k) <= 65535 * (k + 1),
        k > 0 ==> logbase_seq(k) > logbase_seq((k - 1) as nat),
        logbase_seq(k) >= k,
    decreases k,
{
    if k == 0 {
        lemma_next_coprime(0);
    } else {
        lemma_logbase_bound((k - 1) as nat);
        lemma_next_coprime(logbase_seq((k - 1) as nat) + 1);
        assert(65535 * (k + 1) == 65535 * k + 65535) by (nonlinear_arith);
        assert(65535 * ((k - 1) as nat + 1) == 65535 * k) by (nonlinear_arith)
            requires
                k > 0,
        ;
    }
}

/// `gcd(65535, x) == 1` decides relative primality.
proof fn lemma_gcd_decides(x: u32, r: u32)
    requires
        (x == 0) ==> r == 0,
        (x != 0) ==> is_gcd(r as nat, 65535, x as nat),
    ensures
        (r == 1) == coprime_65535(x as nat),
{
    if x != 0 && coprime_65535(x as nat) {
        lemma_gcd_unique(r as nat, 1, 65535, x as nat);
    }
}

/// The least exponent at or above `x` that is relatively prime to 65535.
pub fn next_logbase(x: u32) -> (r: u32)
    requires
        x <= 0xffff_0000u32,
    ensures
        r as nat == next_coprime(x as nat),
{
    let mut logbase = x;
    proof {
        lemma_next_coprime(x as nat);
    }
    let ghost target = next_coprime(x as nat);
    loop
        invariant
            x <= 0xffff_0000u32,
            x <= logbase <= target,
            target == next_coprime(x as nat),
            target <= x + 65535,
            coprime_65535(target),
            forall|z: nat| x <= z < target ==> !coprime_65535(z),
        decreases target - logbase,
    {
        let g = gcd(65535, logbase);
        proof {
            lemma_gcd_decides(logbase, g);
        }
        if g == 1 {
            return logbase;
        }
        assert(logbase < target);
        logbase = logbase + 1;
    }
}

/// Relative primality to 65535 depends only on the remainder modulo 65535.
proof fn lemma_coprime_mod(x: nat)
    ensures
        coprime_65535(x) == coprime_65535(x % 65535),
{
    let r = x % 65535;
    assert forall|d: nat| d > 0 && #[trigger] (65535nat % d) == 0 implies ((x % d == 0) <==> (r % d == 0)) by {
        lemma_mod_step(x, 65535, d);
    }
    if coprime_65535(x) {
        if r == 0 {
            vstd::arithmetic::div_mod::lemma_mod_self_0(65535);
            assert(65535nat % 65535 == 0 && x % 65535 == 0);
            assert(1nat % 65535 == 1);
        }
        assert forall|d: nat| d > 0 && #[trigger] (65535nat % d) == 0 && r % d == 0 implies 1nat % d == 0 by {
            assert(x % d == 0);
        }
        assert(r % 1 == 0);
    }
    if coprime_65535(r) {
        assert forall|d: nat| d > 0 && #[trigger] (65535nat % d) == 0 && x % d == 0 implies 1nat % d == 0 by {
            assert(r % d == 0);
        }
        assert(x % 1 == 0);
        assert(x > 0);
    }
}

/// The base values of the first `count` input blocks.  The logbase is
/// held wide enough that no count of blocks can overflow it.
pub fn generate_base_values(count: usize) -> (bases: Vec<u16>)
    ensures
        bases@.len() == count,
        forall|k: int| 0 <= k < count ==> #[trigger] bases@[k] == base_value(k as nat),
{
    let mut bases: Vec<u16> = Vec::with_capacity(count);
    let mut logbase: u128 = 0;
    let mut k: usize = 0;
    while k < count
        invariant
            k <= count,
            bases@.len() == k,
            logbase as nat == (if k == 0 { 0 } else { logbase_seq((k - 1) as nat) + 1 }),
            forall|j: int| 0 <= j < k ==> #[trigger] bases@[j] == base_value(j as nat),
        decreases count - k,
    {
        let ghost start = logbase as nat;
        proof {
            if k > 0 {
                lemma_logbase_bound((k - 1) as nat);
                assert(65535 * (k as int) <= 65535 * 0x1_0000_0000_0000_0000) by (nonlinear_arith)
                    requires
                        k <= usize::MAX,
                        usize::MAX <= 0xffff_ffff_ffff_ffff,
                ;
            }
            lemma_next_coprime(start);
        }
        let ghost target = next_coprime(start);
        // find the next logbase relatively prime to 65535
        loop
            invariant
                start <= logbase <= target,
                target == next_coprime(start),
                target <= start + 65535,
                start <= 65535 * 0x1_0000_0000_0000_0000nat + 1,
                coprime_65535(target),
                forall|z: nat| start <= z < target ==> !coprime_65535(z),
            ensures
                logbase as nat == target,
            decreases target - logbase,
        {
            let r = (logbase % 65535) as u32;
            let g = gcd(65535, r);
            proof {
                lemma_gcd_decides(r, g);
                lemma_coprime_mod(logbase as nat);
            }
            if g == 1 {
                break;
            }
            assert(logbase < target);
            logbase = logbase + 1;
        }
        let base = Galois16::new((logbase % 65536) as u16).alog();
        bases.push(base);
        proof {
            assert(logbase as nat == logbase_seq(k as nat));
            lemma_logbase_bound(k as nat);
            assert(65535 * (k as int + 1) <= 65535 * 0x1_0000_0000_0000_0000) by (nonlinear_arith)
                requires
                    k < count,
                    count <= usize::MAX,
                    usize::MAX <= 0xffff_ffff_ffff_ffff,
            ;
        }
        logbase = logbase + 1;
        k = k + 1;
    }
    bases
}

/// The logbases are increasing.
pub proof fn lemma_logbase_monotone(i: nat, j: nat)
    requires
        i <= j,
    ensures
        logbase_seq(i) <= logbase_seq(j),
    decreases j,
{
    if i < j {
        lemma_logbase_monotone(i, (j - 1) as nat);
        lemma_logbase_bound(j);
    }
}

} // verus!
