//! Reconstruction state that pairs a configuration with the recovery
//! slices and the constants of the input slices.
use crate::field::gf_mul;
use crate::field::gf_pow;
use crate::fxmap::{index_map_get, slice_map_get, slice_map_insert, slice_map_keys, slice_map_new, IndexMap, SliceMap};
use crate::galois::{decimal_spec, gf_inv, gf_mul_word, gf_pow_word, push_decimal};
use crate::reedsolomon::engine::RecoverySlicePacket;
use crate::reedsolomon::recover::ReconstructionResult;
use crate::types::ReconstructionConfig;
use vstd::prelude::*;
use vstd::string::StringExecFns;

verus! {

/// Euclid's algorithm on 16-bit values.
pub open spec fn gcd16_spec(a: u16, b: u16) -> u16
    decreases b,
{
    if b == 0 {
        a
    } else {
        gcd16_spec(b, a % b)
    }
}

/// Greatest common divisor by Euclid's algorithm.
pub fn gcd16(a: u16, b: u16) -> (r: u16)
    ensures
        r == gcd16_spec(a, b),
    decreases b,
{
    if b == 0 {
        a
    } else {
        gcd16(b, a % b)
    }
}

/// The standard PAR2 input constants used first.
pub open spec fn base_table() -> Seq<u16> {
    seq![
        2u16, 4, 7, 8, 11, 13, 14, 16, 19, 22, 26, 28, 31, 32, 37, 38, 41, 44, 47, 52,
        56, 59, 62, 64, 67, 74, 76, 79, 82, 88, 91, 94, 103, 104, 107, 112, 118, 124,
        127, 128, 131, 134, 137, 143, 148, 151, 152, 157, 158, 164, 167, 172, 176, 182,
        188, 191, 194, 199, 206, 208, 211, 224, 227, 229, 233, 236, 241, 248, 254, 256,
    ]
}

/// The values in `lo..hi` whose Euclid gcd with 65535 is one, in order.
pub open spec fn coprimes_between(lo: nat, hi: nat) -> Seq<u16>
    decreases hi,
{
    if hi <= lo {
        Seq::empty()
    } else if gcd16_spec(65535, (hi - 1) as u16) == 1 {
        coprimes_between(lo, (hi - 1) as nat).push((hi - 1) as u16)
    } else {
        coprimes_between(lo, (hi - 1) as nat)
    }
}

/// How many constants are produced for `count` input slices: the table
/// covers the first 70; beyond it the values coprime to 65535 in
/// `257..=32000` follow, and no more than 1000 are produced.
pub open spec fn constants_len(count: nat) -> nat {
    if count <= 70 {
        count
    } else {
        vstd::math::min(vstd::math::min(count as int, 1000), 70 + coprimes_between(257, 32001).len() as int) as nat
    }
}

/// The constants produced for `count` input slices.
pub open spec fn input_constants_spec(count: nat) -> Seq<u16> {
    (base_table() + coprimes_between(257, 32001)).take(constants_len(count) as int)
}

/// `t` increases from position `k` to its end.
spec fn increasing_from(t: Seq<u16>, k: nat) -> bool
    decreases t.len() - k,
{
    if k + 1 >= t.len() {
        true
    } else {
        t[k as int] < t[k as int + 1] && increasing_from(t, k + 1)
    }
}

/// A sequence that increases step by step increases between any two
/// positions.
proof fn lemma_increasing_from(t: Seq<u16>, k: nat)
    requires
        increasing_from(t, k),
    ensures
        forall|i: int, j: int| k <= i < j < t.len() ==> #[trigger] t[i] < #[trigger] t[j],
    decreases t.len() - k,
{
    if k + 1 < t.len() {
        lemma_increasing_from(t, k + 1);
        assert forall|i: int, j: int| k <= i < j < t.len() implies #[trigger] t[i] < #[trigger] t[j] by {
            if i == k && j > k + 1 {
                assert(t[k as int + 1] < t[j]);
            }
        }
    }
}

/// The table is strictly increasing and ends with 256.
proof fn lemma_table_sorted()
    ensures
        base_table().len() == 70,
        forall|i: int, j: int| 0 <= i < j < 70 ==> #[trigger] base_table()[i] < #[trigger] base_table()[j],
        forall|i: int| 0 <= i < 70 ==> #[trigger] base_table()[i] <= 256,
{
    let t = base_table();
    assert(increasing_from(t, 0)) by {
        reveal_with_fuel(increasing_from, 71);
    }
    lemma_increasing_from(t, 0);
    assert(t[69] == 256);
    assert forall|i: int| 0 <= i < 70 implies #[trigger] t[i] <= 256 by {
        if i < 69 {
            assert(t[i] < t[69]);
        }
    }
}

/// The values coprime to 65535 in `lo..hi` come in increasing order, each
/// in `lo..hi` and coprime to 65535.
proof fn lemma_coprimes_sorted(lo: nat, hi: nat)
    requires
        hi <= 65536,
    ensures
        forall|i: int, j: int| 0 <= i < j < coprimes_between(lo, hi).len() ==>
            #[trigger] coprimes_between(lo, hi)[i] < #[trigger] coprimes_between(lo, hi)[j],
        forall|i: int| 0 <= i < coprimes_between(lo, hi).len() ==> lo <= #[trigger] coprimes_between(lo, hi)[i] < hi
            && gcd16_spec(65535, coprimes_between(lo, hi)[i]) == 1,
    decreases hi,
{
    if hi > lo {
        let prev = coprimes_between(lo, (hi - 1) as nat);
        lemma_coprimes_sorted(lo, (hi - 1) as nat);
        let x = (hi - 1) as u16;
        assert(x == hi - 1);
        if gcd16_spec(65535, x) == 1 {
            let cur = prev.push(x);
            assert(coprimes_between(lo, hi) == cur);
            assert forall|i: int, j: int| 0 <= i < j < cur.len() implies #[trigger] cur[i] < #[trigger] cur[j] by {
                if j < prev.len() {
                    assert(cur[i] == prev[i] && cur[j] == prev[j]);
                } else {
                    assert(cur[i] == prev[i]);
                }
            }
            assert forall|i: int| 0 <= i < cur.len() implies lo <= #[trigger] cur[i] < hi && gcd16_spec(65535, cur[i]) == 1 by {
                if i < prev.len() {
                    assert(cur[i] == prev[i]);
                }
            }
        }
    }
}

/// Every value in `lo..hi` coprime to 65535 is among `coprimes_between(lo, hi)`.
proof fn lemma_coprimes_complete(lo: nat, hi: nat, v: u16)
    requires
        hi <= 65536,
        lo <= v < hi,
        gcd16_spec(65535, v) == 1,
    ensures
        coprimes_between(lo, hi).contains(v),
    decreases hi,
{
    let prev = coprimes_between(lo, (hi - 1) as nat);
    if v == hi - 1 {
        assert((hi - 1) as u16 == v);
        assert(coprimes_between(lo, hi) == prev.push(v));
        assert(coprimes_between(lo, hi)[prev.len() as int] == v);
    } else {
        lemma_coprimes_complete(lo, (hi - 1) as nat, v);
        let q = choose|q: int| 0 <= q < prev.len() && prev[q] == v;
        if gcd16_spec(65535, (hi - 1) as u16) == 1 {
            assert(coprimes_between(lo, hi)[q] == prev.push((hi - 1) as u16)[q]);
        }
        assert(coprimes_between(lo, hi)[q] == v);
    }
}

/// No constant past the table skips a value coprime to 65535: every such
/// value from 257 up to the last constant is one of the constants.
pub proof fn lemma_input_constants_complete(count: nat, v: u16)
    requires
        input_constants_spec(count).len() > 70,
        257 <= v <= input_constants_spec(count)[input_constants_spec(count).len() - 1],
        gcd16_spec(65535, v) == 1,
    ensures
        exists|i: int| 70 <= i < input_constants_spec(count).len() && #[trigger] input_constants_spec(count)[i] == v,
{
    let s = input_constants_spec(count);
    let c = coprimes_between(257, 32001);
    let t = base_table();
    let n = s.len();
    lemma_coprimes_sorted(257, 32001);
    assert(t.len() == 70);
    assert(s[n - 1] == (t + c)[n - 1]);
    assert(s[n - 1] == c[n - 71]);
    assert(v < 32001);
    lemma_coprimes_complete(257, 32001, v);
    let q = choose|q: int| 0 <= q < c.len() && c[q] == v;
    if q > n - 71 {
        assert(c[n - 71] < c[q]);
    }
    assert(s[70 + q] == (t + c)[70 + q]);
    assert(s[70 + q] == v);
}

/// The input constants are strictly increasing, so no two input slices
/// share a constant.  They begin with the table, and every constant past
/// the table lies in `257..=32000` and is coprime to 65535.
pub proof fn lemma_input_constants_distinct(count: nat)
    ensures
        forall|i: int, j: int| 0 <= i < j < input_constants_spec(count).len() ==>
            #[trigger] input_constants_spec(count)[i] < #[trigger] input_constants_spec(count)[j],
        forall|i: int| 0 <= i < input_constants_spec(count).len() && i < 70 ==>
            #[trigger] input_constants_spec(count)[i] == base_table()[i],
        forall|i: int| 70 <= i < input_constants_spec(count).len() ==>
            257 <= #[trigger] input_constants_spec(count)[i] <= 32000
            && gcd16_spec(65535, input_constants_spec(count)[i]) == 1,
{
    lemma_table_sorted();
    lemma_coprimes_sorted(257, 32001);
    let t = base_table();
    let c = coprimes_between(257, 32001);
    let all = t + c;
    let s = input_constants_spec(count);
    assert(s.len() <= all.len());
    assert forall|i: int| 0 <= i < s.len() implies #[trigger] s[i] == all[i] by {}
    assert forall|i: int, j: int| 0 <= i < j < s.len() implies #[trigger] s[i] < #[trigger] s[j] by {
        assert(s[i] == all[i] && s[j] == all[j]);
        if j < 70 {
            assert(all[i] == t[i] && all[j] == t[j]);
        } else if i < 70 {
            assert(all[i] == t[i] && all[j] == c[j - 70]);
            assert(t[i] <= 256);
        } else {
            assert(all[i] == c[i - 70] && all[j] == c[j - 70]);
        }
    }
    assert forall|i: int| 70 <= i < s.len() implies 257 <= #[trigger] s[i] <= 32000 && gcd16_spec(65535, s[i]) == 1 by {
        assert(s[i] == all[i]);
        assert(all[i] == c[i - 70]);
    }
}

fn base_table_vec() -> (v: Vec<u16>)
    ensures
        v@ == base_table(),
{
    let v: Vec<u16> = vec![
        2u16, 4, 7, 8, 11, 13, 14, 16, 19, 22, 26, 28, 31, 32, 37, 38, 41, 44, 47, 52,
        56, 59, 62, 64, 67, 74, 76, 79, 82, 88, 91, 94, 103, 104, 107, 112, 118, 124,
        127, 128, 131, 134, 137, 143, 148, 151, 152, 157, 158, 164, 167, 172, 176, 182,
        188, 191, 194, 199, 206, 208, 211, 224, 227, 229, 233, 236, 241, 248, 254, 256,
    ];
    assert(v@ =~= base_table());
    v
}

/// The PAR2 input constants (base values) for `count` input slices.
pub fn generate_input_constants(count: usize) -> (constants: Vec<u16>)
    ensures
        constants@ == input_constants_spec(count as nat),
        forall|i: int, j: int| 0 <= i < j < constants@.len() ==> #[trigger] constants@[i] < #[trigger] constants@[j],
        forall|i: int| 70 <= i < constants@.len() ==> 257 <= #[trigger] constants@[i] <= 32000,
{
    proof {
        lemma_input_constants_distinct(count as nat);
    }
    let table = base_table_vec();
    if count <= 70 {
        let mut out: Vec<u16> = Vec::with_capacity(count);
        let mut i: usize = 0;
        while i < count
            invariant
                count <= 70,
                table@ == base_table(),
                i <= count,
                out@ == base_table().take(i as int),
            decreases count - i,
        {
            out.push(table[i]);
            proof {
                assert(out@ =~= base_table().take(i as int + 1));
            }
            i = i + 1;
        }
        proof {
            assert((base_table() + coprimes_between(257, 32001)).take(count as int) =~= base_table().take(count as int));
        }
        return out;
    }
    let mut constants = table;
    let mut logbase: u16 = 257;
    let ghost all = base_table() + coprimes_between(257, 32001);
    proof {
        lemma_coprimes_prefix(257, 257, 32001);
        assert(constants@ =~= base_table() + coprimes_between(257, 257));
        assert(constants@ =~= all.take(70));
    }
    loop
        invariant
            count > 70,
            257 <= logbase <= 32001,
            constants@ == base_table() + coprimes_between(257, logbase as nat),
            all == base_table() + coprimes_between(257, 32001),
            constants@.len() <= vstd::math::min(count as int, 1000),
            constants@ == all.take(constants@.len() as int),
            coprimes_between(257, logbase as nat).len() <= coprimes_between(257, 32001).len(),
        ensures
            constants@.len() >= count || constants@.len() >= 1000 || logbase > 32000,
            257 <= logbase <= 32001,
            constants@ == base_table() + coprimes_between(257, logbase as nat),
            constants@.len() <= vstd::math::min(count as int, 1000),
            coprimes_between(257, logbase as nat).len() <= coprimes_between(257, 32001).len(),
        decreases 32001 - logbase,
    {
        if !(constants.len() < count && constants.len() < 1000) {
            break;
        }
        if logbase > 32000 {
            break;
        }
        proof {
            lemma_coprimes_prefix(257, logbase as nat, 32001);
        }
        if gcd16(65535, logbase) == 1 {
            constants.push(logbase);
        }
        logbase = logbase + 1;
        proof {
            assert(coprimes_between(257, logbase as nat) == (if gcd16_spec(65535, (logbase - 1) as u16) == 1 {
                coprimes_between(257, (logbase - 1) as nat).push((logbase - 1) as u16)
            } else {
                coprimes_between(257, (logbase - 1) as nat)
            }));
            lemma_coprimes_prefix(257, logbase as nat, 32001);
            assert(constants@ =~= base_table() + coprimes_between(257, logbase as nat));
            assert(constants@ =~= all.take(constants@.len() as int));
        }
    }
    proof {
        assert(base_table().len() == 70);
        assert(constants@.len() == 70 + coprimes_between(257, logbase as nat).len());
        if logbase > 32000 {
            assert(constants@ =~= all);
        } else {
            assert(constants@.len() == vstd::math::min(count as int, 1000));
        }
        assert(constants@.len() == constants_len(count as nat));
        assert(constants@ =~= input_constants_spec(count as nat));
        lemma_input_constants_distinct(count as nat);
    }
    constants
}

/// The values coprime in `lo..m` are a prefix of those in `lo..n`.
proof fn lemma_coprimes_prefix(lo: nat, m: nat, n: nat)
    requires
        lo <= m <= n,
    ensures
        coprimes_between(lo, m) == coprimes_between(lo, n).take(coprimes_between(lo, m).len() as int),
        coprimes_between(lo, m).len() <= coprimes_between(lo, n).len(),
    decreases n - m,
{
    if m < n {
        lemma_coprimes_prefix(lo, m, (n - 1) as nat);
        let a = coprimes_between(lo, (n - 1) as nat);
        assert(coprimes_between(lo, n).take(a.len() as int) =~= a);
        assert(coprimes_between(lo, n).take(coprimes_between(lo, m).len() as int) =~= a.take(coprimes_between(lo, m).len() as int));
    } else {
        assert(coprimes_between(lo, n).take(coprimes_between(lo, n).len() as int) =~= coprimes_between(lo, n));
    }
}

/// PAR2 reconstruction state: configuration, recovery slices and the
/// constants of the input slices.
pub struct Par2ReedSolomon {
    pub config: ReconstructionConfig,
    pub recovery_slices: Vec<RecoverySlicePacket>,
    pub input_constants: Vec<u16>,
}

impl Par2ReedSolomon {
    /// Create the state with constants for at most 100 input slices.
    pub fn new(config: ReconstructionConfig, recovery_slices: Vec<RecoverySlicePacket>) -> (p: Self)
        ensures
            p.config == config,
            p.recovery_slices@ == recovery_slices@,
            p.input_constants@ == input_constants_spec(vstd::math::min(config.total_input_slices as int, 100) as nat),
    {
        let needed = if config.total_input_slices < 100 {
            config.total_input_slices
        } else {
            100
        };
        let input_constants = generate_input_constants(needed);
        Self { config, recovery_slices, input_constants }
    }

    /// The exponents of the recovery slices, in order.
    pub fn get_recovery_exponents(&self) -> (e: Vec<u32>)
        ensures
            e@ == Seq::new(self.recovery_slices@.len(), |i: int| self.recovery_slices@[i].exponent),
    {
        let mut e: Vec<u32> = Vec::with_capacity(self.recovery_slices.len());
        let mut i: usize = 0;
        while i < self.recovery_slices.len()
            invariant
                i <= self.recovery_slices@.len(),
                e@ == Seq::new(i as nat, |k: int| self.recovery_slices@[k].exponent),
            decreases self.recovery_slices@.len() - i,
        {
            e.push(self.recovery_slices[i].exponent);
            proof {
                assert(e@ =~= Seq::new(i as nat + 1, |k: int| self.recovery_slices@[k].exponent));
            }
            i = i + 1;
        }
        e
    }
}

/// The term that present slice `k` removes from byte `i`: its data byte
/// times its constant raised to `e`, cut to a byte; zero for a slice that
/// the map does not place, that is the target itself, or that has no
/// constant or no byte `i`.
pub open spec fn present_byte_term(
    p: &Par2ReedSolomon,
    existing: Map<usize, Vec<u8>>,
    gmap: Map<usize, usize>,
    target: usize,
    e: u32,
    k: usize,
    i: int,
) -> u8 {
    if gmap.contains_key(k) && gmap[k] != target && gmap[k] < p.input_constants@.len() && i < existing[k]@.len() {
        #[verifier::truncate] (gf_mul(gf_pow(p.input_constants@[gmap[k] as int], e as nat), existing[k]@[i] as u16) as u8)
    } else {
        0
    }
}

/// The terms of the first `m` keys of `ks` for byte `i`, XORed together.
pub open spec fn present_terms(
    p: &Par2ReedSolomon,
    existing: Map<usize, Vec<u8>>,
    gmap: Map<usize, usize>,
    ks: Seq<usize>,
    target: usize,
    e: u32,
    i: int,
    m: nat,
) -> u8
    decreases m,
{
    if m == 0 {
        0
    } else {
        present_terms(p, existing, gmap, ks, target, e, i, (m - 1) as nat) ^ present_byte_term(p, existing, gmap, target, e, ks[m - 1], i)
    }
}

/// The slice that one recovery slice (the first) gives for the slice at
/// global index `target`: each byte of the recovery data within the slice
/// size, with the present slices' terms removed, divided by the target's
/// coefficient; zero beyond the recovery data.
pub open spec fn single_slice_spec(
    p: &Par2ReedSolomon,
    existing: Map<usize, Vec<u8>>,
    gmap: Map<usize, usize>,
    ks: Seq<usize>,
    target: usize,
) -> Seq<u8> {
    let r = p.recovery_slices@[0];
    let e = r.exponent;
    let copy_len = vstd::math::min(p.config.slice_size as int, r.recovery_data@.len() as int);
    let coeff = gf_pow(p.input_constants@[target as int], e as nat);
    Seq::new(p.config.slice_size as nat, |i: int|
        if i < copy_len {
            #[verifier::truncate] (gf_mul(gf_inv(coeff), (r.recovery_data@[i] ^ present_terms(p, existing, gmap, ks, target, e, i, ks.len())) as u16) as u8)
        } else {
            0u8
        })
}

/// Rebuilding divides by the target's coefficient: at every byte within
/// the slice size and the recovery data, when the recovery byte less the
/// present slices' terms is the target's coefficient (its constant raised
/// to the recovery exponent) times a byte `b`, the rebuilt byte is `b`.
/// So for recovery data made as the XOR of every slice times its
/// coefficient, the rebuilt slice is the missing slice's data.
pub proof fn lemma_single_slice_divides(
    p: &Par2ReedSolomon,
    existing: Map<usize, Vec<u8>>,
    gmap: Map<usize, usize>,
    ks: Seq<usize>,
    target: usize,
    i: int,
    b: u8,
)
    requires
        p.recovery_slices@.len() > 0,
        target < p.input_constants@.len(),
        gf_pow(p.input_constants@[target as int], p.recovery_slices@[0].exponent as nat) != 0,
        0 <= i < p.config.slice_size,
        i < p.recovery_slices@[0].recovery_data@.len(),
        gf_mul(gf_pow(p.input_constants@[target as int], p.recovery_slices@[0].exponent as nat), b as u16)
            == ((p.recovery_slices@[0].recovery_data@[i] ^ present_terms(p, existing, gmap, ks, target,
                p.recovery_slices@[0].exponent, i, ks.len())) as u16),
    ensures
        single_slice_spec(p, existing, gmap, ks, target)[i] == b,
{
    let coeff = gf_pow(p.input_constants@[target as int], p.recovery_slices@[0].exponent as nat);
    let x = gf_mul(coeff, b as u16);
    crate::generator::lemma_div_inverts_mul(b as u16, coeff);
    crate::field::lemma_gf_mul_comm(coeff, b as u16);
    crate::field::lemma_gf_mul_comm(x, gf_inv(coeff));
    assert(gf_mul(gf_inv(coeff), x) == b as u16);
    assert(((b as u16) as u8) == b);
}

/// The rebuilt slice has the slice size, and its bytes past the recovery
/// data are zero.
pub proof fn lemma_single_slice_shape(p: &Par2ReedSolomon, existing: Map<usize, Vec<u8>>, gmap: Map<usize, usize>, ks: Seq<usize>, target: usize)
    requires
        p.recovery_slices@.len() > 0,
    ensures
        single_slice_spec(p, existing, gmap, ks, target).len() == p.config.slice_size,
        forall|i: int| p.recovery_slices@[0].recovery_data@.len() <= i < p.config.slice_size ==>
            #[trigger] single_slice_spec(p, existing, gmap, ks, target)[i] == 0,
{
}

/// Byte `i` of the parity that the first `m` slices of `ks` give with
/// exponent `e`: the XOR of each slice's byte `i` times its constant (the
/// one at its global index) raised to `e`, each product cut to a byte.
pub open spec fn slices_parity(p: &Par2ReedSolomon, existing: Map<usize, Vec<u8>>, gmap: Map<usize, usize>, ks: Seq<usize>, e: u32, i: int, m: nat) -> u8
    decreases m,
{
    if m == 0 {
        0
    } else {
        let k = ks[m - 1];
        slices_parity(p, existing, gmap, ks, e, i, (m - 1) as nat)
            ^ (#[verifier::truncate] (gf_mul(gf_pow(p.input_constants@[gmap[k] as int], e as nat), existing[k]@[i] as u16) as u8))
    }
}

/// When every present slice is placed by the map at a global index other
/// than the target's, has a constant and has byte `i`, the terms removed
/// from byte `i` are exactly those slices' parity.
proof fn lemma_present_terms_are_parity(p: &Par2ReedSolomon, existing: Map<usize, Vec<u8>>, gmap: Map<usize, usize>, ks: Seq<usize>, target: usize, e: u32, i: int, m: nat)
    requires
        m <= ks.len(),
        forall|j: int| 0 <= j < ks.len() ==> #[trigger] gmap.contains_key(ks[j]) && gmap[ks[j]] != target
            && gmap[ks[j]] < p.input_constants@.len() && i < existing[ks[j]]@.len(),
    ensures
        present_terms(p, existing, gmap, ks, target, e, i, m) == slices_parity(p, existing, gmap, ks, e, i, m),
    decreases m,
{
    if m > 0 {
        lemma_present_terms_are_parity(p, existing, gmap, ks, target, e, i, (m - 1) as nat);
        assert(gmap.contains_key(ks[m - 1]));
    }
}

/// Rebuilding gives the missing slice back: when every present slice is
/// placed at a global index other than the target's, has a constant and
/// has byte `i`, and the recovery byte is their parity XOR the target's
/// coefficient times a byte `b` (a product that fits in a byte), the
/// rebuilt byte is `b`.
pub proof fn lemma_single_slice_rebuilds(
    p: &Par2ReedSolomon,
    existing: Map<usize, Vec<u8>>,
    gmap: Map<usize, usize>,
    ks: Seq<usize>,
    target: usize,
    i: int,
    b: u8,
)
    requires
        p.recovery_slices@.len() > 0,
        target < p.input_constants@.len(),
        gf_pow(p.input_constants@[target as int], p.recovery_slices@[0].exponent as nat) != 0,
        0 <= i < p.config.slice_size,
        i < p.recovery_slices@[0].recovery_data@.len(),
        forall|j: int| 0 <= j < ks.len() ==> #[trigger] gmap.contains_key(ks[j]) && gmap[ks[j]] != target
            && gmap[ks[j]] < p.input_constants@.len() && i < existing[ks[j]]@.len(),
        gf_mul(gf_pow(p.input_constants@[target as int], p.recovery_slices@[0].exponent as nat), b as u16) < 256,
        p.recovery_slices@[0].recovery_data@[i] == slices_parity(p, existing, gmap, ks, p.recovery_slices@[0].exponent, i, ks.len())
            ^ (gf_mul(gf_pow(p.input_constants@[target as int], p.recovery_slices@[0].exponent as nat), b as u16) as u8),
    ensures
        single_slice_spec(p, existing, gmap, ks, target)[i] == b,
{
    let e = p.recovery_slices@[0].exponent;
    let coeff = gf_pow(p.input_constants@[target as int], e as nat);
    let x = gf_mul(coeff, b as u16);
    let par = slices_parity(p, existing, gmap, ks, e, i, ks.len());
    lemma_present_terms_are_parity(p, existing, gmap, ks, target, e, i, ks.len());
    let y = x as u8;
    crate::xor_jit::lemma_xor_u8(par, y, par);
    crate::xor_jit::lemma_xor_u8(y, par, 0);
    crate::xor_jit::lemma_xor_u8(par, par, y);
    crate::xor_jit::lemma_xor_u8(y, 0, 0);
    crate::xor_jit::lemma_xor_u8(0, y, 0);
    assert((par ^ y) ^ par == y);
    assert((y as u16) == x);
    lemma_single_slice_divides(p, existing, gmap, ks, target, i, b);
}

/// The message for a target without a constant.
pub open spec fn out_of_range_text(g: nat, n: nat) -> Seq<char> {
    "Missing slice global index "@ + decimal_spec(g) + " out of range (have "@ + decimal_spec(n) + " constants)"@
}

/// The message for too many missing slices.
pub open spec fn not_feasible_text(n: nat, max: nat) -> Seq<char> {
    "Reconstruction not feasible: "@ + decimal_spec(n) + " missing slices, max parity: "@ + decimal_spec(max)
}

impl Par2ReedSolomon {
    /// Rebuild one missing slice from the first recovery slice alone: the
    /// recovery data, less every present slice's term, divided by the
    /// missing slice's coefficient.
    pub fn reconstruct_single_slice(&self, existing_slices: &SliceMap, missing_slice_index: usize, global_slice_map: &IndexMap) -> (r: Result<Vec<u8>, String>)
        ensures
            !global_slice_map@.contains_key(missing_slice_index) ==> (r matches Err(m) && m@ == "Missing slice not found in global slice map"@),
            global_slice_map@.contains_key(missing_slice_index) && self.recovery_slices@.len() == 0 ==>
                (r matches Err(m) && m@ == "No recovery slices available"@),
            global_slice_map@.contains_key(missing_slice_index) && self.recovery_slices@.len() > 0
                && global_slice_map@[missing_slice_index] >= self.input_constants@.len() ==>
                (r matches Err(m) && m@ == out_of_range_text(global_slice_map@[missing_slice_index] as nat, self.input_constants@.len())),
            global_slice_map@.contains_key(missing_slice_index) && self.recovery_slices@.len() > 0
                && global_slice_map@[missing_slice_index] < self.input_constants@.len()
                && gf_pow(self.input_constants@[global_slice_map@[missing_slice_index] as int], self.recovery_slices@[0].exponent as nat) == 0 ==>
                (r matches Err(m) && m@ == "Zero coefficient for target slice - cannot reconstruct"@),
            r is Ok <==> (global_slice_map@.contains_key(missing_slice_index) && self.recovery_slices@.len() > 0
                && global_slice_map@[missing_slice_index] < self.input_constants@.len()
                && gf_pow(self.input_constants@[global_slice_map@[missing_slice_index] as int], self.recovery_slices@[0].exponent as nat) != 0),
            r matches Ok(v) ==> exists|ks: Seq<usize>| #![trigger ks.to_set()]
                ks.no_duplicates() && ks.to_set() == existing_slices@.dom()
                && v@ == single_slice_spec(self, existing_slices@, global_slice_map@, ks, global_slice_map@[missing_slice_index]),
    {
        let target = match index_map_get(global_slice_map, missing_slice_index) {
            Some(g) => g,
            None => {
                return Err("Missing slice not found in global slice map".to_string());
            },
        };
        if self.recovery_slices.len() == 0 {
            return Err("No recovery slices available".to_string());
        }
        let recovery = &self.recovery_slices[0];
        let exponent = recovery.exponent;
        if target >= self.input_constants.len() {
            let mut m = String::new();
            m.append("Missing slice global index ");
            push_decimal(&mut m, target);
            m.append(" out of range (have ");
            push_decimal(&mut m, self.input_constants.len());
            m.append(" constants)");
            proof {
                assert(m@ =~= out_of_range_text(target as nat, self.input_constants@.len()));
            }
            return Err(m);
        }
        let target_coeff = gf_pow_word(self.input_constants[target], exponent);
        if target_coeff == 0 {
            return Err("Zero coefficient for target slice - cannot reconstruct".to_string());
        }
        let slice_size = self.config.slice_size;
        let copy_len = if slice_size < recovery.recovery_data.len() { slice_size } else { recovery.recovery_data.len() };
        let mut result: Vec<u8> = vec![0u8; slice_size];
        let mut i: usize = 0;
        while i < copy_len
            invariant
                copy_len <= slice_size,
                copy_len <= recovery.recovery_data@.len(),
                result@.len() == slice_size,
                i <= copy_len,
                forall|j: int| 0 <= j < i ==> #[trigger] result@[j] == recovery.recovery_data@[j],
                forall|j: int| i <= j < slice_size ==> #[trigger] result@[j] == 0,
            decreases copy_len - i,
        {
            result.set(i, recovery.recovery_data[i]);
            i = i + 1;
        }
        let keys = slice_map_keys(existing_slices);
        let ghost ks = keys@;
        let mut t: usize = 0;
        proof {
            assert forall|j: int| 0 <= j < copy_len implies #[trigger] result@[j] == recovery.recovery_data@[j] ^ present_terms(self, existing_slices@, global_slice_map@, ks, target, exponent, j, 0) by {
                crate::xor_jit::lemma_xor_u8(result@[j], 0, 0);
            }
        }
        while t < keys.len()
            invariant
                ks == keys@,
                ks.to_set() == existing_slices@.dom(),
                copy_len <= slice_size,
                copy_len <= recovery.recovery_data@.len(),
                recovery == self.recovery_slices@[0],
                exponent == recovery.exponent,
                target < self.input_constants@.len(),
                result@.len() == slice_size,
                t <= keys@.len(),
                forall|j: int| 0 <= j < copy_len ==> #[trigger] result@[j] == recovery.recovery_data@[j] ^ present_terms(self, existing_slices@, global_slice_map@, ks, target, exponent, j, t as nat),
                forall|j: int| copy_len <= j < slice_size ==> #[trigger] result@[j] == 0,
            decreases keys@.len() - t,
        {
            let k = keys[t];
            let ghost before = result@;
            proof {
                assert(ks.to_set().contains(k));
            }
            match index_map_get(global_slice_map, k) {
                Some(g) => {
                    if g != target && g < self.input_constants.len() {
                        let coeff = gf_pow_word(self.input_constants[g], exponent);
                        match slice_map_get(existing_slices, k) {
                            Some(data) => {
                                let n = if copy_len < data.len() { copy_len } else { data.len() };
                                let mut q: usize = 0;
                                while q < n
                                    invariant
                                        n <= copy_len,
                                        n <= data@.len(),
                                        copy_len <= slice_size,
                                        result@.len() == slice_size,
                                        before.len() == slice_size,
                                        q <= n,
                                        coeff == gf_pow(self.input_constants@[g as int], exponent as nat),
                                        forall|j: int| 0 <= j < q ==> #[trigger] result@[j] == before[j] ^ (#[verifier::truncate] (gf_mul(coeff, data@[j] as u16) as u8)),
                                        forall|j: int| q <= j < slice_size ==> #[trigger] result@[j] == before[j],
                                    decreases n - q,
                                {
                                    let term = gf_mul_word(coeff, data[q] as u16) as u8;
                                    result.set(q, result[q] ^ term);
                                    q = q + 1;
                                }
                                proof {
                                    assert forall|j: int| 0 <= j < copy_len implies #[trigger] result@[j] == recovery.recovery_data@[j] ^ present_terms(self, existing_slices@, global_slice_map@, ks, target, exponent, j, t as nat + 1) by {
                                        let prev = present_terms(self, existing_slices@, global_slice_map@, ks, target, exponent, j, t as nat);
                                        let term = present_byte_term(self, existing_slices@, global_slice_map@, target, exponent, k, j);
                                        assert(ks[t as int] == k);
                                        crate::xor_jit::lemma_xor_u8(recovery.recovery_data@[j], prev, term);
                                        if j >= n {
                                            crate::xor_jit::lemma_xor_u8(before[j], 0, 0);
                                            assert(term == 0);
                                        }
                                    }
                                }
                            },
                            None => {
                                proof {
                                    assert(false);
                                }
                            },
                        }
                    } else {
                        proof {
                            assert forall|j: int| 0 <= j < copy_len implies #[trigger] result@[j] == recovery.recovery_data@[j] ^ present_terms(self, existing_slices@, global_slice_map@, ks, target, exponent, j, t as nat + 1) by {
                                let prev = present_terms(self, existing_slices@, global_slice_map@, ks, target, exponent, j, t as nat);
                                assert(ks[t as int] == k);
                                crate::xor_jit::lemma_xor_u8(recovery.recovery_data@[j], prev, 0);
                                crate::xor_jit::lemma_xor_u8(prev, 0, 0);
                            }
                        }
                    }
                },
                None => {
                    proof {
                        assert forall|j: int| 0 <= j < copy_len implies #[trigger] result@[j] == recovery.recovery_data@[j] ^ present_terms(self, existing_slices@, global_slice_map@, ks, target, exponent, j, t as nat + 1) by {
                            let prev = present_terms(self, existing_slices@, global_slice_map@, ks, target, exponent, j, t as nat);
                            assert(ks[t as int] == k);
                            crate::xor_jit::lemma_xor_u8(recovery.recovery_data@[j], prev, 0);
                            crate::xor_jit::lemma_xor_u8(prev, 0, 0);
                        }
                    }
                },
            }
            t = t + 1;
        }
        let inv = gf_pow_word(target_coeff, 65534);
        let ghost mid = result@;
        let mut i: usize = 0;
        while i < copy_len
            invariant
                copy_len <= slice_size,
                result@.len() == slice_size,
                mid.len() == slice_size,
                i <= copy_len,
                inv == gf_inv(target_coeff),
                forall|j: int| 0 <= j < i ==> #[trigger] result@[j] == (#[verifier::truncate] (gf_mul(inv, mid[j] as u16) as u8)),
                forall|j: int| i <= j < slice_size ==> #[trigger] result@[j] == mid[j],
            decreases copy_len - i,
        {
            let v = gf_mul_word(inv, result[i] as u16) as u8;
            result.set(i, v);
            i = i + 1;
        }
        proof {
            assert(result@ =~= single_slice_spec(self, existing_slices@, global_slice_map@, ks, target));
        }
        Ok(result)
    }
}

/// The single-slice rebuild of the slice at `idx` can be done: the map
/// places it, there is a recovery slice, the slice has a constant and its
/// coefficient is nonzero.
pub open spec fn single_ok(p: &Par2ReedSolomon, gmap: Map<usize, usize>, idx: usize) -> bool {
    &&& gmap.contains_key(idx)
    &&& p.recovery_slices@.len() > 0
    &&& gmap[idx] < p.input_constants@.len()
    &&& gf_pow(p.input_constants@[gmap[idx] as int], p.recovery_slices@[0].exponent as nat) != 0
}

/// What the rebuild of the slice at `idx` holds: the single-slice rebuild
/// where it can be done, else zeros.
pub open spec fn rebuilt_or_zero(p: &Par2ReedSolomon, existing: Map<usize, Vec<u8>>, gmap: Map<usize, usize>, idx: usize, v: Seq<u8>) -> bool {
    if single_ok(p, gmap, idx) {
        exists|ks: Seq<usize>| #![trigger ks.to_set()]
            ks.no_duplicates() && ks.to_set() == existing.dom() && v == single_slice_spec(p, existing, gmap, ks, gmap[idx])
    } else {
        v == Seq::new(p.config.slice_size as nat, |j: int| 0u8)
    }
}

impl Par2ReedSolomon {
    /// Rebuild each missing slice from the first recovery slice, falling
    /// back to a zero-filled slice where that cannot be done.  Fails only
    /// when there are more missing slices than the configuration allows.
    pub fn reconstruct_slices(&self, existing_slices: &SliceMap, missing_slices: &[usize], global_slice_map: &IndexMap) -> (r: ReconstructionResult)
        ensures
            r.success == (missing_slices@.len() <= self.config.max_parity_shards && missing_slices@.len() <= self.config.recovery_slices_count),
            !r.success ==> (r.error_message matches Some(m)
                && m@ == not_feasible_text(missing_slices@.len(), self.config.max_parity_shards as nat))
                && forall|k: usize| !r.reconstructed_slices@.contains_key(k),
            r.success ==> (r.error_message matches Some(m)
                && m@ == "PAR2 Reed-Solomon reconstruction attempted - may contain fallback zero slices"@),
            r.success ==> forall|k: usize| r.reconstructed_slices@.contains_key(k) <==> missing_slices@.contains(k),
            r.success ==> forall|o: int| 0 <= o < missing_slices@.len()
                && (forall|later: int| o < later < missing_slices@.len() ==> missing_slices@[later] != missing_slices@[o])
                ==> #[trigger] rebuilt_or_zero(self, existing_slices@, global_slice_map@, missing_slices@[o],
                    r.reconstructed_slices@[missing_slices@[o]]@),
    {
        let n = missing_slices.len();
        if !self.config.is_feasible(n) {
            let mut m = String::new();
            m.append("Reconstruction not feasible: ");
            push_decimal(&mut m, n);
            m.append(" missing slices, max parity: ");
            push_decimal(&mut m, self.config.max_parity_shards);
            proof {
                assert(m@ =~= not_feasible_text(n as nat, self.config.max_parity_shards as nat));
            }
            return ReconstructionResult { success: false, reconstructed_slices: slice_map_new(), error_message: Some(m) };
        }
        let mut result = slice_map_new();
        let mut o: usize = 0;
        while o < n
            invariant
                n == missing_slices@.len(),
                o <= n,
                forall|k: usize| result@.contains_key(k) <==> missing_slices@.take(o as int).contains(k),
                forall|q: int| 0 <= q < o && (forall|later: int| q < later < o ==> missing_slices@[later] != missing_slices@[q])
                    ==> #[trigger] rebuilt_or_zero(self, existing_slices@, global_slice_map@, missing_slices@[q], result@[missing_slices@[q]]@),
            decreases n - o,
        {
            let idx = missing_slices[o];
            let data = match self.reconstruct_single_slice(existing_slices, idx, global_slice_map) {
                Ok(d) => d,
                Err(_) => vec![0u8; self.config.slice_size],
            };
            proof {
                if !single_ok(self, global_slice_map@, idx) {
                    assert(data@ =~= Seq::new(self.config.slice_size as nat, |j: int| 0u8));
                }
                assert(rebuilt_or_zero(self, existing_slices@, global_slice_map@, idx, data@));
            }
            let ghost before = result@;
            slice_map_insert(&mut result, idx, data);
            proof {
                let s1 = missing_slices@.take(o as int);
                let s2 = missing_slices@.take(o as int + 1);
                assert(s2 =~= s1.push(idx));
                assert forall|k: usize| result@.contains_key(k) <==> s2.contains(k) by {
                    if s2.contains(k) {
                        let j = choose|j: int| 0 <= j < s2.len() && s2[j] == k;
                        if j < o {
                            assert(s1[j] == k);
                        }
                    }
                    if s1.contains(k) {
                        let j = choose|j: int| 0 <= j < s1.len() && s1[j] == k;
                        assert(s2[j] == k);
                    }
                    if k == idx {
                        assert(s2[o as int] == k);
                    }
                }
                assert forall|q: int| 0 <= q < o + 1 && (forall|later: int| q < later < o + 1 ==> missing_slices@[later] != missing_slices@[q])
                    implies #[trigger] rebuilt_or_zero(self, existing_slices@, global_slice_map@, missing_slices@[q], result@[missing_slices@[q]]@) by {
                    if q < o {
                        assert(missing_slices@[o as int] != missing_slices@[q]);
                        assert(result@[missing_slices@[q]] == before[missing_slices@[q]]);
                    }
                }
            }
            o = o + 1;
        }
        proof {
            assert(missing_slices@.take(n as int) =~= missing_slices@);
        }
        ReconstructionResult {
            success: true,
            reconstructed_slices: result,
            error_message: Some("PAR2 Reed-Solomon reconstruction attempted - may contain fallback zero slices".to_string()),
        }
    }
}

} // verus!
