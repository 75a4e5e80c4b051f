//! Multiply-add over byte slices with the split tables, dispatched by SIMD
//! level, and the nibble tables that the vector kernels look up.
use crate::field::{gf_mul, lemma_gf_mul_distrib_right, lemma_shr1};
use crate::reedsolomon::{
    hi_byte, le_word, lemma_tables_multiply, lo_byte, mul_into, mul_word_byte, multiply_effect,
    process_slice_multiply_add, processed_byte, table_word, tables_for, SplitMulTable, WriteOp,
};
use vstd::prelude::*;

verus! {

/// SIMD implementation to use for the current platform.
#[derive(Debug, Clone, Copy, PartialEq, Eq, Structural)]
pub enum SimdLevel {
    /// No SIMD available: the caller uses the scalar path.
    NoSimd,
    /// 128-bit PSHUFB.
    Ssse3,
    /// 256-bit PSHUFB.
    Avx2,
    /// Portable vectors.
    PortableSimd,
}

/// Multiply-add with the split tables, word by word: `output ^= c * input`
/// over the common length of the two slices.
pub fn process_slice_multiply_add_scalar(input: &[u8], output: &mut [u8], tables: &SplitMulTable)
    ensures
        multiply_effect(tables, input@, old(output)@, final(output)@, WriteOp::Add),
{
    process_slice_multiply_add(input, output, tables);
}

/// The SIMD level to use given what the CPU offers: on x86-64 only PSHUFB
/// (AVX2 with SSSE3, then SSSE3 alone, else none); portable vectors on
/// other architectures.
pub fn simd_level_for(x86_64: bool, has_avx2: bool, has_ssse3: bool) -> (l: SimdLevel)
    ensures
        !x86_64 ==> l == SimdLevel::PortableSimd,
        x86_64 && has_avx2 && has_ssse3 ==> l == SimdLevel::Avx2,
        x86_64 && !has_avx2 && has_ssse3 ==> l == SimdLevel::Ssse3,
        x86_64 && !has_ssse3 ==> l == SimdLevel::NoSimd,
{
    if !x86_64 {
        SimdLevel::PortableSimd
    } else if has_avx2 && has_ssse3 {
        SimdLevel::Avx2
    } else if has_ssse3 {
        SimdLevel::Ssse3
    } else {
        SimdLevel::NoSimd
    }
}

/// Multiply-add at the given SIMD level.  With `SimdLevel::NoSimd` nothing is
/// written: the caller takes the scalar path itself.  AVX2 runs the 32-byte
/// nibble kernel, portable vectors the 16-byte one, SSSE3 the word-by-word
/// tables; with tables built for a coefficient `c` each level computes
/// `output ^= c * input`.
pub fn process_slice_multiply_add_simd(input: &[u8], output: &mut [u8], tables: &SplitMulTable, simd_level: SimdLevel)
    ensures
        simd_level == SimdLevel::NoSimd ==> final(output)@ == old(output)@,
        simd_level == SimdLevel::Ssse3 ==> multiply_effect(tables, input@, old(output)@, final(output)@, WriteOp::Add),
        simd_level == SimdLevel::Avx2 ==> forall|p: Avx2PreparedCoeff|
            nibble_tables_of(p.low, tables.low@) && nibble_tables_of(p.high, tables.high@)
            ==> #[trigger] vector_effect(p, tables, input@, old(output)@, final(output)@, 32, true),
        simd_level == SimdLevel::PortableSimd ==> forall|p: Avx2PreparedCoeff|
            nibble_tables_of(p.low, tables.low@) && nibble_tables_of(p.high, tables.high@)
            ==> #[trigger] vector_effect(p, tables, input@, old(output)@, final(output)@, 16, false),
        simd_level != SimdLevel::NoSimd ==> forall|c: u16| #[trigger] tables_for(tables, c)
            ==> final(output)@ == mul_into(c, input@, old(output)@, WriteOp::Add),
{
    let ghost before = output@;
    match simd_level {
        SimdLevel::NoSimd => {},
        SimdLevel::Ssse3 => {
            process_slice_multiply_add_scalar(input, output, tables);
            proof {
                assert forall|c: u16| #[trigger] tables_for(tables, c) implies output@ == mul_into(c, input@, before, WriteOp::Add) by {
                    lemma_tables_multiply(tables, c, input@, before, output@, WriteOp::Add);
                }
            }
        },
        SimdLevel::Avx2 => process_slice_multiply_add_pshufb(input, output, tables),
        SimdLevel::PortableSimd => process_slice_multiply_add_portable_simd(input, output, tables),
    }
}

/// The four 16-entry tables of one 256-entry table: its results for the
/// bytes `0x0N` and `0xN0`, split into low and high result bytes.
#[derive(Debug, Clone, Copy)]
pub struct NibbleTables {
    pub lo_nib_lo_byte: [u8; 16],
    pub lo_nib_hi_byte: [u8; 16],
    pub hi_nib_lo_byte: [u8; 16],
    pub hi_nib_hi_byte: [u8; 16],
}

/// `n` is the nibble table of `table`.
pub open spec fn nibble_tables_of(n: NibbleTables, table: Seq<u16>) -> bool {
    &&& forall|k: int| 0 <= k < 16 ==> #[trigger] n.lo_nib_lo_byte@[k] == lo_byte(table[k])
    &&& forall|k: int| 0 <= k < 16 ==> #[trigger] n.lo_nib_hi_byte@[k] == hi_byte(table[k])
    &&& forall|k: int| 0 <= k < 16 ==> #[trigger] n.hi_nib_lo_byte@[k] == lo_byte(table[16 * k])
    &&& forall|k: int| 0 <= k < 16 ==> #[trigger] n.hi_nib_hi_byte@[k] == hi_byte(table[16 * k])
}

/// Build the nibble tables of a 256-entry multiplication table.
pub fn build_nibble_tables(table: &[u16; 256]) -> (n: NibbleTables)
    ensures
        nibble_tables_of(n, table@),
{
    let mut lo_nib_lo_byte = [0u8; 16];
    let mut lo_nib_hi_byte = [0u8; 16];
    let mut hi_nib_lo_byte = [0u8; 16];
    let mut hi_nib_hi_byte = [0u8; 16];
    let mut nib: usize = 0;
    while nib < 16
        invariant
            nib <= 16,
            forall|k: int| 0 <= k < nib ==> #[trigger] lo_nib_lo_byte@[k] == lo_byte(table@[k]),
            forall|k: int| 0 <= k < nib ==> #[trigger] lo_nib_hi_byte@[k] == hi_byte(table@[k]),
            forall|k: int| 0 <= k < nib ==> #[trigger] hi_nib_lo_byte@[k] == lo_byte(table@[16 * k]),
            forall|k: int| 0 <= k < nib ==> #[trigger] hi_nib_hi_byte@[k] == hi_byte(table@[16 * k]),
        decreases 16 - nib,
    {
        let result_lo = table[nib];
        let result_hi = table[nib * 16];
        proof {
            lemma_shr1(result_lo);
            lemma_shr1(result_hi);
            lemma_byte_casts(result_lo);
            lemma_byte_casts(result_hi);
        }
        let ghost a0 = lo_nib_lo_byte@;
        let ghost a1 = lo_nib_hi_byte@;
        let ghost a2 = hi_nib_lo_byte@;
        let ghost a3 = hi_nib_hi_byte@;
        lo_nib_lo_byte[nib] = (result_lo & 0xFF) as u8;
        lo_nib_hi_byte[nib] = (result_lo >> 8) as u8;
        hi_nib_lo_byte[nib] = (result_hi & 0xFF) as u8;
        hi_nib_hi_byte[nib] = (result_hi >> 8) as u8;
        proof {
            assert(result_hi == table@[16 * nib as int]);
            assert(lo_nib_lo_byte@ == a0.update(nib as int, lo_byte(result_lo)));
            assert(lo_nib_hi_byte@ == a1.update(nib as int, hi_byte(result_lo)));
            assert(hi_nib_lo_byte@ == a2.update(nib as int, lo_byte(result_hi)));
            assert(hi_nib_hi_byte@ == a3.update(nib as int, hi_byte(result_hi)));

        }
        nib = nib + 1;
    }
    NibbleTables { lo_nib_lo_byte, lo_nib_hi_byte, hi_nib_lo_byte, hi_nib_hi_byte }
}

proof fn lemma_byte_casts(w: u16)
    ensures
        (w & 0xFF) as u8 == lo_byte(w),
        (w >> 8) as u8 == hi_byte(w),
{
    lemma_shr1(w);
}

/// The nibble tables as a tuple `(lo_nib_lo, lo_nib_hi, hi_nib_lo, hi_nib_hi)`.
pub fn build_pshufb_tables(table: &[u16; 256]) -> (r: ([u8; 16], [u8; 16], [u8; 16], [u8; 16]))
    ensures
        nibble_tables_of(NibbleTables { lo_nib_lo_byte: r.0, lo_nib_hi_byte: r.1, hi_nib_lo_byte: r.2, hi_nib_hi_byte: r.3 }, table@),
{
    let n = build_nibble_tables(table);
    (n.lo_nib_lo_byte, n.lo_nib_hi_byte, n.hi_nib_lo_byte, n.hi_nib_hi_byte)
}

/// Nibble tables of both halves of a split multiplication table.
#[derive(Debug, Clone, Copy)]
pub struct Avx2PreparedCoeff {
    pub low: NibbleTables,
    pub high: NibbleTables,
}

/// Prepare the nibble tables of a split multiplication table.
pub fn prepare_avx2_coeff(tables: &SplitMulTable) -> (p: Avx2PreparedCoeff)
    ensures
        nibble_tables_of(p.low, tables.low@),
        nibble_tables_of(p.high, tables.high@),
{
    Avx2PreparedCoeff { low: build_nibble_tables(&tables.low), high: build_nibble_tables(&tables.high) }
}

/// Low result byte of the word `(lo, hi)` from nibble tables.
pub open spec fn nib_lo(p: Avx2PreparedCoeff, lo: u8, hi: u8) -> u8 {
    p.low.lo_nib_lo_byte@[(lo % 16) as int] ^ p.low.hi_nib_lo_byte@[(lo / 16) as int]
        ^ p.high.lo_nib_lo_byte@[(hi % 16) as int] ^ p.high.hi_nib_lo_byte@[(hi / 16) as int]
}

/// High result byte of the word `(lo, hi)` from nibble tables.
pub open spec fn nib_hi(p: Avx2PreparedCoeff, lo: u8, hi: u8) -> u8 {
    p.low.lo_nib_hi_byte@[(lo % 16) as int] ^ p.low.hi_nib_hi_byte@[(lo / 16) as int]
        ^ p.high.lo_nib_hi_byte@[(hi % 16) as int] ^ p.high.hi_nib_hi_byte@[(hi / 16) as int]
}

/// What the 256-bit lanes also leave in the high byte: the four low-byte
/// tables at nibble zero.
pub open spec fn lane_residue(p: Avx2PreparedCoeff) -> u8 {
    p.low.lo_nib_lo_byte@[0] ^ p.low.hi_nib_lo_byte@[0] ^ p.high.lo_nib_lo_byte@[0] ^ p.high.hi_nib_lo_byte@[0]
}

/// The product byte at position `k` of a vector block.
pub open spec fn nib_byte(p: Avx2PreparedCoeff, input: Seq<u8>, k: int, wide: bool) -> u8 {
    let w = k / 2;
    let lo = input[2 * w];
    let hi = input[2 * w + 1];
    if k % 2 == 0 {
        nib_lo(p, lo, hi)
    } else if wide {
        nib_hi(p, lo, hi) | lane_residue(p)
    } else {
        nib_hi(p, lo, hi)
    }
}

/// The effect of a vector multiply-add in blocks of `block` bytes: whole
/// blocks from the nibble tables `p` (with the lane residue when `wide`),
/// the rest with the split tables `t`.
pub open spec fn vector_effect(p: Avx2PreparedCoeff, t: &SplitMulTable, input: Seq<u8>, old_out: Seq<u8>, new_out: Seq<u8>, block: nat, wide: bool) -> bool {
    let m = if input.len() < old_out.len() {
        input.len() as int
    } else {
        old_out.len() as int
    };
    let e = (m / block as int) * block as int;
    &&& new_out.len() == old_out.len()
    &&& forall|k: int| 0 <= k < e ==> #[trigger] new_out[k] == old_out[k] ^ nib_byte(p, input, k, wide)
    &&& multiply_effect(t, input.subrange(e, input.len() as int), old_out.subrange(e, old_out.len() as int), new_out.subrange(e, new_out.len() as int), WriteOp::Add)
}

/// Multiply-add by nibble lookups over whole blocks, then by the split
/// tables over the rest.
#[verifier::rlimit(50)]
#[verifier::spinoff_prover]
fn nibble_multiply_add(input: &[u8], output: &mut [u8], prepared: &Avx2PreparedCoeff, tables: &SplitMulTable, block: usize, wide: bool)
    requires
        block == 16 || block == 32,
    ensures
        vector_effect(*prepared, tables, input@, old(output)@, final(output)@, block as nat, wide),
{
    let len = if input.len() < output.len() {
        input.len()
    } else {
        output.len()
    };
    let e = (len / block) * block;
    let residue = prepared.low.lo_nib_lo_byte[0] ^ prepared.low.hi_nib_lo_byte[0] ^ prepared.high.lo_nib_lo_byte[0]
        ^ prepared.high.hi_nib_lo_byte[0];
    let mut w: usize = 0;
    proof {
        assert(e % 2 == 0);
    }
    while 2 * w < e
        invariant
            block == 16 || block == 32,
            e <= len,
            len <= input@.len(),
            len <= old(output)@.len(),
            e % 2 == 0,
            2 * w <= e,
            residue == lane_residue(*prepared),
            output@.len() == old(output)@.len(),
            forall|k: int| 0 <= k < 2 * w ==> #[trigger] output@[k] == old(output)@[k] ^ nib_byte(*prepared, input@, k, wide),
            forall|k: int| 2 * w <= k < output@.len() ==> #[trigger] output@[k] == old(output)@[k],
        decreases e - 2 * w,
    {
        let lo = input[2 * w];
        let hi = input[2 * w + 1];
        let rl = prepared.low.lo_nib_lo_byte[(lo % 16) as usize] ^ prepared.low.hi_nib_lo_byte[(lo / 16) as usize]
            ^ prepared.high.lo_nib_lo_byte[(hi % 16) as usize] ^ prepared.high.hi_nib_lo_byte[(hi / 16) as usize];
        let rh0 = prepared.low.lo_nib_hi_byte[(lo % 16) as usize] ^ prepared.low.hi_nib_hi_byte[(lo / 16) as usize]
            ^ prepared.high.lo_nib_hi_byte[(hi % 16) as usize] ^ prepared.high.hi_nib_hi_byte[(hi / 16) as usize];
        let rh = if wide {
            rh0 | residue
        } else {
            rh0
        };
        output[2 * w] = output[2 * w] ^ rl;
        output[2 * w + 1] = output[2 * w + 1] ^ rh;
        proof {
            assert((2 * w as int) / 2 == w);
            assert((2 * w as int + 1) / 2 == w);
        }
        w = w + 1;
    }
    let ghost mid = output@;
    let in_tail = &input[e..input.len()];
    let (_, out_tail) = output.split_at_mut(e);
    process_slice_multiply_add(in_tail, out_tail, tables);
    proof {
        assert(output@.subrange(e as int, output@.len() as int) =~= out_tail@);
        assert(mid.subrange(e as int, mid.len() as int) =~= old(output)@.subrange(e as int, old(output)@.len() as int));
        assert forall|k: int| 0 <= k < e implies #[trigger] output@[k] == old(output)@[k] ^ nib_byte(*prepared, input@, k, wide) by {
            assert(output@[k] == mid[k]);
        }
    }
}

/// Multiply-add with prepared nibble tables over whole 32-byte blocks
/// and the split tables over the rest.
pub fn process_slice_multiply_add_prepared_avx2(input: &[u8], output: &mut [u8], prepared: &Avx2PreparedCoeff, scalar_tables: &SplitMulTable)
    ensures
        vector_effect(*prepared, scalar_tables, input@, old(output)@, final(output)@, 32, true),
{
    nibble_multiply_add(input, output, prepared, scalar_tables, 32, true);
}

/// Multiply-add with nibble tables prepared from the split tables, over
/// whole 32-byte blocks, and the split tables over the rest.
pub fn process_slice_multiply_add_pshufb(input: &[u8], output: &mut [u8], tables: &SplitMulTable)
    ensures
        forall|p: Avx2PreparedCoeff| nibble_tables_of(p.low, tables.low@) && nibble_tables_of(p.high, tables.high@)
            ==> #[trigger] vector_effect(p, tables, input@, old(output)@, final(output)@, 32, true),
        forall|c: u16| #[trigger] tables_for(tables, c) ==> final(output)@ == mul_into(c, input@, old(output)@, WriteOp::Add),
{
    let prepared = prepare_avx2_coeff(tables);
    let ghost before = output@;
    nibble_multiply_add(input, output, &prepared, tables, 32, true);
    proof {
        assert forall|p: Avx2PreparedCoeff| nibble_tables_of(p.low, tables.low@) && nibble_tables_of(p.high, tables.high@)
            implies #[trigger] vector_effect(p, tables, input@, before, output@, 32, true) by {
            lemma_nibble_tables_unique(p.low, prepared.low, tables.low@);
            lemma_nibble_tables_unique(p.high, prepared.high, tables.high@);
        }
        assert forall|c: u16| #[trigger] tables_for(tables, c) implies output@ == mul_into(c, input@, before, WriteOp::Add) by {
            lemma_vector_effect_multiplies(prepared, tables, c, input@, before, output@, 32, true);
        }
    }
}

/// Add the table product of word `k` of `input` into word `k` of `output`.
fn add_table_word(input: &[u8], output: &mut [u8], tables: &SplitMulTable, k: usize)
    requires
        2 * k + 1 < input@.len(),
        2 * k + 1 < old(output)@.len(),
    ensures
        final(output)@ == old(output)@.update(2 * k as int, old(output)@[2 * k as int] ^ lo_byte(table_word(tables, input@[2 * k as int], input@[2 * k + 1])))
            .update(2 * k + 1, old(output)@[2 * k + 1] ^ hi_byte(table_word(tables, input@[2 * k as int], input@[2 * k + 1]))),
{
    let lo = input[2 * k];
    let hi = input[2 * k + 1];
    let r = tables.low[lo as usize] ^ tables.high[hi as usize];
    proof {
        lemma_byte_casts(r);
    }
    output[2 * k] = output[2 * k] ^ (r & 0xFF) as u8;
    output[2 * k + 1] = output[2 * k + 1] ^ (r >> 8) as u8;
}

/// Multiply-add word by word in runs of 32 words, then the remaining
/// words, then a trailing odd byte: the effect of the scalar path.  When
/// the common length holds no whole word nothing is written, not even the
/// single byte.
pub fn process_slice_multiply_add_avx2_unrolled(input: &[u8], output: &mut [u8], tables: &SplitMulTable)
    ensures
        (input@.len() >= 2 && old(output)@.len() >= 2) ==> multiply_effect(tables, input@, old(output)@, final(output)@, WriteOp::Add),
        (input@.len() < 2 || old(output)@.len() < 2) ==> final(output)@ == old(output)@,
{
    let len = if input.len() < output.len() {
        input.len()
    } else {
        output.len()
    };
    let num_words = len / 2;
    if num_words == 0 {
        return;
    }
    let ghost old_out = output@;
    let avx_words = (num_words / 32) * 32;
    let mut idx: usize = 0;
    while idx < avx_words
        invariant
            num_words == len / 2,
            avx_words <= num_words,
            avx_words % 32 == 0,
            idx % 32 == 0,
            len <= input@.len(),
            len <= old_out.len(),
            len == input@.len() || len == old_out.len(),
            output@.len() == old_out.len(),
            idx <= avx_words,
            forall|i: int| 0 <= i < 2 * idx ==> #[trigger] output@[i] == processed_byte(tables, input@, old_out, len as int, i, WriteOp::Add),
            forall|i: int| 2 * idx <= i < old_out.len() ==> #[trigger] output@[i] == old_out[i],
        decreases avx_words - idx,
    {
        let mut j: usize = 0;
        while j < 32
            invariant
                num_words == len / 2,
                idx + 32 <= avx_words <= num_words,
                len <= input@.len(),
                len <= old_out.len(),
                len == input@.len() || len == old_out.len(),
                output@.len() == old_out.len(),
                j <= 32,
                forall|i: int| 0 <= i < 2 * (idx + j) ==> #[trigger] output@[i] == processed_byte(tables, input@, old_out, len as int, i, WriteOp::Add),
                forall|i: int| 2 * (idx + j) <= i < old_out.len() ==> #[trigger] output@[i] == old_out[i],
            decreases 32 - j,
        {
            add_table_word(input, output, tables, idx + j);
            proof {
                assert((2 * (idx + j) as int) / 2 == idx + j);
                assert((2 * (idx + j) as int + 1) / 2 == idx + j);
            }
            j = j + 1;
        }
        idx = idx + 32;
    }
    while idx < num_words
        invariant
            num_words == len / 2,
            len <= input@.len(),
            len <= old_out.len(),
            len == input@.len() || len == old_out.len(),
            output@.len() == old_out.len(),
            idx <= num_words,
            forall|i: int| 0 <= i < 2 * idx ==> #[trigger] output@[i] == processed_byte(tables, input@, old_out, len as int, i, WriteOp::Add),
            forall|i: int| 2 * idx <= i < old_out.len() ==> #[trigger] output@[i] == old_out[i],
        decreases num_words - idx,
    {
        add_table_word(input, output, tables, idx);
        proof {
            assert((2 * idx as int) / 2 == idx);
            assert((2 * idx as int + 1) / 2 == idx);
        }
        idx = idx + 1;
    }
    if len % 2 == 1 {
        let last_idx = len - 1;
        let v = tables.low[input[last_idx] as usize];
        proof {
            lemma_byte_casts(v);
        }
        output[last_idx] = output[last_idx] ^ (v & 0xFF) as u8;
    }
}

/// Multiply-add by nibble lookups over whole 16-byte blocks (the
/// portable vector path), and the split tables over the rest.
pub fn process_slice_multiply_add_portable_simd(input: &[u8], output: &mut [u8], tables: &SplitMulTable)
    ensures
        forall|p: Avx2PreparedCoeff| nibble_tables_of(p.low, tables.low@) && nibble_tables_of(p.high, tables.high@)
            ==> #[trigger] vector_effect(p, tables, input@, old(output)@, final(output)@, 16, false),
        forall|c: u16| #[trigger] tables_for(tables, c) ==> final(output)@ == mul_into(c, input@, old(output)@, WriteOp::Add),
{
    let prepared = prepare_avx2_coeff(tables);
    let ghost before = output@;
    nibble_multiply_add(input, output, &prepared, tables, 16, false);
    proof {
        assert forall|p: Avx2PreparedCoeff| nibble_tables_of(p.low, tables.low@) && nibble_tables_of(p.high, tables.high@)
            implies #[trigger] vector_effect(p, tables, input@, before, output@, 16, false) by {
            lemma_nibble_tables_unique(p.low, prepared.low, tables.low@);
            lemma_nibble_tables_unique(p.high, prepared.high, tables.high@);
        }
        assert forall|c: u16| #[trigger] tables_for(tables, c) implies output@ == mul_into(c, input@, before, WriteOp::Add) by {
            lemma_vector_effect_multiplies(prepared, tables, c, input@, before, output@, 16, false);
        }
    }
}

/// The nibble tables of a table are unique.
proof fn lemma_nibble_tables_unique(a: NibbleTables, b: NibbleTables, t: Seq<u16>)
    requires
        nibble_tables_of(a, t),
        nibble_tables_of(b, t),
    ensures
        a == b,
{
    assert(a.lo_nib_lo_byte =~= b.lo_nib_lo_byte);
    assert(a.lo_nib_hi_byte =~= b.lo_nib_hi_byte);
    assert(a.hi_nib_lo_byte =~= b.hi_nib_lo_byte);
    assert(a.hi_nib_hi_byte =~= b.hi_nib_hi_byte);
}

proof fn lemma_nibble_bits(lo: u8, hi: u8)
    by (bit_vector)
    ensures
        ((lo % 16u8) as u16) ^ ((16u8 * (lo / 16u8)) as u16) ^ ((((hi % 16u8) as u16) * 256u16) as u16)
            ^ ((((16u8 * (hi / 16u8)) as u16) * 256u16) as u16) == (((lo as u16) + 256u16 * (hi as u16)) as u16),
{
}

proof fn lemma_byte_xor4(a: u16, b: u16, c: u16, d: u16)
    by (bit_vector)
    ensures
        ((a & 0xff) as u8) ^ ((b & 0xff) as u8) ^ ((c & 0xff) as u8) ^ ((d & 0xff) as u8) == (((a ^ b ^ c ^ d) & 0xff) as u8),
        ((a >> 8) as u8) ^ ((b >> 8) as u8) ^ ((c >> 8) as u8) ^ ((d >> 8) as u8) == (((a ^ b ^ c ^ d) >> 8) as u8),
{
}

/// With nibble tables of tables that multiply by `c`, the nibble lookups
/// give the bytes of `c` times the word, and nothing is left in the lanes.
pub proof fn lemma_nibble_product(p: Avx2PreparedCoeff, t: &SplitMulTable, c: u16, lo: u8, hi: u8)
    requires
        tables_for(t, c),
        nibble_tables_of(p.low, t.low@),
        nibble_tables_of(p.high, t.high@),
    ensures
        nib_lo(p, lo, hi) == lo_byte(gf_mul(c, le_word(lo, hi))),
        nib_hi(p, lo, hi) == hi_byte(gf_mul(c, le_word(lo, hi))),
        lane_residue(p) == 0,
{
    let a = gf_mul(c, (lo % 16) as u16);
    let b = gf_mul(c, (16 * (lo / 16)) as u16);
    let cc = gf_mul(c, (((hi % 16) as int) * 256) as u16);
    let d = gf_mul(c, ((16 * (hi / 16)) as int * 256) as u16);
    assert(t.low@[(lo % 16) as int] == a);
    assert(t.low@[16 * (lo / 16) as int] == b);
    assert(t.high@[(hi % 16) as int] == cc);
    assert(t.high@[16 * (hi / 16) as int] == d);
    lemma_shr1(a);
    lemma_shr1(b);
    lemma_shr1(cc);
    lemma_shr1(d);
    lemma_byte_xor4(a, b, cc, d);
    lemma_shr1(a ^ b ^ cc ^ d);
    lemma_gf_mul_distrib_right(c, (lo % 16) as u16, (16 * (lo / 16)) as u16);
    lemma_gf_mul_distrib_right(c, ((lo % 16) as u16) ^ ((16 * (lo / 16)) as u16), (((hi % 16) as int) * 256) as u16);
    lemma_gf_mul_distrib_right(
        c,
        ((lo % 16) as u16) ^ ((16 * (lo / 16)) as u16) ^ ((((hi % 16) as int) * 256) as u16),
        ((16 * (hi / 16)) as int * 256) as u16,
    );
    lemma_nibble_bits(lo, hi);
    assert(((lo % 16u8) as u16) == (lo % 16) as u16);
    assert(((16u8 * (lo / 16u8)) as u16) == (16 * (lo / 16)) as u16);
    assert(((((hi % 16u8) as u16) * 256u16) as u16) == (((hi % 16) as int) * 256) as u16);
    assert(((((16u8 * (hi / 16u8)) as u16) * 256u16) as u16) == ((16 * (hi / 16)) as int * 256) as u16);
    assert((((lo as u16) + 256u16 * (hi as u16)) as u16) == le_word(lo, hi));
    assert(gf_mul(c, 0) == 0);
    assert(t.low@[0] == 0 && t.high@[0] == 0) by {
        assert(t.low@[0] == gf_mul(c, 0u16));
        assert(t.high@[0] == gf_mul(c, (0int * 256) as u16));
    }
    assert(p.low.lo_nib_lo_byte@[0] == lo_byte(t.low@[0]));
    assert(p.low.hi_nib_lo_byte@[0] == lo_byte(t.low@[16 * 0int]));
    assert(p.high.lo_nib_lo_byte@[0] == lo_byte(t.high@[0]));
    assert(p.high.hi_nib_lo_byte@[0] == lo_byte(t.high@[16 * 0int]));
    assert(lo_byte(0) == 0u8);
    assert(0u8 ^ 0u8 ^ 0u8 ^ 0u8 == 0u8) by (bit_vector);
    assert(p.low.lo_nib_lo_byte@[(lo % 16) as int] == lo_byte(a));
    assert(p.low.hi_nib_lo_byte@[(lo / 16) as int] == lo_byte(b));
    assert(p.high.lo_nib_lo_byte@[(hi % 16) as int] == lo_byte(cc));
    assert(p.high.hi_nib_lo_byte@[(hi / 16) as int] == lo_byte(d));
    assert(p.low.lo_nib_hi_byte@[(lo % 16) as int] == hi_byte(a));
    assert(p.low.hi_nib_hi_byte@[(lo / 16) as int] == hi_byte(b));
    assert(p.high.lo_nib_hi_byte@[(hi % 16) as int] == hi_byte(cc));
    assert(p.high.hi_nib_hi_byte@[(hi / 16) as int] == hi_byte(d));
}

proof fn lemma_or_zero(x: u8)
    by (bit_vector)
    ensures
        x | 0u8 == x,
{
}

/// With nibble tables of tables that multiply by `c`, a vector
/// multiply-add multiplies by `c`.
pub proof fn lemma_vector_effect_multiplies(
    p: Avx2PreparedCoeff,
    t: &SplitMulTable,
    c: u16,
    input: Seq<u8>,
    old_out: Seq<u8>,
    new_out: Seq<u8>,
    block: nat,
    wide: bool,
)
    requires
        block == 16 || block == 32,
        tables_for(t, c),
        nibble_tables_of(p.low, t.low@),
        nibble_tables_of(p.high, t.high@),
        vector_effect(p, t, input, old_out, new_out, block, wide),
    ensures
        new_out == mul_into(c, input, old_out, WriteOp::Add),
{
    let m = if input.len() < old_out.len() {
        input.len() as int
    } else {
        old_out.len() as int
    };
    let e = (m / block as int) * block as int;
    assert(0 <= e <= m) by (nonlinear_arith)
        requires
            block > 0,
            m >= 0,
            e == (m / block as int) * block as int,
    ;
    assert(e % 2 == 0) by (nonlinear_arith)
        requires
            block == 16 || block == 32,
            e == (m / block as int) * block as int,
            m >= 0,
    ;
    let in2 = input.subrange(e, input.len() as int);
    let old2 = old_out.subrange(e, old_out.len() as int);
    let new2 = new_out.subrange(e, new_out.len() as int);
    lemma_tables_multiply(t, c, in2, old2, new2, WriteOp::Add);
    let full = mul_into(c, input, old_out, WriteOp::Add);
    assert forall|k: int| 0 <= k < old_out.len() implies new_out[k] == full[k] by {
        if k < e {
            let w = k / 2;
            lemma_nibble_product(p, t, c, input[2 * w], input[2 * w + 1]);
            lemma_or_zero(nib_hi(p, input[2 * w], input[2 * w + 1]));
            assert(k < (m / 2) * 2);
            assert(new_out[k] == old_out[k] ^ nib_byte(p, input, k, wide));
        } else {
            let k2 = k - e;
            let m2 = m - e;
            assert(new_out[k] == new2[k2]);
            assert(new2 == mul_into(c, in2, old2, WriteOp::Add));
            if k < m {
                assert(k2 < m2);
                assert((k2 < (m2 / 2) * 2) == (k < (m / 2) * 2));
                assert(k2 / 2 == k / 2 - e / 2);
                assert(k2 % 2 == k % 2);
                let w = k / 2;
                if k < (m / 2) * 2 {
                    assert(in2[2 * (k2 / 2)] == input[2 * w]);
                    assert(in2[2 * (k2 / 2) + 1] == input[2 * w + 1]);
                } else {
                    assert(in2[k2] == input[k]);
                }
                assert(old2[k2] == old_out[k]);
                assert(mul_word_byte(c, in2, old2, m2, k2, WriteOp::Add) == mul_word_byte(c, input, old_out, m, k, WriteOp::Add));
            } else {
                assert(k2 >= m2);
                assert(old2[k2] == old_out[k]);
            }
        }
    }
    assert(new_out =~= full);
}

/// The output after adding the table products of `input`, word by word,
/// over the common length.
pub open spec fn scalar_added(t: &SplitMulTable, input: Seq<u8>, old_out: Seq<u8>) -> Seq<u8> {
    let m = if input.len() < old_out.len() {
        input.len() as int
    } else {
        old_out.len() as int
    };
    Seq::new(old_out.len(), |i: int| if i < m { processed_byte(t, input, old_out, m, i, WriteOp::Add) } else { old_out[i] })
}

proof fn lemma_scalar_added(t: &SplitMulTable, input: Seq<u8>, old_out: Seq<u8>, new_out: Seq<u8>)
    requires
        multiply_effect(t, input, old_out, new_out, WriteOp::Add),
    ensures
        new_out == scalar_added(t, input, old_out),
{
    assert(new_out =~= scalar_added(t, input, old_out));
}

/// Add the scalar products of `input[from..]` into `output[from..]`.
fn scalar_tail(input: &[u8], output: &mut [u8], tables: &SplitMulTable, from: usize)
    requires
        from <= input@.len(),
        from <= old(output)@.len(),
    ensures
        final(output)@ == old(output)@.subrange(0, from as int) + scalar_added(
            tables,
            input@.subrange(from as int, input@.len() as int),
            old(output)@.subrange(from as int, old(output)@.len() as int),
        ),
{
    let ghost before = output@;
    let in_tail = &input[from..input.len()];
    let (head, out_tail) = output.split_at_mut(from);
    process_slice_multiply_add_scalar(in_tail, out_tail, tables);
    proof {
        lemma_scalar_added(tables, in_tail@, before.subrange(from as int, before.len() as int), out_tail@);
        assert(output@ =~= before.subrange(0, from as int) + out_tail@);
    }
}

/// The two product bytes of the word `(lo, hi)` from nibble tables, with
/// the lane residue in the high byte.
fn nibble_word(p: &Avx2PreparedCoeff, lo: u8, hi: u8) -> (r: (u8, u8))
    ensures
        r.0 == nib_lo(*p, lo, hi),
        r.1 == nib_hi(*p, lo, hi) | lane_residue(*p),
{
    let rl = p.low.lo_nib_lo_byte[(lo % 16) as usize] ^ p.low.hi_nib_lo_byte[(lo / 16) as usize]
        ^ p.high.lo_nib_lo_byte[(hi % 16) as usize] ^ p.high.hi_nib_lo_byte[(hi / 16) as usize];
    let rh = p.low.lo_nib_hi_byte[(lo % 16) as usize] ^ p.low.hi_nib_hi_byte[(lo / 16) as usize]
        ^ p.high.lo_nib_hi_byte[(hi % 16) as usize] ^ p.high.hi_nib_hi_byte[(hi / 16) as usize];
    let residue = p.low.lo_nib_lo_byte[0] ^ p.low.hi_nib_lo_byte[0] ^ p.high.lo_nib_lo_byte[0] ^ p.high.hi_nib_lo_byte[0];
    (rl, rh | residue)
}

/// The common length of two inputs and an output.
pub open spec fn min3(a: int, b: int, c: int) -> int {
    let ab = if a < b {
        a
    } else {
        b
    };
    if ab < c {
        ab
    } else {
        c
    }
}

/// What the two-input prepared kernel leaves in the output: below 32
/// common bytes, both inputs added word by word; otherwise both nibble
/// products over whole 32-byte blocks, then, when bytes of the common
/// length remain, both inputs added word by word from the end of the
/// blocks on.
pub open spec fn x2_effect(
    pa: Avx2PreparedCoeff,
    ta: &SplitMulTable,
    a: Seq<u8>,
    pb: Avx2PreparedCoeff,
    tb: &SplitMulTable,
    b: Seq<u8>,
    old_out: Seq<u8>,
) -> Seq<u8> {
    let len = min3(a.len() as int, b.len() as int, old_out.len() as int);
    if len < 32 {
        scalar_added(tb, b, scalar_added(ta, a, old_out))
    } else {
        let e = (len / 32) * 32;
        let v = Seq::new(
            old_out.len(),
            |k: int| if k < e { old_out[k] ^ nib_byte(pa, a, k, true) ^ nib_byte(pb, b, k, true) } else { old_out[k] },
        );
        if e < len {
            v.subrange(0, e) + scalar_added(tb, b.subrange(e, b.len() as int), scalar_added(ta, a.subrange(e, a.len() as int), v.subrange(e, v.len() as int)))
        } else {
            v
        }
    }
}

/// Multiply-add two inputs with prepared nibble tables into one output,
/// loading and storing the output once per 32-byte block.
#[verifier::rlimit(50)]
#[verifier::spinoff_prover]
pub fn process_slices_multiply_add_prepared_avx2_x2(
    input_a: &[u8],
    prepared_a: &Avx2PreparedCoeff,
    scalar_a: &SplitMulTable,
    input_b: &[u8],
    prepared_b: &Avx2PreparedCoeff,
    scalar_b: &SplitMulTable,
    output: &mut [u8],
)
    ensures
        final(output)@ == x2_effect(*prepared_a, scalar_a, input_a@, *prepared_b, scalar_b, input_b@, old(output)@),
{
    let ghost old_out = output@;
    let la = input_a.len();
    let lb = input_b.len();
    let lo = output.len();
    let lab = if la < lb {
        la
    } else {
        lb
    };
    let len = if lab < lo {
        lab
    } else {
        lo
    };
    if len < 32 {
        let ghost before = output@;
        process_slice_multiply_add_scalar(input_a, output, scalar_a);
        let ghost mid = output@;
        process_slice_multiply_add_scalar(input_b, output, scalar_b);
        proof {
            lemma_scalar_added(scalar_a, input_a@, before, mid);
            lemma_scalar_added(scalar_b, input_b@, mid, output@);
        }
        return;
    }
    let e = (len / 32) * 32;
    let mut w: usize = 0;
    proof {
        assert(e % 2 == 0);
    }
    while 2 * w < e
        invariant
            e <= len,
            len == min3(input_a@.len() as int, input_b@.len() as int, old_out.len() as int),
            e == (len / 32) * 32,
            e % 2 == 0,
            2 * w <= e,
            output@.len() == old_out.len(),
            forall|k: int| 0 <= k < 2 * w ==> #[trigger] output@[k] == old_out[k] ^ nib_byte(*prepared_a, input_a@, k, true) ^ nib_byte(*prepared_b, input_b@, k, true),
            forall|k: int| 2 * w <= k < output@.len() ==> #[trigger] output@[k] == old_out[k],
        decreases e - 2 * w,
    {
        let (al, ah) = nibble_word(prepared_a, input_a[2 * w], input_a[2 * w + 1]);
        let (bl, bh) = nibble_word(prepared_b, input_b[2 * w], input_b[2 * w + 1]);
        output[2 * w] = output[2 * w] ^ al ^ bl;
        output[2 * w + 1] = output[2 * w + 1] ^ ah ^ bh;
        proof {
            assert((2 * w as int) / 2 == w);
            assert((2 * w as int + 1) / 2 == w);
        }
        w = w + 1;
    }
    let ghost v = Seq::new(
        old_out.len(),
        |k: int| if k < e { old_out[k] ^ nib_byte(*prepared_a, input_a@, k, true) ^ nib_byte(*prepared_b, input_b@, k, true) } else { old_out[k] },
    );
    proof {
        assert(output@ =~= v);
    }
    if e < len {
        scalar_tail(input_a, output, scalar_a, e);
        let ghost mid = output@;
        scalar_tail(input_b, output, scalar_b, e);
        proof {
            assert(mid.subrange(0, e as int) =~= v.subrange(0, e as int));
            assert(mid.subrange(e as int, mid.len() as int) =~= scalar_added(scalar_a, input_a@.subrange(e as int, input_a@.len() as int), v.subrange(e as int, v.len() as int)));
        }
    }
}

/// What the four-input prepared kernel leaves in the output: below 32
/// common bytes, the four inputs added word by word in order; otherwise
/// the four nibble products over whole 32-byte blocks, then, when bytes of
/// the common length remain, the four inputs added word by word from the
/// end of the blocks on.
pub open spec fn x4_effect(
    p: Seq<Avx2PreparedCoeff>,
    t: Seq<&SplitMulTable>,
    inputs: Seq<Seq<u8>>,
    old_out: Seq<u8>,
) -> Seq<u8> {
    let len = min3(min3(inputs[0].len() as int, inputs[1].len() as int, inputs[2].len() as int), inputs[3].len() as int, old_out.len() as int);
    if len < 32 {
        scalar_added(t[3], inputs[3], scalar_added(t[2], inputs[2], scalar_added(t[1], inputs[1], scalar_added(t[0], inputs[0], old_out))))
    } else {
        let e = (len / 32) * 32;
        let v = Seq::new(
            old_out.len(),
            |k: int|
                if k < e {
                    old_out[k] ^ nib_byte(p[0], inputs[0], k, true) ^ nib_byte(p[1], inputs[1], k, true) ^ nib_byte(p[2], inputs[2], k, true)
                        ^ nib_byte(p[3], inputs[3], k, true)
                } else {
                    old_out[k]
                },
        );
        let tail = |j: int| inputs[j].subrange(e, inputs[j].len() as int);
        if e < len {
            v.subrange(0, e) + scalar_added(t[3], tail(3), scalar_added(t[2], tail(2), scalar_added(t[1], tail(1), scalar_added(t[0], tail(0), v.subrange(e, v.len() as int)))))
        } else {
            v
        }
    }
}

/// Multiply-add four inputs with prepared nibble tables into one output,
/// loading and storing the output once per 32-byte block.
#[verifier::rlimit(50)]
#[verifier::spinoff_prover]
pub fn process_slices_multiply_add_prepared_avx2_x4(
    input_a: &[u8],
    prepared_a: &Avx2PreparedCoeff,
    scalar_a: &SplitMulTable,
    input_b: &[u8],
    prepared_b: &Avx2PreparedCoeff,
    scalar_b: &SplitMulTable,
    input_c: &[u8],
    prepared_c: &Avx2PreparedCoeff,
    scalar_c: &SplitMulTable,
    input_d: &[u8],
    prepared_d: &Avx2PreparedCoeff,
    scalar_d: &SplitMulTable,
    output: &mut [u8],
)
    ensures
        final(output)@ == x4_effect(
            seq![*prepared_a, *prepared_b, *prepared_c, *prepared_d],
            seq![scalar_a, scalar_b, scalar_c, scalar_d],
            seq![input_a@, input_b@, input_c@, input_d@],
            old(output)@,
        ),
{
    let ghost old_out = output@;
    let ghost ps = seq![*prepared_a, *prepared_b, *prepared_c, *prepared_d];
    let ghost ts = seq![scalar_a, scalar_b, scalar_c, scalar_d];
    let ghost ins = seq![input_a@, input_b@, input_c@, input_d@];
    let la = input_a.len();
    let lb = input_b.len();
    let lc = input_c.len();
    let ld = input_d.len();
    let lo = output.len();
    let lab = if la < lb {
        la
    } else {
        lb
    };
    let labc = if lab < lc {
        lab
    } else {
        lc
    };
    let labcd = if labc < ld {
        labc
    } else {
        ld
    };
    let len = if labcd < lo {
        labcd
    } else {
        lo
    };
    proof {
        assert(len == min3(min3(ins[0].len() as int, ins[1].len() as int, ins[2].len() as int), ins[3].len() as int, old_out.len() as int));
    }
    if len < 32 {
        let ghost s0 = output@;
        process_slice_multiply_add_scalar(input_a, output, scalar_a);
        let ghost s1 = output@;
        process_slice_multiply_add_scalar(input_b, output, scalar_b);
        let ghost s2 = output@;
        process_slice_multiply_add_scalar(input_c, output, scalar_c);
        let ghost s3 = output@;
        process_slice_multiply_add_scalar(input_d, output, scalar_d);
        proof {
            lemma_scalar_added(scalar_a, input_a@, s0, s1);
            lemma_scalar_added(scalar_b, input_b@, s1, s2);
            lemma_scalar_added(scalar_c, input_c@, s2, s3);
            lemma_scalar_added(scalar_d, input_d@, s3, output@);
        }
        return;
    }
    let e = (len / 32) * 32;
    let mut w: usize = 0;
    proof {
        assert(e % 2 == 0);
    }
    while 2 * w < e
        invariant
            e <= len,
            len <= input_a@.len(),
            len <= input_b@.len(),
            len <= input_c@.len(),
            len <= input_d@.len(),
            len <= old_out.len(),
            e % 2 == 0,
            2 * w <= e,
            output@.len() == old_out.len(),
            forall|k: int| 0 <= k < 2 * w ==> #[trigger] output@[k] == old_out[k] ^ nib_byte(*prepared_a, input_a@, k, true) ^ nib_byte(*prepared_b, input_b@, k, true)
                ^ nib_byte(*prepared_c, input_c@, k, true) ^ nib_byte(*prepared_d, input_d@, k, true),
            forall|k: int| 2 * w <= k < output@.len() ==> #[trigger] output@[k] == old_out[k],
        decreases e - 2 * w,
    {
        let (al, ah) = nibble_word(prepared_a, input_a[2 * w], input_a[2 * w + 1]);
        let (bl, bh) = nibble_word(prepared_b, input_b[2 * w], input_b[2 * w + 1]);
        let (cl, ch) = nibble_word(prepared_c, input_c[2 * w], input_c[2 * w + 1]);
        let (dl, dh) = nibble_word(prepared_d, input_d[2 * w], input_d[2 * w + 1]);
        output[2 * w] = output[2 * w] ^ al ^ bl ^ cl ^ dl;
        output[2 * w + 1] = output[2 * w + 1] ^ ah ^ bh ^ ch ^ dh;
        proof {
            assert((2 * w as int) / 2 == w);
            assert((2 * w as int + 1) / 2 == w);
        }
        w = w + 1;
    }
    let ghost v = Seq::new(
        old_out.len(),
        |k: int|
            if k < e {
                old_out[k] ^ nib_byte(ps[0], ins[0], k, true) ^ nib_byte(ps[1], ins[1], k, true) ^ nib_byte(ps[2], ins[2], k, true)
                    ^ nib_byte(ps[3], ins[3], k, true)
            } else {
                old_out[k]
            },
    );
    proof {
        assert(output@ =~= v);
    }
    if e < len {
        scalar_tail(input_a, output, scalar_a, e);
        let ghost m1 = output@;
        scalar_tail(input_b, output, scalar_b, e);
        let ghost m2 = output@;
        scalar_tail(input_c, output, scalar_c, e);
        let ghost m3 = output@;
        scalar_tail(input_d, output, scalar_d, e);
        proof {
            let t0 = input_a@.subrange(e as int, input_a@.len() as int);
            let t1 = input_b@.subrange(e as int, input_b@.len() as int);
            let t2 = input_c@.subrange(e as int, input_c@.len() as int);
            let r0 = scalar_added(scalar_a, t0, v.subrange(e as int, v.len() as int));
            assert(m1.subrange(0, e as int) =~= v.subrange(0, e as int));
            assert(m1.subrange(e as int, m1.len() as int) =~= r0);
            let r1 = scalar_added(scalar_b, t1, r0);
            assert(m2.subrange(0, e as int) =~= v.subrange(0, e as int));
            assert(m2.subrange(e as int, m2.len() as int) =~= r1);
            let r2 = scalar_added(scalar_c, t2, r1);
            assert(m3.subrange(0, e as int) =~= v.subrange(0, e as int));
            assert(m3.subrange(e as int, m3.len() as int) =~= r2);
        }
    }
}

} // verus!
