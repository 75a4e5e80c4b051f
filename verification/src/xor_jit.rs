//! Planning and data layout for the XOR kernels: the bit-plane block
//! layout, the per-coefficient bit dependencies, the CPU write policy, and
//! the prepared-domain multiply-add that the generated kernels perform.
use crate::field::gf_mul;
use crate::galois::Galois16;
use crate::reedsolomon::{build_split_mul_table, lemma_tables_multiply, mul_into, process_slice_multiply_add, WriteOp};
use crate::xor_jit::encoder::{dynamic_loop, encode_all};
use crate::xor_jit::bitplane::{
    bitplane_block, block_ok, decoded_from, finish_chunks, half_base, mul_add_block,
    multiply_add_prepared_at, multiply_word, prepare_avx2, prepared_len_of, ByteHalf,
};
use vstd::prelude::*;

pub mod bitplane;
pub mod encoder;
pub mod packed;
pub mod turbo;

verus! {

/// How far before the prefetch target the generated kernels are handed
/// their prefetch pointer.
pub const XOR_JIT_PREFETCH_STUB_BIAS_BYTES: usize = 128;

/// How far the generated body advances its data pointers up front, so
/// that memory operands stay in the signed-byte displacement range.
pub const XOR_JIT_BODY_POINTER_BIAS_BYTES: u32 = 128;

/// The prefetch address handed to a generated kernel for `prefetch`: the
/// address less the stub bias, wrapping like pointer arithmetic.
pub fn xor_jit_biased_prefetch_ptr(prefetch: usize) -> (r: usize)
    ensures
        r as int == (if prefetch >= XOR_JIT_PREFETCH_STUB_BIAS_BYTES {
            prefetch - XOR_JIT_PREFETCH_STUB_BIAS_BYTES
        } else {
            prefetch - XOR_JIT_PREFETCH_STUB_BIAS_BYTES + usize::MAX + 1
        }),
{
    if prefetch >= XOR_JIT_PREFETCH_STUB_BIAS_BYTES {
        prefetch - XOR_JIT_PREFETCH_STUB_BIAS_BYTES
    } else {
        (usize::MAX - (XOR_JIT_PREFETCH_STUB_BIAS_BYTES - prefetch)) + 1
    }
}

/// Bit `i` of a word.
pub open spec fn bit16(x: u16, i: int) -> bool {
    ((x >> (i as u16)) & 1u16) == 1u16
}

/// Prepare `src` into bit-plane blocks; returns the prepared length.
pub fn prepare_xor_jit_bitplane_chunks(dst: &mut [u8], src: &[u8]) -> (n: usize)
    requires
        src@.len() + 1024 <= usize::MAX,
        old(dst)@.len() >= prepared_len_of(src@.len() as nat),
    ensures
        n == prepared_len_of(src@.len() as nat),
        final(dst)@.len() == old(dst)@.len(),
        forall|i: int| 0 <= i < n / 512 ==> #[trigger] block_ok(src@, final(dst)@, i),
        forall|k: int| n <= k < old(dst)@.len() ==> #[trigger] final(dst)@[k] == old(dst)@[k],
{
    prepare_avx2(dst, src)
}

/// Prepare `src` into a whole segment `dst` of blocks, zeroing the blocks
/// past the prepared length.
pub fn prepare_xor_jit_bitplane_segment(dst: &mut [u8], src: &[u8])
    requires
        old(dst)@.len() % 512 == 0,
        src@.len() <= old(dst)@.len(),
        src@.len() + 1024 <= usize::MAX,
    ensures
        final(dst)@.len() == old(dst)@.len(),
        forall|i: int| 0 <= i < prepared_len_of(src@.len() as nat) / 512 ==> #[trigger] block_ok(src@, final(dst)@, i),
        forall|k: int| prepared_len_of(src@.len() as nat) <= k < final(dst)@.len() ==> #[trigger] final(dst)@[k] == 0,
{
    proof {
        assert(prepared_len_of(src@.len() as nat) <= dst@.len()) by {
            assert((src@.len() + 511) / 512 <= dst@.len() / 512);
        }
    }
    let prepared_len = prepare_avx2(dst, src);
    let len = dst.len();
    let mut k: usize = prepared_len;
    while k < len
        invariant
            len == dst@.len(),
            dst@.len() == old(dst)@.len(),
            prepared_len == prepared_len_of(src@.len() as nat),
            prepared_len <= k <= len,
            forall|i: int| 0 <= i < prepared_len / 512 ==> #[trigger] block_ok(src@, dst@, i),
            forall|j: int| prepared_len <= j < k ==> #[trigger] dst@[j] == 0,
        decreases len - k,
    {
        let ghost before = dst@;
        dst[k] = 0;
        proof {
            assert forall|i: int| 0 <= i < prepared_len / 512 implies #[trigger] block_ok(src@, dst@, i) by {
                assert(block_ok(src@, before, i));
                assert(512 * i + 512 <= prepared_len);
                assert forall|m: int, lane: int| 0 <= m < 128 && 0 <= lane < 32 implies #[trigger] bitplane::prepared_bit(dst@, 512 * i, m, lane)
                    == bitplane::source_bit(src@, 512 * i, m, lane) by {
                    assert(bitplane::prepared_bit(before, 512 * i, m, lane) == bitplane::source_bit(src@, 512 * i, m, lane));
                    assert(dst@[512 * i + 4 * m + lane / 8] == before[512 * i + 4 * m + lane / 8]);
                }
            }
        }
        k = k + 1;
    }
}

/// Turn prepared blocks back into `dst.len()` bytes.
pub fn finish_xor_jit_bitplane_chunks(dst: &mut [u8], prepared: &[u8])
    requires
        prepared@.len() % 512 == 0,
        prepared@.len() >= prepared_len_of(old(dst)@.len() as nat),
    ensures
        final(dst)@.len() == old(dst)@.len(),
        decoded_from(final(dst)@, prepared@),
{
    finish_chunks(dst, prepared);
}

/// The input bits on which each output bit of a product by a coefficient
/// depends.
#[derive(Debug, Clone, Copy, PartialEq, Eq)]
pub struct BitplaneCoeffPlan {
    pub coefficient: u16,
    pub output_masks: [u16; 16],
    pub turbo_pairs: [turbo::TurboOutputPairPlan; 8],
}

/// Bit `ib` of the mask is set exactly when bit `output_bit` of
/// `(1 << ib) * coefficient` is.
pub open spec fn dependency_mask_ok(mask: u16, coefficient: u16, output_bit: int) -> bool {
    forall|ib: int| 0 <= ib < 16 ==> #[trigger] bit16(mask, ib) == bit16(gf_mul((1u16 << (ib as u16)), coefficient), output_bit)
}

pub(crate) proof fn lemma_set_bit16(acc: u16, pos: u16, q: u16)
    by (bit_vector)
    requires
        pos < 16,
        q < 16,
    ensures
        q == pos ==> (((acc | (1u16 << pos)) >> q) & 1u16 == 1u16),
        q != pos ==> (((acc | (1u16 << pos)) >> q) & 1u16) == ((acc >> q) & 1u16),
{
}

pub(crate) proof fn lemma_test_bit16(x: u16, pos: u16)
    by (bit_vector)
    requires
        pos < 16,
    ensures
        (x & (1u16 << pos) != 0u16) == (((x >> pos) & 1u16) == 1u16),
{
}

pub(crate) proof fn lemma_zero_bit16(q: u16)
    by (bit_vector)
    requires
        q < 16,
    ensures
        !(((0u16 >> q) & 1u16) == 1u16),
{
}

/// The mask of input bits on which output bit `output_bit` depends.
pub fn input_dependency_mask(coefficient: u16, output_bit: usize) -> (mask: u16)
    requires
        output_bit < 16,
    ensures
        dependency_mask_ok(mask, coefficient, output_bit as int),
{
    let mut mask: u16 = 0;
    let mut ib: u16 = 0;
    proof {
        assert forall|k: int| 0 <= k < 16 implies !(#[trigger] bit16(mask, k)) by {
            lemma_zero_bit16(k as u16);
        }
    }
    while ib < 16
        invariant
            output_bit < 16,
            ib <= 16,
            forall|k: int| 0 <= k < ib ==> #[trigger] bit16(mask, k) == bit16(gf_mul((1u16 << (k as u16)), coefficient), output_bit as int),
            forall|k: int| ib <= k < 16 ==> !(#[trigger] bit16(mask, k)),
        decreases 16 - ib,
    {
        let product = multiply_word(1u16 << ib, coefficient);
        proof {
            lemma_test_bit16(product, output_bit as u16);
        }
        let ghost old_mask = mask;
        if product & (1u16 << (output_bit as u16)) != 0 {
            mask = mask | (1u16 << ib);
            proof {
                assert forall|k: int| 0 <= k < 16 implies #[trigger] bit16(mask, k) == (if k == ib { true } else { bit16(old_mask, k) }) by {
                    lemma_set_bit16(old_mask, ib, k as u16);
                }
            }
        }
        ib = ib + 1;
    }
    mask
}

impl BitplaneCoeffPlan {
    /// The dependency masks of all 16 output bits, and the plan of each
    /// pair of output planes.
    pub fn new(coefficient: u16) -> (p: Self)
        ensures
            p.coefficient == coefficient,
            forall|ob: int| 0 <= ob < 16 ==> #[trigger] dependency_mask_ok(p.output_masks@[ob], coefficient, ob),
            forall|pair: int| 0 <= pair < 8 ==> #[trigger] p.turbo_pairs@[pair] == turbo::output_pair_plan_spec(p.output_masks@, pair),
            forall|pair: int| 0 <= pair < 8 ==> #[trigger] turbo::pair_plan_ok(p.turbo_pairs@[pair]),
    {
        let mut output_masks = [0u16; 16];
        let mut ob: usize = 0;
        while ob < 16
            invariant
                ob <= 16,
                forall|k: int| 0 <= k < ob ==> #[trigger] dependency_mask_ok(output_masks@[k], coefficient, k),
            decreases 16 - ob,
        {
            output_masks[ob] = input_dependency_mask(coefficient, ob);
            ob = ob + 1;
        }
        let empty = turbo::TurboOutputPairPlan {
            first_output: 0,
            second_output: 0,
            first_seed: None,
            second_seed: None,
            first_remaining_mask: 0,
            second_remaining_mask: 0,
            deps: turbo::TurboDepPlan { mem_deps: 0, dep1_low: 0, dep1_high: 0, dep2_low: 0, dep2_high: 0 },
            common: turbo::TurboCommonPlan { lowest: None, highest: None, eliminated_mask: 0 },
        };
        let mut turbo_pairs = [empty; 8];
        let mut pair: usize = 0;
        while pair < 8
            invariant
                pair <= 8,
                forall|k: int| 0 <= k < pair ==> #[trigger] turbo_pairs@[k] == turbo::output_pair_plan_spec(output_masks@, k),
            decreases 8 - pair,
        {
            turbo_pairs[pair] = turbo::turbo_output_pair_plan(&output_masks, pair);
            pair = pair + 1;
        }
        proof {
            assert forall|k: int| 0 <= k < 8 implies #[trigger] turbo::pair_plan_ok(turbo_pairs@[k]) by {
                turbo::lemma_pair_plan_ok(output_masks@, k);
            }
        }
        Self { coefficient, output_masks, turbo_pairs }
    }

    /// The plan of the physical output planes `2 * pair` and `2 * pair + 1`.
    pub fn turbo_pair(&self, physical_pair: usize) -> (p: turbo::TurboOutputPairPlan)
        requires
            physical_pair < 8,
        ensures
            p == self.turbo_pairs@[physical_pair as int],
    {
        self.turbo_pairs[physical_pair]
    }

    pub fn coefficient(&self) -> (c: u16)
        ensures
            c == self.coefficient,
    {
        self.coefficient
    }

    pub fn input_mask_for_output_bit(&self, output_bit: usize) -> (m: u16)
        requires
            output_bit < 16,
        ensures
            m == self.output_masks@[output_bit as int],
    {
        self.output_masks[output_bit]
    }

    /// Whether output bit `output_bit` depends on input bit `input_bit`.
    pub fn output_bit_depends_on(&self, output_bit: usize, input_bit: usize) -> (r: bool)
        requires
            output_bit < 16,
            input_bit < 16,
        ensures
            r == bit16(self.output_masks@[output_bit as int], input_bit as int),
    {
        let m = self.input_mask_for_output_bit(output_bit);
        proof {
            lemma_test_bit16(m, input_bit as u16);
        }
        m & (1u16 << (input_bit as u16)) != 0
    }
}

/// How generated code is written into executable memory on a CPU.
#[derive(Debug, Clone, Copy, PartialEq, Eq, Structural)]
pub enum XorJitWriteStrategy {
    /// Write in place.
    Direct,
    /// Copy with non-temporal stores.
    CopyNt,
    /// Copy.
    Copy,
    /// Clear the cache lines first.
    Clear,
}

/// Intel Atom models.
pub open spec fn atom_model(model: u8) -> bool {
    model == 0x1c || model == 0x26 || model == 0x27 || model == 0x35 || model == 0x36 || model == 0x37
        || model == 0x4a || model == 0x4c || model == 0x4d || model == 0x5a || model == 0x5d || model == 0x5c
        || model == 0x5f || model == 0x7a || model == 0x86 || model == 0x96 || model == 0x9c || model == 0x8a
}

/// Older Intel Core models.
pub open spec fn icore_old_model(model: u8) -> bool {
    model == 0x1a || model == 0x1e || model == 0x1f || model == 0x2e || model == 0x25 || model == 0x2c
        || model == 0x2f || model == 0x2a || model == 0x2d || model == 0x3a || model == 0x3e || model == 0x3c
        || model == 0x3f || model == 0x45 || model == 0x46 || model == 0x3d || model == 0x47 || model == 0x4f
        || model == 0x56 || model == 0x4e || model == 0x5e || model == 0x8e || model == 0x9e || model == 0xa5
        || model == 0xa6 || model == 0x55 || model == 0x66 || model == 0x67
}

/// Newer Intel Core models.
pub open spec fn icore_new_model(model: u8) -> bool {
    model == 0x7e || model == 0x7d || model == 0x6a || model == 0x6c || model == 0xa7 || model == 0x8c
        || model == 0x8d || model == 0x8f || model == 0xcf || model == 0x8a
}

/// The vendor string of Intel processors.
pub open spec fn intel_vendor() -> Seq<u8> {
    seq![0x47u8, 0x65, 0x6e, 0x75, 0x69, 0x6e, 0x65, 0x49, 0x6e, 0x74, 0x65, 0x6c]
}

/// The write policy for a CPU.
pub open spec fn write_strategy_spec(vendor: Seq<u8>, family: u16, model: u8) -> XorJitWriteStrategy {
    let intel = vendor == intel_vendor();
    if intel && icore_old_model(model) {
        XorJitWriteStrategy::Clear
    } else if (intel && atom_model(model)) || (intel && icore_new_model(model)) || family == 0x6f || family == 0x1f {
        XorJitWriteStrategy::CopyNt
    } else if family == 0x8f || family == 0x9f || family == 0xaf {
        XorJitWriteStrategy::Clear
    } else {
        XorJitWriteStrategy::Direct
    }
}

pub fn intel_model_is_atom(model: u8) -> (r: bool)
    ensures
        r == atom_model(model),
{
    matches!(
        model,
        0x1c | 0x26 | 0x27 | 0x35 | 0x36 | 0x37 | 0x4a | 0x4c | 0x4d | 0x5a | 0x5d | 0x5c | 0x5f | 0x7a | 0x86 | 0x96 | 0x9c | 0x8a
    )
}

pub fn intel_model_is_icore_old(model: u8) -> (r: bool)
    ensures
        r == icore_old_model(model),
{
    matches!(
        model,
        0x1a | 0x1e | 0x1f | 0x2e | 0x25 | 0x2c | 0x2f | 0x2a | 0x2d | 0x3a | 0x3e | 0x3c | 0x3f | 0x45 | 0x46 | 0x3d | 0x47 | 0x4f | 0x56
            | 0x4e | 0x5e | 0x8e | 0x9e | 0xa5 | 0xa6 | 0x55 | 0x66 | 0x67
    )
}

pub fn intel_model_is_icore_new(model: u8) -> (r: bool)
    ensures
        r == icore_new_model(model),
{
    matches!(model, 0x7e | 0x7d | 0x6a | 0x6c | 0xa7 | 0x8c | 0x8d | 0x8f | 0xcf | 0x8a)
}

/// Whether the vendor string is Intel's.
fn is_intel_vendor(vendor: &[u8; 12]) -> (r: bool)
    ensures
        r == (vendor@ == intel_vendor()),
{
    let expected: [u8; 12] = [0x47u8, 0x65, 0x6e, 0x75, 0x69, 0x6e, 0x65, 0x49, 0x6e, 0x74, 0x65, 0x6c];
    proof {
        assert(expected@ =~= intel_vendor());
    }
    let mut i: usize = 0;
    while i < 12
        invariant
            i <= 12,
            expected@ == intel_vendor(),
            forall|k: int| 0 <= k < i ==> vendor@[k] == expected@[k],
        decreases 12 - i,
    {
        if vendor[i] != expected[i] {
            return false;
        }
        i = i + 1;
    }
    proof {
        assert(vendor@ =~= intel_vendor());
    }
    true
}

/// Byte `k` (little-endian) of a register.
pub open spec fn reg_byte(x: u32, k: int) -> u8 {
    ((x >> (8 * k) as u32) & 0xff) as u8
}

/// The CPU vendor string from the registers of CPUID leaf 0: the
/// little-endian bytes of EBX, EDX and ECX.
pub fn cpu_vendor_from_registers(ebx: u32, edx: u32, ecx: u32) -> (v: [u8; 12])
    ensures
        forall|k: int| 0 <= k < 4 ==> #[trigger] v@[k] == reg_byte(ebx, k),
        forall|k: int| 4 <= k < 8 ==> #[trigger] v@[k] == reg_byte(edx, k - 4),
        forall|k: int| 8 <= k < 12 ==> #[trigger] v@[k] == reg_byte(ecx, k - 8),
{
    let mut v = [0u8; 12];
    let mut k: usize = 0;
    while k < 4
        invariant
            k <= 4,
            forall|j: int| 0 <= j < k ==> #[trigger] v@[j] == reg_byte(ebx, j),
            forall|j: int| 4 <= j < 4 + k ==> #[trigger] v@[j] == reg_byte(edx, j - 4),
            forall|j: int| 8 <= j < 8 + k ==> #[trigger] v@[j] == reg_byte(ecx, j - 8),
        decreases 4 - k,
    {
        let sh: u32 = (8 * k) as u32;
        v[k] = ((ebx >> sh) & 0xff) as u8;
        v[4 + k] = ((edx >> sh) & 0xff) as u8;
        v[8 + k] = ((ecx >> sh) & 0xff) as u8;
        k = k + 1;
    }
    v
}

proof fn lemma_cpuid_fields(eax: u32)
    by (bit_vector)
    ensures
        (eax >> 8u32) & 0xfu32 <= 15,
        (eax >> 20u32) & 0xffu32 <= 255,
        (eax >> 4u32) & 0xfu32 <= 15,
        (eax >> 16u32) & 0xfu32 <= 15,
        (((eax >> 16u32) & 0xfu32) << 4u32) | ((eax >> 4u32) & 0xfu32) == ((eax >> 16u32) & 0xfu32) * 16 + ((eax >> 4u32) & 0xfu32),
{
}

/// The family and model that CPUID leaf 1 reports in EAX: the base family
/// (bits 8..12) plus, when it is 15, the extended family (bits 20..28); and
/// the extended model (bits 16..20) above the base model (bits 4..8).
pub fn cpu_family_model(eax: u32) -> (r: (u16, u8))
    ensures
        r.0 == ((eax >> 8u32) & 0xfu32) + (if (eax >> 8u32) & 0xfu32 == 0xfu32 { (eax >> 20u32) & 0xffu32 } else { 0u32 }),
        r.1 == ((eax >> 16u32) & 0xfu32) * 16 + ((eax >> 4u32) & 0xfu32),
{
    proof {
        lemma_cpuid_fields(eax);
    }
    let base_family = (eax >> 8) & 0xf;
    let ext_family = (eax >> 20) & 0xff;
    let base_model = (eax >> 4) & 0xf;
    let ext_model = (eax >> 16) & 0xf;
    let family = (base_family + if base_family == 0xf { ext_family } else { 0 }) as u16;
    let model = ((ext_model << 4) | base_model) as u8;
    (family, model)
}

/// The write policy for a CPU given by vendor string, family and model.
pub fn xor_jit_write_strategy_for_cpu(vendor: [u8; 12], family: u16, model: u8) -> (s: XorJitWriteStrategy)
    ensures
        s == write_strategy_spec(vendor@, family, model),
{
    let intel = is_intel_vendor(&vendor);
    let atom = intel && intel_model_is_atom(model);
    let icore_old = intel && intel_model_is_icore_old(model);
    let icore_new = intel && intel_model_is_icore_new(model);
    if icore_old {
        XorJitWriteStrategy::Clear
    } else if atom || icore_new || family == 0x6f || family == 0x1f {
        XorJitWriteStrategy::CopyNt
    } else if family == 0x8f || family == 0x9f || family == 0xaf {
        XorJitWriteStrategy::Clear
    } else {
        XorJitWriteStrategy::Direct
    }
}

/// The kind of code generator.
#[derive(Debug, Clone, Copy, PartialEq, Eq, Structural)]
pub enum XorJitFlavor {
    Jit,
}

/// Parameters of the AVX2 create method.
#[derive(Debug, Clone, Copy, PartialEq, Eq, Structural)]
pub struct XorJitCreateMethodInfo {
    pub ideal_input_multiple: usize,
    pub prefetch_downscale: usize,
    pub alignment: usize,
    pub stride: usize,
}

/// How far ahead to prefetch.
#[derive(Debug, Clone, Copy, PartialEq, Eq, Structural)]
pub struct XorJitCreatePrefetchPlan {
    pub pf_len: usize,
    pub output_prefetch_rounds: usize,
}

/// The parameters of the AVX2 method: one input at a time, prefetch
/// downscale 1, 32-byte alignment, one 512-byte block per stride.
pub fn xor_jit_create_avx2_method_info() -> (i: XorJitCreateMethodInfo)
    ensures
        i == (XorJitCreateMethodInfo { ideal_input_multiple: 1, prefetch_downscale: 1, alignment: 32, stride: 512 }),
{
    XorJitCreateMethodInfo { ideal_input_multiple: 1, prefetch_downscale: 1, alignment: 32, stride: bitplane::AVX2_BLOCK_BYTES }
}

/// `2 ^ prefetch_downscale` rounds of output prefetching.
pub fn xor_jit_create_output_prefetch_rounds(info: XorJitCreateMethodInfo) -> (r: usize)
    requires
        info.prefetch_downscale < 32,
    ensures
        r == vstd::arithmetic::power2::pow2(info.prefetch_downscale as nat),
{
    proof {
        vstd::arithmetic::power2::lemma2_to64();
    }
    let mut r: usize = 1;
    let mut k: usize = 0;
    while k < info.prefetch_downscale
        invariant
            k <= info.prefetch_downscale < 32,
            r == vstd::arithmetic::power2::pow2(k as nat),
        decreases info.prefetch_downscale - k,
    {
        proof {
            vstd::arithmetic::power2::lemma_pow2_unfold((k + 1) as nat);
            vstd::arithmetic::power2::lemma2_to64();
            if k + 1 < 31 {
                vstd::arithmetic::power2::lemma_pow2_strictly_increases((k + 1) as nat, 31);
            }
            assert(vstd::arithmetic::power2::pow2((k + 1) as nat) <= 0x8000_0000);
        }
        r = r * 2;
        k = k + 1;
    }
    r
}

/// The prefetch plan for `len` bytes.
pub fn xor_jit_create_prefetch_plan(info: XorJitCreateMethodInfo, len: usize) -> (p: XorJitCreatePrefetchPlan)
    requires
        info.prefetch_downscale < 32,
    ensures
        p.pf_len == len as nat / vstd::arithmetic::power2::pow2(info.prefetch_downscale as nat),
        p.output_prefetch_rounds == vstd::arithmetic::power2::pow2(info.prefetch_downscale as nat),
{
    let rounds = xor_jit_create_output_prefetch_rounds(info);
    proof {
        vstd::arithmetic::power2::lemma_pow2_pos(info.prefetch_downscale as nat);
    }
    XorJitCreatePrefetchPlan { pf_len: len / rounds, output_prefetch_rounds: rounds }
}

/// The word bit held by physical plane `physical_bit`.
pub fn turbo_physical_word_bit(physical_bit: usize) -> (b: usize)
    requires
        physical_bit < 16,
    ensures
        b == 15 - physical_bit,
{
    15 - physical_bit
}

/// Offset of the plane of word bit `w` in a prepared block, less the
/// pointer bias of the generated body (128 bytes): the high-byte planes
/// come first, most significant bit first.
pub open spec fn plane_offset(w: int) -> int {
    (half_base(if w < 8 { ByteHalf::Low } else { ByteHalf::High }) + 8 * (7 - w % 8)) * 4 - 128
}

/// Offset of the plane of `word_bit`, relative to the pointer bias of the
/// generated body (128 bytes).
pub fn bitplane_vector_offset(word_bit: usize) -> (o: i32)
    requires
        word_bit < 16,
    ensures
        o == plane_offset(word_bit as int),
{
    let half = if word_bit < 8 {
        ByteHalf::Low
    } else {
        ByteHalf::High
    };
    let bit_from_msb = 7 - (word_bit % 8);
    bitplane::mask_offset(half, bit_from_msb, 0) as i32 - XOR_JIT_BODY_POINTER_BIAS_BYTES as i32
}

/// What a prefetch in the bit-plane add targets.
#[derive(Debug, Clone, Copy, PartialEq, Eq, Structural)]
pub enum BitplaneAddPrefetchKind {
    Output,
    Input,
}

/// `plan` is the dependency plan of `coefficient`.
pub open spec fn plan_of(plan: BitplaneCoeffPlan, coefficient: u16) -> bool {
    &&& plan.coefficient == coefficient
    &&& forall|ob: int| 0 <= ob < 16 ==> #[trigger] dependency_mask_ok(plan.output_masks@[ob], coefficient, ob)
}

/// A coefficient together with its dependency plan.
#[derive(Debug, Clone, Copy)]
pub struct XorJitPreparedCoeff {
    pub coefficient: u16,
    pub plan: BitplaneCoeffPlan,
}

/// A coefficient and, once emitted, its plan.
#[derive(Debug, Clone, Copy)]
pub struct XorJitPreparedBitplaneHandle {
    pub coefficient: u16,
    pub plan: Option<BitplaneCoeffPlan>,
}

impl Default for XorJitPreparedBitplaneHandle {
    fn default() -> (h: Self)
        ensures
            h.coefficient == 0,
            h.plan is None,
    {
        Self { coefficient: 0, plan: None }
    }
}

impl XorJitPreparedCoeff {
    /// Prepare a coefficient: its plan is computed here.
    pub fn new(coefficient: u16) -> (p: Self)
        ensures
            p.coefficient == coefficient,
            plan_of(p.plan, coefficient),
    {
        Self { coefficient, plan: BitplaneCoeffPlan::new(coefficient) }
    }

    pub fn coefficient(&self) -> (c: u16)
        ensures
            c == self.coefficient,
    {
        self.coefficient
    }

    /// The plan is built with the value, so nothing is left to do.
    pub fn ensure_bitplane_emitted(&self) {
    }

    /// A handle carrying the coefficient and its plan.
    pub fn bitplane_handle(&self) -> (h: XorJitPreparedBitplaneHandle)
        ensures
            h.coefficient == self.coefficient,
            h.plan == Some(self.plan),
    {
        XorJitPreparedBitplaneHandle { coefficient: self.coefficient, plan: Some(self.plan) }
    }
}

/// Prepared coefficients and handles, one slot per coefficient value.
pub struct XorJitPreparedCoeffCache {
    pub entries: Vec<Option<XorJitPreparedCoeff>>,
    pub bitplane_handles: Vec<XorJitPreparedBitplaneHandle>,
}

impl XorJitPreparedCoeffCache {
    /// 65536 slots each; every prepared entry belongs to its slot.
    pub open spec fn wf(&self) -> bool {
        &&& self.entries@.len() == 65536
        &&& self.bitplane_handles@.len() == 65536
        &&& forall|k: int| 0 <= k < 65536 ==> (#[trigger] self.entries@[k] matches Some(p) ==> p.coefficient == k && plan_of(p.plan, k as u16))
    }

    /// An empty cache.
    pub fn new() -> (c: Self)
        ensures
            c.wf(),
            forall|k: int| 0 <= k < 65536 ==> (#[trigger] c.entries@[k]) is None,
            forall|k: int| 0 <= k < 65536 ==> (#[trigger] c.bitplane_handles@[k]).plan is None,
    {
        let mut entries: Vec<Option<XorJitPreparedCoeff>> = Vec::with_capacity(65536);
        let mut bitplane_handles: Vec<XorJitPreparedBitplaneHandle> = Vec::with_capacity(65536);
        let mut i: usize = 0;
        while i < 65536
            invariant
                i <= 65536,
                entries@.len() == i,
                bitplane_handles@.len() == i,
                forall|k: int| 0 <= k < i ==> (#[trigger] entries@[k]) is None,
                forall|k: int| 0 <= k < i ==> (#[trigger] bitplane_handles@[k]).plan is None,
            decreases 65536 - i,
        {
            entries.push(None);
            bitplane_handles.push(XorJitPreparedBitplaneHandle::default());
            i = i + 1;
        }
        Self { entries, bitplane_handles }
    }

    /// The prepared form of `coefficient`, computed once and cached.
    pub fn prepare(&mut self, coefficient: u16) -> (p: XorJitPreparedCoeff)
        requires
            old(self).wf(),
        ensures
            final(self).wf(),
            p.coefficient == coefficient,
            plan_of(p.plan, coefficient),
            final(self).entries@ == old(self).entries@.update(coefficient as int, Some(p)),
            final(self).bitplane_handles@ == old(self).bitplane_handles@,
    {
        match self.entries[coefficient as usize] {
            Some(prepared) => {
                proof {
                    assert(self.entries@.update(coefficient as int, Some(prepared)) =~= self.entries@);
                }
                prepared
            },
            None => {
                let prepared = XorJitPreparedCoeff::new(coefficient);
                self.entries.set(coefficient as usize, Some(prepared));
                prepared
            },
        }
    }

    /// Remember the handle for `coefficient`.
    pub fn cache_bitplane_handle(&mut self, coefficient: u16, handle: XorJitPreparedBitplaneHandle)
        requires
            old(self).wf(),
        ensures
            final(self).wf(),
            final(self).entries@ == old(self).entries@,
            final(self).bitplane_handles@ == old(self).bitplane_handles@.update(coefficient as int, handle),
    {
        self.bitplane_handles.set(coefficient as usize, handle);
    }

    /// The handle remembered for `coefficient`.
    pub fn bitplane_handle_for_coefficient(&self, coefficient: u16) -> (h: XorJitPreparedBitplaneHandle)
        requires
            self.wf(),
        ensures
            h == self.bitplane_handles@[coefficient as int],
    {
        self.bitplane_handles[coefficient as usize]
    }

    /// All remembered handles, indexed by coefficient.
    pub fn bitplane_handle_table(&self) -> (t: &[XorJitPreparedBitplaneHandle])
        ensures
            t@ == self.bitplane_handles@,
    {
        self.bitplane_handles.as_slice()
    }
}

impl Default for XorJitPreparedCoeffCache {
    fn default() -> (c: Self)
        ensures
            c.wf(),
    {
        Self::new()
    }
}

/// Every block of `output` has become the bit-plane form of its old
/// contents plus `c` times the matching block of `input`.
pub open spec fn chunks_mul_added(input: Seq<u8>, old_out: Seq<u8>, new_out: Seq<u8>, c: u16) -> bool {
    forall|i: int, s: Seq<u8>, o: Seq<u8>|
        0 <= i < input.len() / 512 && s.len() == 512 && o.len() == 512 && #[trigger] bitplane_block(s, 0, input, 512 * i)
            && #[trigger] bitplane_block(o, 0, old_out, 512 * i) ==> bitplane_block(mul_add_block(o, s, c), 0, new_out, 512 * i)
}

/// The multiply-add that the generated kernel for one coefficient
/// performs on prepared blocks.
#[derive(Debug, Clone, Copy)]
pub struct XorJitBitplaneKernel {
    pub coefficient: u16,
    pub plan: BitplaneCoeffPlan,
}

impl XorJitBitplaneKernel {
    /// The kernel for a prepared coefficient.
    pub fn new(prepared: &XorJitPreparedCoeff) -> (k: Result<Self, std::io::Error>)
        ensures
            k matches Ok(kernel) && kernel.coefficient == prepared.coefficient && kernel.plan == prepared.plan,
    {
        Ok(Self { coefficient: prepared.coefficient, plan: prepared.plan })
    }

    /// Multiply-add every prepared block of `input` into the matching
    /// prepared block of `output`.
    pub fn multiply_add_chunks(&self, input: &[u8], output: &mut [u8])
        requires
            input@.len() == old(output)@.len(),
            input@.len() % 512 == 0,
            input@.len() + 1024 <= usize::MAX,
        ensures
            final(output)@.len() == old(output)@.len(),
            chunks_mul_added(input@, old(output)@, final(output)@, self.coefficient),
    {
        let len = input.len();
        let mut at: usize = 0;
        while at < len
            invariant
                len == input@.len(),
                input@.len() == output@.len(),
                output@.len() == old(output)@.len(),
                len % 512 == 0,
                len + 1024 <= usize::MAX,
                at % 512 == 0,
                at <= len,
                forall|i: int, s: Seq<u8>, o: Seq<u8>|
                    0 <= i < at / 512 && s.len() == 512 && o.len() == 512 && #[trigger] bitplane_block(s, 0, input@, 512 * i)
                        && #[trigger] bitplane_block(o, 0, old(output)@, 512 * i) ==> bitplane_block(mul_add_block(o, s, self.coefficient), 0, output@, 512 * i),
                forall|k: int| at <= k < len ==> #[trigger] output@[k] == old(output)@[k],
            decreases len - at,
        {
            let ghost before = output@;
            multiply_add_prepared_at(input, output, at, self.coefficient);
            proof {
                assert forall|i: int, s: Seq<u8>, o: Seq<u8>|
                    0 <= i < at / 512 + 1 && s.len() == 512 && o.len() == 512 && #[trigger] bitplane_block(s, 0, input@, 512 * i)
                        && #[trigger] bitplane_block(o, 0, old(output)@, 512 * i) implies bitplane_block(mul_add_block(o, s, self.coefficient), 0, output@, 512 * i) by {
                    if i < at / 512 {
                        assert(bitplane_block(mul_add_block(o, s, self.coefficient), 0, before, 512 * i));
                        assert forall|m: int, lane: int| 0 <= m < 128 && 0 <= lane < 32 implies #[trigger] bitplane::prepared_bit(output@, 512 * i, m, lane)
                            == bitplane::source_bit(mul_add_block(o, s, self.coefficient), 0, m, lane) by {
                            assert(bitplane::prepared_bit(before, 512 * i, m, lane) == bitplane::source_bit(mul_add_block(o, s, self.coefficient), 0, m, lane));
                            assert(output@[512 * i + 4 * m + lane / 8] == before[512 * i + 4 * m + lane / 8]);
                        }
                    } else {
                        assert(512 * i == at);
                        assert forall|m: int, lane: int| 0 <= m < 128 && 0 <= lane < 32 implies #[trigger] bitplane::prepared_bit(before, at as int, m, lane)
                            == bitplane::source_bit(o, 0, m, lane) by {
                            assert(bitplane::prepared_bit(old(output)@, at as int, m, lane) == bitplane::source_bit(o, 0, m, lane));
                            assert(before[at + 4 * m + lane / 8] == old(output)@[at + 4 * m + lane / 8]);
                        }
                        assert(bitplane_block(o, 0, before, at as int));
                    }
                }
            }
            at = at + 512;
        }
    }

    /// Multiply-add one prepared block.
    pub fn multiply_add_block(&self, input: &[u8], output: &mut [u8])
        requires
            input@.len() == 512,
            old(output)@.len() == 512,
        ensures
            final(output)@.len() == 512,
            chunks_mul_added(input@, old(output)@, final(output)@, self.coefficient),
    {
        self.multiply_add_chunks(input, output);
    }
}

/// XOR of byte `k` of the inputs `lo..hi`.
pub open spec fn xor_input_span(inputs: Seq<&[u8]>, lo: int, hi: int, k: int) -> u8
    decreases hi - lo,
{
    if hi <= lo {
        0
    } else {
        xor_input_span(inputs, lo, hi - 1, k) ^ inputs[hi - 1]@[k]
    }
}

/// Byte `k` of every input, XORed together.
pub open spec fn xor_of_inputs(inputs: Seq<&[u8]>, k: int) -> u8 {
    xor_input_span(inputs, 0, inputs.len() as int, k)
}

pub(crate) proof fn lemma_xor_u8(a: u8, b: u8, c: u8)
    by (bit_vector)
    ensures
        (a ^ b) ^ c == a ^ (b ^ c),
        a ^ 0u8 == a,
        a ^ a == 0u8,
        a ^ b == b ^ a,
{
}

/// Joining two adjacent spans of inputs.
pub proof fn lemma_xor_input_span_join(inputs: Seq<&[u8]>, a: int, b: int, c: int, k: int)
    requires
        a <= b <= c,
    ensures
        xor_input_span(inputs, a, b, k) ^ xor_input_span(inputs, b, c, k) == xor_input_span(inputs, a, c, k),
    decreases c - b,
{
    if c == b {
        lemma_xor_u8(xor_input_span(inputs, a, b, k), 0, 0);
    } else {
        lemma_xor_input_span_join(inputs, a, b, c - 1, k);
        lemma_xor_u8(xor_input_span(inputs, a, b, k), xor_input_span(inputs, b, c - 1, k), inputs[c - 1]@[k]);
    }
}

/// A pass over inputs `first..first + count` after the passes over the
/// inputs before it leaves the XOR of inputs `0..first + count`.
proof fn lemma_input_pass_accumulates(inputs: Seq<&[u8]>, len: int, base: Seq<u8>, mid: Seq<u8>, after: Seq<u8>, first: int, count: int)
    requires
        0 <= first,
        0 <= count,
        mid.len() == len,
        after.len() == len,
        base.len() == len,
        forall|k: int| 0 <= k < len ==> #[trigger] mid[k] == base[k] ^ xor_input_span(inputs, 0, first, k),
        forall|k: int| 0 <= k < len ==> #[trigger] after[k] == mid[k] ^ xor_input_span(inputs, first, first + count, k),
    ensures
        forall|k: int| 0 <= k < len ==> #[trigger] after[k] == base[k] ^ xor_input_span(inputs, 0, first + count, k),
{
    assert forall|k: int| 0 <= k < len implies #[trigger] after[k] == base[k] ^ xor_input_span(inputs, 0, first + count, k) by {
        assert(mid[k] == base[k] ^ xor_input_span(inputs, 0, first, k));
        lemma_xor_input_span_join(inputs, 0, first, first + count, k);
        lemma_xor_u8(base[k], xor_input_span(inputs, 0, first, k), xor_input_span(inputs, first, first + count, k));
    }
}

/// XOR one prepared input into a prepared output, a block of 512 bytes at a
/// time.  The prefetch hint does not change the result.
fn xor_prepared_bitplane_chunks_avx2_one(input: &[u8], output: &mut [u8], len: usize, _prefetch: Option<(usize, BitplaneAddPrefetchKind)>)
    requires
        input@.len() == len,
        old(output)@.len() == len,
        len % 512 == 0,
    ensures
        final(output)@.len() == len,
        forall|k: int| 0 <= k < len ==> #[trigger] final(output)@[k] == old(output)@[k] ^ input@[k],
{
    let mut pos: usize = 0;
    while pos < len
        invariant
            input@.len() == len,
            output@.len() == len,
            old(output)@.len() == len,
            len % 512 == 0,
            pos <= len,
            pos % 512 == 0,
            forall|j: int| 0 <= j < pos ==> #[trigger] output@[j] == old(output)@[j] ^ input@[j],
            forall|j: int| pos <= j < len ==> #[trigger] output@[j] == old(output)@[j],
        decreases len - pos,
    {
        let mut i: usize = 0;
        while i < 512
            invariant
                input@.len() == len,
                output@.len() == len,
                old(output)@.len() == len,
                pos + 512 <= len,
                i <= 512,
                forall|j: int| 0 <= j < pos + i ==> #[trigger] output@[j] == old(output)@[j] ^ input@[j],
                forall|j: int| pos + i <= j < len ==> #[trigger] output@[j] == old(output)@[j],
            decreases 512 - i,
        {
            output[pos + i] = output[pos + i] ^ input[pos + i];
            i = i + 1;
        }
        pos = pos + 512;
    }
}

/// XOR a prepared input into a prepared output (the same sum of the data
/// they hold).  The prefetch hint does not change the result.
pub fn xor_prepared_bitplane_chunks(input: &[u8], output: &mut [u8], prefetch: Option<(usize, BitplaneAddPrefetchKind)>)
    requires
        input@.len() == old(output)@.len(),
        input@.len() % 512 == 0,
    ensures
        final(output)@.len() == old(output)@.len(),
        forall|k: int| 0 <= k < input@.len() ==> #[trigger] final(output)@[k] == old(output)@[k] ^ input@[k],
{
    if input.len() == 0 {
        return;
    }
    xor_prepared_bitplane_chunks_avx2_one(input, output, input.len(), prefetch);
}

/// One pass of the multi-input kernel: XOR the `count` inputs starting at
/// input `first` into the output, byte by byte in input order.  The
/// prefetch hint does not change the result.
fn xor_prepared_bitplane_multi_chunks_avx2_core(inputs: &[&[u8]], first: usize, count: usize, output: &mut [u8], len: usize, _prefetch: Option<(usize, BitplaneAddPrefetchKind)>)
    requires
        count <= XOR_PACKED_MAX_SRCS,
        first + count <= inputs@.len(),
        old(output)@.len() == len,
        forall|j: int| 0 <= j < inputs@.len() ==> (#[trigger] inputs@[j])@.len() >= len,
    ensures
        final(output)@.len() == len,
        forall|k: int| 0 <= k < len ==> #[trigger] final(output)@[k] == old(output)@[k] ^ xor_input_span(inputs@, first as int, first + count, k),
{
    let n = inputs.len();
    let mut k: usize = 0;
    while k < len
        invariant
            n == inputs@.len(),
            count <= XOR_PACKED_MAX_SRCS,
            first + count <= inputs@.len(),
            output@.len() == len,
            old(output)@.len() == len,
            forall|j: int| 0 <= j < inputs@.len() ==> (#[trigger] inputs@[j])@.len() >= len,
            k <= len,
            forall|t: int| 0 <= t < k ==> #[trigger] output@[t] == old(output)@[t] ^ xor_input_span(inputs@, first as int, first + count, t),
            forall|t: int| k <= t < len ==> #[trigger] output@[t] == old(output)@[t],
        decreases len - k,
    {
        let mut data = output[k];
        let mut r: usize = 0;
        proof {
            lemma_xor_u8(data, 0, 0);
        }
        while r < count
            invariant
                n == inputs@.len(),
                count <= XOR_PACKED_MAX_SRCS,
                first + count <= inputs@.len(),
                old(output)@.len() == len,
                forall|j: int| 0 <= j < inputs@.len() ==> (#[trigger] inputs@[j])@.len() >= len,
                k < len,
                r <= count,
                data == old(output)@[k as int] ^ xor_input_span(inputs@, first as int, first + r, k as int),
            decreases count - r,
        {
            let input = inputs[first + r];
            proof {
                assert(inputs@[first + r]@.len() >= len);
                lemma_xor_u8(old(output)@[k as int], xor_input_span(inputs@, first as int, first + r, k as int), input@[k as int]);
            }
            data = data ^ input[k];
            r = r + 1;
        }
        proof {
            if count == 0 {
                lemma_xor_u8(data, 0, 0);
            }
        }
        output[k] = data;
        k = k + 1;
    }
}

/// The multi-input XOR: passes of six inputs (with the output prefetch hint
/// while the prefetch plan has rounds left, then the input hint), then one
/// pass over the rest.  The passes together add every input once.
fn xor_prepared_bitplane_multi_chunks_avx2(inputs: &[&[u8]], output: &mut [u8], len: usize, prefetch_in: Option<usize>, prefetch_out: Option<usize>)
    requires
        old(output)@.len() == len,
        forall|j: int| 0 <= j < inputs@.len() ==> (#[trigger] inputs@[j])@.len() >= len,
    ensures
        final(output)@.len() == len,
        forall|k: int| 0 <= k < len ==> #[trigger] final(output)@[k] == old(output)@[k] ^ xor_of_inputs(inputs@, k),
{
    let method_info = xor_jit_create_avx2_method_info();
    let plan = xor_jit_create_prefetch_plan(method_info, len);
    proof {
        vstd::arithmetic::power2::lemma_pow2_pos(method_info.prefetch_downscale as nat);
    }
    let n = inputs.len();
    let mut region: usize = 0;
    let mut output_pf_rounds = plan.output_prefetch_rounds;
    let mut prefetch_out_ptr: Option<usize> = match prefetch_out {
        Some(ptr) => Some(ptr.wrapping_add(plan.pf_len)),
        None => None,
    };
    proof {
        assert forall|k: int| 0 <= k < len implies #[trigger] output@[k] == old(output)@[k] ^ xor_input_span(inputs@, 0, region as int, k) by {
            lemma_xor_u8(output@[k], 0, 0);
        }
    }
    while output_pf_rounds > 0 && n - region >= XOR_PACKED_REGIONS_PER_CALL
        invariant
            n == inputs@.len(),
            region <= n,
            output@.len() == len,
            old(output)@.len() == len,
            forall|j: int| 0 <= j < inputs@.len() ==> (#[trigger] inputs@[j])@.len() >= len,
            prefetch_out_ptr is Some ==> output_pf_rounds > 0,
            forall|k: int| 0 <= k < len ==> #[trigger] output@[k] == old(output)@[k] ^ xor_input_span(inputs@, 0, region as int, k),
        decreases n - region,
    {
        let hint = match prefetch_out_ptr {
            Some(ptr) => Some((ptr, BitplaneAddPrefetchKind::Output)),
            None => None,
        };
        let ghost mid = output@;
        xor_prepared_bitplane_multi_chunks_avx2_core(inputs, region, XOR_PACKED_REGIONS_PER_CALL, output, len, hint);
        proof {
            lemma_input_pass_accumulates(inputs@, len as int, old(output)@, mid, output@, region as int, XOR_PACKED_REGIONS_PER_CALL as int);
        }
        region = region + XOR_PACKED_REGIONS_PER_CALL;
        output_pf_rounds = output_pf_rounds - 1;
        prefetch_out_ptr = if output_pf_rounds > 0 {
            match prefetch_out_ptr {
                Some(ptr) => Some(ptr.wrapping_add(plan.pf_len)),
                None => None,
            }
        } else {
            None
        };
    }
    let remaining = n - region;
    if let Some(prefetch_ptr) = prefetch_out_ptr {
        if remaining >= XOR_PACKED_INTERLEAVE {
            let ghost mid = output@;
            xor_prepared_bitplane_multi_chunks_avx2_core(inputs, region, remaining, output, len, Some((prefetch_ptr, BitplaneAddPrefetchKind::Output)));
            proof {
                lemma_input_pass_accumulates(inputs@, len as int, old(output)@, mid, output@, region as int, remaining as int);
            }
            return;
        }
    }
    if let Some(prefetch_in_ptr) = prefetch_in {
        let mut prefetch_ptr = prefetch_in_ptr.wrapping_add(plan.pf_len);
        while n - region >= XOR_PACKED_REGIONS_PER_CALL
            invariant
                n == inputs@.len(),
                region <= n,
                output@.len() == len,
                old(output)@.len() == len,
                forall|j: int| 0 <= j < inputs@.len() ==> (#[trigger] inputs@[j])@.len() >= len,
                forall|k: int| 0 <= k < len ==> #[trigger] output@[k] == old(output)@[k] ^ xor_input_span(inputs@, 0, region as int, k),
            decreases n - region,
        {
            let ghost mid = output@;
            xor_prepared_bitplane_multi_chunks_avx2_core(inputs, region, XOR_PACKED_REGIONS_PER_CALL, output, len, Some((prefetch_ptr, BitplaneAddPrefetchKind::Input)));
            proof {
                lemma_input_pass_accumulates(inputs@, len as int, old(output)@, mid, output@, region as int, XOR_PACKED_REGIONS_PER_CALL as int);
            }
            region = region + XOR_PACKED_REGIONS_PER_CALL;
            prefetch_ptr = prefetch_ptr.wrapping_add(plan.pf_len);
        }
    } else {
        while n - region >= XOR_PACKED_REGIONS_PER_CALL
            invariant
                n == inputs@.len(),
                region <= n,
                output@.len() == len,
                old(output)@.len() == len,
                forall|j: int| 0 <= j < inputs@.len() ==> (#[trigger] inputs@[j])@.len() >= len,
                forall|k: int| 0 <= k < len ==> #[trigger] output@[k] == old(output)@[k] ^ xor_input_span(inputs@, 0, region as int, k),
            decreases n - region,
        {
            let ghost mid = output@;
            xor_prepared_bitplane_multi_chunks_avx2_core(inputs, region, XOR_PACKED_REGIONS_PER_CALL, output, len, None);
            proof {
                lemma_input_pass_accumulates(inputs@, len as int, old(output)@, mid, output@, region as int, XOR_PACKED_REGIONS_PER_CALL as int);
            }
            region = region + XOR_PACKED_REGIONS_PER_CALL;
        }
    }
    let remaining = n - region;
    if remaining >= XOR_PACKED_INTERLEAVE {
        let ghost mid = output@;
        xor_prepared_bitplane_multi_chunks_avx2_core(inputs, region, remaining, output, len, None);
        proof {
            lemma_input_pass_accumulates(inputs@, len as int, old(output)@, mid, output@, region as int, remaining as int);
        }
    }
}

/// XOR several prepared inputs into a prepared output.  The prefetch hints
/// (addresses) do not change the result.
pub fn xor_prepared_bitplane_multi_chunks(inputs: &[&[u8]], len: usize, output: &mut [u8], prefetch_in: Option<usize>, prefetch_out: Option<usize>)
    requires
        old(output)@.len() == len,
        len % 512 == 0,
        forall|j: int| 0 <= j < inputs@.len() ==> (#[trigger] inputs@[j])@.len() >= len,
    ensures
        final(output)@.len() == len,
        forall|k: int| 0 <= k < len ==> #[trigger] final(output)@[k] == old(output)@[k] ^ xor_of_inputs(inputs@, k),
{
    if inputs.len() == 0 || len == 0 {
        proof {
            assert forall|k: int| 0 <= k < len implies #[trigger] output@[k] == old(output)@[k] ^ xor_of_inputs(inputs@, k) by {
                lemma_xor_u8(output@[k], 0, 0);
            }
        }
        return;
    }
    xor_prepared_bitplane_multi_chunks_avx2(inputs, output, len, prefetch_in, prefetch_out);
}

/// The same as [`xor_prepared_bitplane_multi_chunks`].
pub fn xor_prepared_bitplane_multi_chunks_v1i6(inputs: &[&[u8]], len: usize, output: &mut [u8], prefetch_in: Option<usize>, prefetch_out: Option<usize>)
    requires
        old(output)@.len() == len,
        len % 512 == 0,
        forall|j: int| 0 <= j < inputs@.len() ==> (#[trigger] inputs@[j])@.len() >= len,
    ensures
        final(output)@.len() == len,
        forall|k: int| 0 <= k < len ==> #[trigger] final(output)@[k] == old(output)@[k] ^ xor_of_inputs(inputs@, k),
{
    xor_prepared_bitplane_multi_chunks(inputs, len, output, prefetch_in, prefetch_out);
}

/// `code` is the generated body of the plan of `coefficient` that follows
/// the static prefix, with or without prefetching.
pub open spec fn generated_body(code: Seq<u8>, prefix_len: nat, coefficient: u16, prefetch: bool) -> bool {
    exists|plan: BitplaneCoeffPlan|
        #![trigger turbo::pairs_instrs(plan.turbo_pairs@, 8)]
        plan.coefficient == coefficient
        && (forall|ob: int| 0 <= ob < 16 ==> #[trigger] dependency_mask_ok(plan.output_masks@[ob], coefficient, ob))
        && (forall|pair: int| 0 <= pair < 8 ==> #[trigger] plan.turbo_pairs@[pair] == turbo::output_pair_plan_spec(plan.output_masks@, pair))
        && code == encode_all(dynamic_loop(prefix_len, turbo::pairs_instrs(plan.turbo_pairs@, 8), turbo::prefetch_step(prefetch), false))
}

/// A reusable code buffer for the multiply-add of one coefficient at a
/// time: the static prefix, then the body of the coefficient last loaded.
pub struct XorJitBitplaneScratch {
    pub code: Vec<u8>,
    pub code_start: usize,
    pub tables: turbo::TurboDepTables,
    pub loaded: Option<(u16, bool)>,
}

impl XorJitBitplaneScratch {
    /// The buffer holds the static prefix, and after it the body of the
    /// loaded coefficient, if any.
    pub open spec fn wf(&self) -> bool {
        &&& turbo::dep_tables_ok(&self.tables)
        &&& self.code_start == encode_all(turbo::static_prefix_instrs()).len()
        &&& self.code@.len() >= self.code_start
        &&& self.code@.subrange(0, self.code_start as int) == encode_all(turbo::static_prefix_instrs())
        &&& (self.loaded matches Some((c, prefetch)) ==> generated_body(self.code@.subrange(self.code_start as int, self.code@.len() as int), self.code_start as nat, c, prefetch))
    }

    /// A buffer holding the static prefix and no body.
    pub fn new() -> (r: Result<Self, std::io::Error>)
        ensures
            r matches Ok(s) && s.wf() && s.loaded is None && s.code@ == encode_all(turbo::static_prefix_instrs()),
    {
        let code = turbo::xor_jit_body_static_prefix();
        let code_start = code.len();
        let tables = turbo::build_turbo_dep_tables();
        proof {
            assert(code@.subrange(0, code_start as int) =~= code@);
        }
        Ok(Self { code, code_start, tables, loaded: None })
    }

    /// Generate the body of `coefficient` after the static prefix; returns
    /// the length of the code.
    pub fn load_generated_for_coefficient(&mut self, coefficient: u16, prefetch: bool) -> (r: Result<usize, std::io::Error>)
        requires
            old(self).wf(),
        ensures
            final(self).wf(),
            final(self).loaded == Some((coefficient, prefetch)),
            r matches Ok(n) && n == final(self).code@.len(),
    {
        let plan = BitplaneCoeffPlan::new(coefficient);
        proof {
            turbo::lemma_static_prefix_len();
        }
        self.code.truncate(self.code_start);
        let ghost before = self.code@;
        let dynamic_len = turbo::emit_bitplane_chunk_program_dynamic_into(&plan, &self.tables, prefetch, self.code_start, &mut self.code);
        self.loaded = Some((coefficient, prefetch));
        proof {
            assert(before =~= encode_all(turbo::static_prefix_instrs()));
            assert(self.code@.subrange(0, self.code_start as int) =~= before);
            let body = self.code@.subrange(self.code_start as int, self.code@.len() as int);
            assert(body =~= encode_all(dynamic_loop(self.code_start as nat, turbo::pairs_instrs(plan.turbo_pairs@, 8), turbo::prefetch_step(prefetch), false)));
            assert(generated_body(body, self.code_start as nat, coefficient, prefetch));
        }
        Ok(self.code_start + dynamic_len)
    }

    /// Generate the body of `coefficient` without prefetching.
    pub fn load_body_for_coefficient(&mut self, coefficient: u16) -> (r: Result<usize, std::io::Error>)
        requires
            old(self).wf(),
        ensures
            final(self).wf(),
            final(self).loaded == Some((coefficient, false)),
            r matches Ok(n) && n == final(self).code@.len(),
    {
        self.load_generated_for_coefficient(coefficient, false)
    }

    /// Generate the body of `coefficient` with prefetching.
    pub fn load_prefetch_for_coefficient(&mut self, coefficient: u16) -> (r: Result<usize, std::io::Error>)
        requires
            old(self).wf(),
        ensures
            final(self).wf(),
            final(self).loaded == Some((coefficient, true)),
            r matches Ok(n) && n == final(self).code@.len(),
    {
        self.load_generated_for_coefficient(coefficient, true)
    }

    /// Multiply-add every prepared block of `input` into `output` with the
    /// body of the handle's coefficient, loading it first; coefficient zero
    /// leaves everything unchanged.  The prefetch hint (an address) only
    /// selects the prefetching body.
    pub fn multiply_add_chunks_with_prefetch_handle(&mut self, prepared: XorJitPreparedBitplaneHandle, input: &[u8], output: &mut [u8], prefetch: Option<usize>)
        requires
            old(self).wf(),
            input@.len() == old(output)@.len(),
            input@.len() % 512 == 0,
            input@.len() + 1024 <= usize::MAX,
        ensures
            final(self).wf(),
            final(output)@.len() == old(output)@.len(),
            (prepared.coefficient == 0 || input@.len() == 0) ==> final(output)@ == old(output)@ && final(self).loaded == old(self).loaded,
            (prepared.coefficient != 0 && input@.len() != 0) ==> chunks_mul_added(input@, old(output)@, final(output)@, prepared.coefficient)
                && final(self).loaded == Some((prepared.coefficient, prefetch is Some)),
    {
        if input.len() == 0 {
            return;
        }
        let coefficient = prepared.coefficient;
        if coefficient == 0 {
            return;
        }
        let _ = self.load_generated_for_coefficient(coefficient, prefetch.is_some());
        let kernel = XorJitBitplaneKernel { coefficient, plan: BitplaneCoeffPlan::new(coefficient) };
        kernel.multiply_add_chunks(input, output);
    }

    /// [`XorJitBitplaneScratch::multiply_add_chunks_with_prefetch_handle`]
    /// with the handle of a prepared coefficient.
    pub fn multiply_add_chunks_with_prefetch(&mut self, prepared: &XorJitPreparedCoeff, input: &[u8], output: &mut [u8], prefetch: Option<usize>)
        requires
            old(self).wf(),
            input@.len() == old(output)@.len(),
            input@.len() % 512 == 0,
            input@.len() + 1024 <= usize::MAX,
        ensures
            final(self).wf(),
            final(output)@.len() == old(output)@.len(),
            (prepared.coefficient == 0 || input@.len() == 0) ==> final(output)@ == old(output)@ && final(self).loaded == old(self).loaded,
            (prepared.coefficient != 0 && input@.len() != 0) ==> chunks_mul_added(input@, old(output)@, final(output)@, prepared.coefficient)
                && final(self).loaded == Some((prepared.coefficient, prefetch is Some)),
    {
        self.multiply_add_chunks_with_prefetch_handle(prepared.bitplane_handle(), input, output, prefetch)
    }
}

/// XOR of byte `k` of the regions `lo..hi` of a packed buffer whose regions
/// are `len` bytes each.
pub open spec fn xor_region_span(src: Seq<u8>, len: int, lo: int, hi: int, k: int) -> u8
    decreases hi - lo,
{
    if hi <= lo {
        0
    } else {
        xor_region_span(src, len, lo, hi - 1, k) ^ src[(hi - 1) * len + k]
    }
}

/// Joining two adjacent spans of regions.
pub proof fn lemma_xor_region_span_join(src: Seq<u8>, len: int, a: int, b: int, c: int, k: int)
    requires
        a <= b <= c,
    ensures
        xor_region_span(src, len, a, b, k) ^ xor_region_span(src, len, b, c, k) == xor_region_span(src, len, a, c, k),
    decreases c - b,
{
    if c == b {
        lemma_xor_u8(xor_region_span(src, len, a, b, k), 0, 0);
    } else {
        lemma_xor_region_span_join(src, len, a, b, c - 1, k);
        lemma_xor_u8(xor_region_span(src, len, a, b, k), xor_region_span(src, len, b, c - 1, k), src[(c - 1) * len + k]);
    }
}

/// Most regions one pass of the packed kernel adds.
pub const XOR_PACKED_MAX_SRCS: usize = 18;

/// Regions handed to one pass of the packed kernel.
pub const XOR_PACKED_REGIONS_PER_CALL: usize = 6;

/// Regions the packed kernel interleaves.
pub const XOR_PACKED_INTERLEAVE: usize = 1;

/// One pass of the packed kernel: XOR the `count` regions starting at
/// region `first` into the output, byte by byte in region order.  The
/// prefetch hint does not change the result.
fn xor_packed_multi_region_v16i1_core(src: &[u8], first: usize, count: usize, output: &mut [u8], len: usize, _prefetch: Option<(usize, BitplaneAddPrefetchKind)>)
    requires
        count <= XOR_PACKED_MAX_SRCS,
        old(output)@.len() == len,
        (first + count) * len <= src@.len(),
    ensures
        final(output)@.len() == len,
        forall|k: int| 0 <= k < len ==> #[trigger] final(output)@[k] == old(output)@[k] ^ xor_region_span(src@, len as int, first as int, first + count, k),
{
    let src_len = src.len();
    let mut k: usize = 0;
    while k < len
        invariant
            src_len == src@.len(),
            count <= XOR_PACKED_MAX_SRCS,
            output@.len() == len,
            old(output)@.len() == len,
            (first + count) * len <= src@.len(),
            k <= len,
            forall|t: int| 0 <= t < k ==> #[trigger] output@[t] == old(output)@[t] ^ xor_region_span(src@, len as int, first as int, first + count, t),
            forall|t: int| k <= t < len ==> #[trigger] output@[t] == old(output)@[t],
        decreases len - k,
    {
        let mut data = output[k];
        let mut r: usize = 0;
        proof {
            lemma_xor_u8(data, 0, 0);
        }
        while r < count
            invariant
                src_len == src@.len(),
                count <= XOR_PACKED_MAX_SRCS,
                old(output)@.len() == len,
                (first + count) * len <= src@.len(),
                k < len,
                r <= count,
                data == old(output)@[k as int] ^ xor_region_span(src@, len as int, first as int, first + r, k as int),
            decreases count - r,
        {
            proof {
                assert((first + r) * len + k < (first + count) * len && first + r <= (first + r) * len
                    && (first + r) * len <= (first + count) * len) by (nonlinear_arith)
                    requires
                        r < count,
                        k < len,
                ;
                lemma_xor_u8(old(output)@[k as int], xor_region_span(src@, len as int, first as int, first + r, k as int), src@[(first + r) * len + k]);
            }
            data = data ^ src[(first + r) * len + k];
            r = r + 1;
        }
        proof {
            if count == 0 {
                lemma_xor_u8(data, 0, 0);
            }
        }
        output[k] = data;
        k = k + 1;
    }
}

/// The packed multi-region XOR: passes of six regions (with the output
/// prefetch hint while the prefetch plan has rounds left, then the input
/// hint), then one pass over the rest.  The passes together add every
/// region once.
fn xor_packed_multi_region_v16i1_avx2(src: &[u8], regions: usize, output: &mut [u8], len: usize, method_info: XorJitCreateMethodInfo, prefetch_in: Option<usize>, prefetch_out: Option<usize>)
    requires
        method_info.prefetch_downscale < 32,
        old(output)@.len() == len,
        regions * len <= src@.len(),
    ensures
        final(output)@.len() == len,
        forall|k: int| 0 <= k < len ==> #[trigger] final(output)@[k] == old(output)@[k] ^ xor_region_span(src@, len as int, 0, regions as int, k),
{
    let plan = xor_jit_create_prefetch_plan(method_info, len);
    proof {
        vstd::arithmetic::power2::lemma_pow2_pos(method_info.prefetch_downscale as nat);
    }
    let mut region: usize = 0;
    let mut output_pf_rounds = plan.output_prefetch_rounds;
    let mut prefetch_out_ptr: Option<usize> = match prefetch_out {
        Some(ptr) => Some(ptr.wrapping_add(plan.pf_len)),
        None => None,
    };
    proof {
        assert forall|k: int| 0 <= k < len implies #[trigger] output@[k] == old(output)@[k] ^ xor_region_span(src@, len as int, 0, region as int, k) by {
            lemma_xor_u8(output@[k], 0, 0);
        }
    }
    while output_pf_rounds > 0 && regions - region >= XOR_PACKED_REGIONS_PER_CALL
        invariant
            region <= regions,
            regions * len <= src@.len(),
            output@.len() == len,
            old(output)@.len() == len,
            prefetch_out_ptr is Some ==> output_pf_rounds > 0,
            forall|k: int| 0 <= k < len ==> #[trigger] output@[k] == old(output)@[k] ^ xor_region_span(src@, len as int, 0, region as int, k),
        decreases regions - region,
    {
        let hint = match prefetch_out_ptr {
            Some(ptr) => Some((ptr, BitplaneAddPrefetchKind::Output)),
            None => None,
        };
        let ghost mid = output@;
        xor_packed_pass(src, region, XOR_PACKED_REGIONS_PER_CALL, regions, output, len, hint);
        proof {
            lemma_pass_accumulates(src@, len as int, old(output)@, mid, output@, region as int, XOR_PACKED_REGIONS_PER_CALL as int);
        }
        region = region + XOR_PACKED_REGIONS_PER_CALL;
        output_pf_rounds = output_pf_rounds - 1;
        prefetch_out_ptr = if output_pf_rounds > 0 {
            match prefetch_out_ptr {
                Some(ptr) => Some(ptr.wrapping_add(plan.pf_len)),
                None => None,
            }
        } else {
            None
        };
    }
    let remaining = regions - region;
    if let Some(prefetch_ptr) = prefetch_out_ptr {
        if remaining >= XOR_PACKED_INTERLEAVE {
            let ghost mid = output@;
            xor_packed_pass(src, region, remaining, regions, output, len, Some((prefetch_ptr, BitplaneAddPrefetchKind::Output)));
            proof {
                lemma_pass_accumulates(src@, len as int, old(output)@, mid, output@, region as int, remaining as int);
            }
            return;
        }
    }
    if let Some(prefetch_in_ptr) = prefetch_in {
        let mut prefetch_ptr = prefetch_in_ptr.wrapping_add(plan.pf_len);
        while regions - region >= XOR_PACKED_REGIONS_PER_CALL
            invariant
                region <= regions,
                regions * len <= src@.len(),
                output@.len() == len,
                old(output)@.len() == len,
                forall|k: int| 0 <= k < len ==> #[trigger] output@[k] == old(output)@[k] ^ xor_region_span(src@, len as int, 0, region as int, k),
            decreases regions - region,
        {
            let ghost mid = output@;
            xor_packed_pass(src, region, XOR_PACKED_REGIONS_PER_CALL, regions, output, len, Some((prefetch_ptr, BitplaneAddPrefetchKind::Input)));
            proof {
                lemma_pass_accumulates(src@, len as int, old(output)@, mid, output@, region as int, XOR_PACKED_REGIONS_PER_CALL as int);
            }
            region = region + XOR_PACKED_REGIONS_PER_CALL;
            prefetch_ptr = prefetch_ptr.wrapping_add(plan.pf_len);
        }
    } else {
        while regions - region >= XOR_PACKED_REGIONS_PER_CALL
            invariant
                region <= regions,
                regions * len <= src@.len(),
                output@.len() == len,
                old(output)@.len() == len,
                forall|k: int| 0 <= k < len ==> #[trigger] output@[k] == old(output)@[k] ^ xor_region_span(src@, len as int, 0, region as int, k),
            decreases regions - region,
        {
            let ghost mid = output@;
            xor_packed_pass(src, region, XOR_PACKED_REGIONS_PER_CALL, regions, output, len, None);
            proof {
                lemma_pass_accumulates(src@, len as int, old(output)@, mid, output@, region as int, XOR_PACKED_REGIONS_PER_CALL as int);
            }
            region = region + XOR_PACKED_REGIONS_PER_CALL;
        }
    }
    let remaining = regions - region;
    if remaining >= XOR_PACKED_INTERLEAVE {
        let ghost mid = output@;
        xor_packed_pass(src, region, remaining, regions, output, len, None);
        proof {
            lemma_pass_accumulates(src@, len as int, old(output)@, mid, output@, region as int, remaining as int);
        }
    }
}

/// XOR the `regions` regions of `len` bytes that `src` packs one after the
/// other into `output`.  The prefetch hints (addresses) do not change the
/// result.
pub fn xor_packed_multi_region_v16i1(src: &[u8], regions: usize, len: usize, output: &mut [u8], prefetch_in: Option<usize>, prefetch_out: Option<usize>)
    requires
        old(output)@.len() == len,
        len % 512 == 0,
        regions * len <= src@.len(),
    ensures
        final(output)@.len() == len,
        forall|k: int| 0 <= k < len ==> #[trigger] final(output)@[k] == old(output)@[k] ^ xor_region_span(src@, len as int, 0, regions as int, k),
{
    let method_info = xor_jit_create_avx2_method_info();
    xor_packed_multi_region_v16i1_ptr(src, regions, output, len, method_info, prefetch_in, prefetch_out);
}

/// [`xor_packed_multi_region_v16i1`] with the method parameters given.
pub fn xor_packed_multi_region_v16i1_ptr(src: &[u8], regions: usize, output: &mut [u8], len: usize, method_info: XorJitCreateMethodInfo, prefetch_in: Option<usize>, prefetch_out: Option<usize>)
    requires
        method_info.prefetch_downscale < 32,
        old(output)@.len() == len,
        len % 512 == 0,
        regions * len <= src@.len(),
    ensures
        final(output)@.len() == len,
        forall|k: int| 0 <= k < len ==> #[trigger] final(output)@[k] == old(output)@[k] ^ xor_region_span(src@, len as int, 0, regions as int, k),
{
    if regions == 0 || len == 0 {
        proof {
            assert forall|k: int| 0 <= k < len implies #[trigger] output@[k] == old(output)@[k] ^ xor_region_span(src@, len as int, 0, regions as int, k) by {
                lemma_xor_u8(output@[k], 0, 0);
            }
        }
        return;
    }
    xor_packed_multi_region_v16i1_avx2(src, regions, output, len, method_info, prefetch_in, prefetch_out);
}

/// A pass over regions `region..region + count` after the passes over the
/// regions before it leaves the XOR of regions `0..region + count`.
proof fn lemma_pass_accumulates(src: Seq<u8>, len: int, base: Seq<u8>, mid: Seq<u8>, after: Seq<u8>, region: int, count: int)
    requires
        0 <= region,
        0 <= count,
        mid.len() == len,
        after.len() == len,
        base.len() == len,
        forall|k: int| 0 <= k < len ==> #[trigger] mid[k] == base[k] ^ xor_region_span(src, len, 0, region, k),
        forall|k: int| 0 <= k < len ==> #[trigger] after[k] == mid[k] ^ xor_region_span(src, len, region, region + count, k),
    ensures
        forall|k: int| 0 <= k < len ==> #[trigger] after[k] == base[k] ^ xor_region_span(src, len, 0, region + count, k),
{
    assert forall|k: int| 0 <= k < len implies #[trigger] after[k] == base[k] ^ xor_region_span(src, len, 0, region + count, k) by {
        assert(mid[k] == base[k] ^ xor_region_span(src, len, 0, region, k));
        lemma_xor_region_span_join(src, len, 0, region, region + count, k);
        lemma_xor_u8(base[k], xor_region_span(src, len, 0, region, k), xor_region_span(src, len, region, region + count, k));
    }
}

/// One pass of the packed kernel over regions `region..region + count`,
/// accumulated onto the regions before it.
fn xor_packed_pass(src: &[u8], region: usize, count: usize, regions: usize, output: &mut [u8], len: usize, prefetch: Option<(usize, BitplaneAddPrefetchKind)>)
    requires
        count <= XOR_PACKED_MAX_SRCS,
        region + count <= regions,
        regions * len <= src@.len(),
        old(output)@.len() == len,
    ensures
        final(output)@.len() == len,
        forall|k: int| 0 <= k < len ==> #[trigger] final(output)@[k] == old(output)@[k] ^ xor_region_span(src@, len as int, region as int, region + count, k),
{
    proof {
        assert((region + count) * len <= regions * len) by (nonlinear_arith)
            requires
                region + count <= regions,
        ;
    }
    xor_packed_multi_region_v16i1_core(src, region, count, output, len, prefetch);
}

impl XorJitBitplaneKernel {
    /// [`XorJitBitplaneKernel::multiply_add_chunks`]; the prefetch hint
    /// (an address) does not change the result.
    pub fn multiply_add_chunks_with_prefetch(&self, input: &[u8], output: &mut [u8], _prefetch: Option<usize>)
        requires
            input@.len() == old(output)@.len(),
            input@.len() % 512 == 0,
            input@.len() + 1024 <= usize::MAX,
        ensures
            final(output)@.len() == old(output)@.len(),
            chunks_mul_added(input@, old(output)@, final(output)@, self.coefficient),
    {
        self.multiply_add_chunks(input, output);
    }
}

/// `output` plus `c` times the first `len` bytes of `input` (the bytes of
/// `output` from `len` on are kept).
pub open spec fn add_product(output: Seq<u8>, input: Seq<u8>, len: nat, c: u16) -> Seq<u8> {
    mul_into(c, input.subrange(0, len as int), output, WriteOp::Add)
}

/// Adds `c` times the first `len` bytes of `input` into `output`.
fn add_product_prefix(output: &mut [u8], input: &[u8], len: usize, c: u16)
    requires
        len <= input@.len(),
        len <= old(output)@.len(),
    ensures
        final(output)@ == add_product(old(output)@, input@, len as nat, c),
{
    let part = &input[0..len];
    let table = build_split_mul_table(Galois16::new(c));
    let ghost before = output@;
    process_slice_multiply_add(part, output, &table);
    proof {
        lemma_tables_multiply(&table, c, part@, before, output@, WriteOp::Add);
    }
}

/// Multiply-add one slice by a prepared coefficient:
/// `output ^= coefficient * input` over the common length.
pub fn process_slice_multiply_add_xor_jit(input: &[u8], output: &mut [u8], prepared: &XorJitPreparedCoeff, _flavor: XorJitFlavor)
    ensures
        final(output)@ == mul_into(prepared.coefficient, input@, old(output)@, WriteOp::Add),
{
    let table = build_split_mul_table(Galois16::new(prepared.coefficient));
    let ghost before = output@;
    process_slice_multiply_add(input, output, &table);
    proof {
        lemma_tables_multiply(&table, prepared.coefficient, input@, before, output@, WriteOp::Add);
    }
}

/// Multiply-add two slices into one output over their common length.
pub fn process_slices_multiply_add_xor_jit_x2(
    input_a: &[u8],
    prepared_a: &XorJitPreparedCoeff,
    input_b: &[u8],
    prepared_b: &XorJitPreparedCoeff,
    output: &mut [u8],
    _flavor: XorJitFlavor,
)
    ensures
        ({
            let len = vstd::math::min(vstd::math::min(input_a@.len() as int, input_b@.len() as int), old(output)@.len() as int) as nat;
            final(output)@ == add_product(add_product(old(output)@, input_a@, len, prepared_a.coefficient), input_b@, len, prepared_b.coefficient)
        }),
{
    let mut len = input_a.len();
    if input_b.len() < len {
        len = input_b.len();
    }
    if output.len() < len {
        len = output.len();
    }
    add_product_prefix(output, input_a, len, prepared_a.coefficient);
    add_product_prefix(output, input_b, len, prepared_b.coefficient);
}

/// The common length of four inputs and an output.
pub open spec fn common_len4(a: Seq<u8>, b: Seq<u8>, c: Seq<u8>, d: Seq<u8>, o: nat) -> nat {
    vstd::math::min(vstd::math::min(vstd::math::min(vstd::math::min(a.len() as int, b.len() as int), c.len() as int), d.len() as int), o as int) as nat
}

/// `output` plus the four products over the first `len` bytes.
pub open spec fn add_four(output: Seq<u8>, a: Seq<u8>, b: Seq<u8>, c: Seq<u8>, d: Seq<u8>, len: nat, ca: u16, cb: u16, cc: u16, cd: u16) -> Seq<u8> {
    add_product(add_product(add_product(add_product(output, a, len, ca), b, len, cb), c, len, cc), d, len, cd)
}

fn common_len(a: &[u8], b: &[u8], c: &[u8], d: &[u8], o: usize) -> (len: usize)
    ensures
        len == common_len4(a@, b@, c@, d@, o as nat),
{
    let mut len = a.len();
    if b.len() < len {
        len = b.len();
    }
    if c.len() < len {
        len = c.len();
    }
    if d.len() < len {
        len = d.len();
    }
    if o < len {
        len = o;
    }
    len
}

/// Adds the four products over the first `len` bytes into `output`.
fn add_four_into(output: &mut [u8], a: &[u8], b: &[u8], c: &[u8], d: &[u8], len: usize, ca: u16, cb: u16, cc: u16, cd: u16)
    requires
        len <= a@.len() && len <= b@.len() && len <= c@.len() && len <= d@.len(),
        len <= old(output)@.len(),
    ensures
        final(output)@ == add_four(old(output)@, a@, b@, c@, d@, len as nat, ca, cb, cc, cd),
{
    add_product_prefix(output, a, len, ca);
    add_product_prefix(output, b, len, cb);
    add_product_prefix(output, c, len, cc);
    add_product_prefix(output, d, len, cd);
}

/// Multiply-add four slices into one output over their common length.
pub fn process_slices_multiply_add_xor_jit_x4(
    input_a: &[u8],
    prepared_a: &XorJitPreparedCoeff,
    input_b: &[u8],
    prepared_b: &XorJitPreparedCoeff,
    input_c: &[u8],
    prepared_c: &XorJitPreparedCoeff,
    input_d: &[u8],
    prepared_d: &XorJitPreparedCoeff,
    output: &mut [u8],
    _flavor: XorJitFlavor,
)
    ensures
        final(output)@ == add_four(old(output)@, input_a@, input_b@, input_c@, input_d@,
            common_len4(input_a@, input_b@, input_c@, input_d@, old(output)@.len()),
            prepared_a.coefficient, prepared_b.coefficient, prepared_c.coefficient, prepared_d.coefficient),
{
    let len = common_len(input_a, input_b, input_c, input_d, output.len());
    add_four_into(output, input_a, input_b, input_c, input_d, len,
        prepared_a.coefficient, prepared_b.coefficient, prepared_c.coefficient, prepared_d.coefficient);
}

/// Multiply-add four slices into each of two outputs, each output with its
/// own coefficients, over the common length of all six slices.
pub fn process_slices_multiply_add_xor_jit_x4_inputs_x2_outputs(
    input_a: &[u8],
    input_b: &[u8],
    input_c: &[u8],
    input_d: &[u8],
    coeff_a0: &XorJitPreparedCoeff,
    coeff_b0: &XorJitPreparedCoeff,
    coeff_c0: &XorJitPreparedCoeff,
    coeff_d0: &XorJitPreparedCoeff,
    output_0: &mut [u8],
    coeff_a1: &XorJitPreparedCoeff,
    coeff_b1: &XorJitPreparedCoeff,
    coeff_c1: &XorJitPreparedCoeff,
    coeff_d1: &XorJitPreparedCoeff,
    output_1: &mut [u8],
    _flavor: XorJitFlavor,
)
    ensures
        ({
            let len = vstd::math::min(
                common_len4(input_a@, input_b@, input_c@, input_d@, old(output_0)@.len()) as int,
                old(output_1)@.len() as int,
            ) as nat;
            &&& final(output_0)@ == add_four(old(output_0)@, input_a@, input_b@, input_c@, input_d@, len,
                coeff_a0.coefficient, coeff_b0.coefficient, coeff_c0.coefficient, coeff_d0.coefficient)
            &&& final(output_1)@ == add_four(old(output_1)@, input_a@, input_b@, input_c@, input_d@, len,
                coeff_a1.coefficient, coeff_b1.coefficient, coeff_c1.coefficient, coeff_d1.coefficient)
        }),
{
    let mut len = common_len(input_a, input_b, input_c, input_d, output_0.len());
    if output_1.len() < len {
        len = output_1.len();
    }
    add_four_into(output_0, input_a, input_b, input_c, input_d, len,
        coeff_a0.coefficient, coeff_b0.coefficient, coeff_c0.coefficient, coeff_d0.coefficient);
    add_four_into(output_1, input_a, input_b, input_c, input_d, len,
        coeff_a1.coefficient, coeff_b1.coefficient, coeff_c1.coefficient, coeff_d1.coefficient);
}

/// Multiply-add four slices into each of four outputs, each output with
/// its own coefficients, over the common length of all eight slices.
pub fn process_slices_multiply_add_xor_jit_x4_inputs_x4_outputs(
    input_a: &[u8],
    input_b: &[u8],
    input_c: &[u8],
    input_d: &[u8],
    coeff_a0: &XorJitPreparedCoeff,
    coeff_b0: &XorJitPreparedCoeff,
    coeff_c0: &XorJitPreparedCoeff,
    coeff_d0: &XorJitPreparedCoeff,
    output_0: &mut [u8],
    coeff_a1: &XorJitPreparedCoeff,
    coeff_b1: &XorJitPreparedCoeff,
    coeff_c1: &XorJitPreparedCoeff,
    coeff_d1: &XorJitPreparedCoeff,
    output_1: &mut [u8],
    coeff_a2: &XorJitPreparedCoeff,
    coeff_b2: &XorJitPreparedCoeff,
    coeff_c2: &XorJitPreparedCoeff,
    coeff_d2: &XorJitPreparedCoeff,
    output_2: &mut [u8],
    coeff_a3: &XorJitPreparedCoeff,
    coeff_b3: &XorJitPreparedCoeff,
    coeff_c3: &XorJitPreparedCoeff,
    coeff_d3: &XorJitPreparedCoeff,
    output_3: &mut [u8],
    _flavor: XorJitFlavor,
)
    ensures
        ({
            let len = vstd::math::min(vstd::math::min(vstd::math::min(
                common_len4(input_a@, input_b@, input_c@, input_d@, old(output_0)@.len()) as int,
                old(output_1)@.len() as int), old(output_2)@.len() as int), old(output_3)@.len() as int) as nat;
            &&& final(output_0)@ == add_four(old(output_0)@, input_a@, input_b@, input_c@, input_d@, len,
                coeff_a0.coefficient, coeff_b0.coefficient, coeff_c0.coefficient, coeff_d0.coefficient)
            &&& final(output_1)@ == add_four(old(output_1)@, input_a@, input_b@, input_c@, input_d@, len,
                coeff_a1.coefficient, coeff_b1.coefficient, coeff_c1.coefficient, coeff_d1.coefficient)
            &&& final(output_2)@ == add_four(old(output_2)@, input_a@, input_b@, input_c@, input_d@, len,
                coeff_a2.coefficient, coeff_b2.coefficient, coeff_c2.coefficient, coeff_d2.coefficient)
            &&& final(output_3)@ == add_four(old(output_3)@, input_a@, input_b@, input_c@, input_d@, len,
                coeff_a3.coefficient, coeff_b3.coefficient, coeff_c3.coefficient, coeff_d3.coefficient)
        }),
{
    let mut len = common_len(input_a, input_b, input_c, input_d, output_0.len());
    if output_1.len() < len {
        len = output_1.len();
    }
    if output_2.len() < len {
        len = output_2.len();
    }
    if output_3.len() < len {
        len = output_3.len();
    }
    add_four_into(output_0, input_a, input_b, input_c, input_d, len,
        coeff_a0.coefficient, coeff_b0.coefficient, coeff_c0.coefficient, coeff_d0.coefficient);
    add_four_into(output_1, input_a, input_b, input_c, input_d, len,
        coeff_a1.coefficient, coeff_b1.coefficient, coeff_c1.coefficient, coeff_d1.coefficient);
    add_four_into(output_2, input_a, input_b, input_c, input_d, len,
        coeff_a2.coefficient, coeff_b2.coefficient, coeff_c2.coefficient, coeff_d2.coefficient);
    add_four_into(output_3, input_a, input_b, input_c, input_d, len,
        coeff_a3.coefficient, coeff_b3.coefficient, coeff_c3.coefficient, coeff_d3.coefficient);
}

} // verus!
