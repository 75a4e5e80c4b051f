//! Planning of the generated multiply-add body: for each pair of output
//! bit-planes, which input planes seed the two accumulators, which ones
//! both outputs share, and which remain to be added one by one.
//!
//! Planes are numbered physically: physical plane `p` holds word bit
//! `15 - p`.
use crate::xor_jit::encoder::{
    dynamic_loop, encode, encode_all, instr_len, lemma_encode_all_concat, lemma_encode_len, Instruction, Memory, Program, ProgramSink, Reg,
};
use crate::xor_jit::{bit16, bitplane_vector_offset, plane_offset, turbo_physical_word_bit};
use vstd::prelude::*;

verus! {

/// The register that accumulates the inputs a pair of outputs shares.
pub const COMMON_INPUT_REG: u8 = 2;

/// The highest set bit of `mask` at or below bit `k`.
pub open spec fn highest_bit_upto(mask: u16, k: int) -> Option<usize>
    decreases k + 1,
{
    if k < 0 {
        None
    } else if bit16(mask, k) {
        Some(k as usize)
    } else {
        highest_bit_upto(mask, k - 1)
    }
}

/// The highest set bit of `mask`, if any.
pub open spec fn highest_bit(mask: u16) -> Option<usize> {
    highest_bit_upto(mask, 15)
}

/// The lowest set bit of `mask` at or above bit `k`.
pub open spec fn lowest_bit_from(mask: u16, k: int) -> Option<usize>
    decreases 16 - k,
{
    if k < 0 || k >= 16 {
        None
    } else if bit16(mask, k) {
        Some(k as usize)
    } else {
        lowest_bit_from(mask, k + 1)
    }
}

/// The lowest set bit of `mask`, if any.
pub open spec fn lowest_bit(mask: u16) -> Option<usize> {
    lowest_bit_from(mask, 0)
}

/// The single-bit mask of a physical plane.
pub open spec fn bit_mask(b: usize) -> u16 {
    1u16 << (b as u16)
}

/// The word bits of `mask` as physical planes: bit `i` becomes bit
/// `15 - i`, gathered over the bits below `n`.
pub open spec fn physical_mask_upto(mask: u16, n: int) -> u16
    decreases n,
{
    if n <= 0 {
        0
    } else if bit16(mask, n - 1) {
        physical_mask_upto(mask, n - 1) | bit_mask((15 - (n - 1)) as usize)
    } else {
        physical_mask_upto(mask, n - 1)
    }
}

/// The word mask `mask` as a mask of physical planes.
pub open spec fn physical_mask(mask: u16) -> u16 {
    physical_mask_upto(mask, 16)
}

/// The inputs two outputs share, of which the lowest and the highest are
/// accumulated once for both.
#[derive(Debug, Clone, Copy, PartialEq, Eq)]
pub struct TurboCommonPlan {
    pub lowest: Option<usize>,
    pub highest: Option<usize>,
    pub eliminated_mask: u16,
}

/// The remaining inputs of a pair: the three lowest planes of both
/// outputs, and the planes from 3 to 9 and from 10 to 15 of each.
#[derive(Debug, Clone, Copy, PartialEq, Eq)]
pub struct TurboDepPlan {
    pub mem_deps: u8,
    pub dep1_low: u8,
    pub dep1_high: u8,
    pub dep2_low: u8,
    pub dep2_high: u8,
}

/// The plan of one pair of output planes.
#[derive(Debug, Clone, Copy, PartialEq, Eq)]
pub struct TurboOutputPairPlan {
    pub first_output: usize,
    pub second_output: usize,
    pub first_seed: Option<usize>,
    pub second_seed: Option<usize>,
    pub first_remaining_mask: u16,
    pub second_remaining_mask: u16,
    pub deps: TurboDepPlan,
    pub common: TurboCommonPlan,
}

/// The shared-input plan of `common_mask`: its lowest plane, the highest
/// of the others, and the mask of the two.
pub open spec fn common_plan_spec(common_mask: u16) -> TurboCommonPlan {
    match lowest_bit(common_mask) {
        None => TurboCommonPlan { lowest: None, highest: None, eliminated_mask: 0 },
        Some(l) => {
            let highest = highest_bit(common_mask & !bit_mask(l));
            let highest_mask: u16 = match highest {
                Some(h) => bit_mask(h),
                None => 0,
            };
            TurboCommonPlan { lowest: Some(l), highest, eliminated_mask: bit_mask(l) | highest_mask }
        },
    }
}

/// The dependency plan of the remaining masks of a pair.
pub open spec fn dep_plan_spec(first: u16, second: u16) -> TurboDepPlan {
    TurboDepPlan {
        mem_deps: ((first & 0x7) | ((second & 0x7) << 3u16)) as u8,
        dep1_low: ((first >> 3u16) & 0x7f) as u8,
        dep1_high: ((first >> 10u16) & 0x3f) as u8,
        dep2_low: ((second >> 3u16) & 0x7f) as u8,
        dep2_high: ((second >> 10u16) & 0x3f) as u8,
    }
}

/// A mask without the plane of its highest bit.
pub open spec fn without_highest(mask: u16) -> u16 {
    match highest_bit(mask) {
        Some(s) => mask & !bit_mask(s),
        None => mask,
    }
}

/// The plan of the output planes `2 * pair` and `2 * pair + 1` (physical):
/// the shared inputs are taken out of both, then each output is seeded
/// with its highest remaining input.
pub open spec fn output_pair_plan_spec(output_masks: Seq<u16>, pair: int) -> TurboOutputPairPlan {
    let first_output = (15 - 2 * pair) as usize;
    let second_output = (15 - (2 * pair + 1)) as usize;
    let first = physical_mask(output_masks[first_output as int]);
    let second = physical_mask(output_masks[second_output as int]);
    let common = common_plan_spec(first & second);
    let first_left = first & !common.eliminated_mask;
    let second_left = second & !common.eliminated_mask;
    let first_remaining = without_highest(first_left);
    let second_remaining = without_highest(second_left);
    TurboOutputPairPlan {
        first_output,
        second_output,
        first_seed: highest_bit(first_left),
        second_seed: highest_bit(second_left),
        first_remaining_mask: first_remaining,
        second_remaining_mask: second_remaining,
        deps: dep_plan_spec(first_remaining, second_remaining),
        common,
    }
}

/// What the highest bit is: a set bit with no set bit above it, and none
/// only when no bit at or below `k` is set.
pub proof fn lemma_highest_bit_upto(mask: u16, k: int)
    requires
        k < 16,
    ensures
        highest_bit_upto(mask, k) matches Some(h) ==> 0 <= h <= k && bit16(mask, h as int) && forall|j: int| h < j <= k ==> !#[trigger] bit16(mask, j),
        highest_bit_upto(mask, k) is None ==> forall|j: int| 0 <= j <= k ==> !#[trigger] bit16(mask, j),
    decreases k + 1,
{
    if k >= 0 && !bit16(mask, k) {
        lemma_highest_bit_upto(mask, k - 1);
    }
}

/// What the lowest bit is: a set bit with no set bit below it (from `k`),
/// and none only when no bit from `k` up is set.
pub proof fn lemma_lowest_bit_from(mask: u16, k: int)
    requires
        0 <= k,
    ensures
        lowest_bit_from(mask, k) matches Some(l) ==> k <= l < 16 && bit16(mask, l as int) && forall|j: int| k <= j < l ==> !#[trigger] bit16(mask, j),
        lowest_bit_from(mask, k) is None ==> forall|j: int| k <= j < 16 ==> !#[trigger] bit16(mask, j),
    decreases 16 - k,
{
    if k < 16 && !bit16(mask, k) {
        lemma_lowest_bit_from(mask, k + 1);
    }
}

/// The single-bit mask of plane `b`.
pub fn physical_bit_mask(physical_bit: usize) -> (m: u16)
    requires
        physical_bit < 16,
    ensures
        m == bit_mask(physical_bit),
{
    1u16 << (physical_bit as u16)
}

/// The highest set plane of `mask`, if any.
pub fn highest_physical_bit(mask: u16) -> (r: Option<usize>)
    ensures
        r == highest_bit(mask),
{
    let mut k: usize = 16;
    while k > 0
        invariant
            k <= 16,
            highest_bit(mask) == highest_bit_upto(mask, k - 1),
        decreases k,
    {
        let b = k - 1;
        proof {
            crate::xor_jit::lemma_test_bit16(mask, b as u16);
        }
        if mask & (1u16 << (b as u16)) != 0 {
            return Some(b);
        }
        k = b;
    }
    None
}

/// The lowest set plane of `mask`, if any.
pub fn lowest_physical_bit(mask: u16) -> (r: Option<usize>)
    ensures
        r == lowest_bit(mask),
{
    let mut k: usize = 0;
    while k < 16
        invariant
            k <= 16,
            lowest_bit(mask) == lowest_bit_from(mask, k as int),
        decreases 16 - k,
    {
        proof {
            crate::xor_jit::lemma_test_bit16(mask, k as u16);
        }
        if mask & (1u16 << (k as u16)) != 0 {
            return Some(k);
        }
        k = k + 1;
    }
    None
}

/// The word mask `mask` as a mask of physical planes.
pub fn word_mask_to_turbo_physical_mask(mask: u16) -> (m: u16)
    ensures
        m == physical_mask(mask),
        forall|i: int| 0 <= i < 16 ==> #[trigger] bit16(m, 15 - i) == bit16(mask, i),
{
    let mut physical: u16 = 0;
    let mut word_bit: usize = 0;
    proof {
        assert forall|q: int| 0 <= q < 16 implies !#[trigger] bit16(physical, q) by {
            crate::xor_jit::lemma_zero_bit16(q as u16);
        }
    }
    while word_bit < 16
        invariant
            word_bit <= 16,
            physical == physical_mask_upto(mask, word_bit as int),
            forall|i: int| 0 <= i < word_bit ==> #[trigger] bit16(physical, 15 - i) == bit16(mask, i),
            forall|i: int| word_bit <= i < 16 ==> !#[trigger] bit16(physical, 15 - i),
        decreases 16 - word_bit,
    {
        proof {
            crate::xor_jit::lemma_test_bit16(mask, word_bit as u16);
        }
        if mask & (1u16 << (word_bit as u16)) != 0 {
            let ghost before = physical;
            physical = physical | (1u16 << ((15 - word_bit) as u16));
            proof {
                assert forall|i: int| 0 <= i < 16 implies #[trigger] bit16(physical, 15 - i) == (if i == word_bit { true } else { bit16(before, 15 - i) }) by {
                    crate::xor_jit::lemma_set_bit16(before, (15 - word_bit) as u16, (15 - i) as u16);
                }
            }
        }
        word_bit = word_bit + 1;
    }
    physical
}

/// The shared-input plan of `common_mask`.
pub fn turbo_common_plan(common_mask: u16) -> (p: TurboCommonPlan)
    ensures
        p == common_plan_spec(common_mask),
{
    let lowest = match lowest_physical_bit(common_mask) {
        None => {
            return TurboCommonPlan { lowest: None, highest: None, eliminated_mask: 0 };
        },
        Some(l) => l,
    };
    proof {
        lemma_lowest_bit_from(common_mask, 0);
    }
    let lowest_mask = physical_bit_mask(lowest);
    let common_without_lowest = common_mask & !lowest_mask;
    let highest = highest_physical_bit(common_without_lowest);
    proof {
        lemma_highest_bit_upto(common_without_lowest, 15);
    }
    let highest_mask: u16 = match highest {
        Some(h) => physical_bit_mask(h),
        None => 0,
    };
    TurboCommonPlan { lowest: Some(lowest), highest, eliminated_mask: lowest_mask | highest_mask }
}

/// The dependency plan of the remaining masks of a pair.
pub fn turbo_dep_plan(first_remaining_mask: u16, second_remaining_mask: u16) -> (p: TurboDepPlan)
    ensures
        p == dep_plan_spec(first_remaining_mask, second_remaining_mask),
{
    proof {
        lemma_dep_fields(first_remaining_mask, second_remaining_mask);
    }
    TurboDepPlan {
        mem_deps: ((first_remaining_mask & 0x7) | ((second_remaining_mask & 0x7) << 3)) as u8,
        dep1_low: ((first_remaining_mask >> 3) & 0x7f) as u8,
        dep1_high: ((first_remaining_mask >> 10) & 0x3f) as u8,
        dep2_low: ((second_remaining_mask >> 3) & 0x7f) as u8,
        dep2_high: ((second_remaining_mask >> 10) & 0x3f) as u8,
    }
}

proof fn lemma_dep_fields(a: u16, b: u16)
    by (bit_vector)
    ensures
        (a & 0x7) | ((b & 0x7) << 3u16) < 64,
        (a >> 3u16) & 0x7f < 128,
        (a >> 10u16) & 0x3f < 64,
        (b >> 3u16) & 0x7f < 128,
        (b >> 10u16) & 0x3f < 64,
{
}

/// The plan of the physical output planes `2 * pair` and `2 * pair + 1`.
pub fn turbo_output_pair_plan(output_masks: &[u16; 16], physical_pair: usize) -> (p: TurboOutputPairPlan)
    requires
        physical_pair < 8,
    ensures
        p == output_pair_plan_spec(output_masks@, physical_pair as int),
{
    let first_output = crate::xor_jit::turbo_physical_word_bit(physical_pair * 2);
    let second_output = crate::xor_jit::turbo_physical_word_bit(physical_pair * 2 + 1);
    let mut first_mask = word_mask_to_turbo_physical_mask(output_masks[first_output]);
    let mut second_mask = word_mask_to_turbo_physical_mask(output_masks[second_output]);
    let common_mask = first_mask & second_mask;
    let common = turbo_common_plan(common_mask);
    first_mask = first_mask & !common.eliminated_mask;
    second_mask = second_mask & !common.eliminated_mask;

    let first_seed = highest_physical_bit(first_mask);
    proof {
        lemma_highest_bit_upto(first_mask, 15);
    }
    if let Some(seed) = first_seed {
        first_mask = first_mask & !physical_bit_mask(seed);
    }

    let second_seed = highest_physical_bit(second_mask);
    proof {
        lemma_highest_bit_upto(second_mask, 15);
    }
    if let Some(seed) = second_seed {
        second_mask = second_mask & !physical_bit_mask(seed);
    }
    let deps = turbo_dep_plan(first_mask, second_mask);

    TurboOutputPairPlan {
        first_output,
        second_output,
        first_seed,
        second_seed,
        first_remaining_mask: first_mask,
        second_remaining_mask: second_mask,
        deps,
        common,
    }
}

/// The mask of an optional seed plane.
pub open spec fn seed_mask(seed: Option<usize>) -> u16 {
    match seed {
        Some(s) => bit_mask(s),
        None => 0,
    }
}

proof fn lemma_split_mask(x: u16, e: u16, s: u16)
    by (bit_vector)
    requires
        s < 16,
    ensures
        (x & !e) | (x & e) == x,
        (x & !e) | 0u16 | (x & e) == x,
        (x & !e) & 0u16 == 0,
        (x & !e) & e == 0,
        0u16 & !x == 0,
        ((x & !e) >> s) & 1 == 1 ==> {
            &&& ((x & !e) & !(1u16 << s)) | (1u16 << s) | (x & e) == x
            &&& ((x & !e) & !(1u16 << s)) & (1u16 << s) == 0
            &&& ((x & !e) & !(1u16 << s)) & e == 0
        },
{
}

proof fn lemma_bits_inside(c: u16, l: u16, h: u16)
    by (bit_vector)
    requires
        l < 16,
        h < 16,
        (c >> l) & 1 == 1,
    ensures
        (1u16 << l) & !c == 0,
        (1u16 << l) | 0u16 == (1u16 << l),
        ((c & !(1u16 << l)) >> h) & 1 == 1 ==> ((1u16 << l) | (1u16 << h)) & !c == 0,
{
}

/// The plan of a pair splits each output's inputs: the planes shared with
/// the other output (only planes both outputs read), the seed, and the
/// remaining planes, with no plane counted twice.
pub proof fn lemma_turbo_pair_partitions(output_masks: Seq<u16>, pair: int)
    requires
        output_masks.len() == 16,
        0 <= pair < 8,
    ensures
        ({
            let p = output_pair_plan_spec(output_masks, pair);
            let first = physical_mask(output_masks[p.first_output as int]);
            let second = physical_mask(output_masks[p.second_output as int]);
            &&& p.common.eliminated_mask & !(first & second) == 0
            &&& p.first_remaining_mask | seed_mask(p.first_seed) | (first & p.common.eliminated_mask) == first
            &&& p.first_remaining_mask & seed_mask(p.first_seed) == 0
            &&& p.first_remaining_mask & p.common.eliminated_mask == 0
            &&& p.second_remaining_mask | seed_mask(p.second_seed) | (second & p.common.eliminated_mask) == second
            &&& p.second_remaining_mask & seed_mask(p.second_seed) == 0
            &&& p.second_remaining_mask & p.common.eliminated_mask == 0
        }),
{
    let p = output_pair_plan_spec(output_masks, pair);
    let first = physical_mask(output_masks[p.first_output as int]);
    let second = physical_mask(output_masks[p.second_output as int]);
    let c = first & second;
    let e = p.common.eliminated_mask;
    lemma_lowest_bit_from(c, 0);
    match lowest_bit(c) {
        None => {
            assert(e == 0);
            lemma_split_mask(c, 0, 0);
        },
        Some(l) => {
            lemma_highest_bit_upto(c & !bit_mask(l), 15);
            match highest_bit(c & !bit_mask(l)) {
                Some(h) => {
                    lemma_bits_inside(c, l as u16, h as u16);
                },
                None => {
                    lemma_bits_inside(c, l as u16, 0);
                    assert(e == bit_mask(l) | 0u16);
                },
            }
        },
    }
    assert(e & !(first & second) == 0);
    lemma_highest_bit_upto(first & !e, 15);
    lemma_highest_bit_upto(second & !e, 15);
    match highest_bit(first & !e) {
        Some(s) => {
            lemma_split_mask(first, e, s as u16);
            assert(bit16(first & !e, s as int));
        },
        None => {
            lemma_split_mask(first, e, 0);
            assert(first & !e == 0) by {
                lemma_bits_zero(first & !e);
            }
        },
    }
    match highest_bit(second & !e) {
        Some(s) => {
            lemma_split_mask(second, e, s as u16);
            assert(bit16(second & !e, s as int));
        },
        None => {
            lemma_split_mask(second, e, 0);
            assert(second & !e == 0) by {
                lemma_bits_zero(second & !e);
            }
        },
    }
}

/// A word with no bit set is zero.
proof fn lemma_bits_zero(x: u16)
    requires
        forall|j: int| 0 <= j <= 15 ==> !#[trigger] bit16(x, j),
    ensures
        x == 0,
{
    assert(!bit16(x, 0) && !bit16(x, 1) && !bit16(x, 2) && !bit16(x, 3));
    assert(!bit16(x, 4) && !bit16(x, 5) && !bit16(x, 6) && !bit16(x, 7));
    assert(!bit16(x, 8) && !bit16(x, 9) && !bit16(x, 10) && !bit16(x, 11));
    assert(!bit16(x, 12) && !bit16(x, 13) && !bit16(x, 14) && !bit16(x, 15));
    lemma_zero_from_bits(x);
}

proof fn lemma_zero_from_bits(x: u16)
    by (bit_vector)
    requires
        !(((x >> 0u16) & 1u16) == 1u16),
        !(((x >> 1u16) & 1u16) == 1u16),
        !(((x >> 2u16) & 1u16) == 1u16),
        !(((x >> 3u16) & 1u16) == 1u16),
        !(((x >> 4u16) & 1u16) == 1u16),
        !(((x >> 5u16) & 1u16) == 1u16),
        !(((x >> 6u16) & 1u16) == 1u16),
        !(((x >> 7u16) & 1u16) == 1u16),
        !(((x >> 8u16) & 1u16) == 1u16),
        !(((x >> 9u16) & 1u16) == 1u16),
        !(((x >> 10u16) & 1u16) == 1u16),
        !(((x >> 11u16) & 1u16) == 1u16),
        !(((x >> 12u16) & 1u16) == 1u16),
        !(((x >> 13u16) & 1u16) == 1u16),
        !(((x >> 14u16) & 1u16) == 1u16),
        !(((x >> 15u16) & 1u16) == 1u16),
    ensures
        x == 0,
{
}

/// Offset of physical plane `pb` from the biased data pointer: the planes
/// are 32 bytes apart.
pub open spec fn physical_offset(pb: int) -> i32 {
    (32 * pb - 128) as i32
}

/// Offset of physical plane `physical_bit`.
pub fn physical_bitplane_vector_offset(physical_bit: usize) -> (o: i32)
    requires
        physical_bit < 16,
    ensures
        o == physical_offset(physical_bit as int),
        o == plane_offset(15 - physical_bit as int),
{
    bitplane_vector_offset(turbo_physical_word_bit(physical_bit))
}

/// Adding the input plane of a shared bit that is not kept in a register:
/// one of the three lowest physical planes, read from memory.
pub open spec fn mem_dep_instr(target: u8, pb: int) -> Instruction {
    Instruction::VpxorMemory { dst: target, lhs: target, memory: Memory { base: Reg::Rax, displacement: physical_offset(pb) } }
}

/// Which accumulator a plane goes to: the first output's (0), the
/// second's (1), or the shared one (2).
pub open spec fn target_reg(in_first: bool, in_second: bool) -> u8 {
    if in_first && in_second {
        COMMON_INPUT_REG
    } else if in_first {
        0
    } else {
        1
    }
}

/// The memory dependencies of `mem_deps` (bits 0 to 2 for the first
/// output, 3 to 5 for the second) among physical planes below `n`.
pub open spec fn mem_dep_instrs_upto(mem_deps: u16, n: int) -> Seq<Instruction>
    decreases n,
{
    if n <= 0 {
        Seq::empty()
    } else {
        let pb = n - 1;
        let f = bit16(mem_deps, pb);
        let g = bit16(mem_deps, pb + 3);
        mem_dep_instrs_upto(mem_deps, n - 1) + if f || g {
            seq![mem_dep_instr(target_reg(f, g), pb)]
        } else {
            Seq::empty()
        }
    }
}

/// The memory dependencies of `mem_deps`, lowest plane first.
pub open spec fn mem_dep_instrs(mem_deps: u16) -> Seq<Instruction> {
    mem_dep_instrs_upto(mem_deps, 3)
}

/// The register dependencies of a pair among the bits below `n` of the
/// 7-bit (or 6-bit) fields `dep1` and `dep2`: each set bit adds the
/// register `reg_base + bit` to the accumulator of the outputs that have it.
pub open spec fn main_dep_instrs_upto(dep1: u16, dep2: u16, high: bool, n: int) -> Seq<Instruction>
    decreases n,
{
    if n <= 0 {
        Seq::empty()
    } else {
        let b = n - 1;
        let f = bit16(dep1, b);
        let g = bit16(dep2, b);
        let reg_base: int = if high { 10 } else { 3 };
        main_dep_instrs_upto(dep1, dep2, high, n - 1) + if f || g {
            seq![Instruction::Vpxor { dst: target_reg(f, g), lhs: (reg_base + b) as u8, rhs: target_reg(f, g) }]
        } else {
            Seq::empty()
        }
    }
}

/// The register dependencies of a pair, lowest bit first.
pub open spec fn main_dep_instrs(dep1: u16, dep2: u16, high: bool) -> Seq<Instruction> {
    main_dep_instrs_upto(dep1, dep2, high, 8)
}

/// A memory dependency: the accumulator and the physical plane.
#[derive(Debug, Clone, Copy, PartialEq, Eq)]
pub struct TurboMemDepOp {
    pub target_reg: u8,
    pub physical_bit: u8,
}

/// The set bits of `dep` below `n`, lowest first.
pub open spec fn set_bits_upto(dep: u16, n: int) -> Seq<u8>
    decreases n,
{
    if n <= 0 {
        Seq::empty()
    } else if bit16(dep, n - 1) {
        set_bits_upto(dep, n - 1).push((n - 1) as u8)
    } else {
        set_bits_upto(dep, n - 1)
    }
}

/// The memory operations of `mem_deps` below plane `n`, lowest first.
pub open spec fn mem_ops_upto(mem_deps: u16, n: int) -> Seq<TurboMemDepOp>
    decreases n,
{
    if n <= 0 {
        Seq::empty()
    } else {
        let pb = n - 1;
        let f = bit16(mem_deps, pb);
        let g = bit16(mem_deps, pb + 3);
        if f || g {
            mem_ops_upto(mem_deps, n - 1).push(TurboMemDepOp { target_reg: target_reg(f, g), physical_bit: pb as u8 })
        } else {
            mem_ops_upto(mem_deps, n - 1)
        }
    }
}

/// The precomputed dependency tables and byte templates of the generated
/// body.
pub struct TurboDepTables {
    pub mem_ops: Vec<[TurboMemDepOp; 3]>,
    pub mem_len: Vec<u8>,
    pub nums: Vec<[u8; 8]>,
    pub rmask: Vec<[u8; 8]>,
    pub mem_bytes: Vec<Vec<u8>>,
    pub main_bytes_low: Vec<Vec<u8>>,
    pub main_bytes_high: Vec<Vec<u8>>,
}

/// Row `dep` of `nums` lists the set bits of `dep` lowest first, then
/// 0xff; row `dep` of `rmask` holds a 9 at every set bit and 0 elsewhere.
pub open spec fn bit_row_ok(nums_row: [u8; 8], rmask_row: [u8; 8], dep: int) -> bool {
    let bits = set_bits_upto(dep as u16, 8);
    &&& forall|k: int| 0 <= k < bits.len() ==> #[trigger] nums_row@[k] == bits[k]
    &&& forall|k: int| bits.len() <= k < 8 ==> #[trigger] nums_row@[k] == 0xff
    &&& forall|b: int| 0 <= b < 8 ==> #[trigger] rmask_row@[b] == (if bit16(dep as u16, b) { 9u8 } else { 0u8 })
}

/// The bit tables of every 7-bit dependency field.
pub open spec fn bit_tables_ok(nums: Seq<[u8; 8]>, rmask: Seq<[u8; 8]>) -> bool {
    &&& nums.len() == 128
    &&& rmask.len() == 128
    &&& forall|dep: int| 0 <= dep < 128 ==> #[trigger] bit_row_ok(nums[dep], rmask[dep], dep)
}

/// Row `i` of the memory tables: the operations of `i`, their count, and
/// their machine code.
pub open spec fn mem_row_ok(ops: [TurboMemDepOp; 3], len: u8, bytes: Seq<u8>, i: int) -> bool {
    &&& len as int == mem_ops_upto(i as u16, 3).len()
    &&& forall|k: int| 0 <= k < len ==> #[trigger] ops@[k] == mem_ops_upto(i as u16, 3)[k]
    &&& bytes == encode_all(mem_dep_instrs(i as u16))
}

/// The tables are the dependency tables.
pub open spec fn dep_tables_ok(t: &TurboDepTables) -> bool {
    &&& bit_tables_ok(t.nums@, t.rmask@)
    &&& t.mem_ops@.len() == 64
    &&& t.mem_len@.len() == 64
    &&& t.mem_bytes@.len() == 64
    &&& t.main_bytes_low@.len() == 128 * 128
    &&& t.main_bytes_high@.len() == 64 * 64
    &&& forall|i: int| 0 <= i < 64 ==> #[trigger] mem_row_ok(t.mem_ops@[i], t.mem_len@[i], t.mem_bytes@[i]@, i)
    &&& forall|key: int| 0 <= key < 128 * 128 ==> #[trigger] t.main_bytes_low@[key]@ == encode_all(main_dep_instrs((key / 128) as u16, (key % 128) as u16, false))
    &&& forall|key: int| 0 <= key < 64 * 64 ==> #[trigger] t.main_bytes_high@[key]@ == encode_all(main_dep_instrs((key / 64) as u16, (key % 64) as u16, true))
}

/// The set bits below `n` are below `n`, and set.
proof fn lemma_set_bits(dep: u16, n: int)
    requires
        0 <= n <= 16,
    ensures
        set_bits_upto(dep, n).len() <= n,
        forall|k: int| 0 <= k < set_bits_upto(dep, n).len() ==> #[trigger] set_bits_upto(dep, n)[k] < n && bit16(dep, set_bits_upto(dep, n)[k] as int),
    decreases n,
{
    if n > 0 {
        lemma_set_bits(dep, n - 1);
    }
}

/// The bit tables of one 7-bit dependency field.
fn build_bit_row(dep: u16) -> (r: ([u8; 8], [u8; 8]))
    requires
        dep < 128,
    ensures
        bit_row_ok(r.0, r.1, dep as int),
{
    let mut nums_row = [0xffu8; 8];
    let mut rmask_row = [0u8; 8];
    let mut pos: usize = 0;
    let mut bit: usize = 0;
    while bit < 8
        invariant
            bit <= 8,
            pos == set_bits_upto(dep, bit as int).len(),
            pos <= bit,
            forall|k: int| 0 <= k < pos ==> #[trigger] nums_row@[k] == set_bits_upto(dep, bit as int)[k],
            forall|k: int| pos <= k < 8 ==> #[trigger] nums_row@[k] == 0xff,
            forall|b: int| 0 <= b < bit ==> #[trigger] rmask_row@[b] == (if bit16(dep, b) { 9u8 } else { 0u8 }),
            forall|b: int| bit <= b < 8 ==> #[trigger] rmask_row@[b] == 0,
        decreases 8 - bit,
    {
        proof {
            crate::xor_jit::lemma_test_bit16(dep, bit as u16);
            lemma_set_bits(dep, bit as int);
        }
        if dep & (1u16 << (bit as u16)) != 0 {
            nums_row[pos] = bit as u8;
            rmask_row[bit] = 9;
            pos = pos + 1;
        }
        bit = bit + 1;
    }
    (nums_row, rmask_row)
}

/// The memory operations of one 6-bit memory dependency field.
fn build_mem_row(i: u16) -> (r: ([TurboMemDepOp; 3], u8))
    requires
        i < 64,
    ensures
        r.1 as int == mem_ops_upto(i, 3).len(),
        forall|k: int| 0 <= k < r.1 ==> #[trigger] r.0@[k] == mem_ops_upto(i, 3)[k],
{
    let none = TurboMemDepOp { target_reg: 0xff, physical_bit: 0xff };
    let mut ops = [none; 3];
    let mut len: usize = 0;
    let mut pb: usize = 0;
    while pb < 3
        invariant
            pb <= 3,
            len == mem_ops_upto(i, pb as int).len(),
            len <= pb,
            forall|k: int| 0 <= k < len ==> #[trigger] ops@[k] == mem_ops_upto(i, pb as int)[k],
        decreases 3 - pb,
    {
        proof {
            crate::xor_jit::lemma_test_bit16(i, pb as u16);
            crate::xor_jit::lemma_test_bit16(i, (pb + 3) as u16);
        }
        let first = i & (1u16 << (pb as u16)) != 0;
        let second = i & (1u16 << ((pb + 3) as u16)) != 0;
        if first || second {
            let target: u8 = if first && second {
                COMMON_INPUT_REG
            } else if first {
                0
            } else {
                1
            };
            ops[len] = TurboMemDepOp { target_reg: target, physical_bit: pb as u8 };
            len = len + 1;
        }
        pb = pb + 1;
    }
    (ops, len as u8)
}

/// The instructions of a list of memory operations.
pub open spec fn ops_instrs(ops: Seq<TurboMemDepOp>) -> Seq<Instruction> {
    Seq::new(ops.len(), |k: int| mem_dep_instr(ops[k].target_reg, ops[k].physical_bit as int))
}

proof fn lemma_ops_instrs(i: u16, n: int)
    requires
        0 <= n <= 3,
    ensures
        mem_ops_upto(i, n).len() <= n,
        ops_instrs(mem_ops_upto(i, n)) == mem_dep_instrs_upto(i, n),
        forall|k: int| 0 <= k < mem_ops_upto(i, n).len() ==> (#[trigger] mem_ops_upto(i, n)[k]).target_reg <= 2 && mem_ops_upto(i, n)[k].physical_bit < 3,
    decreases n,
{
    if n > 0 {
        lemma_ops_instrs(i, n - 1);
        assert(ops_instrs(mem_ops_upto(i, n)) =~= mem_dep_instrs_upto(i, n));
    }
}

/// The machine code of `len` memory operations.
pub fn turbo_mem_template_bytes(ops: &[TurboMemDepOp; 3], len: usize) -> (code: Vec<u8>)
    requires
        len <= 3,
        forall|k: int| 0 <= k < len ==> (#[trigger] ops@[k]).target_reg < 16 && ops@[k].physical_bit < 16,
    ensures
        code@ == encode_all(ops_instrs(ops@.subrange(0, len as int))),
{
    let mut program = Program::new();
    let mut k: usize = 0;
    while k < len
        invariant
            len <= 3,
            k <= len,
            forall|j: int| 0 <= j < len ==> (#[trigger] ops@[j]).target_reg < 16 && ops@[j].physical_bit < 16,
            program.instructions@ == ops_instrs(ops@.subrange(0, k as int)),
        decreases len - k,
    {
        let op = ops[k];
        let offset = physical_bitplane_vector_offset(op.physical_bit as usize);
        program = program.vpxor_ymm_rax_offset(op.target_reg, op.target_reg, offset);
        proof {
            assert(ops_instrs(ops@.subrange(0, k + 1)) =~= ops_instrs(ops@.subrange(0, k as int)).push(mem_dep_instr(op.target_reg, op.physical_bit as int)));
        }
        k = k + 1;
    }
    program.finish()
}

/// The instruction that adds register dependency `b` of a pair.
pub open spec fn dep_instr(dep1: u16, dep2: u16, high: bool, b: int) -> Instruction {
    let t = target_reg(bit16(dep1, b), bit16(dep2, b));
    let reg_base: int = if high { 10 } else { 3 };
    Instruction::Vpxor { dst: t, lhs: (reg_base + b) as u8, rhs: t }
}

/// The instructions for a list of dependency bits.
pub open spec fn bits_instrs(bits: Seq<u8>, dep1: u16, dep2: u16, high: bool) -> Seq<Instruction> {
    Seq::new(bits.len(), |k: int| dep_instr(dep1, dep2, high, bits[k] as int))
}

proof fn lemma_or_bits(a: u16, b: u16, q: u16)
    by (bit_vector)
    requires
        q < 16,
    ensures
        (((a | b) >> q) & 1u16 == 1u16) == ((((a >> q) & 1u16) == 1u16) || (((b >> q) & 1u16) == 1u16)),
        a < 128 && b < 128 ==> a | b < 128,
        a < 64 && b < 64 ==> a | b < 64,
        a < 64 && q >= 6 ==> ((a >> q) & 1u16) != 1u16,
{
}

/// Adding the dependencies bit by bit over the set bits of `dep1 | dep2`
/// is adding them over all bits.
proof fn lemma_bits_instrs(dep1: u16, dep2: u16, high: bool, n: int)
    requires
        0 <= n <= 16,
    ensures
        bits_instrs(set_bits_upto(dep1 | dep2, n), dep1, dep2, high) == main_dep_instrs_upto(dep1, dep2, high, n),
    decreases n,
{
    if n > 0 {
        lemma_bits_instrs(dep1, dep2, high, n - 1);
        lemma_or_bits(dep1, dep2, (n - 1) as u16);
        assert(bits_instrs(set_bits_upto(dep1 | dep2, n), dep1, dep2, high) =~= main_dep_instrs_upto(dep1, dep2, high, n));
    }
}

/// The machine code adding the register dependencies `dep1` (first
/// output) and `dep2` (second output), lowest bit first, from the bit
/// tables.
pub fn turbo_main_template_bytes(nums: &Vec<[u8; 8]>, rmask: &Vec<[u8; 8]>, dep1: u8, dep2: u8, high: bool) -> (code: Vec<u8>)
    requires
        bit_tables_ok(nums@, rmask@),
        dep1 < 128,
        dep2 < 128,
        high ==> dep1 < 64 && dep2 < 64,
    ensures
        code@ == encode_all(main_dep_instrs(dep1 as u16, dep2 as u16, high)),
{
    push_main_deps(Program::new(), nums, rmask, dep1, dep2, high).finish()
}

/// Append the register dependencies of a pair, lowest bit first, from the
/// bit tables.
fn push_main_deps(program: Program, nums: &Vec<[u8; 8]>, rmask: &Vec<[u8; 8]>, dep1: u8, dep2: u8, high: bool) -> (p: Program)
    requires
        bit_tables_ok(nums@, rmask@),
        dep1 < 128,
        dep2 < 128,
        high ==> dep1 < 64 && dep2 < 64,
    ensures
        p.instructions@ == program.instructions@ + main_dep_instrs(dep1 as u16, dep2 as u16, high),
{
    let d1 = dep1 as u16;
    let d2 = dep2 as u16;
    proof {
        lemma_or_bits(d1, d2, 0);
    }
    let dep = d1 | d2;
    let reg_base: u8 = if high {
        10
    } else {
        3
    };
    let row = nums[dep as usize];
    let ghost bits = set_bits_upto(dep, 8);
    proof {
        lemma_set_bits(dep, 8);
        assert(bit_row_ok(nums@[dep as int], rmask@[dep as int], dep as int));
        assert(bit_row_ok(nums@[d1 as int], rmask@[d1 as int], d1 as int));
        assert(bit_row_ok(nums@[d2 as int], rmask@[d2 as int], d2 as int));
    }
    let ghost start = program.instructions@;
    let mut program = program;
    let mut k: usize = 0;
    while k < 8 && row[k] != 0xff
        invariant
            bit_tables_ok(nums@, rmask@),
            dep1 < 128,
            dep2 < 128,
            high ==> dep < 64,
            d1 == dep1 as u16,
            d2 == dep2 as u16,
            dep == d1 | d2,
            dep < 128,
            reg_base == (if high { 10u8 } else { 3u8 }),
            row == nums@[dep as int],
            bits == set_bits_upto(dep, 8),
            bits.len() <= 8,
            forall|j: int| 0 <= j < bits.len() ==> #[trigger] bits[j] < 8 && bit16(dep, bits[j] as int),
            bit_row_ok(nums@[dep as int], rmask@[dep as int], dep as int),
            bit_row_ok(nums@[d1 as int], rmask@[d1 as int], d1 as int),
            bit_row_ok(nums@[d2 as int], rmask@[d2 as int], d2 as int),
            k <= bits.len(),
            program.instructions@ == start + bits_instrs(bits.subrange(0, k as int), d1, d2, high),
        decreases 8 - k,
    {
        let bit = row[k];
        proof {
            assert(bits[k as int] < 8 && bit16(dep, bits[k as int] as int));
            lemma_or_bits(d1, d2, bit as u16);
            lemma_or_bits(dep, 0, bit as u16);
        }
        let r1 = rmask[dep1 as usize][bit as usize];
        let r2 = rmask[dep2 as usize][bit as usize];
        let reg_code = r1 + r2 * 2;
        let target: u8 = if reg_code == 9 {
            0
        } else if reg_code == 18 {
            1
        } else {
            COMMON_INPUT_REG
        };
        proof {
            assert(target == target_reg(bit16(d1, bit as int), bit16(d2, bit as int)));
        }
        program = program.vpxor_ymm(target, reg_base + bit, target);
        proof {
            assert(bits_instrs(bits.subrange(0, k + 1), d1, d2, high) =~= bits_instrs(bits.subrange(0, k as int), d1, d2, high).push(dep_instr(d1, d2, high, bit as int)));
            assert(program.instructions@ =~= start + bits_instrs(bits.subrange(0, k + 1), d1, d2, high));
        }
        k = k + 1;
    }
    proof {
        assert(k == bits.len());
        assert(bits.subrange(0, k as int) =~= bits);
        lemma_bits_instrs(d1, d2, high, 8);
    }
    program
}

/// Build the dependency tables: the memory operations and their code for
/// every 6-bit memory field, the bit tables of every 7-bit field, and the
/// code of every pair of register fields (7-bit for the low planes, 6-bit
/// for the high ones).
pub fn build_turbo_dep_tables() -> (t: TurboDepTables)
    ensures
        dep_tables_ok(&t),
{
    let mut mem_ops: Vec<[TurboMemDepOp; 3]> = Vec::new();
    let mut mem_len: Vec<u8> = Vec::new();
    let mut mem_bytes: Vec<Vec<u8>> = Vec::new();
    let mut i: u16 = 0;
    while i < 64
        invariant
            i <= 64,
            mem_ops@.len() == i,
            mem_len@.len() == i,
            mem_bytes@.len() == i,
            forall|j: int| 0 <= j < i ==> #[trigger] mem_row_ok(mem_ops@[j], mem_len@[j], mem_bytes@[j]@, j),
        decreases 64 - i,
    {
        let (ops, len) = build_mem_row(i);
        proof {
            lemma_ops_instrs(i, 3);
            assert(ops@.subrange(0, len as int) =~= mem_ops_upto(i, 3));
        }
        let code = turbo_mem_template_bytes(&ops, len as usize);
        mem_ops.push(ops);
        mem_len.push(len);
        mem_bytes.push(code);
        proof {
            assert(mem_row_ok(mem_ops@[i as int], mem_len@[i as int], mem_bytes@[i as int]@, i as int));
        }
        i = i + 1;
    }
    let mut nums: Vec<[u8; 8]> = Vec::new();
    let mut rmask: Vec<[u8; 8]> = Vec::new();
    let mut dep: u16 = 0;
    while dep < 128
        invariant
            dep <= 128,
            nums@.len() == dep,
            rmask@.len() == dep,
            forall|j: int| 0 <= j < dep ==> #[trigger] bit_row_ok(nums@[j], rmask@[j], j),
        decreases 128 - dep,
    {
        let (nr, rr) = build_bit_row(dep);
        nums.push(nr);
        rmask.push(rr);
        proof {
            assert(bit_row_ok(nums@[dep as int], rmask@[dep as int], dep as int));
        }
        dep = dep + 1;
    }
    let mut main_bytes_low: Vec<Vec<u8>> = Vec::new();
    let mut key: usize = 0;
    while key < 128 * 128
        invariant
            bit_tables_ok(nums@, rmask@),
            key <= 128 * 128,
            main_bytes_low@.len() == key,
            forall|k: int| 0 <= k < key ==> #[trigger] main_bytes_low@[k]@ == encode_all(main_dep_instrs((k / 128) as u16, (k % 128) as u16, false)),
        decreases 128 * 128 - key,
    {
        let code = turbo_main_template_bytes(&nums, &rmask, (key / 128) as u8, (key % 128) as u8, false);
        main_bytes_low.push(code);
        key = key + 1;
    }
    let mut main_bytes_high: Vec<Vec<u8>> = Vec::new();
    let mut key: usize = 0;
    while key < 64 * 64
        invariant
            bit_tables_ok(nums@, rmask@),
            key <= 64 * 64,
            main_bytes_high@.len() == key,
            forall|k: int| 0 <= k < key ==> #[trigger] main_bytes_high@[k]@ == encode_all(main_dep_instrs((k / 64) as u16, (k % 64) as u16, true)),
        decreases 64 * 64 - key,
    {
        let code = turbo_main_template_bytes(&nums, &rmask, (key / 64) as u8, (key % 64) as u8, true);
        main_bytes_high.push(code);
        key = key + 1;
    }
    TurboDepTables { mem_ops, mem_len, nums, rmask, mem_bytes, main_bytes_low, main_bytes_high }
}

/// Adding physical input plane `pb` into `out` from `lhs`: the planes
/// above 2 are kept in registers, the three lowest are read from memory.
pub open spec fn input_xor_instr(out: u8, lhs: u8, pb: int) -> Instruction {
    if pb > 2 {
        Instruction::Vpxor { dst: out, lhs, rhs: pb as u8 }
    } else {
        Instruction::VpxorMemory { dst: out, lhs, memory: Memory { base: Reg::Rax, displacement: physical_offset(pb) } }
    }
}

/// The output plane of word bit `w`, in the output block.
pub open spec fn output_mem(w: int) -> Memory {
    Memory { base: Reg::Rdx, displacement: plane_offset(w) as i32 }
}

/// The input plane `pb`, in the input block.
pub open spec fn input_mem(pb: int) -> Memory {
    Memory { base: Reg::Rax, displacement: physical_offset(pb) }
}

/// Loading output plane `w` into `out`, with the seed input plane added.
pub open spec fn seeded_load_instrs(out: u8, w: int, seed: Option<usize>) -> Seq<Instruction> {
    match seed {
        None => seq![Instruction::VmovdqaLoad { dst: out, memory: output_mem(w) }],
        Some(sd) => if sd > 2 {
            seq![Instruction::VpxorMemory { dst: out, lhs: sd as u8, memory: output_mem(w) }]
        } else {
            seq![
                Instruction::VmovdqaLoad { dst: out, memory: output_mem(w) },
                Instruction::VpxorMemory { dst: out, lhs: out, memory: input_mem(sd as int) },
            ]
        },
    }
}

/// The instructions that gather the shared inputs of a pair into `acc`,
/// and whether there are any.
pub open spec fn common_acc_instrs(acc: u8, common: TurboCommonPlan) -> (Seq<Instruction>, bool) {
    match common.lowest {
        None => (Seq::empty(), false),
        Some(l) => if l <= 2 {
            match common.highest {
                Some(h) => if h > 2 {
                    (seq![Instruction::VpxorMemory { dst: acc, lhs: h as u8, memory: input_mem(l as int) }], true)
                } else {
                    (
                        seq![
                            Instruction::VmovdqaLoad { dst: acc, memory: input_mem(h as int) },
                            Instruction::VpxorMemory { dst: acc, lhs: acc, memory: input_mem(l as int) },
                        ],
                        true,
                    )
                },
                None => (seq![Instruction::VmovdqaLoad { dst: acc, memory: input_mem(l as int) }], true),
            }
        } else {
            match common.highest {
                Some(h) => (seq![Instruction::Vpxor { dst: acc, lhs: h as u8, rhs: l as u8 }], true),
                None => (seq![Instruction::Vmovdqa { dst: acc, src: l as u8 }], true),
            }
        },
    }
}

/// The planes and fields of a pair plan are in range.
pub open spec fn pair_plan_ok(p: TurboOutputPairPlan) -> bool {
    &&& p.first_output < 16
    &&& p.second_output < 16
    &&& (p.first_seed matches Some(sd) ==> sd < 16)
    &&& (p.second_seed matches Some(sd) ==> sd < 16)
    &&& (p.common.lowest matches Some(l) ==> l < 16)
    &&& (p.common.highest matches Some(h) ==> h < 16)
    &&& p.deps.mem_deps < 64
    &&& p.deps.dep1_low < 128
    &&& p.deps.dep2_low < 128
    &&& p.deps.dep1_high < 64
    &&& p.deps.dep2_high < 64
}

/// The body of one pair: both outputs loaded with their seeds, the shared
/// inputs gathered, the memory and register dependencies added, the
/// shared inputs added to both, and both outputs stored.
pub open spec fn pair_instrs(p: TurboOutputPairPlan) -> Seq<Instruction> {
    let common = common_acc_instrs(COMMON_INPUT_REG, p.common);
    seeded_load_instrs(0, p.first_output as int, p.first_seed) + seeded_load_instrs(1, p.second_output as int, p.second_seed)
        + common.0 + mem_dep_instrs(p.deps.mem_deps as u16) + main_dep_instrs(p.deps.dep1_low as u16, p.deps.dep2_low as u16, false)
        + main_dep_instrs(p.deps.dep1_high as u16, p.deps.dep2_high as u16, true) + (if common.1 {
        seq![
            Instruction::Vpxor { dst: 0, lhs: COMMON_INPUT_REG, rhs: 0 },
            Instruction::Vpxor { dst: 1, lhs: COMMON_INPUT_REG, rhs: 1 },
        ]
    } else {
        Seq::empty()
    }) + seq![
        Instruction::VmovdqaStore { memory: output_mem(p.first_output as int), src: 0 },
        Instruction::VmovdqaStore { memory: output_mem(p.second_output as int), src: 1 },
    ]
}

/// Every pair plan of a dependency mask set is in range.
pub proof fn lemma_pair_plan_ok(output_masks: Seq<u16>, pair: int)
    requires
        output_masks.len() == 16,
        0 <= pair < 8,
    ensures
        pair_plan_ok(output_pair_plan_spec(output_masks, pair)),
{
    let p = output_pair_plan_spec(output_masks, pair);
    let first = physical_mask(output_masks[p.first_output as int]);
    let second = physical_mask(output_masks[p.second_output as int]);
    let c = first & second;
    lemma_lowest_bit_from(c, 0);
    if let Some(l) = lowest_bit(c) {
        lemma_highest_bit_upto(c & !bit_mask(l), 15);
    }
    lemma_highest_bit_upto(first & !p.common.eliminated_mask, 15);
    lemma_highest_bit_upto(second & !p.common.eliminated_mask, 15);
    lemma_dep_fields(p.first_remaining_mask, p.second_remaining_mask);
}

/// Add physical input plane `physical_bit` into `output_reg`.
pub fn xor_physical_input_bit(program: Program, output_reg: u8, lhs_reg: u8, physical_bit: usize) -> (p: Program)
    requires
        output_reg < 16,
        lhs_reg < 16,
        physical_bit < 16,
    ensures
        p.instructions@ == program.instructions@.push(input_xor_instr(output_reg, lhs_reg, physical_bit as int)),
{
    if physical_bit > 2 {
        program.vpxor_ymm(output_reg, lhs_reg, physical_bit as u8)
    } else {
        program.vpxor_ymm_rax_offset(output_reg, lhs_reg, physical_bitplane_vector_offset(physical_bit))
    }
}

/// Add the memory dependencies `mem_deps` of a pair, from the tables.
pub fn emit_turbo_mem_deps(program: Program, tables: &TurboDepTables, mem_deps: u8) -> (p: Program)
    requires
        dep_tables_ok(tables),
        mem_deps < 64,
    ensures
        p.instructions@ == program.instructions@ + mem_dep_instrs(mem_deps as u16),
{
    let idx = mem_deps as usize;
    let ops = tables.mem_ops[idx];
    let len = tables.mem_len[idx] as usize;
    let ghost start = program.instructions@;
    let ghost all = mem_ops_upto(mem_deps as u16, 3);
    proof {
        assert(mem_row_ok(tables.mem_ops@[idx as int], tables.mem_len@[idx as int], tables.mem_bytes@[idx as int]@, idx as int));
        lemma_ops_instrs(mem_deps as u16, 3);
    }
    let mut program = program;
    let mut k: usize = 0;
    while k < len
        invariant
            len == all.len(),
            len <= 3,
            forall|j: int| 0 <= j < len ==> #[trigger] ops@[j] == all[j],
            forall|j: int| 0 <= j < all.len() ==> (#[trigger] all[j]).target_reg <= 2 && all[j].physical_bit < 3,
            k <= len,
            program.instructions@ == start + ops_instrs(all.subrange(0, k as int)),
        decreases len - k,
    {
        let op = ops[k];
        program = xor_physical_input_bit(program, op.target_reg, op.target_reg, op.physical_bit as usize);
        proof {
            assert(ops_instrs(all.subrange(0, k + 1)) =~= ops_instrs(all.subrange(0, k as int)).push(mem_dep_instr(op.target_reg, op.physical_bit as int)));
            assert(program.instructions@ =~= start + ops_instrs(all.subrange(0, k + 1)));
        }
        k = k + 1;
    }
    proof {
        assert(all.subrange(0, k as int) =~= all);
    }
    program
}

/// Add the register dependencies `dep1` and `dep2` of a pair, from the
/// tables.
pub fn emit_turbo_main_deps(program: Program, tables: &TurboDepTables, dep1: u8, dep2: u8, high: bool) -> (p: Program)
    requires
        dep_tables_ok(tables),
        dep1 < 128,
        dep2 < 128,
        high ==> dep1 < 64 && dep2 < 64,
    ensures
        p.instructions@ == program.instructions@ + main_dep_instrs(dep1 as u16, dep2 as u16, high),
{
    push_main_deps(program, &tables.nums, &tables.rmask, dep1, dep2, high)
}

/// Load output plane `output_bit` into `output_reg`, adding the seed.
pub fn emit_turbo_seeded_output_load(program: Program, output_reg: u8, output_bit: usize, seed: Option<usize>) -> (p: Program)
    requires
        output_reg < 16,
        output_bit < 16,
        seed matches Some(sd) ==> sd < 16,
    ensures
        p.instructions@ == program.instructions@ + seeded_load_instrs(output_reg, output_bit as int, seed),
{
    let output_offset = bitplane_vector_offset(output_bit);
    let p = match seed {
        None => program.vmovdqa_ymm_from_rdx_offset(output_reg, output_offset),
        Some(sd) => if sd > 2 {
            program.vpxor_ymm_rdx_offset(output_reg, sd as u8, output_offset)
        } else {
            program.vmovdqa_ymm_from_rdx_offset(output_reg, output_offset).vpxor_ymm_rax_offset(
                output_reg,
                output_reg,
                physical_bitplane_vector_offset(sd),
            )
        },
    };
    proof {
        assert(p.instructions@ =~= program.instructions@ + seeded_load_instrs(output_reg, output_bit as int, seed));
    }
    p
}

/// Gather the shared inputs of a pair into `accumulator_reg`; returns the
/// register and whether anything was gathered.
pub fn emit_turbo_common_accumulator(program: Program, accumulator_reg: u8, common: TurboCommonPlan) -> (r: (Program, u8, bool))
    requires
        accumulator_reg < 16,
        common.lowest matches Some(l) ==> l < 16,
        common.highest matches Some(h) ==> h < 16,
    ensures
        r.0.instructions@ == program.instructions@ + common_acc_instrs(accumulator_reg, common).0,
        r.1 == accumulator_reg,
        r.2 == common_acc_instrs(accumulator_reg, common).1,
{
    let lowest = match common.lowest {
        None => {
            proof {
                assert(program.instructions@ =~= program.instructions@ + Seq::<Instruction>::empty());
            }
            return (program, accumulator_reg, false);
        },
        Some(l) => l,
    };
    let p = if lowest <= 2 {
        match common.highest {
            Some(highest) => if highest > 2 {
                program.vpxor_ymm_rax_offset(accumulator_reg, highest as u8, physical_bitplane_vector_offset(lowest))
            } else {
                program.vmovdqa_ymm_from_rax_offset(accumulator_reg, physical_bitplane_vector_offset(highest)).vpxor_ymm_rax_offset(
                    accumulator_reg,
                    accumulator_reg,
                    physical_bitplane_vector_offset(lowest),
                )
            },
            None => program.vmovdqa_ymm_from_rax_offset(accumulator_reg, physical_bitplane_vector_offset(lowest)),
        }
    } else {
        match common.highest {
            Some(highest) => program.vpxor_ymm(accumulator_reg, highest as u8, lowest as u8),
            None => program.vmovdqa_ymm(accumulator_reg, lowest as u8),
        }
    };
    proof {
        assert(p.instructions@ =~= program.instructions@ + common_acc_instrs(accumulator_reg, common).0);
    }
    (p, accumulator_reg, true)
}

/// The body of one pair of output planes.
#[verifier::rlimit(50)]
#[verifier::spinoff_prover]
pub fn emit_output_pair_turbo_plan(program: Program, tables: &TurboDepTables, pair: TurboOutputPairPlan) -> (p: Program)
    requires
        dep_tables_ok(tables),
        pair_plan_ok(pair),
    ensures
        p.instructions@ == program.instructions@ + pair_instrs(pair),
{
    let ghost start = program.instructions@;
    let program = emit_turbo_seeded_output_load(program, 0, pair.first_output, pair.first_seed);
    let program = emit_turbo_seeded_output_load(program, 1, pair.second_output, pair.second_seed);
    let (program, common_reg, common_active) = emit_turbo_common_accumulator(program, COMMON_INPUT_REG, pair.common);
    let program = emit_turbo_mem_deps(program, tables, pair.deps.mem_deps);
    let program = emit_turbo_main_deps(program, tables, pair.deps.dep1_low, pair.deps.dep2_low, false);
    let program = emit_turbo_main_deps(program, tables, pair.deps.dep1_high, pair.deps.dep2_high, true);
    let program = if common_active {
        program.vpxor_ymm(0, common_reg, 0).vpxor_ymm(1, common_reg, 1)
    } else {
        program
    };
    let p = program.vmovdqa_rdx_offset_from_ymm(bitplane_vector_offset(pair.first_output), 0).vmovdqa_rdx_offset_from_ymm(
        bitplane_vector_offset(pair.second_output),
        1,
    );
    proof {
        assert(p.instructions@ =~= start + pair_instrs(pair));
    }
    p
}

/// The bodies of the first `n` pairs, in order.
pub open spec fn pairs_instrs(pairs: Seq<TurboOutputPairPlan>, n: int) -> Seq<Instruction>
    decreases n,
{
    if n <= 0 {
        Seq::empty()
    } else {
        pairs_instrs(pairs, n - 1) + pair_instrs(pairs[n - 1])
    }
}

/// The multiply-add body of a plan without the input preloads: the eight
/// pairs of output planes in order.
pub fn bitplane_multiply_add_dynamic_program(plan: &crate::xor_jit::BitplaneCoeffPlan, tables: &TurboDepTables) -> (p: Program)
    requires
        dep_tables_ok(tables),
        forall|k: int| 0 <= k < 8 ==> #[trigger] pair_plan_ok(plan.turbo_pairs@[k]),
    ensures
        p.instructions@ == pairs_instrs(plan.turbo_pairs@, 8),
{
    emit_pairs(Program::new(), plan, tables)
}

/// Append the bodies of the eight pairs of a plan.
fn emit_pairs(program: Program, plan: &crate::xor_jit::BitplaneCoeffPlan, tables: &TurboDepTables) -> (p: Program)
    requires
        dep_tables_ok(tables),
        forall|k: int| 0 <= k < 8 ==> #[trigger] pair_plan_ok(plan.turbo_pairs@[k]),
    ensures
        p.instructions@ == program.instructions@ + pairs_instrs(plan.turbo_pairs@, 8),
{
    let ghost start = program.instructions@;
    let mut program = program;
    let mut bit: usize = 0;
    proof {
        assert(program.instructions@ =~= start + pairs_instrs(plan.turbo_pairs@, 0));
    }
    while bit < 8
        invariant
            bit <= 8,
            dep_tables_ok(tables),
            forall|k: int| 0 <= k < 8 ==> #[trigger] pair_plan_ok(plan.turbo_pairs@[k]),
            program.instructions@ == start + pairs_instrs(plan.turbo_pairs@, bit as int),
        decreases 8 - bit,
    {
        let pair = plan.turbo_pair(bit);
        proof {
            assert(pair_plan_ok(plan.turbo_pairs@[bit as int]));
        }
        program = emit_output_pair_turbo_plan(program, tables, pair);
        proof {
            assert(program.instructions@ =~= start + pairs_instrs(plan.turbo_pairs@, bit + 1));
        }
        bit = bit + 1;
    }
    program
}

/// Which register holds each input word bit for the whole body.
#[derive(Debug, Clone, Copy, PartialEq, Eq)]
pub struct InputPreloadPlan {
    pub registers: [Option<u8>; 16],
}

/// The loads of the input planes that register `r` holds, among the word
/// bits below `ib`.
pub open spec fn preload_row(regs: Seq<Option<u8>>, r: int, ib: int) -> Seq<Instruction>
    decreases ib,
{
    if ib <= 0 {
        Seq::empty()
    } else {
        preload_row(regs, r, ib - 1) + if regs[ib - 1] == Some(r as u8) {
            seq![Instruction::VmovdqaLoad { dst: r as u8, memory: Memory { base: Reg::Rax, displacement: plane_offset(ib - 1) as i32 } }]
        } else {
            Seq::empty()
        }
    }
}

/// The preloads of the registers below `r`, lowest register first.
pub open spec fn preload_instrs(regs: Seq<Option<u8>>, r: int) -> Seq<Instruction>
    decreases r,
{
    if r <= 0 {
        Seq::empty()
    } else {
        preload_instrs(regs, r - 1) + preload_row(regs, r - 1, 16)
    }
}

impl InputPreloadPlan {
    /// The plan of every coefficient: physical planes 3 to 15 stay in the
    /// register of their number.
    pub fn new(_plan: &crate::xor_jit::BitplaneCoeffPlan) -> (p: Self)
        ensures
            forall|w: int| 0 <= w < 16 ==> #[trigger] p.registers@[w] == (if w <= 12 { Some((15 - w) as u8) } else { None }),
    {
        Self::fixed()
    }

    /// Physical planes 3 to 15 in the register of their number.
    pub fn fixed() -> (p: Self)
        ensures
            forall|w: int| 0 <= w < 16 ==> #[trigger] p.registers@[w] == (if w <= 12 { Some((15 - w) as u8) } else { None }),
    {
        let mut registers: [Option<u8>; 16] = [None; 16];
        let mut physical_bit: usize = 3;
        while physical_bit < 16
            invariant
                3 <= physical_bit <= 16,
                forall|w: int| 0 <= w < 16 ==> #[trigger] registers@[w] == (if 15 - physical_bit < w <= 12 { Some((15 - w) as u8) } else { None }),
            decreases 16 - physical_bit,
        {
            registers[turbo_physical_word_bit(physical_bit)] = Some(physical_bit as u8);
            physical_bit = physical_bit + 1;
        }
        Self { registers }
    }

    /// Load every preloaded input plane, lowest register first.
    pub fn emit_preloads(&self, program: Program) -> (p: Program)
        requires
            forall|w: int| 0 <= w < 16 ==> (#[trigger] self.registers@[w] matches Some(r) ==> r < 16),
        ensures
            p.instructions@ == program.instructions@ + preload_instrs(self.registers@, 16),
    {
        let ghost start = program.instructions@;
        let mut program = program;
        let mut r: usize = 0;
        proof {
            assert(program.instructions@ =~= start + preload_instrs(self.registers@, 0));
        }
        while r < 16
            invariant
                r <= 16,
                forall|w: int| 0 <= w < 16 ==> (#[trigger] self.registers@[w] matches Some(x) ==> x < 16),
                program.instructions@ == start + preload_instrs(self.registers@, r as int),
            decreases 16 - r,
        {
            let ghost row_start = program.instructions@;
            let mut ib: usize = 0;
            proof {
                assert(program.instructions@ =~= row_start + preload_row(self.registers@, r as int, 0));
            }
            while ib < 16
                invariant
                    r < 16,
                    ib <= 16,
                    program.instructions@ == row_start + preload_row(self.registers@, r as int, ib as int),
                decreases 16 - ib,
            {
                if self.registers[ib] == Some(r as u8) {
                    program = program.vmovdqa_ymm_from_rax_offset(r as u8, bitplane_vector_offset(ib));
                }
                proof {
                    assert(program.instructions@ =~= row_start + preload_row(self.registers@, r as int, ib + 1));
                }
                ib = ib + 1;
            }
            proof {
                assert(program.instructions@ =~= start + preload_instrs(self.registers@, r + 1));
            }
            r = r + 1;
        }
        program
    }
}

/// The whole multiply-add body of a plan: the input preloads, then the
/// eight pairs of output planes.
pub fn bitplane_multiply_add_body_program(plan: &crate::xor_jit::BitplaneCoeffPlan, tables: &TurboDepTables) -> (p: Program)
    requires
        dep_tables_ok(tables),
        forall|k: int| 0 <= k < 8 ==> #[trigger] pair_plan_ok(plan.turbo_pairs@[k]),
    ensures
        p.instructions@ == preload_instrs(InputPreloadPlan::fixed_registers(), 16) + pairs_instrs(plan.turbo_pairs@, 8),
{
    let preloads = InputPreloadPlan::new(plan);
    proof {
        assert(preloads.registers@ =~= InputPreloadPlan::fixed_registers());
    }
    let program = preloads.emit_preloads(Program::new());
    proof {
        assert(program.instructions@ =~= preload_instrs(InputPreloadPlan::fixed_registers(), 16));
    }
    emit_pairs(program, plan, tables)
}

impl InputPreloadPlan {
    /// The registers of the fixed plan.
    pub open spec fn fixed_registers() -> Seq<Option<u8>> {
        Seq::new(16, |w: int| if w <= 12 { Some((15 - w) as u8) } else { None })
    }
}

/// No instruction takes more than 8 bytes.
proof fn lemma_encode_all_bound(s: Seq<Instruction>)
    ensures
        encode_all(s).len() <= 8 * s.len(),
    decreases s.len(),
{
    if s.len() > 0 {
        lemma_encode_all_bound(s.drop_last());
        lemma_encode_len(s.last());
        assert(instr_len(s.last()) <= 8);
    }
}

proof fn lemma_dep_instrs_len(mem_deps: u16, dep1: u16, dep2: u16, high: bool, n: int)
    requires
        0 <= n,
    ensures
        mem_dep_instrs_upto(mem_deps, n).len() <= n,
        main_dep_instrs_upto(dep1, dep2, high, n).len() <= n,
    decreases n,
{
    if n > 0 {
        lemma_dep_instrs_len(mem_deps, dep1, dep2, high, n - 1);
    }
}

/// A pair body has at most 29 instructions.
proof fn lemma_pairs_len(pairs: Seq<TurboOutputPairPlan>, n: int)
    requires
        0 <= n <= pairs.len(),
    ensures
        pairs_instrs(pairs, n).len() <= 29 * n,
    decreases n,
{
    if n > 0 {
        lemma_pairs_len(pairs, n - 1);
        let p = pairs[n - 1];
        lemma_dep_instrs_len(p.deps.mem_deps as u16, p.deps.dep1_low as u16, p.deps.dep2_low as u16, false, 8);
        lemma_dep_instrs_len(p.deps.mem_deps as u16, p.deps.dep1_high as u16, p.deps.dep2_high as u16, true, 8);
        lemma_dep_instrs_len(p.deps.mem_deps as u16, 0, 0, false, 3);
    }
}

/// The preloads of the fixed plan.
pub fn bitplane_preload_program() -> (p: Program)
    ensures
        p.instructions@ == preload_instrs(InputPreloadPlan::fixed_registers(), 16),
{
    let plan = InputPreloadPlan::fixed();
    proof {
        assert(plan.registers@ =~= InputPreloadPlan::fixed_registers());
    }
    let p = plan.emit_preloads(Program::new());
    proof {
        assert(p.instructions@ =~= preload_instrs(InputPreloadPlan::fixed_registers(), 16));
    }
    p
}

/// The code every generated body starts with: both block pointers
/// advanced by a block, then the preloads.
pub open spec fn static_prefix_instrs() -> Seq<Instruction> {
    seq![Instruction::AddRegImm32 { reg: Reg::Rax, value: 512 }, Instruction::AddRegImm32 { reg: Reg::Rdx, value: 512 }]
        + preload_instrs(InputPreloadPlan::fixed_registers(), 16)
}

/// The machine code of [`static_prefix_instrs`].
pub fn xor_jit_body_static_prefix() -> (code: Vec<u8>)
    ensures
        code@ == encode_all(static_prefix_instrs()),
{
    bitplane_preload_program().finish_turbo_block_loop_prefix()
}

/// Prefetch distance of the prefetching body.
pub const XOR_JIT_BODY_PREFETCH_STEP: u32 = 256;

/// The prefetch step of a body.
pub open spec fn prefetch_step(prefetch: bool) -> Option<u32> {
    if prefetch {
        Some(XOR_JIT_BODY_PREFETCH_STEP)
    } else {
        None
    }
}

/// Append the part of a plan's body that follows a prefix of
/// `static_prefix_len` bytes: the pair bodies in a block loop.  Returns
/// its length.
pub fn emit_bitplane_chunk_program_dynamic_into(
    plan: &crate::xor_jit::BitplaneCoeffPlan,
    tables: &TurboDepTables,
    prefetch: bool,
    static_prefix_len: usize,
    encoded: &mut Vec<u8>,
) -> (n: usize)
    requires
        dep_tables_ok(tables),
        forall|k: int| 0 <= k < 8 ==> #[trigger] pair_plan_ok(plan.turbo_pairs@[k]),
        static_prefix_len <= 0x7000_0000,
    ensures
        final(encoded)@ == old(encoded)@ + encode_all(dynamic_loop(static_prefix_len as nat, pairs_instrs(plan.turbo_pairs@, 8), prefetch_step(prefetch), false)),
        n == encode_all(dynamic_loop(static_prefix_len as nat, pairs_instrs(plan.turbo_pairs@, 8), prefetch_step(prefetch), false)).len(),
        n <= 2400,
{
    let program = emit_pairs(Program::new(), plan, tables);
    proof {
        assert(program.instructions@ =~= pairs_instrs(plan.turbo_pairs@, 8));
        lemma_pairs_len(plan.turbo_pairs@, 8);
        lemma_encode_all_bound(program.instructions@);
        let lp = dynamic_loop(static_prefix_len as nat, pairs_instrs(plan.turbo_pairs@, 8), prefetch_step(prefetch), false);
        lemma_encode_all_bound(lp);
        assert(lp.len() <= 300);
    }
    let step = if prefetch {
        Some(XOR_JIT_BODY_PREFETCH_STEP)
    } else {
        None
    };
    program.finish_block_loop_dynamic_after_static_prefix_no_vzeroupper_into(static_prefix_len, 512, step, encoded)
}

/// Append a plan's whole body: the static prefix, then the pair bodies in a
/// block loop.  Returns its length.
pub fn emit_bitplane_chunk_program_into(
    plan: &crate::xor_jit::BitplaneCoeffPlan,
    tables: &TurboDepTables,
    prefetch: bool,
    encoded: &mut Vec<u8>,
) -> (n: usize)
    requires
        dep_tables_ok(tables),
        forall|k: int| 0 <= k < 8 ==> #[trigger] pair_plan_ok(plan.turbo_pairs@[k]),
    ensures
        final(encoded)@ == old(encoded)@ + encode_all(static_prefix_instrs()) + encode_all(dynamic_loop(
            encode_all(static_prefix_instrs()).len(),
            pairs_instrs(plan.turbo_pairs@, 8),
            prefetch_step(prefetch),
            false,
        )),
        n == encode_all(static_prefix_instrs()).len() + encode_all(dynamic_loop(
            encode_all(static_prefix_instrs()).len(),
            pairs_instrs(plan.turbo_pairs@, 8),
            prefetch_step(prefetch),
            false,
        )).len(),
{
    let static_prefix = xor_jit_body_static_prefix();
    proof {
        lemma_encode_all_bound(static_prefix_instrs());
        assert(static_prefix_instrs().len() == 2 + preload_instrs(InputPreloadPlan::fixed_registers(), 16).len());
        lemma_preload_len(InputPreloadPlan::fixed_registers(), 16);
    }
    encoded.extend_from_slice(static_prefix.as_slice());
    let dynamic_len = emit_bitplane_chunk_program_dynamic_into(plan, tables, prefetch, static_prefix.len(), encoded);
    proof {
        let body = pairs_instrs(plan.turbo_pairs@, 8);
        let lp = dynamic_loop(static_prefix@.len(), body, prefetch_step(prefetch), false);
        lemma_pairs_len(plan.turbo_pairs@, 8);
        lemma_encode_all_bound(lp);
        assert(lp.len() <= 300);
    }
    static_prefix.len() + dynamic_len
}

/// The static prefix takes at most 2064 bytes.
pub proof fn lemma_static_prefix_len()
    ensures
        encode_all(static_prefix_instrs()).len() <= 2064,
{
    lemma_encode_all_bound(static_prefix_instrs());
    lemma_preload_len(InputPreloadPlan::fixed_registers(), 16);
}

proof fn lemma_preload_len(regs: Seq<Option<u8>>, r: int)
    requires
        0 <= r,
    ensures
        preload_instrs(regs, r).len() <= 16 * r,
    decreases r,
{
    if r > 0 {
        lemma_preload_len(regs, r - 1);
        lemma_preload_row_len(regs, r - 1, 16);
    }
}

proof fn lemma_preload_row_len(regs: Seq<Option<u8>>, r: int, ib: int)
    requires
        0 <= ib,
    ensures
        preload_row(regs, r, ib).len() <= ib,
    decreases ib,
{
    if ib > 0 {
        lemma_preload_row_len(regs, r, ib - 1);
    }
}

/// A plan's whole body as a new byte vector.
pub fn emit_bitplane_chunk_program_bytes(plan: &crate::xor_jit::BitplaneCoeffPlan, tables: &TurboDepTables, prefetch: bool) -> (code: Vec<u8>)
    requires
        dep_tables_ok(tables),
        forall|k: int| 0 <= k < 8 ==> #[trigger] pair_plan_ok(plan.turbo_pairs@[k]),
    ensures
        code@ == encode_all(static_prefix_instrs()) + encode_all(dynamic_loop(
            encode_all(static_prefix_instrs()).len(),
            pairs_instrs(plan.turbo_pairs@, 8),
            prefetch_step(prefetch),
            false,
        )),
{
    let mut encoded: Vec<u8> = Vec::new();
    let _ = emit_bitplane_chunk_program_into(plan, tables, prefetch, &mut encoded);
    proof {
        assert(encoded@ =~= encode_all(static_prefix_instrs()) + encode_all(dynamic_loop(
            encode_all(static_prefix_instrs()).len(),
            pairs_instrs(plan.turbo_pairs@, 8),
            prefetch_step(prefetch),
            false,
        )));
    }
    encoded
}

/// [`emit_bitplane_chunk_program_dynamic_into`] for the plan of
/// `coefficient`.
pub fn emit_bitplane_chunk_program_dynamic_for_coefficient_into(
    coefficient: u16,
    tables: &TurboDepTables,
    prefetch: bool,
    static_prefix_len: usize,
    encoded: &mut Vec<u8>,
) -> (n: usize)
    requires
        dep_tables_ok(tables),
        static_prefix_len <= 0x7000_0000,
    ensures
        crate::xor_jit::generated_body(final(encoded)@.subrange(old(encoded)@.len() as int, final(encoded)@.len() as int), static_prefix_len as nat, coefficient, prefetch),
        final(encoded)@.subrange(0, old(encoded)@.len() as int) == old(encoded)@,
        n == final(encoded)@.len() - old(encoded)@.len(),
{
    let plan = crate::xor_jit::BitplaneCoeffPlan::new(coefficient);
    let ghost before = encoded@;
    let n = emit_bitplane_chunk_program_dynamic_into(&plan, tables, prefetch, static_prefix_len, encoded);
    proof {
        let body = encoded@.subrange(before.len() as int, encoded@.len() as int);
        assert(body =~= encode_all(dynamic_loop(static_prefix_len as nat, pairs_instrs(plan.turbo_pairs@, 8), prefetch_step(prefetch), false)));
        assert(encoded@.subrange(0, before.len() as int) =~= before);
        assert(crate::xor_jit::generated_body(body, static_prefix_len as nat, coefficient, prefetch));
    }
    n
}

proof fn lemma_encode_one(i: Instruction)
    ensures
        encode_all(seq![i]) == encode(i),
{
    assert(seq![i].drop_last() =~= Seq::<Instruction>::empty());
    assert(encode_all(Seq::<Instruction>::empty()) + encode(i) =~= encode(i));
}

proof fn lemma_encode_two(i: Instruction, j: Instruction)
    ensures
        encode_all(seq![i, j]) == encode(i) + encode(j),
{
    lemma_encode_one(i);
    assert(seq![i, j].drop_last() =~= seq![i]);
}

/// Write the load of output plane `output_bit` into `output_reg`, with
/// the seed input plane added, as machine code.
pub fn emit_turbo_muladd_output_seed_sink(program: ProgramSink, output_reg: u8, output_bit: usize, highest: Option<usize>) -> (p: ProgramSink)
    requires
        output_reg < 16,
        output_bit < 16,
        highest matches Some(h) ==> h < 16,
    ensures
        p.encoded@ == program.encoded@ + encode_all(seeded_load_instrs(output_reg, output_bit as int, highest)),
{
    let output_offset = bitplane_vector_offset(output_bit);
    let ghost start = program.encoded@;
    let p = match highest {
        Some(h) => if h > 2 {
            program.vpxor_ymm_rdx_offset(output_reg, h as u8, output_offset)
        } else {
            program.vmovdqa_ymm_from_rdx_offset(output_reg, output_offset).vpxor_ymm_rax_offset(
                output_reg,
                output_reg,
                physical_bitplane_vector_offset(h),
            )
        },
        None => program.vmovdqa_ymm_from_rdx_offset(output_reg, output_offset),
    };
    proof {
        let instrs = seeded_load_instrs(output_reg, output_bit as int, highest);
        if instrs.len() == 1 {
            lemma_encode_one(instrs[0]);
        } else {
            lemma_encode_two(instrs[0], instrs[1]);
        }
        assert(p.encoded@ =~= start + encode_all(instrs));
    }
    p
}

/// Write the gathering of the shared inputs `lowest` and `highest` into
/// `reg` as machine code; returns the register and whether anything was
/// gathered.
pub fn emit_turbo_load_part_sink(program: ProgramSink, reg: u8, lowest: Option<usize>, highest: Option<usize>) -> (r: (ProgramSink, u8, bool))
    requires
        reg < 16,
        lowest matches Some(l) ==> l < 16,
        highest matches Some(h) ==> h < 16,
    ensures
        r.0.encoded@ == program.encoded@ + encode_all(common_acc_instrs(reg, TurboCommonPlan { lowest, highest, eliminated_mask: 0 }).0),
        r.1 == reg,
        r.2 == common_acc_instrs(reg, TurboCommonPlan { lowest, highest, eliminated_mask: 0 }).1,
{
    let ghost start = program.encoded@;
    let ghost instrs = common_acc_instrs(reg, TurboCommonPlan { lowest, highest, eliminated_mask: 0 }).0;
    let lowest = match lowest {
        None => {
            proof {
                assert(instrs =~= Seq::<Instruction>::empty());
                assert(start + encode_all(instrs) =~= start);
            }
            return (program, reg, false);
        },
        Some(l) => l,
    };
    let p = if lowest < 3 {
        match highest {
            Some(h) => if h > 2 {
                program.vpxor_ymm_rax_offset(reg, h as u8, physical_bitplane_vector_offset(lowest))
            } else {
                program.vmovdqa_ymm_from_rax_offset(reg, physical_bitplane_vector_offset(h)).vpxor_ymm_rax_offset(
                    reg,
                    reg,
                    physical_bitplane_vector_offset(lowest),
                )
            },
            None => program.vmovdqa_ymm_from_rax_offset(reg, physical_bitplane_vector_offset(lowest)),
        }
    } else {
        match highest {
            Some(h) => program.vpxor_ymm(reg, h as u8, lowest as u8),
            None => program.vmovdqa_ymm(reg, lowest as u8),
        }
    };
    proof {
        if instrs.len() == 1 {
            lemma_encode_one(instrs[0]);
        } else {
            lemma_encode_two(instrs[0], instrs[1]);
        }
        assert(p.encoded@ =~= start + encode_all(instrs));
    }
    (p, reg, true)
}

/// Code of `acc` followed by code of `x` is the code of `acc + x`.
proof fn lemma_extend(start: Seq<u8>, acc: Seq<Instruction>, x: Seq<Instruction>, enc: Seq<u8>, enc2: Seq<u8>)
    requires
        enc == start + encode_all(acc),
        enc2 == enc + encode_all(x),
    ensures
        enc2 == start + encode_all(acc + x),
{
    lemma_encode_all_concat(acc, x);
    assert(enc2 =~= start + encode_all(acc + x));
}

/// Write the body of one pair of output planes as machine code, taking
/// the dependency code from the byte templates of the tables: the same
/// code as [`emit_output_pair_turbo_plan`] encodes.
#[verifier::rlimit(50)]
#[verifier::spinoff_prover]
pub fn emit_output_pair_turbo_sink(program: ProgramSink, tables: &TurboDepTables, pair: TurboOutputPairPlan) -> (p: ProgramSink)
    requires
        dep_tables_ok(tables),
        pair_plan_ok(pair),
    ensures
        p.encoded@ == program.encoded@ + encode_all(pair_instrs(pair)),
{
    let ghost start = program.encoded@;
    let ghost common = common_acc_instrs(COMMON_INPUT_REG, pair.common);
    let ghost a = seeded_load_instrs(0, pair.first_output as int, pair.first_seed);
    let ghost b = seeded_load_instrs(1, pair.second_output as int, pair.second_seed);
    let ghost m = mem_dep_instrs(pair.deps.mem_deps as u16);
    let ghost lo = main_dep_instrs(pair.deps.dep1_low as u16, pair.deps.dep2_low as u16, false);
    let ghost hi = main_dep_instrs(pair.deps.dep1_high as u16, pair.deps.dep2_high as u16, true);
    proof {
        assert(start =~= start + encode_all(Seq::<Instruction>::empty()));
    }
    let program = emit_turbo_muladd_output_seed_sink(program, 0, pair.first_output, pair.first_seed);
    proof {
        lemma_extend(start, Seq::empty(), a, start, program.encoded@);
        assert(Seq::<Instruction>::empty() + a =~= a);
    }
    let ghost e1 = program.encoded@;
    let program = emit_turbo_muladd_output_seed_sink(program, 1, pair.second_output, pair.second_seed);
    proof {
        lemma_extend(start, a, b, e1, program.encoded@);
    }
    let ghost e2 = program.encoded@;
    let (program, common_reg, common_active) = emit_turbo_load_part_sink(program, COMMON_INPUT_REG, pair.common.lowest, pair.common.highest);
    proof {
        assert(common == common_acc_instrs(COMMON_INPUT_REG, TurboCommonPlan { lowest: pair.common.lowest, highest: pair.common.highest, eliminated_mask: 0 }));
        lemma_extend(start, a + b, common.0, e2, program.encoded@);
    }
    let dep_key = (pair.deps.dep1_low as usize) * 128 + pair.deps.dep2_low as usize;
    let dep_key_high = (pair.deps.dep1_high as usize) * 64 + pair.deps.dep2_high as usize;
    proof {
        assert(mem_row_ok(tables.mem_ops@[pair.deps.mem_deps as int], tables.mem_len@[pair.deps.mem_deps as int], tables.mem_bytes@[pair.deps.mem_deps as int]@, pair.deps.mem_deps as int));
        assert(dep_key / 128 == pair.deps.dep1_low && dep_key % 128 == pair.deps.dep2_low);
        assert(dep_key_high / 64 == pair.deps.dep1_high && dep_key_high % 64 == pair.deps.dep2_high);
    }
    let ghost e3 = program.encoded@;
    let program = program.emit_bytes(tables.mem_bytes[pair.deps.mem_deps as usize].as_slice());
    proof {
        lemma_extend(start, a + b + common.0, m, e3, program.encoded@);
    }
    let ghost e4 = program.encoded@;
    let program = program.emit_bytes(tables.main_bytes_low[dep_key].as_slice());
    proof {
        lemma_extend(start, a + b + common.0 + m, lo, e4, program.encoded@);
    }
    let ghost e5 = program.encoded@;
    let program = program.emit_bytes(tables.main_bytes_high[dep_key_high].as_slice());
    proof {
        lemma_extend(start, a + b + common.0 + m + lo, hi, e5, program.encoded@);
    }
    let ghost e6 = program.encoded@;
    let ghost add: Seq<Instruction> = if common.1 {
        seq![Instruction::Vpxor { dst: 0, lhs: COMMON_INPUT_REG, rhs: 0 }, Instruction::Vpxor { dst: 1, lhs: COMMON_INPUT_REG, rhs: 1 }]
    } else {
        Seq::empty()
    };
    let program = if common_active {
        program.vpxor_ymm(0, common_reg, 0).vpxor_ymm(1, common_reg, 1)
    } else {
        program
    };
    proof {
        if common.1 {
            lemma_encode_two(add[0], add[1]);
        } else {
            assert(encode_all(add) =~= Seq::<u8>::empty());
        }
        assert(program.encoded@ =~= e6 + encode_all(add));
        lemma_extend(start, a + b + common.0 + m + lo + hi, add, e6, program.encoded@);
    }
    let ghost e7 = program.encoded@;
    let ghost st = seq![
        Instruction::VmovdqaStore { memory: output_mem(pair.first_output as int), src: 0 },
        Instruction::VmovdqaStore { memory: output_mem(pair.second_output as int), src: 1 },
    ];
    let p = program.vmovdqa_rdx_offset_from_ymm(bitplane_vector_offset(pair.first_output), 0).vmovdqa_rdx_offset_from_ymm(
        bitplane_vector_offset(pair.second_output),
        1,
    );
    proof {
        lemma_encode_two(st[0], st[1]);
        assert(p.encoded@ =~= e7 + encode_all(st));
        lemma_extend(start, a + b + common.0 + m + lo + hi + add, st, e7, p.encoded@);
        assert(pair_instrs(pair) == a + b + common.0 + m + lo + hi + add + st);
    }
    p
}

} // verus!
