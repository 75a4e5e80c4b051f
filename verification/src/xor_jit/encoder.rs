//! An x86-64 encoder for the few instructions that the XOR kernels use, and
//! the loops that wrap a kernel body.  Every emitted byte is specified by
//! `encode`, the encoding of one instruction.
use vstd::prelude::*;

verus! {

/// General-purpose registers used as bases and counters.
#[derive(Debug, Clone, Copy, PartialEq, Eq, Structural)]
pub enum Reg {
    Rax,
    Rcx,
    Rdx,
    Rsi,
    Rdi,
}

/// The register number of a general-purpose register.
pub open spec fn reg_code(r: Reg) -> u8 {
    match r {
        Reg::Rax => 0,
        Reg::Rcx => 1,
        Reg::Rdx => 2,
        Reg::Rsi => 6,
        Reg::Rdi => 7,
    }
}

fn code_of(r: Reg) -> (c: u8)
    ensures
        c == reg_code(r),
{
    match r {
        Reg::Rax => 0,
        Reg::Rcx => 1,
        Reg::Rdx => 2,
        Reg::Rsi => 6,
        Reg::Rdi => 7,
    }
}

/// A memory operand `[base + displacement]`.
#[derive(Debug, Clone, Copy, PartialEq, Eq, Structural)]
pub struct Memory {
    pub base: Reg,
    pub displacement: i32,
}

/// One instruction; YMM registers are numbered 0 to 15.
#[derive(Debug, Clone, Copy, PartialEq, Eq, Structural)]
pub enum Instruction {
    MovEaxImm32(u32),
    AddRegImm32 { reg: Reg, value: u32 },
    SubRegImm32 { reg: Reg, value: u32 },
    CmpRegReg { lhs: Reg, rhs: Reg },
    PrefetchT1 { memory: Memory },
    Vmovdqa { dst: u8, src: u8 },
    VmovdqaLoad { dst: u8, memory: Memory },
    VmovdqaStore { memory: Memory, src: u8 },
    VmovdquLoad { dst: u8, memory: Memory },
    VmovdquStore { memory: Memory, src: u8 },
    Vpxor { dst: u8, lhs: u8, rhs: u8 },
    VpxorMemory { dst: u8, lhs: u8, memory: Memory },
    JneRel32(i32),
    JlRel32(i32),
    Vzeroupper,
    Ret,
}

/// The YMM register numbers in an instruction are below 16.
pub open spec fn valid_instruction(i: Instruction) -> bool {
    match i {
        Instruction::Vmovdqa { dst, src } => dst < 16 && src < 16,
        Instruction::VmovdqaLoad { dst, .. } => dst < 16,
        Instruction::VmovdqaStore { src, .. } => src < 16,
        Instruction::VmovdquLoad { dst, .. } => dst < 16,
        Instruction::VmovdquStore { src, .. } => src < 16,
        Instruction::Vpxor { dst, lhs, rhs } => dst < 16 && lhs < 16 && rhs < 16,
        Instruction::VpxorMemory { dst, lhs, .. } => dst < 16 && lhs < 16,
        _ => true,
    }
}

/// Little-endian bytes of a 32-bit value.
pub open spec fn le32(v: u32) -> Seq<u8> {
    seq![(v & 0xff) as u8, ((v >> 8u32) & 0xff) as u8, ((v >> 16u32) & 0xff) as u8, ((v >> 24u32) & 0xff) as u8]
}

/// ModRM byte for a memory operand.
pub open spec fn modrm_memory(mode: u8, reg: u8, rm: u8) -> u8 {
    (mode << 6u8) | ((reg & 7) << 3u8) | (rm & 7)
}

/// ModRM byte for a register operand.
pub open spec fn modrm_register(reg: u8, rm: u8) -> u8 {
    0xc0u8 | ((reg & 7) << 3u8) | (rm & 7)
}

/// The bytes of a memory operand with `reg` in the ModRM reg field: no
/// displacement for zero, one byte for -128..=127, four bytes otherwise.
pub open spec fn encode_memory(m: Memory, reg: u8) -> Seq<u8> {
    let rm = reg_code(m.base);
    if m.displacement == 0 {
        seq![modrm_memory(0, reg, rm)]
    } else if -128 <= m.displacement <= 127 {
        seq![modrm_memory(1, reg, rm), m.displacement as u8]
    } else {
        seq![modrm_memory(2, reg, rm)] + le32(m.displacement as u32)
    }
}

/// A 256-bit VEX prefix with map 0F: two bytes when the r/m register needs
/// no extension, three otherwise.
pub open spec fn vex_256(reg: u8, vvvv: u8, rm: u8, pp: u8) -> Seq<u8> {
    let rbit: u8 = if (reg >> 3u8) & 1 == 0 { 0x80 } else { 0 };
    let tail: u8 = (((!vvvv) & 0x0f) << 3u8) | 0x04 | pp;
    if (rm >> 3u8) & 1 == 0 {
        seq![0xc5u8, rbit | tail]
    } else {
        seq![0xc4u8, rbit | 0x40 | 0x01, tail]
    }
}

/// The machine code of one instruction.
pub open spec fn encode(i: Instruction) -> Seq<u8> {
    match i {
        Instruction::MovEaxImm32(v) => seq![0xb8u8] + le32(v),
        Instruction::AddRegImm32 { reg, value } => if reg == Reg::Rax {
            seq![0x48u8, 0x05] + le32(value)
        } else {
            seq![0x48u8, 0x81, modrm_register(0, reg_code(reg))] + le32(value)
        },
        Instruction::SubRegImm32 { reg, value } => seq![0x48u8, 0x81, modrm_register(5, reg_code(reg))] + le32(value),
        Instruction::CmpRegReg { lhs, rhs } => seq![0x48u8, 0x39, modrm_register(reg_code(rhs), reg_code(lhs))],
        Instruction::PrefetchT1 { memory } => seq![0x0fu8, 0x18] + encode_memory(memory, 2),
        Instruction::Vmovdqa { dst, src } => vex_256(dst, 0, src, 1) + seq![0x6fu8, modrm_register(dst, src)],
        Instruction::VmovdqaLoad { dst, memory } => vex_256(dst, 0, reg_code(memory.base), 1) + seq![0x6fu8] + encode_memory(memory, dst),
        Instruction::VmovdqaStore { memory, src } => vex_256(src, 0, reg_code(memory.base), 1) + seq![0x7fu8] + encode_memory(memory, src),
        Instruction::VmovdquLoad { dst, memory } => vex_256(dst, 0, reg_code(memory.base), 2) + seq![0x6fu8] + encode_memory(memory, dst),
        Instruction::VmovdquStore { memory, src } => vex_256(src, 0, reg_code(memory.base), 2) + seq![0x7fu8] + encode_memory(memory, src),
        Instruction::Vpxor { dst, lhs, rhs } => vex_256(dst, lhs, rhs, 1) + seq![0xefu8, modrm_register(dst, rhs)],
        Instruction::VpxorMemory { dst, lhs, memory } => vex_256(dst, lhs, reg_code(memory.base), 1) + seq![0xefu8] + encode_memory(memory, dst),
        Instruction::JneRel32(o) => seq![0x0fu8, 0x85] + le32(o as u32),
        Instruction::JlRel32(o) => seq![0x0fu8, 0x8c] + le32(o as u32),
        Instruction::Vzeroupper => seq![0xc5u8, 0xf8, 0x77],
        Instruction::Ret => seq![0xc3u8],
    }
}

/// The machine code of a sequence of instructions.
pub open spec fn encode_all(s: Seq<Instruction>) -> Seq<u8>
    decreases s.len(),
{
    if s.len() == 0 {
        Seq::empty()
    } else {
        encode_all(s.drop_last()) + encode(s.last())
    }
}

fn push_le32(out: &mut Vec<u8>, v: u32)
    ensures
        final(out)@ == old(out)@ + le32(v),
{
    out.push((v & 0xff) as u8);
    out.push(((v >> 8) & 0xff) as u8);
    out.push(((v >> 16) & 0xff) as u8);
    out.push(((v >> 24) & 0xff) as u8);
    assert(out@ =~= old(out)@ + le32(v));
}

fn push_memory(out: &mut Vec<u8>, m: Memory, reg: u8)
    ensures
        final(out)@ == old(out)@ + encode_memory(m, reg),
{
    let rm = code_of(m.base);
    if m.displacement == 0 {
        out.push((0u8 << 6u8) | ((reg & 7) << 3u8) | (rm & 7));
        assert(out@ =~= old(out)@ + encode_memory(m, reg));
    } else if -128 <= m.displacement && m.displacement <= 127 {
        out.push((1u8 << 6u8) | ((reg & 7) << 3u8) | (rm & 7));
        out.push(m.displacement as u8);
        assert(out@ =~= old(out)@ + encode_memory(m, reg));
    } else {
        out.push((2u8 << 6u8) | ((reg & 7) << 3u8) | (rm & 7));
        let ghost mid = out@;
        push_le32(out, m.displacement as u32);
        assert(out@ =~= old(out)@ + encode_memory(m, reg));
    }
}

fn push_vex_256(out: &mut Vec<u8>, reg: u8, vvvv: u8, rm: u8, pp: u8)
    ensures
        final(out)@ == old(out)@ + vex_256(reg, vvvv, rm, pp),
{
    let rbit: u8 = if (reg >> 3u8) & 1 == 0 {
        0x80
    } else {
        0
    };
    let tail: u8 = (((!vvvv) & 0x0f) << 3u8) | 0x04 | pp;
    if (rm >> 3u8) & 1 == 0 {
        out.push(0xc5);
        out.push(rbit | tail);
    } else {
        out.push(0xc4);
        out.push(rbit | 0x40 | 0x01);
        out.push(tail);
    }
    assert(out@ =~= old(out)@ + vex_256(reg, vvvv, rm, pp));
}

/// Appends the machine code of `i`.
pub fn encode_into(i: Instruction, out: &mut Vec<u8>)
    ensures
        final(out)@ == old(out)@ + encode(i),
{
    match i {
        Instruction::MovEaxImm32(v) => {
            out.push(0xb8);
            push_le32(out, v);
        },
        Instruction::AddRegImm32 { reg, value } => {
            out.push(0x48);
            if reg == Reg::Rax {
                out.push(0x05);
            } else {
                out.push(0x81);
                let rc = code_of(reg);
                out.push(0xc0u8 | ((0u8 & 7) << 3u8) | (rc & 7));
            }
            push_le32(out, value);
        },
        Instruction::SubRegImm32 { reg, value } => {
            out.push(0x48);
            out.push(0x81);
            let rc = code_of(reg);
            out.push(0xc0u8 | ((5u8 & 7) << 3u8) | (rc & 7));
            push_le32(out, value);
        },
        Instruction::CmpRegReg { lhs, rhs } => {
            out.push(0x48);
            out.push(0x39);
            let a = code_of(rhs);
            let b = code_of(lhs);
            out.push(0xc0u8 | ((a & 7) << 3u8) | (b & 7));
        },
        Instruction::PrefetchT1 { memory } => {
            out.push(0x0f);
            out.push(0x18);
            push_memory(out, memory, 2);
        },
        Instruction::Vmovdqa { dst, src } => {
            push_vex_256(out, dst, 0, src, 1);
            out.push(0x6f);
            out.push(0xc0u8 | ((dst & 7) << 3u8) | (src & 7));
        },
        Instruction::VmovdqaLoad { dst, memory } => {
            push_vex_256(out, dst, 0, code_of(memory.base), 1);
            out.push(0x6f);
            push_memory(out, memory, dst);
        },
        Instruction::VmovdqaStore { memory, src } => {
            push_vex_256(out, src, 0, code_of(memory.base), 1);
            out.push(0x7f);
            push_memory(out, memory, src);
        },
        Instruction::VmovdquLoad { dst, memory } => {
            push_vex_256(out, dst, 0, code_of(memory.base), 2);
            out.push(0x6f);
            push_memory(out, memory, dst);
        },
        Instruction::VmovdquStore { memory, src } => {
            push_vex_256(out, src, 0, code_of(memory.base), 2);
            out.push(0x7f);
            push_memory(out, memory, src);
        },
        Instruction::Vpxor { dst, lhs, rhs } => {
            push_vex_256(out, dst, lhs, rhs, 1);
            out.push(0xef);
            out.push(0xc0u8 | ((dst & 7) << 3u8) | (rhs & 7));
        },
        Instruction::VpxorMemory { dst, lhs, memory } => {
            push_vex_256(out, dst, lhs, code_of(memory.base), 1);
            out.push(0xef);
            push_memory(out, memory, dst);
        },
        Instruction::JneRel32(o) => {
            out.push(0x0f);
            out.push(0x85);
            push_le32(out, o as u32);
        },
        Instruction::JlRel32(o) => {
            out.push(0x0f);
            out.push(0x8c);
            push_le32(out, o as u32);
        },
        Instruction::Vzeroupper => {
            out.push(0xc5);
            out.push(0xf8);
            out.push(0x77);
        },
        Instruction::Ret => {
            out.push(0xc3);
        },
    }
    assert(out@ =~= old(out)@ + encode(i));
}

/// Number of bytes in the encoding of a memory operand.
pub open spec fn memory_len(m: Memory) -> nat {
    if m.displacement == 0 {
        1
    } else if -128 <= m.displacement <= 127 {
        2
    } else {
        5
    }
}

fn memory_encoded_len(m: Memory) -> (n: usize)
    ensures
        n == memory_len(m),
        n == encode_memory(m, 0).len(),
{
    if m.displacement == 0 {
        1
    } else if -128 <= m.displacement && m.displacement <= 127 {
        2
    } else {
        5
    }
}

proof fn lemma_low_register(c: u8)
    by (bit_vector)
    requires
        c < 8,
    ensures
        (c >> 3u8) & 1 == 0,
{
}

/// Number of bytes in the encoding of `i`.
pub open spec fn instr_len(i: Instruction) -> nat {
    match i {
        Instruction::MovEaxImm32(_) => 5,
        Instruction::AddRegImm32 { reg, .. } => if reg == Reg::Rax {
            6
        } else {
            7
        },
        Instruction::SubRegImm32 { .. } => 7,
        Instruction::CmpRegReg { .. } => 3,
        Instruction::PrefetchT1 { memory } => 2 + memory_len(memory),
        Instruction::Vmovdqa { src, .. } => if (src >> 3u8) & 1 == 1 {
            5
        } else {
            4
        },
        Instruction::VmovdqaLoad { memory, .. } => 3 + memory_len(memory),
        Instruction::VmovdqaStore { memory, .. } => 3 + memory_len(memory),
        Instruction::VmovdquLoad { memory, .. } => 3 + memory_len(memory),
        Instruction::VmovdquStore { memory, .. } => 3 + memory_len(memory),
        Instruction::Vpxor { rhs, .. } => if (rhs >> 3u8) & 1 == 1 {
            5
        } else {
            4
        },
        Instruction::VpxorMemory { memory, .. } => 3 + memory_len(memory),
        Instruction::JneRel32(_) => 6,
        Instruction::JlRel32(_) => 6,
        Instruction::Vzeroupper => 3,
        Instruction::Ret => 1,
    }
}

proof fn lemma_bit3(c: u8)
    by (bit_vector)
    ensures
        ((c >> 3u8) & 1 == 0) || ((c >> 3u8) & 1 == 1),
{
}

/// The encoding of `i` has `instr_len(i)` bytes.
pub proof fn lemma_encode_len(i: Instruction)
    ensures
        encode(i).len() == instr_len(i),
{
    match i {
        Instruction::MovEaxImm32(v) => {},
        Instruction::AddRegImm32 { reg, value } => {},
        Instruction::SubRegImm32 { reg, value } => {},
        Instruction::CmpRegReg { lhs, rhs } => {},
        Instruction::PrefetchT1 { memory } => {},
        Instruction::Vmovdqa { dst, src } => {
            lemma_bit3(src);
        },
        Instruction::VmovdqaLoad { dst, memory } => {
            lemma_low_register(reg_code(memory.base));
        },
        Instruction::VmovdqaStore { memory, src } => {
            lemma_low_register(reg_code(memory.base));
        },
        Instruction::VmovdquLoad { dst, memory } => {
            lemma_low_register(reg_code(memory.base));
        },
        Instruction::VmovdquStore { memory, src } => {
            lemma_low_register(reg_code(memory.base));
        },
        Instruction::Vpxor { dst, lhs, rhs } => {
            lemma_bit3(rhs);
        },
        Instruction::VpxorMemory { dst, lhs, memory } => {
            lemma_low_register(reg_code(memory.base));
        },
        Instruction::JneRel32(o) => {},
        Instruction::JlRel32(o) => {},
        Instruction::Vzeroupper => {},
        Instruction::Ret => {},
    }
}

/// Number of bytes in the encoding of `i`.
pub fn encoded_len(i: Instruction) -> (n: usize)
    ensures
        n == encode(i).len(),
{
    proof {
        lemma_encode_len(i);
    }
    match i {
        Instruction::MovEaxImm32(_) => 5,
        Instruction::AddRegImm32 { reg, .. } => if reg == Reg::Rax {
            6
        } else {
            7
        },
        Instruction::SubRegImm32 { .. } => 7,
        Instruction::CmpRegReg { .. } => 3,
        Instruction::PrefetchT1 { memory } => 2 + memory_encoded_len(memory),
        Instruction::Vmovdqa { src, .. } => if (src >> 3u8) & 1 == 1 {
            5
        } else {
            4
        },
        Instruction::VmovdqaLoad { memory, .. } | Instruction::VmovdqaStore { memory, .. } => 3 + memory_encoded_len(memory),
        Instruction::VmovdquLoad { memory, .. } | Instruction::VmovdquStore { memory, .. } => 3 + memory_encoded_len(memory),
        Instruction::Vpxor { rhs, .. } => if (rhs >> 3u8) & 1 == 1 {
            5
        } else {
            4
        },
        Instruction::VpxorMemory { memory, .. } => 3 + memory_encoded_len(memory),
        Instruction::JneRel32(_) | Instruction::JlRel32(_) => 6,
        Instruction::Vzeroupper => 3,
        Instruction::Ret => 1,
    }
}

/// Appends the machine code of a sequence of instructions.
pub fn encode_sequence_into(s: &Vec<Instruction>, out: &mut Vec<u8>)
    ensures
        final(out)@ == old(out)@ + encode_all(s@),
{
    let mut k: usize = 0;
    while k < s.len()
        invariant
            k <= s@.len(),
            out@ == old(out)@ + encode_all(s@.take(k as int)),
        decreases s@.len() - k,
    {
        encode_into(s[k], out);
        proof {
            assert(s@.take(k as int + 1).drop_last() =~= s@.take(k as int));
            assert(out@ =~= old(out)@ + encode_all(s@.take(k as int + 1)));
        }
        k = k + 1;
    }
    proof {
        assert(s@.take(k as int) =~= s@);
    }
}

/// Number of bytes in the encoding of a sequence of instructions.
pub fn sequence_len(s: &Vec<Instruction>) -> (n: usize)
    requires
        encode_all(s@).len() <= usize::MAX,
    ensures
        n == encode_all(s@).len(),
{
    let mut n: usize = 0;
    let mut k: usize = 0;
    while k < s.len()
        invariant
            k <= s@.len(),
            encode_all(s@).len() <= usize::MAX,
            n == encode_all(s@.take(k as int)).len(),
        decreases s@.len() - k,
    {
        proof {
            assert(s@.take(k as int + 1).drop_last() =~= s@.take(k as int));
            lemma_encode_all_prefix_len(s@, k as int + 1);
        }
        n = n + encoded_len(s[k]);
        k = k + 1;
    }
    proof {
        assert(s@.take(k as int) =~= s@);
    }
    n
}

/// The code of a prefix is no longer than the code of the whole.
pub proof fn lemma_encode_all_prefix_len(s: Seq<Instruction>, k: int)
    requires
        0 <= k <= s.len(),
    ensures
        encode_all(s.take(k)).len() <= encode_all(s).len(),
    decreases s.len() - k,
{
    if k < s.len() {
        lemma_encode_all_prefix_len(s, k + 1);
        assert(s.take(k + 1).drop_last() =~= s.take(k));
    } else {
        assert(s.take(k) =~= s);
    }
}

/// The code of two sequences one after the other.
pub proof fn lemma_encode_all_concat(a: Seq<Instruction>, b: Seq<Instruction>)
    ensures
        encode_all(a + b) == encode_all(a) + encode_all(b),
    decreases b.len(),
{
    if b.len() == 0 {
        assert(a + b =~= a);
        assert(encode_all(a) + encode_all(b) =~= encode_all(a));
    } else {
        lemma_encode_all_concat(a, b.drop_last());
        assert((a + b).drop_last() =~= a + b.drop_last());
        assert(encode_all(a) + encode_all(b) =~= encode_all(a) + encode_all(b.drop_last()) + encode(b.last()));
    }
}

/// A kernel body: a sequence of instructions.
#[derive(Debug, Clone)]
pub struct Program {
    pub instructions: Vec<Instruction>,
}

impl Program {
    /// An empty program.
    pub fn new() -> (p: Self)
        ensures
            p.instructions@ == Seq::<Instruction>::empty(),
    {
        Self { instructions: Vec::new() }
    }

    pub fn mov_eax_imm32(self, value: u32) -> (p: Self)
        ensures
            p.instructions@ == self.instructions@.push(Instruction::MovEaxImm32(value)),
    {
        let mut s = self;
        s.instructions.push(Instruction::MovEaxImm32(value));
        s
    }

    pub fn ret(self) -> (p: Self)
        ensures
            p.instructions@ == self.instructions@.push(Instruction::Ret),
    {
        let mut s = self;
        s.instructions.push(Instruction::Ret);
        s
    }

    pub fn vmovdqu_ymm0_from_rdi(self) -> (p: Self)
        ensures
            p.instructions@ == self.instructions@.push(Instruction::VmovdquLoad { dst: 0, memory: Memory { base: Reg::Rdi, displacement: 0 } }),
    {
        let mut s = self;
        s.instructions.push(Instruction::VmovdquLoad { dst: 0, memory: Memory { base: Reg::Rdi, displacement: 0 } });
        s
    }

    pub fn vmovdqu_ymm0_from_rdi_offset(self, offset: i32) -> (p: Self)
        ensures
            p.instructions@ == self.instructions@.push(Instruction::VmovdquLoad { dst: 0, memory: Memory { base: Reg::Rdi, displacement: offset } }),
    {
        let mut s = self;
        s.instructions.push(Instruction::VmovdquLoad { dst: 0, memory: Memory { base: Reg::Rdi, displacement: offset } });
        s
    }

    pub fn vmovdqu_ymm0_from_rsi_offset(self, offset: i32) -> (p: Self)
        ensures
            p.instructions@ == self.instructions@.push(Instruction::VmovdquLoad { dst: 0, memory: Memory { base: Reg::Rsi, displacement: offset } }),
    {
        let mut s = self;
        s.instructions.push(Instruction::VmovdquLoad { dst: 0, memory: Memory { base: Reg::Rsi, displacement: offset } });
        s
    }

    pub fn vmovdqu_ymm1_from_rdi_offset(self, offset: i32) -> (p: Self)
        ensures
            p.instructions@ == self.instructions@.push(Instruction::VmovdquLoad { dst: 1, memory: Memory { base: Reg::Rdi, displacement: offset } }),
    {
        let mut s = self;
        s.instructions.push(Instruction::VmovdquLoad { dst: 1, memory: Memory { base: Reg::Rdi, displacement: offset } });
        s
    }

    pub fn vmovdqu_ymm1_from_rsi_offset(self, offset: i32) -> (p: Self)
        ensures
            p.instructions@ == self.instructions@.push(Instruction::VmovdquLoad { dst: 1, memory: Memory { base: Reg::Rsi, displacement: offset } }),
    {
        let mut s = self;
        s.instructions.push(Instruction::VmovdquLoad { dst: 1, memory: Memory { base: Reg::Rsi, displacement: offset } });
        s
    }

    pub fn vmovdqu_ymm2_from_rdi_offset(self, offset: i32) -> (p: Self)
        ensures
            p.instructions@ == self.instructions@.push(Instruction::VmovdquLoad { dst: 2, memory: Memory { base: Reg::Rdi, displacement: offset } }),
    {
        let mut s = self;
        s.instructions.push(Instruction::VmovdquLoad { dst: 2, memory: Memory { base: Reg::Rdi, displacement: offset } });
        s
    }

    pub fn vmovdqu_ymm1_from_rsi(self) -> (p: Self)
        ensures
            p.instructions@ == self.instructions@.push(Instruction::VmovdquLoad { dst: 1, memory: Memory { base: Reg::Rsi, displacement: 0 } }),
    {
        let mut s = self;
        s.instructions.push(Instruction::VmovdquLoad { dst: 1, memory: Memory { base: Reg::Rsi, displacement: 0 } });
        s
    }

    pub fn vmovdqu_ymm_from_rdi_offset(self, reg: u8, offset: i32) -> (p: Self)
        requires
            reg < 16,
        ensures
            p.instructions@ == self.instructions@.push(Instruction::VmovdquLoad { dst: reg, memory: Memory { base: Reg::Rdi, displacement: offset } }),
    {
        let mut s = self;
        s.instructions.push(Instruction::VmovdquLoad { dst: reg, memory: Memory { base: Reg::Rdi, displacement: offset } });
        s
    }

    pub fn vmovdqu_ymm_from_rsi_offset(self, reg: u8, offset: i32) -> (p: Self)
        requires
            reg < 16,
        ensures
            p.instructions@ == self.instructions@.push(Instruction::VmovdquLoad { dst: reg, memory: Memory { base: Reg::Rsi, displacement: offset } }),
    {
        let mut s = self;
        s.instructions.push(Instruction::VmovdquLoad { dst: reg, memory: Memory { base: Reg::Rsi, displacement: offset } });
        s
    }

    pub fn vmovdqa_ymm_from_rdi_offset(self, reg: u8, offset: i32) -> (p: Self)
        requires
            reg < 16,
        ensures
            p.instructions@ == self.instructions@.push(Instruction::VmovdqaLoad { dst: reg, memory: Memory { base: Reg::Rdi, displacement: offset } }),
    {
        let mut s = self;
        s.instructions.push(Instruction::VmovdqaLoad { dst: reg, memory: Memory { base: Reg::Rdi, displacement: offset } });
        s
    }

    pub fn vmovdqa_ymm_from_rsi_offset(self, reg: u8, offset: i32) -> (p: Self)
        requires
            reg < 16,
        ensures
            p.instructions@ == self.instructions@.push(Instruction::VmovdqaLoad { dst: reg, memory: Memory { base: Reg::Rsi, displacement: offset } }),
    {
        let mut s = self;
        s.instructions.push(Instruction::VmovdqaLoad { dst: reg, memory: Memory { base: Reg::Rsi, displacement: offset } });
        s
    }

    pub fn vmovdqa_ymm_from_rax_offset(self, reg: u8, offset: i32) -> (p: Self)
        requires
            reg < 16,
        ensures
            p.instructions@ == self.instructions@.push(Instruction::VmovdqaLoad { dst: reg, memory: Memory { base: Reg::Rax, displacement: offset } }),
    {
        let mut s = self;
        s.instructions.push(Instruction::VmovdqaLoad { dst: reg, memory: Memory { base: Reg::Rax, displacement: offset } });
        s
    }

    pub fn vmovdqa_ymm_from_rdx_offset(self, reg: u8, offset: i32) -> (p: Self)
        requires
            reg < 16,
        ensures
            p.instructions@ == self.instructions@.push(Instruction::VmovdqaLoad { dst: reg, memory: Memory { base: Reg::Rdx, displacement: offset } }),
    {
        let mut s = self;
        s.instructions.push(Instruction::VmovdqaLoad { dst: reg, memory: Memory { base: Reg::Rdx, displacement: offset } });
        s
    }

    pub fn vpxor_ymm0_ymm0_ymm1(self) -> (p: Self)
        ensures
            p.instructions@ == self.instructions@.push(Instruction::Vpxor { dst: 0, lhs: 0, rhs: 1 }),
    {
        let mut s = self;
        s.instructions.push(Instruction::Vpxor { dst: 0, lhs: 0, rhs: 1 });
        s
    }

    pub fn vpxor_ymm0_ymm0_ymm2(self) -> (p: Self)
        ensures
            p.instructions@ == self.instructions@.push(Instruction::Vpxor { dst: 0, lhs: 0, rhs: 2 }),
    {
        let mut s = self;
        s.instructions.push(Instruction::Vpxor { dst: 0, lhs: 0, rhs: 2 });
        s
    }

    pub fn vpxor_ymm1_ymm1_ymm2(self) -> (p: Self)
        ensures
            p.instructions@ == self.instructions@.push(Instruction::Vpxor { dst: 1, lhs: 1, rhs: 2 }),
    {
        let mut s = self;
        s.instructions.push(Instruction::Vpxor { dst: 1, lhs: 1, rhs: 2 });
        s
    }

    pub fn vpxor_ymm(self, dst: u8, lhs: u8, rhs: u8) -> (p: Self)
        requires
            dst < 16,
            lhs < 16,
            rhs < 16,
        ensures
            p.instructions@ == self.instructions@.push(Instruction::Vpxor { dst, lhs, rhs }),
    {
        let mut s = self;
        s.instructions.push(Instruction::Vpxor { dst, lhs, rhs });
        s
    }

    pub fn vmovdqa_ymm(self, dst: u8, src: u8) -> (p: Self)
        requires
            dst < 16,
            src < 16,
        ensures
            p.instructions@ == self.instructions@.push(Instruction::Vmovdqa { dst, src }),
    {
        let mut s = self;
        s.instructions.push(Instruction::Vmovdqa { dst, src });
        s
    }

    pub fn vpxor_ymm_rdi_offset(self, dst: u8, lhs: u8, offset: i32) -> (p: Self)
        requires
            dst < 16,
            lhs < 16,
        ensures
            p.instructions@ == self.instructions@.push(Instruction::VpxorMemory { dst, lhs, memory: Memory { base: Reg::Rdi, displacement: offset } }),
    {
        let mut s = self;
        s.instructions.push(Instruction::VpxorMemory { dst, lhs, memory: Memory { base: Reg::Rdi, displacement: offset } });
        s
    }

    pub fn vpxor_ymm_rsi_offset(self, dst: u8, lhs: u8, offset: i32) -> (p: Self)
        requires
            dst < 16,
            lhs < 16,
        ensures
            p.instructions@ == self.instructions@.push(Instruction::VpxorMemory { dst, lhs, memory: Memory { base: Reg::Rsi, displacement: offset } }),
    {
        let mut s = self;
        s.instructions.push(Instruction::VpxorMemory { dst, lhs, memory: Memory { base: Reg::Rsi, displacement: offset } });
        s
    }

    pub fn vpxor_ymm_rax_offset(self, dst: u8, lhs: u8, offset: i32) -> (p: Self)
        requires
            dst < 16,
            lhs < 16,
        ensures
            p.instructions@ == self.instructions@.push(Instruction::VpxorMemory { dst, lhs, memory: Memory { base: Reg::Rax, displacement: offset } }),
    {
        let mut s = self;
        s.instructions.push(Instruction::VpxorMemory { dst, lhs, memory: Memory { base: Reg::Rax, displacement: offset } });
        s
    }

    pub fn vpxor_ymm_rdx_offset(self, dst: u8, lhs: u8, offset: i32) -> (p: Self)
        requires
            dst < 16,
            lhs < 16,
        ensures
            p.instructions@ == self.instructions@.push(Instruction::VpxorMemory { dst, lhs, memory: Memory { base: Reg::Rdx, displacement: offset } }),
    {
        let mut s = self;
        s.instructions.push(Instruction::VpxorMemory { dst, lhs, memory: Memory { base: Reg::Rdx, displacement: offset } });
        s
    }

    pub fn vmovdqu_rsi_from_ymm0(self) -> (p: Self)
        ensures
            p.instructions@ == self.instructions@.push(Instruction::VmovdquStore { memory: Memory { base: Reg::Rsi, displacement: 0 }, src: 0 }),
    {
        let mut s = self;
        s.instructions.push(Instruction::VmovdquStore { memory: Memory { base: Reg::Rsi, displacement: 0 }, src: 0 });
        s
    }

    pub fn vmovdqu_rsi_offset_from_ymm0(self, offset: i32) -> (p: Self)
        ensures
            p.instructions@ == self.instructions@.push(Instruction::VmovdquStore { memory: Memory { base: Reg::Rsi, displacement: offset }, src: 0 }),
    {
        let mut s = self;
        s.instructions.push(Instruction::VmovdquStore { memory: Memory { base: Reg::Rsi, displacement: offset }, src: 0 });
        s
    }

    pub fn vmovdqu_rsi_offset_from_ymm1(self, offset: i32) -> (p: Self)
        ensures
            p.instructions@ == self.instructions@.push(Instruction::VmovdquStore { memory: Memory { base: Reg::Rsi, displacement: offset }, src: 1 }),
    {
        let mut s = self;
        s.instructions.push(Instruction::VmovdquStore { memory: Memory { base: Reg::Rsi, displacement: offset }, src: 1 });
        s
    }

    pub fn vmovdqu_rsi_offset_from_ymm(self, offset: i32, reg: u8) -> (p: Self)
        requires
            reg < 16,
        ensures
            p.instructions@ == self.instructions@.push(Instruction::VmovdquStore { memory: Memory { base: Reg::Rsi, displacement: offset }, src: reg }),
    {
        let mut s = self;
        s.instructions.push(Instruction::VmovdquStore { memory: Memory { base: Reg::Rsi, displacement: offset }, src: reg });
        s
    }

    pub fn vmovdqa_rsi_offset_from_ymm(self, offset: i32, reg: u8) -> (p: Self)
        requires
            reg < 16,
        ensures
            p.instructions@ == self.instructions@.push(Instruction::VmovdqaStore { memory: Memory { base: Reg::Rsi, displacement: offset }, src: reg }),
    {
        let mut s = self;
        s.instructions.push(Instruction::VmovdqaStore { memory: Memory { base: Reg::Rsi, displacement: offset }, src: reg });
        s
    }

    pub fn vmovdqa_rdx_offset_from_ymm(self, offset: i32, reg: u8) -> (p: Self)
        requires
            reg < 16,
        ensures
            p.instructions@ == self.instructions@.push(Instruction::VmovdqaStore { memory: Memory { base: Reg::Rdx, displacement: offset }, src: reg }),
    {
        let mut s = self;
        s.instructions.push(Instruction::VmovdqaStore { memory: Memory { base: Reg::Rdx, displacement: offset }, src: reg });
        s
    }

    pub fn vzeroupper(self) -> (p: Self)
        ensures
            p.instructions@ == self.instructions@.push(Instruction::Vzeroupper),
    {
        let mut s = self;
        s.instructions.push(Instruction::Vzeroupper);
        s
    }

    /// The machine code of the body.
    pub fn finish(self) -> (code: Vec<u8>)
        ensures
            code@ == encode_all(self.instructions@),
    {
        let mut encoded: Vec<u8> = Vec::new();
        encode_sequence_into(&self.instructions, &mut encoded);
        encoded
    }

    /// The body after the pointer-bias and prefetch headers, without a loop.
    pub fn finish_block_loop_prefix(self, prefetch_step: Option<u32>, pointer_bias: u32) -> (code: Vec<u8>)
        ensures
            code@ == encode_all(bias_header(pointer_bias) + prefetch_header(prefetch_step, Reg::Rcx) + self.instructions@),
    {
        let mut all = instructions_vec(bias_header_vec(pointer_bias), prefetch_header_vec(prefetch_step, Reg::Rcx));
        let mut body = self.instructions;
        all.append(&mut body);
        let mut encoded: Vec<u8> = Vec::new();
        encode_sequence_into(&all, &mut encoded);
        encoded
    }

    /// The body after the block-pointer header (`rax` and `rdx` advanced by
    /// 512), without a loop.
    pub fn finish_turbo_block_loop_prefix(self) -> (code: Vec<u8>)
        ensures
            code@ == encode_all(seq![
                Instruction::AddRegImm32 { reg: Reg::Rax, value: 512 },
                Instruction::AddRegImm32 { reg: Reg::Rdx, value: 512 },
            ] + self.instructions@),
    {
        let mut all: Vec<Instruction> = Vec::new();
        all.push(Instruction::AddRegImm32 { reg: Reg::Rax, value: 512 });
        all.push(Instruction::AddRegImm32 { reg: Reg::Rdx, value: 512 });
        let ghost head = all@;
        let mut body = self.instructions;
        all.append(&mut body);
        proof {
            assert(head =~= seq![
                Instruction::AddRegImm32 { reg: Reg::Rax, value: 512 },
                Instruction::AddRegImm32 { reg: Reg::Rdx, value: 512 },
            ]);
        }
        let mut encoded: Vec<u8> = Vec::new();
        encode_sequence_into(&all, &mut encoded);
        encoded
    }

    pub fn finish_block_loop(self, block_bytes: u32) -> (code: Vec<u8>)
        requires
            encode_all(self.instructions@).len() <= 0x7fff_0000,
        ensures
            code@ == block_loop_code(self.instructions@, block_bytes, None, 0),
    {
        self.finish_block_loop_inner(block_bytes, None, 0)
    }

    pub fn finish_block_loop_with_prefetch(self, block_bytes: u32, prefetch_step: u32) -> (code: Vec<u8>)
        requires
            encode_all(self.instructions@).len() <= 0x7fff_0000,
        ensures
            code@ == block_loop_code(self.instructions@, block_bytes, Some(prefetch_step), 0),
    {
        self.finish_block_loop_inner(block_bytes, Some(prefetch_step), 0)
    }

    pub fn finish_block_loop_with_pointer_bias(self, block_bytes: u32, pointer_bias: u32) -> (code: Vec<u8>)
        requires
            encode_all(self.instructions@).len() <= 0x7fff_0000,
        ensures
            code@ == block_loop_code(self.instructions@, block_bytes, None, pointer_bias),
    {
        self.finish_block_loop_inner(block_bytes, None, pointer_bias)
    }

    pub fn finish_block_loop_with_prefetch_and_pointer_bias(self, block_bytes: u32, prefetch_step: u32, pointer_bias: u32) -> (code: Vec<u8>)
        requires
            encode_all(self.instructions@).len() <= 0x7fff_0000,
        ensures
            code@ == block_loop_code(self.instructions@, block_bytes, Some(prefetch_step), pointer_bias),
    {
        self.finish_block_loop_inner(block_bytes, Some(prefetch_step), pointer_bias)
    }

    /// A counted loop over the body: headers, body, pointer and length
    /// updates, a backward `jne`, `vzeroupper` and `ret`.  An empty body
    /// gives just `vzeroupper; ret`.
    fn finish_block_loop_inner(self, block_bytes: u32, prefetch_step: Option<u32>, pointer_bias: u32) -> (code: Vec<u8>)
        requires
            encode_all(self.instructions@).len() <= 0x7fff_0000,
        ensures
            code@ == block_loop_code(self.instructions@, block_bytes, prefetch_step, pointer_bias),
    {
        let body_len = sequence_len(&self.instructions);
        if body_len == 0 {
            proof {
                assert(Seq::<Instruction>::empty().push(Instruction::Vzeroupper).push(Instruction::Ret) =~= seq![Instruction::Vzeroupper, Instruction::Ret]);
            }
            return Self::new().vzeroupper().ret().finish();
        }
        let prefetch = prefetch_header_vec(prefetch_step, Reg::Rcx);
        proof {
            lemma_prefetch_header_len(prefetch_step, Reg::Rcx);
        }
        let prefetch_len = sequence_len(&prefetch);
        let back_edge: i32 = -((prefetch_len + body_len + 21 + 6) as i32);
        let mut all = instructions_vec(bias_header_vec(pointer_bias), prefetch);
        let mut body = self.instructions;
        all.append(&mut body);
        let mut tail: Vec<Instruction> = Vec::new();
        tail.push(Instruction::AddRegImm32 { reg: Reg::Rdi, value: block_bytes });
        tail.push(Instruction::AddRegImm32 { reg: Reg::Rsi, value: block_bytes });
        tail.push(Instruction::SubRegImm32 { reg: Reg::Rdx, value: block_bytes });
        tail.push(Instruction::JneRel32(back_edge));
        tail.push(Instruction::Vzeroupper);
        tail.push(Instruction::Ret);
        all.append(&mut tail);
        let mut encoded: Vec<u8> = Vec::new();
        encode_sequence_into(&all, &mut encoded);
        proof {
            assert(all@ =~= bias_header(pointer_bias) + prefetch_header(prefetch_step, Reg::Rcx) + self.instructions@ + loop_tail(block_bytes, back_edge));
        }
        encoded
    }

    pub fn finish_block_loop_with_static_prefix(self, static_prefix: &[u8], block_bytes: u32, prefetch_step: Option<u32>) -> (code: Vec<u8>)
        requires
            encode_all(self.instructions@).len() + static_prefix@.len() <= 0x7fff_0000,
        ensures
            code@ == static_loop_code(static_prefix@, self.instructions@, prefetch_step, true),
    {
        self.finish_block_loop_with_static_prefix_inner(static_prefix, block_bytes, prefetch_step, true)
    }

    pub fn finish_block_loop_with_static_prefix_no_vzeroupper(self, static_prefix: &[u8], block_bytes: u32, prefetch_step: Option<u32>) -> (code: Vec<u8>)
        requires
            encode_all(self.instructions@).len() + static_prefix@.len() <= 0x7fff_0000,
        ensures
            code@ == static_loop_code(static_prefix@, self.instructions@, prefetch_step, false),
    {
        self.finish_block_loop_with_static_prefix_inner(static_prefix, block_bytes, prefetch_step, false)
    }

    /// A loop that starts at a fixed prefix: the prefix, the prefetch
    /// header, the body, `cmp rdx, rcx`, a backward `jl` to the start of the
    /// prefix, then (optionally) `vzeroupper` and `ret`.
    fn finish_block_loop_with_static_prefix_inner(self, static_prefix: &[u8], _block_bytes: u32, prefetch_step: Option<u32>, vzeroupper: bool) -> (code: Vec<u8>)
        requires
            encode_all(self.instructions@).len() + static_prefix@.len() <= 0x7fff_0000,
        ensures
            code@ == static_loop_code(static_prefix@, self.instructions@, prefetch_step, vzeroupper),
    {
        let body_len = sequence_len(&self.instructions);
        if static_prefix.len() == 0 && body_len == 0 {
            proof {
                assert(Seq::<Instruction>::empty().push(Instruction::Vzeroupper).push(Instruction::Ret) =~= seq![Instruction::Vzeroupper, Instruction::Ret]);
                assert(Seq::<Instruction>::empty().push(Instruction::Ret) =~= seq![Instruction::Ret]);
            }
            return if vzeroupper {
                Self::new().vzeroupper().ret().finish()
            } else {
                Self::new().ret().finish()
            };
        }
        let mut encoded: Vec<u8> = Vec::new();
        encoded.extend_from_slice(static_prefix);
        let prefix_len = static_prefix.len();
        let _ = self.finish_dynamic_into(prefix_len, prefetch_step, vzeroupper, &mut encoded);
        encoded
    }

    pub fn finish_block_loop_dynamic_after_static_prefix_no_vzeroupper_into(self, static_prefix_len: usize, _block_bytes: u32, prefetch_step: Option<u32>, encoded: &mut Vec<u8>) -> (n: usize)
        requires
            encode_all(self.instructions@).len() + static_prefix_len <= 0x7fff_0000,
        ensures
            final(encoded)@ == old(encoded)@ + encode_all(dynamic_loop(static_prefix_len as nat, self.instructions@, prefetch_step, false)),
            n == encode_all(dynamic_loop(static_prefix_len as nat, self.instructions@, prefetch_step, false)).len(),
    {
        self.finish_dynamic_into(static_prefix_len, prefetch_step, false, encoded)
    }

    /// Appends the part of a prefixed loop that follows the prefix, and
    /// returns its length.
    fn finish_dynamic_into(self, static_prefix_len: usize, prefetch_step: Option<u32>, vzeroupper: bool, encoded: &mut Vec<u8>) -> (n: usize)
        requires
            encode_all(self.instructions@).len() + static_prefix_len <= 0x7fff_0000,
        ensures
            final(encoded)@ == old(encoded)@ + encode_all(dynamic_loop(static_prefix_len as nat, self.instructions@, prefetch_step, vzeroupper)),
            n == encode_all(dynamic_loop(static_prefix_len as nat, self.instructions@, prefetch_step, vzeroupper)).len(),
    {
        let body_len = sequence_len(&self.instructions);
        let prefetch = prefetch_header_vec(prefetch_step, Reg::Rsi);
        proof {
            lemma_prefetch_header_len(prefetch_step, Reg::Rsi);
        }
        let prefetch_len = sequence_len(&prefetch);
        let back_edge: i32 = -((static_prefix_len + prefetch_len + body_len + 3 + 6) as i32);
        let mut all = prefetch;
        let mut body = self.instructions;
        all.append(&mut body);
        all.push(Instruction::CmpRegReg { lhs: Reg::Rdx, rhs: Reg::Rcx });
        all.push(Instruction::JlRel32(back_edge));
        if vzeroupper {
            all.push(Instruction::Vzeroupper);
        }
        all.push(Instruction::Ret);
        proof {
            assert(all@ =~= dynamic_loop(static_prefix_len as nat, self.instructions@, prefetch_step, vzeroupper));
        }
        let start = encoded.len();
        encode_sequence_into(&all, encoded);
        proof {
            lemma_encode_all_prefix_len(all@, all@.len() as int);
        }
        encoded.len() - start
    }
}

/// The pointer-bias header: `rdi` and `rsi` advanced by the bias, when it
/// is nonzero.
pub open spec fn bias_header(bias: u32) -> Seq<Instruction> {
    if bias != 0 {
        seq![Instruction::AddRegImm32 { reg: Reg::Rdi, value: bias }, Instruction::AddRegImm32 { reg: Reg::Rsi, value: bias }]
    } else {
        Seq::empty()
    }
}

/// The prefetch header: the register advanced by the step, then four
/// prefetches around it.
pub open spec fn prefetch_header(step: Option<u32>, r: Reg) -> Seq<Instruction> {
    match step {
        Some(s) => seq![
            Instruction::AddRegImm32 { reg: r, value: s },
            Instruction::PrefetchT1 { memory: Memory { base: r, displacement: -128i32 } },
            Instruction::PrefetchT1 { memory: Memory { base: r, displacement: -64i32 } },
            Instruction::PrefetchT1 { memory: Memory { base: r, displacement: 0 } },
            Instruction::PrefetchT1 { memory: Memory { base: r, displacement: 64 } },
        ],
        None => Seq::empty(),
    }
}

/// The end of a counted loop.
pub open spec fn loop_tail(block_bytes: u32, back_edge: i32) -> Seq<Instruction> {
    seq![
        Instruction::AddRegImm32 { reg: Reg::Rdi, value: block_bytes },
        Instruction::AddRegImm32 { reg: Reg::Rsi, value: block_bytes },
        Instruction::SubRegImm32 { reg: Reg::Rdx, value: block_bytes },
        Instruction::JneRel32(back_edge),
        Instruction::Vzeroupper,
        Instruction::Ret,
    ]
}

/// The code of a counted loop over `body`; the jump goes back over the
/// prefetch header, the body and the pointer updates.
pub open spec fn block_loop_code(body: Seq<Instruction>, block_bytes: u32, step: Option<u32>, bias: u32) -> Seq<u8> {
    if encode_all(body).len() == 0 {
        encode_all(seq![Instruction::Vzeroupper, Instruction::Ret])
    } else {
        let back = -((encode_all(prefetch_header(step, Reg::Rcx)).len() + encode_all(body).len() + 21 + 6) as int);
        encode_all(bias_header(bias) + prefetch_header(step, Reg::Rcx) + body + loop_tail(block_bytes, back as i32))
    }
}

/// The instructions after a prefix of `prefix_len` bytes: the jump goes
/// back to the start of the prefix.
pub open spec fn dynamic_loop(prefix_len: nat, body: Seq<Instruction>, step: Option<u32>, vzeroupper: bool) -> Seq<Instruction> {
    let back = -((prefix_len + encode_all(prefetch_header(step, Reg::Rsi)).len() + encode_all(body).len() + 3 + 6) as int);
    prefetch_header(step, Reg::Rsi) + body + seq![
        Instruction::CmpRegReg { lhs: Reg::Rdx, rhs: Reg::Rcx },
        Instruction::JlRel32(back as i32),
    ] + (if vzeroupper { seq![Instruction::Vzeroupper] } else { Seq::empty() }) + seq![Instruction::Ret]
}

/// The code of a loop that starts at a fixed prefix.
pub open spec fn static_loop_code(prefix: Seq<u8>, body: Seq<Instruction>, step: Option<u32>, vzeroupper: bool) -> Seq<u8> {
    if prefix.len() == 0 && encode_all(body).len() == 0 {
        if vzeroupper {
            encode_all(seq![Instruction::Vzeroupper, Instruction::Ret])
        } else {
            encode_all(seq![Instruction::Ret])
        }
    } else {
        prefix + encode_all(dynamic_loop(prefix.len(), body, step, vzeroupper))
    }
}

fn bias_header_vec(bias: u32) -> (v: Vec<Instruction>)
    ensures
        v@ == bias_header(bias),
{
    let mut v: Vec<Instruction> = Vec::new();
    if bias != 0 {
        v.push(Instruction::AddRegImm32 { reg: Reg::Rdi, value: bias });
        v.push(Instruction::AddRegImm32 { reg: Reg::Rsi, value: bias });
    }
    assert(v@ =~= bias_header(bias));
    v
}

fn prefetch_header_vec(step: Option<u32>, r: Reg) -> (v: Vec<Instruction>)
    ensures
        v@ == prefetch_header(step, r),
{
    let mut v: Vec<Instruction> = Vec::new();
    match step {
        Some(s) => {
            v.push(Instruction::AddRegImm32 { reg: r, value: s });
            v.push(Instruction::PrefetchT1 { memory: Memory { base: r, displacement: -128 } });
            v.push(Instruction::PrefetchT1 { memory: Memory { base: r, displacement: -64 } });
            v.push(Instruction::PrefetchT1 { memory: Memory { base: r, displacement: 0 } });
            v.push(Instruction::PrefetchT1 { memory: Memory { base: r, displacement: 64 } });
        },
        None => {},
    }
    assert(v@ =~= prefetch_header(step, r));
    v
}

fn instructions_vec(a: Vec<Instruction>, b: Vec<Instruction>) -> (v: Vec<Instruction>)
    ensures
        v@ == a@ + b@,
{
    let mut v = a;
    let mut b = b;
    v.append(&mut b);
    v
}

proof fn lemma_prefetch_header_len(step: Option<u32>, r: Reg)
    ensures
        encode_all(prefetch_header(step, r)).len() <= 30,
{
    let h = prefetch_header(step, r);
    reveal_with_fuel(encode_all, 6);
    match step {
        Some(s) => {
            lemma_encode_len(h[0]);
            lemma_encode_len(h[1]);
            lemma_encode_len(h[2]);
            lemma_encode_len(h[3]);
            lemma_encode_len(h[4]);
            assert(h.drop_last().drop_last().drop_last().drop_last().drop_last() =~= Seq::<Instruction>::empty());
            assert(h.drop_last().drop_last().drop_last().drop_last() =~= seq![h[0]]);
            assert(h.drop_last().drop_last().drop_last() =~= seq![h[0], h[1]]);
            assert(h.drop_last().drop_last() =~= seq![h[0], h[1], h[2]]);
            assert(h.drop_last() =~= seq![h[0], h[1], h[2], h[3]]);
        },
        None => {},
    }
}

impl Default for Program {
    fn default() -> (p: Self)
        ensures
            p.instructions@ == Seq::<Instruction>::empty(),
    {
        Self::new()
    }
}

/// Emits machine code straight into a byte buffer.
pub struct ProgramSink {
    pub encoded: Vec<u8>,
}

impl ProgramSink {
    /// A sink appending to `encoded`.
    pub fn new(encoded: Vec<u8>) -> (s: Self)
        ensures
            s.encoded@ == encoded@,
    {
        Self { encoded }
    }

    /// Append raw bytes.
    pub fn emit_bytes(self, bytes: &[u8]) -> (s: Self)
        ensures
            s.encoded@ == self.encoded@ + bytes@,
    {
        let mut s = self;
        s.encoded.extend_from_slice(bytes);
        s
    }

    pub fn vmovdqa_ymm_from_rdi_offset(self, reg: u8, offset: i32) -> (s: Self)
        requires
            reg < 16,
        ensures
            s.encoded@ == self.encoded@ + encode(Instruction::VmovdqaLoad { dst: reg, memory: Memory { base: Reg::Rdi, displacement: offset } }),
    {
        let mut s = self;
        encode_into(Instruction::VmovdqaLoad { dst: reg, memory: Memory { base: Reg::Rdi, displacement: offset } }, &mut s.encoded);
        s
    }

    pub fn vmovdqa_ymm_from_rax_offset(self, reg: u8, offset: i32) -> (s: Self)
        requires
            reg < 16,
        ensures
            s.encoded@ == self.encoded@ + encode(Instruction::VmovdqaLoad { dst: reg, memory: Memory { base: Reg::Rax, displacement: offset } }),
    {
        let mut s = self;
        encode_into(Instruction::VmovdqaLoad { dst: reg, memory: Memory { base: Reg::Rax, displacement: offset } }, &mut s.encoded);
        s
    }

    pub fn vmovdqa_ymm_from_rdx_offset(self, reg: u8, offset: i32) -> (s: Self)
        requires
            reg < 16,
        ensures
            s.encoded@ == self.encoded@ + encode(Instruction::VmovdqaLoad { dst: reg, memory: Memory { base: Reg::Rdx, displacement: offset } }),
    {
        let mut s = self;
        encode_into(Instruction::VmovdqaLoad { dst: reg, memory: Memory { base: Reg::Rdx, displacement: offset } }, &mut s.encoded);
        s
    }

    pub fn vmovdqa_ymm_from_rsi_offset(self, reg: u8, offset: i32) -> (s: Self)
        requires
            reg < 16,
        ensures
            s.encoded@ == self.encoded@ + encode(Instruction::VmovdqaLoad { dst: reg, memory: Memory { base: Reg::Rsi, displacement: offset } }),
    {
        let mut s = self;
        encode_into(Instruction::VmovdqaLoad { dst: reg, memory: Memory { base: Reg::Rsi, displacement: offset } }, &mut s.encoded);
        s
    }

    pub fn vpxor_ymm(self, dst: u8, lhs: u8, rhs: u8) -> (s: Self)
        requires
            dst < 16,
            lhs < 16,
            rhs < 16,
        ensures
            s.encoded@ == self.encoded@ + encode(Instruction::Vpxor { dst, lhs, rhs }),
    {
        let mut s = self;
        encode_into(Instruction::Vpxor { dst, lhs, rhs }, &mut s.encoded);
        s
    }

    pub fn vmovdqa_ymm(self, dst: u8, src: u8) -> (s: Self)
        requires
            dst < 16,
            src < 16,
        ensures
            s.encoded@ == self.encoded@ + encode(Instruction::Vmovdqa { dst, src }),
    {
        let mut s = self;
        encode_into(Instruction::Vmovdqa { dst, src }, &mut s.encoded);
        s
    }

    pub fn vpxor_ymm_rdi_offset(self, dst: u8, lhs: u8, offset: i32) -> (s: Self)
        requires
            dst < 16,
            lhs < 16,
        ensures
            s.encoded@ == self.encoded@ + encode(Instruction::VpxorMemory { dst, lhs, memory: Memory { base: Reg::Rdi, displacement: offset } }),
    {
        let mut s = self;
        encode_into(Instruction::VpxorMemory { dst, lhs, memory: Memory { base: Reg::Rdi, displacement: offset } }, &mut s.encoded);
        s
    }

    pub fn vpxor_ymm_rsi_offset(self, dst: u8, lhs: u8, offset: i32) -> (s: Self)
        requires
            dst < 16,
            lhs < 16,
        ensures
            s.encoded@ == self.encoded@ + encode(Instruction::VpxorMemory { dst, lhs, memory: Memory { base: Reg::Rsi, displacement: offset } }),
    {
        let mut s = self;
        encode_into(Instruction::VpxorMemory { dst, lhs, memory: Memory { base: Reg::Rsi, displacement: offset } }, &mut s.encoded);
        s
    }

    pub fn vpxor_ymm_rax_offset(self, dst: u8, lhs: u8, offset: i32) -> (s: Self)
        requires
            dst < 16,
            lhs < 16,
        ensures
            s.encoded@ == self.encoded@ + encode(Instruction::VpxorMemory { dst, lhs, memory: Memory { base: Reg::Rax, displacement: offset } }),
    {
        let mut s = self;
        encode_into(Instruction::VpxorMemory { dst, lhs, memory: Memory { base: Reg::Rax, displacement: offset } }, &mut s.encoded);
        s
    }

    pub fn vpxor_ymm_rdx_offset(self, dst: u8, lhs: u8, offset: i32) -> (s: Self)
        requires
            dst < 16,
            lhs < 16,
        ensures
            s.encoded@ == self.encoded@ + encode(Instruction::VpxorMemory { dst, lhs, memory: Memory { base: Reg::Rdx, displacement: offset } }),
    {
        let mut s = self;
        encode_into(Instruction::VpxorMemory { dst, lhs, memory: Memory { base: Reg::Rdx, displacement: offset } }, &mut s.encoded);
        s
    }

    pub fn vmovdqa_rsi_offset_from_ymm(self, offset: i32, reg: u8) -> (s: Self)
        requires
            reg < 16,
        ensures
            s.encoded@ == self.encoded@ + encode(Instruction::VmovdqaStore { memory: Memory { base: Reg::Rsi, displacement: offset }, src: reg }),
    {
        let mut s = self;
        encode_into(Instruction::VmovdqaStore { memory: Memory { base: Reg::Rsi, displacement: offset }, src: reg }, &mut s.encoded);
        s
    }

    pub fn vmovdqa_rdx_offset_from_ymm(self, offset: i32, reg: u8) -> (s: Self)
        requires
            reg < 16,
        ensures
            s.encoded@ == self.encoded@ + encode(Instruction::VmovdqaStore { memory: Memory { base: Reg::Rdx, displacement: offset }, src: reg }),
    {
        let mut s = self;
        encode_into(Instruction::VmovdqaStore { memory: Memory { base: Reg::Rdx, displacement: offset }, src: reg }, &mut s.encoded);
        s
    }
}

} // verus!
