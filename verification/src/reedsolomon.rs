//! Reed-Solomon implementation for PAR2 error correction.
//!
//! PAR2-compatible Reed-Solomon encoding and decoding over GF(2^16) with the
//! generator 0x1100B.  Slices are processed as little-endian 16-bit words.
use crate::field::{gf_mul, lemma_gf_mul_distrib_right, lemma_shr1};
use crate::galois::{gf_mul_word, group_galois16, Galois16};
use vstd::prelude::*;

pub mod codec;
pub mod engine;
pub mod recover;
pub mod gf_matrix;

pub use codec::{ReedSolomon, ReedSolomonBuilder, RsError, RsOutputRow, RsResult};
pub use gf_matrix::Matrix;
pub use engine::{ReconstructionEngine, RecoverySlicePacket};

verus! {

broadcast use group_galois16;

/// Specifies how to combine the multiplication result with the output buffer.
#[derive(Debug, Clone, Copy, PartialEq, Eq, Structural)]
pub enum WriteOp {
    /// Direct write: output = coefficient * input (replaces contents)
    Direct,
    /// Accumulate: output = output XOR (coefficient * input)
    Add,
}

/// Multiplication table split into low/high byte tables.
///
/// For an input word `w = (hi << 8) | lo` the product is `low[lo] ^ high[hi]`.
pub struct SplitMulTable {
    pub low: Box<[u16; 256]>,
    pub high: Box<[u16; 256]>,
}

/// The tables multiply by `c`: `low[i] == c * i` and `high[i] == c * (i << 8)`.
pub open spec fn tables_for(t: &SplitMulTable, c: u16) -> bool {
    &&& forall|i: int| 0 <= i < 256 ==> #[trigger] t.low@[i] == gf_mul(c, i as u16)
    &&& forall|i: int| 0 <= i < 256 ==> #[trigger] t.high@[i] == gf_mul(c, (i * 256) as u16)
}

/// The word the tables produce for the little-endian byte pair `(lo, hi)`.
pub open spec fn table_word(t: &SplitMulTable, lo: u8, hi: u8) -> u16 {
    t.low@[lo as int] ^ t.high@[hi as int]
}

/// Little-endian word made of two bytes.
pub open spec fn le_word(lo: u8, hi: u8) -> u16 {
    (lo as int + 256 * (hi as int)) as u16
}

/// Low byte of a word.
pub open spec fn lo_byte(w: u16) -> u8 {
    (w % 256) as u8
}

/// High byte of a word.
pub open spec fn hi_byte(w: u16) -> u8 {
    (w / 256) as u8
}

/// What byte `i` of the output becomes when the tables are applied to
/// `input` over the common length `m` of input and output.
pub open spec fn processed_byte(
    t: &SplitMulTable,
    input: Seq<u8>,
    old_out: Seq<u8>,
    m: int,
    i: int,
    mode: WriteOp,
) -> u8 {
    let k = i / 2;
    let r: u8 = if i < (m / 2) * 2 {
        let w = table_word(t, input[2 * k], input[2 * k + 1]);
        if i % 2 == 0 {
            lo_byte(w)
        } else {
            hi_byte(w)
        }
    } else {
        lo_byte(t.low@[input[i] as int])
    };
    match mode {
        WriteOp::Direct => r,
        WriteOp::Add => old_out[i] ^ r,
    }
}

/// The effect of multiplying `input` into `output` with the given tables:
/// the first `min(len)` bytes are processed, the rest are left alone.
pub open spec fn multiply_effect(
    t: &SplitMulTable,
    input: Seq<u8>,
    old_out: Seq<u8>,
    new_out: Seq<u8>,
    mode: WriteOp,
) -> bool {
    let m = if input.len() < old_out.len() {
        input.len() as int
    } else {
        old_out.len() as int
    };
    &&& new_out.len() == old_out.len()
    &&& forall|i: int| 0 <= i < m ==> #[trigger] new_out[i] == processed_byte(t, input, old_out, m, i, mode)
    &&& forall|i: int| m <= i < old_out.len() ==> #[trigger] new_out[i] == old_out[i]
}

/// Splits a word into its bytes.
proof fn lemma_word_bytes(w: u16)
    ensures
        (w & 0xff) as u8 == lo_byte(w),
        (w >> 8) as u8 == hi_byte(w),
        w & 0xff == w % 256,
        w >> 8 == w / 256,
{
    lemma_shr1(w);
}

/// Multiply a slice and write or accumulate the result.
pub fn process_slice_multiply_mode(
    input: &[u8],
    output: &mut [u8],
    tables: &SplitMulTable,
    mode: WriteOp,
)
    ensures
        multiply_effect(tables, input@, old(output)@, final(output)@, mode),
{
    let min_len = if input.len() < output.len() {
        input.len()
    } else {
        output.len()
    };
    let num_words = min_len / 2;
    let ghost old_out = output@;
    let mut k: usize = 0;
    while k < num_words
        invariant
            num_words == min_len / 2,
            min_len <= input@.len(),
            min_len <= old_out.len(),
            min_len == input@.len() || min_len == old_out.len(),
            min_len <= input@.len() && min_len <= old_out.len(),
            output@.len() == old_out.len(),
            k <= num_words,
            forall|i: int| 0 <= i < 2 * k ==> #[trigger] output@[i] == processed_byte(
                tables,
                input@,
                old_out,
                min_len as int,
                i,
                mode,
            ),
            forall|i: int| 2 * k <= i < old_out.len() ==> #[trigger] output@[i] == old_out[i],
        decreases num_words - k,
    {
        let lo = input[2 * k];
        let hi = input[2 * k + 1];
        let r = tables.low[lo as usize] ^ tables.high[hi as usize];
        proof {
            lemma_word_bytes(r);
        }
        let r_lo = (r & 0xff) as u8;
        let r_hi = (r >> 8) as u8;
        match mode {
            WriteOp::Direct => {
                output[2 * k] = r_lo;
                output[2 * k + 1] = r_hi;
            },
            WriteOp::Add => {
                output[2 * k] = output[2 * k] ^ r_lo;
                output[2 * k + 1] = output[2 * k + 1] ^ r_hi;
            },
        }
        proof {
            assert((2 * k as int) / 2 == k);
            assert((2 * k as int + 1) / 2 == k);
        }
        k = k + 1;
    }
    if min_len % 2 == 1 {
        let last_idx = num_words * 2;
        let in_byte = input[last_idx];
        let v = tables.low[in_byte as usize];
        proof {
            lemma_word_bytes(v);
        }
        let low_byte = (v & 0xff) as u8;
        match mode {
            WriteOp::Direct => {
                output[last_idx] = low_byte;
            },
            WriteOp::Add => {
                output[last_idx] = output[last_idx] ^ low_byte;
            },
        }
    }
}

/// Process entire slice at once: output = coefficient * input (direct write).
pub fn process_slice_multiply_direct(input: &[u8], output: &mut [u8], tables: &SplitMulTable)
    ensures
        multiply_effect(tables, input@, old(output)@, final(output)@, WriteOp::Direct),
{
    process_slice_multiply_mode(input, output, tables, WriteOp::Direct);
}

/// Process entire slice at once: output += coefficient * input (XOR accumulate).
pub fn process_slice_multiply_add(input: &[u8], output: &mut [u8], tables: &SplitMulTable)
    ensures
        multiply_effect(tables, input@, old(output)@, final(output)@, WriteOp::Add),
{
    process_slice_multiply_mode(input, output, tables, WriteOp::Add);
}

/// Build split multiplication tables for a coefficient.
pub fn build_split_mul_table(coefficient: Galois16) -> (t: SplitMulTable)
    ensures
        tables_for(&t, coefficient@),
{
    let c = coefficient.value();
    let mut low = [0u16; 256];
    let mut high = [0u16; 256];
    let mut i: usize = 0;
    while i < 256
        invariant
            i <= 256,
            c == coefficient@,
            forall|j: int| 0 <= j < i ==> #[trigger] low@[j] == gf_mul(c, j as u16),
            forall|j: int| 0 <= j < i ==> #[trigger] high@[j] == gf_mul(c, (j * 256) as u16),
        decreases 256 - i,
    {
        low[i] = gf_mul_word(c, i as u16);
        high[i] = gf_mul_word(c, (i as u16) << 8);
        proof {
            lemma_shl8(i as u16);
        }
        i = i + 1;
    }
    SplitMulTable { low: Box::new(low), high: Box::new(high) }
}

proof fn lemma_shl8(i: u16)
    by (bit_vector)
    requires
        i < 256,
    ensures
        i << 8u16 == (i * 256) as u16,
{
}

/// With tables built for `c`, each processed word is `c` times the input word.
pub proof fn lemma_table_word_is_product(t: &SplitMulTable, c: u16, lo: u8, hi: u8)
    requires
        tables_for(t, c),
    ensures
        table_word(t, lo, hi) == gf_mul(c, le_word(lo, hi)),
{
    assert(t.low@[lo as int] == gf_mul(c, lo as u16));
    assert(t.high@[hi as int] == gf_mul(c, (hi as int * 256) as u16));
    lemma_gf_mul_distrib_right(c, lo as u16, (hi as int * 256) as u16);
    lemma_le_word(lo, hi);
}

proof fn lemma_le_word(lo: u8, hi: u8)
    by (bit_vector)
    ensures
        (lo as u16) ^ ((hi as int * 256) as u16) == ((lo as int + 256 * (hi as int)) as u16),
{
}

/// What byte `i` of the output becomes when `input` times `c` is written or
/// added over the common length `m`: whole little-endian words first, then
/// a trailing odd byte multiplied as a word of its own.
pub open spec fn mul_word_byte(c: u16, input: Seq<u8>, old_out: Seq<u8>, m: int, i: int, mode: WriteOp) -> u8 {
    let k = i / 2;
    let r: u8 = if i < (m / 2) * 2 {
        let w = gf_mul(c, le_word(input[2 * k], input[2 * k + 1]));
        if i % 2 == 0 {
            lo_byte(w)
        } else {
            hi_byte(w)
        }
    } else {
        lo_byte(gf_mul(c, input[i] as u16))
    };
    match mode {
        WriteOp::Direct => r,
        WriteOp::Add => old_out[i] ^ r,
    }
}

/// The output after writing or adding `c * input` into `old_out`.
pub open spec fn mul_into(c: u16, input: Seq<u8>, old_out: Seq<u8>, mode: WriteOp) -> Seq<u8> {
    let m = if input.len() < old_out.len() {
        input.len() as int
    } else {
        old_out.len() as int
    };
    Seq::new(old_out.len(), |i: int| if i < m { mul_word_byte(c, input, old_out, m, i, mode) } else { old_out[i] })
}

/// With tables built for `c`, applying the tables is multiplying by `c`.
pub proof fn lemma_tables_multiply(t: &SplitMulTable, c: u16, input: Seq<u8>, old_out: Seq<u8>, new_out: Seq<u8>, mode: WriteOp)
    requires
        tables_for(t, c),
        multiply_effect(t, input, old_out, new_out, mode),
    ensures
        new_out == mul_into(c, input, old_out, mode),
{
    let m = if input.len() < old_out.len() {
        input.len() as int
    } else {
        old_out.len() as int
    };
    assert forall|i: int| 0 <= i < m implies #[trigger] processed_byte(t, input, old_out, m, i, mode) == mul_word_byte(c, input, old_out, m, i, mode) by {
        let k = i / 2;
        if i < (m / 2) * 2 {
            lemma_table_word_is_product(t, c, input[2 * k], input[2 * k + 1]);
        } else {
            assert(t.low@[input[i] as int] == gf_mul(c, input[i] as u16));
        }
    }
    assert(new_out =~= mul_into(c, input, old_out, mode));
}

} // verus!
