//! Packed bit-plane buffers with a per-slice checksum.
//!
//! Several slices of `slice_len` bytes share one prepared buffer: it is cut
//! into chunks of `chunk_len` bytes (the whole slice when that is shorter),
//! and chunk `c` of every slice sits side by side, `chunk_len * pack` bytes
//! apart.  After the data of a slice comes one extra prepared block that
//! holds its checksum: sixteen lanes of field elements, each block of data
//! multiplying the running value by `x` and adding in the XOR of its
//! sixteen 32-byte words.
use crate::field::{
    alog, gf_mul, gf_pow, lemma_alog_is_pow, lemma_gf_mul_assoc, lemma_gf_mul_one_right, lemma_gf_mul_xtime_right,
    lemma_gf_pow_add, lemma_gf_pow_one, lemma_gf_pow_pow, lemma_x_pow_65535, lemma_xor, lemma_xtime_linear, xtime,
};
use crate::galois::{gf_mul_word, xtime_word, Galois16};
use crate::reedsolomon::{hi_byte, le_word, lo_byte};
use crate::xor_jit::bitplane::{
    bit_of, bitplane_block, byte_at, decode_lane, decode_mask, finish_block_at, lemma_byte_from_bits,
    prepare_block_at, prepared_bit,
};
use vstd::prelude::*;

verus! {

/// Bytes of one prepared block.
pub const PACKED_BLOCK_BYTES: usize = 512;

/// Length of the last chunk of a slice once its checksum block is added:
/// `(slice_len + 512) % chunk_len`, or a whole chunk when that is zero.
pub open spec fn effective_last_chunk_len(slice_len: int, chunk_len: int) -> int {
    if (slice_len + 512) % chunk_len == 0 {
        chunk_len
    } else {
        (slice_len + 512) % chunk_len
    }
}

/// Offset of the checksum block of slice `index` among `num_slices`
/// packed slices: the end of that slice's part of the last chunk.
pub open spec fn checksum_offset_spec(slice_len: int, num_slices: int, index: int, chunk_len: int) -> int {
    let eff = effective_last_chunk_len(slice_len, chunk_len);
    chunk_len * num_slices * (slice_len / chunk_len) + index * eff + eff - 512
}

/// Where block `j` (bytes `512 * j..`) of slice `num` lands.  A whole chunk
/// of the slice sits at `num * chunk_len` inside its chunk row; the last,
/// partial chunk (and, when the slice is shorter than a chunk, a source
/// shorter than the slice) takes `effective_last_chunk_len` bytes per slice.
pub open spec fn packed_block_offset(slice_len: int, pack: int, num: int, chunk_len: int, src_len: int, j: int) -> int {
    let dcl = if chunk_len < slice_len {
        chunk_len
    } else {
        slice_len
    };
    let c = (512 * j) / dcl;
    let w = (512 * j) % dcl;
    let partial = c >= slice_len / dcl || (chunk_len > slice_len && 0 < src_len < slice_len);
    let part = if partial {
        effective_last_chunk_len(slice_len, chunk_len)
    } else {
        chunk_len
    };
    c * (chunk_len * pack) + num * part + w
}

/// Lane `i` of the 32-byte word of `s` at `at` (zero past the end).
pub open spec fn word_lane(s: Seq<u8>, at: int, i: int) -> u16 {
    le_word(byte_at(s, at + 2 * i), byte_at(s, at + 2 * i + 1))
}

/// Lane `i` of the XOR of the first `words` 32-byte words of the block of
/// `s` at `at`.
pub open spec fn block_lane_xor(s: Seq<u8>, at: int, i: int, words: nat) -> u16
    decreases words,
{
    if words == 0 {
        0
    } else {
        block_lane_xor(s, at, i, (words - 1) as nat) ^ word_lane(s, at + 32 * (words - 1), i)
    }
}

/// One checksum step over the block of `s` at `at`: every lane times `x`,
/// plus the lane of the XOR of the block's words.
pub open spec fn checksum_step(c: Seq<u16>, s: Seq<u8>, at: int) -> Seq<u16> {
    Seq::new(16, |i: int| xtime(c[i]) ^ block_lane_xor(s, at, i, 16))
}

/// The checksum after blocks `0..n` of `s`, starting from `c0`.
pub open spec fn checksum_after(c0: Seq<u16>, s: Seq<u8>, n: nat) -> Seq<u16>
    decreases n,
{
    if n == 0 {
        c0
    } else {
        checksum_step(checksum_after(c0, s, (n - 1) as nat), s, 512 * (n - 1))
    }
}

/// The all-zero checksum.
pub open spec fn zero_lanes() -> Seq<u16> {
    Seq::new(16, |i: int| 0u16)
}

/// The 512 bytes the checksum block is prepared from: the lanes as
/// little-endian words, then zeros.
pub open spec fn checksum_bytes(c: Seq<u16>) -> Seq<u8> {
    Seq::new(
        512,
        |k: int|
            if k < 32 {
                if k % 2 == 0 {
                    lo_byte(c[k / 2])
                } else {
                    hi_byte(c[k / 2])
                }
            } else {
                0u8
            },
    )
}

/// All lanes are zero.
pub open spec fn lanes_zero(c: Seq<u16>) -> bool {
    forall|i: int| 0 <= i < 16 ==> #[trigger] c[i] == 0
}

/// Offset of the checksum block of slice `index` of `num_slices`.
pub fn xor_jit_checksum_offset(slice_len: usize, num_slices: usize, index: usize, chunk_len: usize) -> (r: usize)
    requires
        chunk_len > 0,
        chunk_len % 512 == 0,
        slice_len % 512 == 0,
        slice_len + 512 <= usize::MAX,
        index < num_slices,
        chunk_len * num_slices <= usize::MAX,
        checksum_offset_spec(slice_len as int, num_slices as int, index as int, chunk_len as int) + 512 <= usize::MAX,
    ensures
        r == checksum_offset_spec(slice_len as int, num_slices as int, index as int, chunk_len as int),
{
    let mut eff = (slice_len + PACKED_BLOCK_BYTES) % chunk_len;
    if eff == 0 {
        eff = chunk_len;
    }
    let full_chunks = slice_len / chunk_len;
    let chunk_stride = chunk_len * num_slices;
    proof {
        lemma_effective_len(slice_len as int, chunk_len as int);
        lemma_offset_parts(chunk_stride as int, full_chunks as int, index as int, eff as int);
    }
    chunk_stride * full_chunks + index * eff + eff - PACKED_BLOCK_BYTES
}

/// The effective last chunk holds at least the checksum block and at most
/// a chunk, in whole blocks.
pub proof fn lemma_effective_len(slice_len: int, chunk_len: int)
    requires
        slice_len >= 0,
        chunk_len > 0,
        slice_len % 512 == 0,
        chunk_len % 512 == 0,
    ensures
        512 <= effective_last_chunk_len(slice_len, chunk_len) <= chunk_len,
        effective_last_chunk_len(slice_len, chunk_len) % 512 == 0,
{
    let a = slice_len + 512;
    let r = a % chunk_len;
    assert(r % 512 == 0) by (nonlinear_arith)
        requires
            a % 512 == 0,
            chunk_len % 512 == 0,
            chunk_len > 0,
            r == a % chunk_len,
            a >= 0,
    {
        let q = a / chunk_len;
        assert(a == chunk_len * q + r);
        assert(r == a - chunk_len * q);
        let x = a / 512;
        let y = chunk_len / 512;
        assert(a == 512 * x);
        assert(chunk_len == 512 * y);
        assert(r == 512 * (x - y * q));
    }
    assert(0 <= r < chunk_len);
}

proof fn lemma_offset_parts(stride: int, full: int, index: int, eff: int)
    requires
        stride >= 0,
        full >= 0,
        index >= 0,
        eff >= 0,
    ensures
        stride * full >= 0,
        index * eff >= 0,
        stride * full <= stride * full + index * eff,
{
    assert(stride * full >= 0) by (nonlinear_arith)
        requires
            stride >= 0,
            full >= 0,
    ;
    assert(index * eff >= 0) by (nonlinear_arith)
        requires
            index >= 0,
            eff >= 0,
    ;
}

/// Byte `k` of `s`, or zero past its end.
fn byte_or_zero(s: &[u8], k: usize) -> (b: u8)
    ensures
        b == byte_at(s@, k as int),
{
    if k < s.len() {
        s[k]
    } else {
        0
    }
}

/// The little-endian word of two bytes.
fn word_of(lo: u8, hi: u8) -> (w: u16)
    ensures
        w == le_word(lo, hi),
{
    lo as u16 + (hi as u16) * 256
}

/// One checksum step over the block of `src` at `at`.
fn checksum_block_words_at(src: &[u8], at: usize, checksum: &mut [u16; 16])
    requires
        at + 1024 <= usize::MAX,
    ensures
        final(checksum)@ == checksum_step(old(checksum)@, src@, at as int),
{
    let mut value = [0u16; 16];
    let mut i: usize = 0;
    while i < 16
        invariant
            i <= 16,
            forall|t: int| 0 <= t < i ==> #[trigger] value@[t] == xtime(old(checksum)@[t]),
            checksum@ == old(checksum)@,
        decreases 16 - i,
    {
        value[i] = xtime_word(checksum[i]);
        i = i + 1;
    }
    proof {
        assert forall|t: int| 0 <= t < 16 implies #[trigger] value@[t] == xtime(old(checksum)@[t]) ^ block_lane_xor(src@, at as int, t, 0) by {
            lemma_xor(value@[t], 0, 0);
        }
    }
    let mut w: usize = 0;
    while w < 16
        invariant
            w <= 16,
            at + 1024 <= usize::MAX,
            checksum@ == old(checksum)@,
            forall|t: int| 0 <= t < 16 ==> #[trigger] value@[t] == xtime(old(checksum)@[t]) ^ block_lane_xor(src@, at as int, t, w as nat),
        decreases 16 - w,
    {
        let ghost before = value@;
        let base = at + 32 * w;
        let mut i: usize = 0;
        while i < 16
            invariant
                w < 16,
                i <= 16,
                base == at + 32 * w,
                at + 1024 <= usize::MAX,
                forall|t: int| 0 <= t < i ==> #[trigger] value@[t] == before[t] ^ word_lane(src@, base as int, t),
                forall|t: int| i <= t < 16 ==> #[trigger] value@[t] == before[t],
            decreases 16 - i,
        {
            let lo = byte_or_zero(src, base + 2 * i);
            let hi = byte_or_zero(src, base + 2 * i + 1);
            value[i] = value[i] ^ word_of(lo, hi);
            i = i + 1;
        }
        proof {
            assert forall|t: int| 0 <= t < 16 implies #[trigger] value@[t] == xtime(old(checksum)@[t]) ^ block_lane_xor(src@, at as int, t, (w + 1) as nat) by {
                lemma_xor(xtime(old(checksum)@[t]), block_lane_xor(src@, at as int, t, w as nat), word_lane(src@, base as int, t));
            }
        }
        w = w + 1;
    }
    proof {
        assert forall|t: int| 0 <= t < 16 implies #[trigger] value@[t] == checksum_step(old(checksum)@, src@, at as int)[t] by {}
        assert(value@ =~= checksum_step(old(checksum)@, src@, at as int));
    }
    *checksum = value;
}

/// Every lane multiplied by `e`.
fn checksum_mul(checksum: &mut [u16; 16], e: u16)
    ensures
        forall|t: int| 0 <= t < 16 ==> #[trigger] final(checksum)@[t] == gf_mul(old(checksum)@[t], e),
{
    let mut i: usize = 0;
    while i < 16
        invariant
            i <= 16,
            forall|t: int| 0 <= t < i ==> #[trigger] checksum@[t] == gf_mul(old(checksum)@[t], e),
            forall|t: int| i <= t < 16 ==> #[trigger] checksum@[t] == old(checksum)@[t],
        decreases 16 - i,
    {
        checksum[i] = gf_mul_word(checksum[i], e);
        i = i + 1;
    }
}

/// `x` to the power `exponent % 65535`.
pub fn xor_jit_gf16_exp(exponent: usize) -> (r: u16)
    ensures
        r == gf_pow(2, (exponent % 65535) as nat),
{
    Galois16::new(2).pow((exponent % 65535) as u16).value()
}

/// The bytes the checksum block is prepared from.
fn checksum_scratch(checksum: &[u16; 16]) -> (r: Vec<u8>)
    ensures
        r@ == checksum_bytes(checksum@),
{
    let mut r: Vec<u8> = vec![0u8; 512];
    let mut i: usize = 0;
    while i < 16
        invariant
            i <= 16,
            r@.len() == 512,
            forall|k: int| 0 <= k < 2 * i ==> #[trigger] r@[k] == checksum_bytes(checksum@)[k],
            forall|k: int| 2 * i <= k < 512 ==> #[trigger] r@[k] == 0,
        decreases 16 - i,
    {
        let w = checksum[i];
        r.set(2 * i, (w % 256) as u8);
        r.set(2 * i + 1, (w / 256) as u8);
        proof {
            assert((2 * i as int) / 2 == i);
            assert((2 * i as int + 1) / 2 == i);
        }
        i = i + 1;
    }
    proof {
        assert(r@ =~= checksum_bytes(checksum@));
    }
    r
}

/// The slice `src` prepared into its part of a packed buffer, followed by
/// its checksum block.  Blocks past the end of `src` (up to `slice_len`)
/// are prepared from zeros.  Returns without writing when `slice_len` is
/// zero.
pub fn prepare_xor_jit_bitplane_packed_input_cksum(dst: &mut [u8], src: &[u8], slice_len: usize, input_pack_size: usize, input_num: usize, chunk_len: usize)
    requires
        input_num < input_pack_size,
        chunk_len % 512 == 0,
        src@.len() <= slice_len,
        slice_len % 512 == 0,
        slice_len + 1024 <= usize::MAX,
        chunk_len * input_pack_size <= usize::MAX,
        slice_len > 0 ==> chunk_len > 0,
        slice_len > 0 ==> forall|j: int| 0 <= j < slice_len / 512 ==> #[trigger] packed_block_offset(slice_len as int, input_pack_size as int, input_num as int, chunk_len as int, src@.len() as int, j) + 512 <= old(dst)@.len(),
        slice_len > 0 ==> checksum_offset_spec(slice_len as int, input_pack_size as int, input_num as int, chunk_len as int) + 512 <= old(dst)@.len(),
    ensures
        final(dst)@.len() == old(dst)@.len(),
        slice_len == 0 ==> final(dst)@ == old(dst)@,
        slice_len > 0 ==> bitplane_block(
            checksum_bytes(checksum_after(zero_lanes(), src@, (slice_len / 512) as nat)),
            0,
            final(dst)@,
            checksum_offset_spec(slice_len as int, input_pack_size as int, input_num as int, chunk_len as int),
        ),
        slice_len > 0 ==> forall|j: int| 0 <= j < slice_len / 512 && ({
            let o = packed_block_offset(slice_len as int, input_pack_size as int, input_num as int, chunk_len as int, src@.len() as int, j);
            let co = checksum_offset_spec(slice_len as int, input_pack_size as int, input_num as int, chunk_len as int);
            o + 512 <= co || co + 512 <= o
        }) ==> bitplane_block(src@, 512 * j, final(dst)@, #[trigger] packed_block_offset(slice_len as int, input_pack_size as int, input_num as int, chunk_len as int, src@.len() as int, j)),
        forall|k: int| 0 <= k < old(dst)@.len()
            && (forall|j: int| 0 <= j < slice_len / 512 ==> !(#[trigger] packed_block_offset(slice_len as int, input_pack_size as int, input_num as int, chunk_len as int, src@.len() as int, j) <= k
                < packed_block_offset(slice_len as int, input_pack_size as int, input_num as int, chunk_len as int, src@.len() as int, j) + 512))
            && !(slice_len > 0 && checksum_offset_spec(slice_len as int, input_pack_size as int, input_num as int, chunk_len as int) <= k
                < checksum_offset_spec(slice_len as int, input_pack_size as int, input_num as int, chunk_len as int) + 512)
            ==> #[trigger] final(dst)@[k] == old(dst)@[k],
{
    if slice_len == 0 {
        return;
    }
    let n = slice_len / PACKED_BLOCK_BYTES;
    let mut checksum = [0u16; 16];
    proof {
        assert(checksum@ =~= zero_lanes());
    }
    let mut j: usize = 0;
    while j < n
        invariant
            n == slice_len / 512,
            slice_len > 0,
            input_num < input_pack_size,
            chunk_len > 0,
            chunk_len % 512 == 0,
            src@.len() <= slice_len,
            slice_len % 512 == 0,
            slice_len + 1024 <= usize::MAX,
            chunk_len * input_pack_size <= usize::MAX,
            j <= n,
            dst@.len() == old(dst)@.len(),
            checksum_offset_spec(slice_len as int, input_pack_size as int, input_num as int, chunk_len as int) + 512 <= old(dst)@.len(),
            forall|t: int| 0 <= t < slice_len / 512 ==> #[trigger] packed_block_offset(slice_len as int, input_pack_size as int, input_num as int, chunk_len as int, src@.len() as int, t) + 512 <= old(dst)@.len(),
            checksum@ == checksum_after(zero_lanes(), src@, j as nat),
            forall|t: int| 0 <= t < j ==> bitplane_block(src@, 512 * t, dst@, #[trigger] packed_block_offset(slice_len as int, input_pack_size as int, input_num as int, chunk_len as int, src@.len() as int, t)),
            forall|k: int| 0 <= k < old(dst)@.len()
                && (forall|t: int| 0 <= t < j ==> !(#[trigger] packed_block_offset(slice_len as int, input_pack_size as int, input_num as int, chunk_len as int, src@.len() as int, t) <= k
                    < packed_block_offset(slice_len as int, input_pack_size as int, input_num as int, chunk_len as int, src@.len() as int, t) + 512))
                ==> #[trigger] dst@[k] == old(dst)@[k],
        decreases n - j,
    {
        let off = packed_block_offset_exec(slice_len, input_pack_size, input_num, chunk_len, src.len(), j, dst.len());
        checksum_block_words_at(src, PACKED_BLOCK_BYTES * j, &mut checksum);
        let ghost before = dst@;
        prepare_block_at(dst, off, src, PACKED_BLOCK_BYTES * j);
        proof {
            assert forall|t: int| 0 <= t < j + 1 implies bitplane_block(src@, 512 * t, dst@, #[trigger] packed_block_offset(slice_len as int, input_pack_size as int, input_num as int, chunk_len as int, src@.len() as int, t)) by {
                if t < j {
                    lemma_packed_offsets_increase(slice_len as int, input_pack_size as int, input_num as int, chunk_len as int, src@.len() as int, t, j as int);
                    lemma_block_frame(src@, 512 * t, before, dst@, packed_block_offset(slice_len as int, input_pack_size as int, input_num as int, chunk_len as int, src@.len() as int, t));
                }
            }
        }
        j = j + 1;
    }
    let dlen = dst.len();
    let cks = xor_jit_checksum_offset(slice_len, input_pack_size, input_num, chunk_len);
    let scratch = checksum_scratch(&checksum);
    let ghost before = dst@;
    prepare_block_at(dst, cks, scratch.as_slice(), 0);
    proof {
        assert forall|t: int| 0 <= t < slice_len / 512 && ({
            let o = packed_block_offset(slice_len as int, input_pack_size as int, input_num as int, chunk_len as int, src@.len() as int, t);
            o + 512 <= cks || cks + 512 <= o
        }) implies bitplane_block(src@, 512 * t, dst@, #[trigger] packed_block_offset(slice_len as int, input_pack_size as int, input_num as int, chunk_len as int, src@.len() as int, t)) by {
            lemma_block_frame(src@, 512 * t, before, dst@, packed_block_offset(slice_len as int, input_pack_size as int, input_num as int, chunk_len as int, src@.len() as int, t));
        }
    }
}

/// Offset of block `j` of a packed slice.
fn packed_block_offset_exec(slice_len: usize, pack: usize, num: usize, chunk_len: usize, src_len: usize, j: usize, limit: usize) -> (r: usize)
    requires
        slice_len > 0,
        chunk_len > 0,
        chunk_len % 512 == 0,
        slice_len % 512 == 0,
        slice_len + 512 <= usize::MAX,
        j < slice_len / 512,
        num < pack,
        chunk_len * pack <= usize::MAX,
        packed_block_offset(slice_len as int, pack as int, num as int, chunk_len as int, src_len as int, j as int) + 512 <= limit,
    ensures
        r == packed_block_offset(slice_len as int, pack as int, num as int, chunk_len as int, src_len as int, j as int),
{
    let dcl = if chunk_len < slice_len {
        chunk_len
    } else {
        slice_len
    };
    let p = PACKED_BLOCK_BYTES * j;
    let c = p / dcl;
    let w = p % dcl;
    let partial = c >= slice_len / dcl || (chunk_len > slice_len && 0 < src_len && src_len < slice_len);
    let part = if partial {
        let e = (slice_len + PACKED_BLOCK_BYTES) % chunk_len;
        if e == 0 {
            chunk_len
        } else {
            e
        }
    } else {
        chunk_len
    };
    let stride = chunk_len * pack;
    proof {
        lemma_offset_parts(stride as int, c as int, num as int, part as int);
    }
    c * stride + num * part + w
}

/// The prepared form of a block depends only on the 512 bytes it occupies.
proof fn lemma_block_frame(s: Seq<u8>, sat: int, p1: Seq<u8>, p2: Seq<u8>, pat: int)
    requires
        bitplane_block(s, sat, p1, pat),
        0 <= pat,
        pat + 512 <= p1.len(),
        p1.len() == p2.len(),
        forall|k: int| pat <= k < pat + 512 ==> #[trigger] p2[k] == p1[k],
    ensures
        bitplane_block(s, sat, p2, pat),
{
    assert forall|m: int, lane: int| 0 <= m < 128 && 0 <= lane < 32 implies #[trigger] prepared_bit(p2, pat, m, lane) == prepared_bit(p1, pat, m, lane) by {
        assert(p2[pat + 4 * m + lane / 8] == p1[pat + 4 * m + lane / 8]);
    }
}

/// A block-aligned position inside a block-aligned chunk leaves room for
/// a whole block before the chunk ends.
proof fn lemma_block_gap(p: int, dcl: int, c: int, w: int)
    requires
        p % 512 == 0,
        dcl % 512 == 0,
        dcl > 0,
        c >= 0,
        p == dcl * c + w,
        0 <= w < dcl,
    ensures
        w + 512 <= dcl,
{
    let y = dcl / 512;
    let x = p / 512;
    assert(dcl == 512 * y);
    assert(p == 512 * x);
    let k = y * c;
    assert(dcl * c == 512 * k) by (nonlinear_arith)
        requires
            dcl == 512 * y,
            k == y * c,
    ;
    assert(w == 512 * (x - k));
    assert(x - k < y);
}

/// Blocks of a packed slice come in order, each after the end of the one
/// before.
pub proof fn lemma_packed_offsets_increase(slice_len: int, pack: int, num: int, chunk_len: int, src_len: int, t: int, j: int)
    requires
        slice_len > 0,
        chunk_len > 0,
        chunk_len % 512 == 0,
        slice_len % 512 == 0,
        0 <= num < pack,
        0 <= t < j < slice_len / 512,
    ensures
        packed_block_offset(slice_len, pack, num, chunk_len, src_len, t) + 512 <= packed_block_offset(slice_len, pack, num, chunk_len, src_len, j),
{
    let dcl = if chunk_len < slice_len {
        chunk_len
    } else {
        slice_len
    };
    let pt = 512 * t;
    let pj = 512 * j;
    let ct = pt / dcl;
    let cj = pj / dcl;
    let wt = pt % dcl;
    let wj = pj % dcl;
    let stride = chunk_len * pack;
    lemma_effective_len(slice_len, chunk_len);
    assert(dcl > 0 && dcl % 512 == 0);
    assert(pt == dcl * ct + wt && 0 <= wt < dcl) by (nonlinear_arith)
        requires
            dcl > 0,
            pt >= 0,
            ct == pt / dcl,
            wt == pt % dcl,
    ;
    assert(pj == dcl * cj + wj && 0 <= wj < dcl) by (nonlinear_arith)
        requires
            dcl > 0,
            pj >= 0,
            cj == pj / dcl,
            wj == pj % dcl,
    ;
    assert(ct <= cj) by (nonlinear_arith)
        requires
            dcl > 0,
            0 <= pt < pj,
            ct == pt / dcl,
            cj == pj / dcl,
    ;
    assert(pj < slice_len);
    assert(cj <= slice_len / dcl) by (nonlinear_arith)
        requires
            dcl > 0,
            0 <= pj < slice_len,
            cj == pj / dcl,
    ;
    assert(ct >= 0 && stride >= chunk_len && stride >= 0) by (nonlinear_arith)
        requires
            pack >= 1,
            chunk_len > 0,
            ct == pt / dcl,
            pt >= 0,
            dcl > 0,
            stride == chunk_len * pack,
    ;
    if ct < cj {
        // block `t` lies in a whole chunk: the next chunk row starts after
        // every slice's part of this one.
        if chunk_len > slice_len {
            assert(dcl == slice_len);
            assert(cj <= 1 && false) by (nonlinear_arith)
                requires
                    dcl == slice_len,
                    0 <= pj < slice_len,
                    cj == pj / dcl,
                    ct < cj,
                    ct >= 0,
            ;
        }
        assert(ct < slice_len / dcl);
        lemma_block_gap(pt, dcl, ct, wt);
        assert(ct * stride + num * chunk_len + wt + 512 <= cj * stride) by (nonlinear_arith)
            requires
                ct < cj,
                wt + 512 <= dcl,
                dcl <= chunk_len,
                num + 1 <= pack,
                stride == chunk_len * pack,
                chunk_len > 0,
                num >= 0,
                ct >= 0,
        {
            assert(num * chunk_len + chunk_len <= pack * chunk_len);
            assert(cj * stride >= (ct + 1) * stride);
        }
        assert(cj * stride <= packed_block_offset(slice_len, pack, num, chunk_len, src_len, j)) by (nonlinear_arith)
            requires
                num >= 0,
                wj >= 0,
                chunk_len > 0,
                effective_last_chunk_len(slice_len, chunk_len) > 0,
                packed_block_offset(slice_len, pack, num, chunk_len, src_len, j) == cj * stride + num * (if cj >= slice_len / dcl || (chunk_len > slice_len && 0 < src_len < slice_len) {
                    effective_last_chunk_len(slice_len, chunk_len)
                } else {
                    chunk_len
                }) + wj,
        ;
    } else {
        assert(ct == cj);
        assert(wj - wt == pj - pt);
    }
}

/// `b` has the bits that position `k` of the prepared block at `at` holds.
pub open spec fn decodes_to(b: u8, p: Seq<u8>, at: int, k: int) -> bool {
    forall|q: int| 0 <= q < 8 ==> #[trigger] bit_of(b, q) == prepared_bit(p, at, decode_mask(k, q), decode_lane(k))
}

/// The byte that position `k` of the prepared block at `at` decodes to.
pub open spec fn decoded_byte(p: Seq<u8>, at: int, k: int) -> u8 {
    choose|b: u8| #[trigger] decodes_to(b, p, at, k)
}

/// A byte with the decoded bits is the decoded byte.
proof fn lemma_decoded_byte(x: u8, p: Seq<u8>, at: int, k: int)
    requires
        forall|q: int| 0 <= q < 8 ==> #[trigger] bit_of(x, q) == prepared_bit(p, at, decode_mask(k, q), decode_lane(k)),
    ensures
        x == decoded_byte(p, at, k),
{
    assert(decodes_to(x, p, at, k));
    let y = decoded_byte(p, at, k);
    assert(decodes_to(y, p, at, k));
    assert forall|q: int| 0 <= q < 8 implies #[trigger] bit_of(x, q) == bit_of(y, q) by {}
    lemma_byte_from_bits(x, y);
}

/// The checksum lanes stored in the prepared checksum block at `at`.
pub open spec fn stored_lanes(p: Seq<u8>, at: int) -> Seq<u16> {
    Seq::new(16, |i: int| le_word(decoded_byte(p, at, 2 * i), decoded_byte(p, at, 2 * i + 1)))
}

/// `len` rounded up to whole blocks.
pub open spec fn aligned_len(len: int) -> int {
    ((len + 511) / 512) * 512
}

/// Where the check of a slice of `n` blocks starts: the stored lanes
/// times `x ^ (65535 - n % 65535)`, which undoes the `n` doublings.
pub open spec fn finish_start(p: Seq<u8>, at: int, n: int) -> Seq<u16> {
    let e = gf_pow(2, ((65535 - n % 65535) % 65535) as nat);
    Seq::new(16, |i: int| gf_mul(stored_lanes(p, at)[i], e))
}

/// Decode the stored checksum lanes of the prepared block at `at`.
fn checksum_from_prepared(prepared: &[u8], at: usize) -> (c: [u16; 16])
    requires
        at + 512 <= prepared@.len(),
    ensures
        c@ == stored_lanes(prepared@, at as int),
{
    let mut d: Vec<u8> = vec![0u8; 512];
    finish_block_at(d.as_mut_slice(), 0, 512, prepared, at);
    let mut c = [0u16; 16];
    let mut i: usize = 0;
    while i < 16
        invariant
            i <= 16,
            d@.len() == 512,
            forall|k: int, q: int| 0 <= k < 512 && 0 <= q < 8 ==> #[trigger] bit_of(d@[0 + k], q) == prepared_bit(prepared@, at as int, decode_mask(k, q), decode_lane(k)),
            forall|t: int| 0 <= t < i ==> #[trigger] c@[t] == stored_lanes(prepared@, at as int)[t],
        decreases 16 - i,
    {
        proof {
            assert forall|q: int| 0 <= q < 8 implies #[trigger] bit_of(d@[2 * i as int], q) == prepared_bit(prepared@, at as int, decode_mask(2 * i as int, q), decode_lane(2 * i as int)) by {
                assert(bit_of(d@[0 + 2 * i as int], q) == prepared_bit(prepared@, at as int, decode_mask(2 * i as int, q), decode_lane(2 * i as int)));
            }
            lemma_decoded_byte(d@[2 * i as int], prepared@, at as int, 2 * i as int);
            assert forall|q: int| 0 <= q < 8 implies #[trigger] bit_of(d@[2 * i + 1], q) == prepared_bit(prepared@, at as int, decode_mask(2 * i + 1, q), decode_lane(2 * i + 1)) by {
                assert(bit_of(d@[0 + (2 * i + 1)], q) == prepared_bit(prepared@, at as int, decode_mask(2 * i + 1, q), decode_lane(2 * i + 1)));
            }
            lemma_decoded_byte(d@[2 * i + 1], prepared@, at as int, 2 * i + 1);
        }
        c[i] = word_of(d[2 * i], d[2 * i + 1]);
        i = i + 1;
    }
    proof {
        assert(c@ =~= stored_lanes(prepared@, at as int));
    }
    c
}

/// Decode the packed slice `output_num` of `num_outputs` into `dst` and
/// check it against its checksum block: each decoded block is folded into
/// the stored checksum, started at [`finish_start`]; the check passes when
/// every lane ends at zero.  An empty `dst` passes without reading.
pub fn finish_xor_jit_bitplane_packed_output_cksum(dst: &mut [u8], prepared: &[u8], num_outputs: usize, output_num: usize, chunk_len: usize) -> (ok: bool)
    requires
        output_num < num_outputs,
        chunk_len % 512 == 0,
        prepared@.len() % 512 == 0,
        old(dst)@.len() + 1024 <= usize::MAX,
        chunk_len * num_outputs <= usize::MAX,
        old(dst)@.len() > 0 ==> chunk_len > 0,
        old(dst)@.len() > 0 ==> forall|j: int| 0 <= j < aligned_len(old(dst)@.len() as int) / 512 ==> #[trigger] packed_block_offset(aligned_len(old(dst)@.len() as int), num_outputs as int, output_num as int, chunk_len as int, aligned_len(old(dst)@.len() as int), j) + 512 <= prepared@.len(),
        old(dst)@.len() > 0 ==> checksum_offset_spec(aligned_len(old(dst)@.len() as int), num_outputs as int, output_num as int, chunk_len as int) + 512 <= prepared@.len(),
    ensures
        final(dst)@.len() == old(dst)@.len(),
        old(dst)@.len() == 0 ==> ok,
        forall|k: int| 0 <= k < old(dst)@.len() ==> #[trigger] final(dst)@[k] == decoded_byte(
            prepared@,
            packed_block_offset(aligned_len(old(dst)@.len() as int), num_outputs as int, output_num as int, chunk_len as int, aligned_len(old(dst)@.len() as int), k / 512),
            k % 512,
        ),
        old(dst)@.len() > 0 ==> ok == lanes_zero(checksum_after(
            finish_start(prepared@, checksum_offset_spec(aligned_len(old(dst)@.len() as int), num_outputs as int, output_num as int, chunk_len as int), aligned_len(old(dst)@.len() as int) / 512),
            final(dst)@,
            (aligned_len(old(dst)@.len() as int) / 512) as nat,
        )),
{
    let len = dst.len();
    if len == 0 {
        return true;
    }
    let aligned = ((len + 511) / PACKED_BLOCK_BYTES) * PACKED_BLOCK_BYTES;
    let nb = aligned / PACKED_BLOCK_BYTES;
    proof {
        assert(aligned == aligned_len(len as int));
        assert(aligned % 512 == 0);
        assert(nb * 512 == aligned);
        assert(len <= aligned < len + 512);
    }
    let plen = prepared.len();
    let cks = xor_jit_checksum_offset(aligned, num_outputs, output_num, chunk_len);
    let mut checksum = checksum_from_prepared(prepared, cks);
    checksum_mul(&mut checksum, xor_jit_gf16_exp(65535 - nb % 65535));
    proof {
        assert(checksum@ =~= finish_start(prepared@, cks as int, nb as int));
    }
    let mut j: usize = 0;
    while j < nb
        invariant
            len == dst@.len(),
            len == old(dst)@.len(),
            aligned == aligned_len(len as int),
            nb * 512 == aligned,
            len <= aligned < len + 512,
            len > 0,
            output_num < num_outputs,
            chunk_len > 0,
            chunk_len % 512 == 0,
            len + 1024 <= usize::MAX,
            chunk_len * num_outputs <= usize::MAX,
            j <= nb,
            forall|t: int| 0 <= t < aligned / 512 ==> #[trigger] packed_block_offset(aligned as int, num_outputs as int, output_num as int, chunk_len as int, aligned as int, t) + 512 <= prepared@.len(),
            forall|k: int| 0 <= k < len && k < 512 * j ==> #[trigger] dst@[k] == decoded_byte(
                prepared@,
                packed_block_offset(aligned as int, num_outputs as int, output_num as int, chunk_len as int, aligned as int, k / 512),
                k % 512,
            ),
        decreases nb - j,
    {
        let off = packed_block_offset_exec(aligned, num_outputs, output_num, chunk_len, aligned, j, prepared.len());
        let at = PACKED_BLOCK_BYTES * j;
        let this_len = if len - at < PACKED_BLOCK_BYTES {
            len - at
        } else {
            PACKED_BLOCK_BYTES
        };
        let ghost before = dst@;
        finish_block_at(dst, at, this_len, prepared, off);
        proof {
            assert forall|k: int| 0 <= k < len && k < 512 * (j + 1) implies #[trigger] dst@[k] == decoded_byte(
                prepared@,
                packed_block_offset(aligned as int, num_outputs as int, output_num as int, chunk_len as int, aligned as int, k / 512),
                k % 512,
            ) by {
                if k < 512 * j {
                    assert(dst@[k] == before[k]);
                } else {
                    let kk = k - at;
                    assert(k / 512 == j && k % 512 == kk);
                    assert forall|q: int| 0 <= q < 8 implies #[trigger] bit_of(dst@[k], q) == prepared_bit(prepared@, off as int, decode_mask(kk, q), decode_lane(kk)) by {
                        assert(bit_of(dst@[at + kk], q) == prepared_bit(prepared@, off as int, decode_mask(kk, q), decode_lane(kk)));
                    }
                    lemma_decoded_byte(dst@[k], prepared@, off as int, kk);
                }
            }
        }
        j = j + 1;
    }
    let mut j: usize = 0;
    let ghost start = checksum@;
    proof {
        assert(checksum@ == checksum_after(start, dst@, 0));
    }
    while j < nb
        invariant
            j <= nb,
            nb * 512 == aligned,
            len + 1024 <= usize::MAX,
            aligned < len + 512,
            checksum@ == checksum_after(start, dst@, j as nat),
        decreases nb - j,
    {
        checksum_block_words_at(dst, PACKED_BLOCK_BYTES * j, &mut checksum);
        j = j + 1;
    }
    lanes_are_zero(&checksum)
}

/// Whether every lane is zero.
fn lanes_are_zero(checksum: &[u16; 16]) -> (ok: bool)
    ensures
        ok == lanes_zero(checksum@),
{
    let mut ok = true;
    let mut i: usize = 0;
    while i < 16
        invariant
            i <= 16,
            ok == (forall|t: int| 0 <= t < i ==> #[trigger] checksum@[t] == 0),
        decreases 16 - i,
    {
        if checksum[i] != 0 {
            ok = false;
        }
        i = i + 1;
    }
    ok
}

/// With chunks no longer than the slice, every data block of a packed
/// slice ends before its checksum block starts.
pub proof fn lemma_blocks_before_checksum(slice_len: int, pack: int, num: int, chunk_len: int, src_len: int, j: int)
    requires
        0 < chunk_len <= slice_len,
        chunk_len % 512 == 0,
        slice_len % 512 == 0,
        0 <= num < pack,
        0 <= j < slice_len / 512,
    ensures
        packed_block_offset(slice_len, pack, num, chunk_len, src_len, j) + 512 <= checksum_offset_spec(slice_len, pack, num, chunk_len),
{
    let cl = chunk_len;
    let f = slice_len / cl;
    let r = slice_len % cl;
    let p = 512 * j;
    let c = p / cl;
    let w = p % cl;
    let stride = cl * pack;
    let eff = effective_last_chunk_len(slice_len, cl);
    assert(slice_len == cl * f + r && 0 <= r < cl) by (nonlinear_arith)
        requires
            cl > 0,
            slice_len >= 0,
            f == slice_len / cl,
            r == slice_len % cl,
    ;
    assert(f >= 0) by (nonlinear_arith)
        requires
            cl > 0,
            slice_len >= 0,
            f == slice_len / cl,
    ;
    lemma_block_gap(slice_len, cl, f, r);
    // the last chunk holds the slice's tail and then its checksum block
    if r + 512 < cl {
        vstd::arithmetic::div_mod::lemma_fundamental_div_mod_converse(slice_len + 512, cl, f, r + 512);
    } else {
        assert((f + 1) * cl == cl * f + cl) by (nonlinear_arith);
        vstd::arithmetic::div_mod::lemma_fundamental_div_mod_converse(slice_len + 512, cl, f + 1, 0);
    }
    assert(eff == r + 512);
    assert(p == cl * c + w && 0 <= w < cl) by (nonlinear_arith)
        requires
            cl > 0,
            p >= 0,
            c == p / cl,
            w == p % cl,
    ;
    assert(p + 512 <= slice_len);
    assert(0 <= c <= f) by (nonlinear_arith)
        requires
            cl > 0,
            0 <= p < slice_len,
            c == p / cl,
            f == slice_len / cl,
    ;
    assert(stride * f == cl * pack * f && stride >= 0 && stride * f >= 0 && num * eff >= 0) by (nonlinear_arith)
        requires
            stride == cl * pack,
            cl > 0,
            pack > 0,
            f >= 0,
            num >= 0,
            eff > 0,
    ;
    if c < f {
        lemma_block_gap(p, cl, c, w);
        assert(c * stride + num * cl + w + 512 <= stride * f) by (nonlinear_arith)
            requires
                0 <= c < f,
                w + 512 <= cl,
                num + 1 <= pack,
                stride == cl * pack,
                cl > 0,
                num >= 0,
        {
            assert(num * cl + cl <= pack * cl);
            assert(stride * f >= stride * (c + 1));
        }
    } else {
        assert(c == f);
        assert(w == p - cl * f) by (nonlinear_arith)
            requires
                p == cl * c + w,
                c == f,
        ;
        assert(c * stride == stride * f) by (nonlinear_arith)
            requires
                c == f,
        ;
    }
}

/// Decoding what was prepared gives the data back: with chunks no longer
/// than the slice and the slice being the source rounded up to whole
/// blocks, the bytes that the finishing step decodes from the blocks that
/// the preparing step wrote are the source bytes.
pub proof fn lemma_packed_roundtrip(src: Seq<u8>, prepared: Seq<u8>, decoded: Seq<u8>, pack: int, num: int, chunk_len: int)
    requires
        src.len() > 0,
        0 <= num < pack,
        chunk_len % 512 == 0,
        0 < chunk_len <= aligned_len(src.len() as int),
        decoded.len() == src.len(),
        forall|j: int| 0 <= j < aligned_len(src.len() as int) / 512 && ({
            let o = packed_block_offset(aligned_len(src.len() as int), pack, num, chunk_len, src.len() as int, j);
            let co = checksum_offset_spec(aligned_len(src.len() as int), pack, num, chunk_len);
            o + 512 <= co || co + 512 <= o
        }) ==> bitplane_block(src, 512 * j, prepared, #[trigger] packed_block_offset(aligned_len(src.len() as int), pack, num, chunk_len, src.len() as int, j)),
        forall|k: int| 0 <= k < decoded.len() ==> #[trigger] decoded[k] == decoded_byte(
            prepared,
            packed_block_offset(aligned_len(src.len() as int), pack, num, chunk_len, aligned_len(src.len() as int), k / 512),
            k % 512,
        ),
    ensures
        decoded == src,
{
    let sl = aligned_len(src.len() as int);
    assert(sl % 512 == 0 && src.len() <= sl && sl < src.len() + 512);
    assert forall|k: int| 0 <= k < src.len() implies decoded[k] == src[k] by {
        let j = k / 512;
        let kk = k % 512;
        assert(0 <= j < sl / 512);
        assert(k == 512 * j + kk);
        lemma_blocks_before_checksum(sl, pack, num, chunk_len, src.len() as int, j);
        let o = packed_block_offset(sl, pack, num, chunk_len, src.len() as int, j);
        assert(o == packed_block_offset(sl, pack, num, chunk_len, sl, j));
        assert(bitplane_block(src, 512 * j, prepared, o));
        assert forall|q: int| 0 <= q < 8 implies #[trigger] bit_of(src[k], q) == prepared_bit(prepared, o, decode_mask(kk, q), decode_lane(kk)) by {
            crate::xor_jit::bitplane::lemma_source_bit_of_block(src, 512 * j, prepared, o, kk, q);
            assert(byte_at(src, 512 * j + kk) == src[k]);
        }
        lemma_decoded_byte(src[k], prepared, o, kk);
    }
    assert(decoded =~= src);
}

/// The lanes read back from a prepared checksum block are the lanes it was
/// prepared from.
proof fn lemma_stored_lanes(p: Seq<u8>, at: int, c: Seq<u16>)
    requires
        c.len() == 16,
        bitplane_block(checksum_bytes(c), 0, p, at),
    ensures
        stored_lanes(p, at) == c,
{
    let cb = checksum_bytes(c);
    assert forall|k: int| 0 <= k < 32 implies #[trigger] decoded_byte(p, at, k) == cb[k] by {
        assert forall|q: int| 0 <= q < 8 implies #[trigger] bit_of(cb[k], q) == prepared_bit(p, at, decode_mask(k, q), decode_lane(k)) by {
            crate::xor_jit::bitplane::lemma_source_bit_of_block(cb, 0, p, at, k, q);
            assert(byte_at(cb, 0 + k) == cb[k]);
        }
        lemma_decoded_byte(cb[k], p, at, k);
    }
    assert forall|i: int| 0 <= i < 16 implies #[trigger] stored_lanes(p, at)[i] == c[i] by {
        assert(decoded_byte(p, at, 2 * i) == cb[2 * i]);
        assert(decoded_byte(p, at, 2 * i + 1) == cb[2 * i + 1]);
        assert((2 * i) / 2 == i && (2 * i + 1) / 2 == i);
        assert(cb[2 * i] == lo_byte(c[i]));
        assert(cb[2 * i + 1] == hi_byte(c[i]));
    }
    assert(stored_lanes(p, at) =~= c);
}

/// A checksum started from `c0` is the zero-started one plus `c0` times
/// `x ^ n`, lane by lane.
proof fn lemma_checksum_shift(c0: Seq<u16>, s: Seq<u8>, n: nat)
    requires
        c0.len() == 16,
    ensures
        checksum_after(c0, s, n).len() == 16,
        checksum_after(zero_lanes(), s, n).len() == 16,
        forall|i: int| 0 <= i < 16 ==> #[trigger] checksum_after(c0, s, n)[i] == gf_mul(c0[i], gf_pow(2, n)) ^ checksum_after(zero_lanes(), s, n)[i],
    decreases n,
{
    if n == 0 {
        assert forall|i: int| 0 <= i < 16 implies #[trigger] checksum_after(c0, s, n)[i] == gf_mul(c0[i], gf_pow(2, n)) ^ checksum_after(zero_lanes(), s, n)[i] by {
            lemma_gf_mul_one_right(c0[i]);
            lemma_xor(c0[i], 0, 0);
        }
    } else {
        let m = (n - 1) as nat;
        lemma_checksum_shift(c0, s, m);
        lemma_alog_is_pow(n);
        lemma_alog_is_pow(m);
        assert(gf_pow(2, n) == xtime(gf_pow(2, m)));
        assert forall|i: int| 0 <= i < 16 implies #[trigger] checksum_after(c0, s, n)[i] == gf_mul(c0[i], gf_pow(2, n)) ^ checksum_after(zero_lanes(), s, n)[i] by {
            let g = gf_mul(c0[i], gf_pow(2, m));
            let z = checksum_after(zero_lanes(), s, m)[i];
            let x = block_lane_xor(s, 512 * (m as int), i, 16);
            assert(checksum_after(c0, s, n)[i] == xtime(g ^ z) ^ x);
            assert(checksum_after(zero_lanes(), s, n)[i] == xtime(z) ^ x);
            lemma_xtime_linear(g, z);
            lemma_gf_mul_xtime_right(c0[i], gf_pow(2, m));
            lemma_xor(xtime(g), xtime(z), x);
        }
    }
}

/// Multiplying by the finishing factor and then by `x ^ n` gives the value
/// back: the two exponents add up to a multiple of 65535.
proof fn lemma_finish_factor_cancels(v: u16, n: int)
    requires
        n >= 0,
    ensures
        gf_mul(gf_mul(v, gf_pow(2, ((65535 - n % 65535) % 65535) as nat)), gf_pow(2, n as nat)) == v,
{
    let t = ((65535 - n % 65535) % 65535) as nat;
    let q: nat = if n % 65535 == 0 {
        (n / 65535) as nat
    } else {
        (n / 65535 + 1) as nat
    };
    assert(t + n == 65535 * q);
    lemma_gf_mul_assoc(v, gf_pow(2, t), gf_pow(2, n as nat));
    lemma_gf_pow_add(2, t, n as nat);
    lemma_gf_pow_pow(2, 65535, q);
    lemma_x_pow_65535();
    lemma_gf_pow_one(q);
    lemma_gf_mul_one_right(v);
}

/// What preparing promises of the checksum block makes the finishing check
/// pass on the same data: the stored checksum, brought back by the
/// finishing factor and folded over the same blocks again, cancels to zero
/// in every lane.
pub proof fn lemma_packed_check_passes(data: Seq<u8>, prepared: Seq<u8>, at: int, n: nat)
    requires
        bitplane_block(checksum_bytes(checksum_after(zero_lanes(), data, n)), 0, prepared, at),
    ensures
        lanes_zero(checksum_after(finish_start(prepared, at, n as int), data, n)),
{
    let c = checksum_after(zero_lanes(), data, n);
    lemma_checksum_shift(zero_lanes(), data, n);
    lemma_stored_lanes(prepared, at, c);
    let start = finish_start(prepared, at, n as int);
    lemma_checksum_shift(start, data, n);
    assert forall|i: int| 0 <= i < 16 implies #[trigger] checksum_after(start, data, n)[i] == 0 by {
        lemma_finish_factor_cancels(c[i], n as int);
        lemma_xor(c[i], c[i], 0);
    }
}

/// Preparing a slice into a packed buffer and finishing it again gives the
/// slice back, and the checksum check passes: with chunks no longer than
/// the slice and the slice length the source length rounded up to whole
/// blocks, what the two steps promise leaves `decoded == src` and `ok`.
pub proof fn lemma_packed_prepare_finish(src: Seq<u8>, prepared: Seq<u8>, decoded: Seq<u8>, ok: bool, pack: int, num: int, chunk_len: int)
    requires
        src.len() > 0,
        0 <= num < pack,
        chunk_len % 512 == 0,
        0 < chunk_len <= aligned_len(src.len() as int),
        decoded.len() == src.len(),
        bitplane_block(
            checksum_bytes(checksum_after(zero_lanes(), src, (aligned_len(src.len() as int) / 512) as nat)),
            0,
            prepared,
            checksum_offset_spec(aligned_len(src.len() as int), pack, num, chunk_len),
        ),
        forall|j: int| 0 <= j < aligned_len(src.len() as int) / 512 && ({
            let o = packed_block_offset(aligned_len(src.len() as int), pack, num, chunk_len, src.len() as int, j);
            let co = checksum_offset_spec(aligned_len(src.len() as int), pack, num, chunk_len);
            o + 512 <= co || co + 512 <= o
        }) ==> bitplane_block(src, 512 * j, prepared, #[trigger] packed_block_offset(aligned_len(src.len() as int), pack, num, chunk_len, src.len() as int, j)),
        forall|k: int| 0 <= k < decoded.len() ==> #[trigger] decoded[k] == decoded_byte(
            prepared,
            packed_block_offset(aligned_len(src.len() as int), pack, num, chunk_len, aligned_len(src.len() as int), k / 512),
            k % 512,
        ),
        ok == lanes_zero(checksum_after(
            finish_start(prepared, checksum_offset_spec(aligned_len(src.len() as int), pack, num, chunk_len), aligned_len(src.len() as int) / 512),
            decoded,
            (aligned_len(src.len() as int) / 512) as nat,
        )),
    ensures
        decoded == src,
        ok,
{
    lemma_packed_roundtrip(src, prepared, decoded, pack, num, chunk_len);
    let n = (aligned_len(src.len() as int) / 512) as nat;
    lemma_packed_check_passes(src, prepared, checksum_offset_spec(aligned_len(src.len() as int), pack, num, chunk_len), n);
}

/// The checksum after blocks `a..b` of `s`, starting from `c0`.
pub open spec fn checksum_between(c0: Seq<u16>, s: Seq<u8>, a: int, b: int) -> Seq<u16>
    decreases b - a,
{
    if b <= a {
        c0
    } else {
        checksum_step(checksum_between(c0, s, a, b - 1), s, 512 * (b - 1))
    }
}

/// The raw checksum lanes kept in the checksum slot at `at` between parts.
pub open spec fn raw_lanes(d: Seq<u8>, at: int) -> Seq<u16> {
    Seq::new(16, |i: int| le_word(d[at + 2 * i], d[at + 2 * i + 1]))
}

/// Folding the blocks from zero is folding them from block zero.
pub proof fn lemma_checksum_after_between(c0: Seq<u16>, s: Seq<u8>, n: nat)
    ensures
        checksum_after(c0, s, n) == checksum_between(c0, s, 0, n as int),
    decreases n,
{
    if n > 0 {
        lemma_checksum_after_between(c0, s, (n - 1) as nat);
    }
}

/// Folding consecutive runs of blocks one after the other is folding them
/// all at once: a slice may be checked in parts.
pub proof fn lemma_checksum_between_join(c0: Seq<u16>, s: Seq<u8>, a: int, b: int, c: int)
    requires
        a <= b <= c,
    ensures
        checksum_between(checksum_between(c0, s, a, b), s, b, c) == checksum_between(c0, s, a, c),
    decreases c - b,
{
    if b < c {
        lemma_checksum_between_join(c0, s, a, b, c - 1);
    }
}

/// Read the raw checksum lanes kept in the slot at `at`.
fn raw_lanes_from(d: &[u8], at: usize) -> (c: [u16; 16])
    requires
        at + 512 <= d@.len(),
    ensures
        c@ == raw_lanes(d@, at as int),
{
    let dlen = d.len();
    let mut c = [0u16; 16];
    let mut i: usize = 0;
    while i < 16
        invariant
            i <= 16,
            dlen == d@.len(),
            at + 512 <= d@.len(),
            forall|t: int| 0 <= t < i ==> #[trigger] c@[t] == raw_lanes(d@, at as int)[t],
        decreases 16 - i,
    {
        c[i] = word_of(d[at + 2 * i], d[at + 2 * i + 1]);
        i = i + 1;
    }
    proof {
        assert(c@ =~= raw_lanes(d@, at as int));
    }
    c
}

/// Copy `bytes` into `d` at `at`.
fn write_bytes_at(d: &mut [u8], at: usize, bytes: &[u8])
    requires
        at + bytes@.len() <= old(d)@.len(),
    ensures
        final(d)@.len() == old(d)@.len(),
        forall|k: int| 0 <= k < bytes@.len() ==> #[trigger] final(d)@[at + k] == bytes@[k],
        forall|k: int| 0 <= k < old(d)@.len() && !(at <= k < at + bytes@.len()) ==> #[trigger] final(d)@[k] == old(d)@[k],
{
    let dlen = d.len();
    let mut i: usize = 0;
    while i < bytes.len()
        invariant
            dlen == d@.len(),
            i <= bytes@.len(),
            at + bytes@.len() <= d@.len(),
            d@.len() == old(d)@.len(),
            forall|k: int| 0 <= k < i ==> #[trigger] d@[at + k] == bytes@[k],
            forall|k: int| 0 <= k < old(d)@.len() && !(at <= k < at + i) ==> #[trigger] d@[k] == old(d)@[k],
        decreases bytes@.len() - i,
    {
        d[at + i] = bytes[i];
        i = i + 1;
    }
}

/// One part of [`prepare_xor_jit_bitplane_packed_input_cksum`]: the
/// blocks of `src` from `part_offset` on, `part_len` bytes of them, or all
/// the rest of the slice when the part reaches the end of `src`.  The
/// running checksum is kept raw in the checksum slot between parts; the
/// part that completes the slice writes the prepared checksum block.
pub fn prepare_xor_jit_bitplane_partial_packsum(
    dst: &mut [u8],
    src: &[u8],
    slice_len: usize,
    input_pack_size: usize,
    input_num: usize,
    chunk_len: usize,
    part_offset: usize,
    part_len: usize,
)
    requires
        input_num < input_pack_size,
        chunk_len > 0,
        chunk_len % 512 == 0,
        src@.len() <= slice_len,
        slice_len % 512 == 0,
        slice_len + 1024 <= usize::MAX,
        chunk_len * input_pack_size <= usize::MAX,
        part_offset % 512 == 0,
        part_offset + part_len <= src@.len(),
        part_offset + part_len == src@.len() || part_len % 512 == 0,
        forall|j: int| 0 <= j < slice_len / 512 ==> #[trigger] packed_block_offset(slice_len as int, input_pack_size as int, input_num as int, chunk_len as int, src@.len() as int, j) + 512 <= old(dst)@.len(),
        checksum_offset_spec(slice_len as int, input_pack_size as int, input_num as int, chunk_len as int) + 512 <= old(dst)@.len(),
    ensures
        ({
            let co = checksum_offset_spec(slice_len as int, input_pack_size as int, input_num as int, chunk_len as int);
            let completes = part_offset + part_len == src@.len();
            let a: int = part_offset as int / 512;
            let b: int = if completes { slice_len as int / 512 } else { (part_offset + part_len) / 512 };
            let start = if part_offset == 0 { zero_lanes() } else { raw_lanes(old(dst)@, co) };
            let sum = checksum_between(start, src@, a as int, b as int);
            &&& final(dst)@.len() == old(dst)@.len()
            &&& slice_len == 0 ==> forall|k: int| 0 <= k < 512 ==> #[trigger] final(dst)@[co + k] == 0
            &&& slice_len > 0 && completes ==> bitplane_block(checksum_bytes(sum), 0, final(dst)@, co)
            &&& slice_len > 0 && !completes ==> forall|k: int| 0 <= k < 512 ==> #[trigger] final(dst)@[co + k] == checksum_bytes(sum)[k]
            &&& forall|j: int| a <= j < b && ({
                let o = packed_block_offset(slice_len as int, input_pack_size as int, input_num as int, chunk_len as int, src@.len() as int, j);
                o + 512 <= co || co + 512 <= o
            }) ==> bitplane_block(src@, 512 * j, final(dst)@, #[trigger] packed_block_offset(slice_len as int, input_pack_size as int, input_num as int, chunk_len as int, src@.len() as int, j))
            &&& forall|k: int| 0 <= k < old(dst)@.len()
                && (forall|j: int| a <= j < b ==> !(#[trigger] packed_block_offset(slice_len as int, input_pack_size as int, input_num as int, chunk_len as int, src@.len() as int, j) <= k
                    < packed_block_offset(slice_len as int, input_pack_size as int, input_num as int, chunk_len as int, src@.len() as int, j) + 512))
                && !(co <= k < co + 512)
                ==> #[trigger] final(dst)@[k] == old(dst)@[k]
        }),
{
    let dlen = dst.len();
    let cks = xor_jit_checksum_offset(slice_len, input_pack_size, input_num, chunk_len);
    let completes = part_offset + part_len == src.len();
    if slice_len == 0 {
        let zeros: Vec<u8> = vec![0u8; 512];
        write_bytes_at(dst, cks, zeros.as_slice());
        return;
    }
    let mut checksum = if part_offset == 0 {
        [0u16; 16]
    } else {
        raw_lanes_from(dst, cks)
    };
    let ghost start = checksum@;
    proof {
        if part_offset == 0 {
            assert(checksum@ =~= zero_lanes());
        }
    }
    let a = part_offset / PACKED_BLOCK_BYTES;
    let b = if completes {
        slice_len / PACKED_BLOCK_BYTES
    } else {
        (part_offset + part_len) / PACKED_BLOCK_BYTES
    };
    let n = slice_len / PACKED_BLOCK_BYTES;
    assert(a <= b <= n);
    let mut j: usize = a;
    while j < b
        invariant
            a <= j <= b,
            b <= n,
            n == slice_len / 512,
            slice_len > 0,
            input_num < input_pack_size,
            chunk_len > 0,
            chunk_len % 512 == 0,
            src@.len() <= slice_len,
            slice_len % 512 == 0,
            slice_len + 1024 <= usize::MAX,
            chunk_len * input_pack_size <= usize::MAX,
            dst@.len() == old(dst)@.len(),
            forall|t: int| 0 <= t < slice_len / 512 ==> #[trigger] packed_block_offset(slice_len as int, input_pack_size as int, input_num as int, chunk_len as int, src@.len() as int, t) + 512 <= old(dst)@.len(),
            checksum@ == checksum_between(start, src@, a as int, j as int),
            forall|t: int| a <= t < j ==> bitplane_block(src@, 512 * t, dst@, #[trigger] packed_block_offset(slice_len as int, input_pack_size as int, input_num as int, chunk_len as int, src@.len() as int, t)),
            forall|k: int| 0 <= k < old(dst)@.len()
                && (forall|t: int| a <= t < j ==> !(#[trigger] packed_block_offset(slice_len as int, input_pack_size as int, input_num as int, chunk_len as int, src@.len() as int, t) <= k
                    < packed_block_offset(slice_len as int, input_pack_size as int, input_num as int, chunk_len as int, src@.len() as int, t) + 512))
                ==> #[trigger] dst@[k] == old(dst)@[k],
        decreases b - j,
    {
        let off = packed_block_offset_exec(slice_len, input_pack_size, input_num, chunk_len, src.len(), j, dst.len());
        checksum_block_words_at(src, PACKED_BLOCK_BYTES * j, &mut checksum);
        let ghost before = dst@;
        prepare_block_at(dst, off, src, PACKED_BLOCK_BYTES * j);
        proof {
            assert forall|t: int| a <= t < j + 1 implies bitplane_block(src@, 512 * t, dst@, #[trigger] packed_block_offset(slice_len as int, input_pack_size as int, input_num as int, chunk_len as int, src@.len() as int, t)) by {
                if t < j {
                    lemma_packed_offsets_increase(slice_len as int, input_pack_size as int, input_num as int, chunk_len as int, src@.len() as int, t, j as int);
                    lemma_block_frame(src@, 512 * t, before, dst@, packed_block_offset(slice_len as int, input_pack_size as int, input_num as int, chunk_len as int, src@.len() as int, t));
                }
            }
        }
        j = j + 1;
    }
    let scratch = checksum_scratch(&checksum);
    let ghost before = dst@;
    if completes {
        prepare_block_at(dst, cks, scratch.as_slice(), 0);
    } else {
        write_bytes_at(dst, cks, scratch.as_slice());
    }
    proof {
        assert forall|t: int| a <= t < b && ({
            let o = packed_block_offset(slice_len as int, input_pack_size as int, input_num as int, chunk_len as int, src@.len() as int, t);
            o + 512 <= cks || cks + 512 <= o
        }) implies bitplane_block(src@, 512 * t, dst@, #[trigger] packed_block_offset(slice_len as int, input_pack_size as int, input_num as int, chunk_len as int, src@.len() as int, t)) by {
            lemma_block_frame(src@, 512 * t, before, dst@, packed_block_offset(slice_len as int, input_pack_size as int, input_num as int, chunk_len as int, src@.len() as int, t));
        }
    }
}

/// One part of [`finish_xor_jit_bitplane_packed_output_cksum`]: the blocks
/// of the slice from `part_offset` on, `part_len` bytes of them, or all the
/// rest when the part reaches the end of `dst`.  The first part starts the
/// check from the stored checksum block; between parts the running value
/// is kept raw in the checksum slot, and only the part that completes the
/// slice reports the check (the others report success).  An empty `dst`
/// passes without reading.
pub fn finish_xor_jit_bitplane_partial_packsum(
    dst: &mut [u8],
    prepared: &mut [u8],
    slice_len: usize,
    num_outputs: usize,
    output_num: usize,
    chunk_len: usize,
    part_offset: usize,
    part_len: usize,
) -> (ok: bool)
    requires
        old(dst)@.len() == slice_len,
        output_num < num_outputs,
        chunk_len > 0,
        chunk_len % 512 == 0,
        old(prepared)@.len() % 512 == 0,
        slice_len + 1024 <= usize::MAX,
        chunk_len * num_outputs <= usize::MAX,
        part_offset % 512 == 0,
        part_offset + part_len <= slice_len,
        part_offset + part_len == slice_len || part_len % 512 == 0,
        slice_len > 0 ==> forall|j: int| 0 <= j < aligned_len(slice_len as int) / 512 ==> #[trigger] packed_block_offset(aligned_len(slice_len as int), num_outputs as int, output_num as int, chunk_len as int, aligned_len(slice_len as int), j) + 512 <= old(prepared)@.len(),
        slice_len > 0 ==> checksum_offset_spec(aligned_len(slice_len as int), num_outputs as int, output_num as int, chunk_len as int) + 512 <= old(prepared)@.len(),
    ensures
        final(dst)@.len() == old(dst)@.len(),
        final(prepared)@.len() == old(prepared)@.len(),
        slice_len == 0 ==> ok && final(prepared)@ == old(prepared)@,
        slice_len > 0 ==> ({
            let sl = aligned_len(slice_len as int);
            let nb = sl / 512;
            let co = checksum_offset_spec(sl, num_outputs as int, output_num as int, chunk_len as int);
            let completes = part_offset + part_len == slice_len;
            let a: int = part_offset as int / 512;
            let b: int = if completes { nb } else { (part_offset + part_len) / 512 };
            let start = if part_offset == 0 { finish_start(old(prepared)@, co, nb) } else { raw_lanes(old(prepared)@, co) };
            let sum = checksum_between(start, final(dst)@, a, b);
            &&& forall|k: int| 512 * a <= k < slice_len && k < 512 * b ==> #[trigger] final(dst)@[k] == decoded_byte(
                old(prepared)@,
                packed_block_offset(sl, num_outputs as int, output_num as int, chunk_len as int, sl, k / 512),
                k % 512,
            )
            &&& forall|k: int| 0 <= k < slice_len && !(512 * a <= k < 512 * b) ==> #[trigger] final(dst)@[k] == old(dst)@[k]
            &&& completes ==> ok == lanes_zero(sum) && final(prepared)@ == old(prepared)@
            &&& !completes ==> ok
            &&& !completes ==> forall|k: int| 0 <= k < 512 ==> #[trigger] final(prepared)@[co + k] == checksum_bytes(sum)[k]
            &&& !completes ==> forall|k: int| 0 <= k < old(prepared)@.len() && !(co <= k < co + 512) ==> #[trigger] final(prepared)@[k] == old(prepared)@[k]
        }),
{
    let len = dst.len();
    if len == 0 {
        return true;
    }
    let plen = prepared.len();
    let aligned = ((len + 511) / PACKED_BLOCK_BYTES) * PACKED_BLOCK_BYTES;
    let nb = aligned / PACKED_BLOCK_BYTES;
    proof {
        assert(aligned == aligned_len(len as int));
        assert(nb * 512 == aligned);
        assert(len <= aligned < len + 512);
    }
    let cks = xor_jit_checksum_offset(aligned, num_outputs, output_num, chunk_len);
    let completes = part_offset + part_len == len;
    let mut checksum = if part_offset == 0 {
        let mut c = checksum_from_prepared(prepared, cks);
        checksum_mul(&mut c, xor_jit_gf16_exp(65535 - nb % 65535));
        proof {
            assert(c@ =~= finish_start(prepared@, cks as int, nb as int));
        }
        c
    } else {
        raw_lanes_from(prepared, cks)
    };
    let ghost start = checksum@;
    let a = part_offset / PACKED_BLOCK_BYTES;
    let b = if completes {
        nb
    } else {
        (part_offset + part_len) / PACKED_BLOCK_BYTES
    };
    assert(a <= b <= nb);
    let mut j: usize = a;
    while j < b
        invariant
            a <= j <= b,
            b <= nb,
            len == dst@.len(),
            len == old(dst)@.len(),
            aligned == aligned_len(len as int),
            nb * 512 == aligned,
            len <= aligned < len + 512,
            len > 0,
            output_num < num_outputs,
            chunk_len > 0,
            chunk_len % 512 == 0,
            len + 1024 <= usize::MAX,
            chunk_len * num_outputs <= usize::MAX,
            prepared@ == old(prepared)@,
            forall|t: int| 0 <= t < aligned / 512 ==> #[trigger] packed_block_offset(aligned as int, num_outputs as int, output_num as int, chunk_len as int, aligned as int, t) + 512 <= prepared@.len(),
            forall|k: int| 512 * a <= k < len && k < 512 * j ==> #[trigger] dst@[k] == decoded_byte(
                prepared@,
                packed_block_offset(aligned as int, num_outputs as int, output_num as int, chunk_len as int, aligned as int, k / 512),
                k % 512,
            ),
            forall|k: int| 0 <= k < len && !(512 * a <= k < 512 * j) ==> #[trigger] dst@[k] == old(dst)@[k],
        decreases b - j,
    {
        let off = packed_block_offset_exec(aligned, num_outputs, output_num, chunk_len, aligned, j, prepared.len());
        let at = PACKED_BLOCK_BYTES * j;
        let this_len = if len - at < PACKED_BLOCK_BYTES {
            len - at
        } else {
            PACKED_BLOCK_BYTES
        };
        let ghost before = dst@;
        finish_block_at(dst, at, this_len, prepared, off);
        proof {
            assert forall|k: int| 512 * a <= k < len && k < 512 * (j + 1) implies #[trigger] dst@[k] == decoded_byte(
                prepared@,
                packed_block_offset(aligned as int, num_outputs as int, output_num as int, chunk_len as int, aligned as int, k / 512),
                k % 512,
            ) by {
                if k < 512 * j {
                    assert(dst@[k] == before[k]);
                } else {
                    let kk = k - at;
                    assert(k / 512 == j && k % 512 == kk);
                    assert forall|q: int| 0 <= q < 8 implies #[trigger] bit_of(dst@[k], q) == prepared_bit(prepared@, off as int, decode_mask(kk, q), decode_lane(kk)) by {
                        assert(bit_of(dst@[at + kk], q) == prepared_bit(prepared@, off as int, decode_mask(kk, q), decode_lane(kk)));
                    }
                    lemma_decoded_byte(dst@[k], prepared@, off as int, kk);
                }
            }
        }
        j = j + 1;
    }
    let mut j: usize = a;
    proof {
        assert(checksum@ == checksum_between(start, dst@, a as int, a as int));
    }
    while j < b
        invariant
            a <= j <= b,
            b <= nb,
            nb * 512 == aligned,
            len + 1024 <= usize::MAX,
            aligned < len + 512,
            checksum@ == checksum_between(start, dst@, a as int, j as int),
        decreases b - j,
    {
        checksum_block_words_at(dst, PACKED_BLOCK_BYTES * j, &mut checksum);
        j = j + 1;
    }
    if completes {
        lanes_are_zero(&checksum)
    } else {
        let scratch = checksum_scratch(&checksum);
        write_bytes_at(prepared, cks, scratch.as_slice());
        true
    }
}

/// The running checksum that one part leaves raw in the slot is where the
/// next part picks it up: checking blocks `a..b` and then, from the slot,
/// blocks `b..c` is checking blocks `a..c`.
pub proof fn lemma_partial_checksums_join(c0: Seq<u16>, s: Seq<u8>, a: int, b: int, c: int, d: Seq<u8>, at: int)
    requires
        c0.len() == 16,
        a <= b <= c,
        0 <= at,
        at + 512 <= d.len(),
        forall|k: int| 0 <= k < 512 ==> #[trigger] d[at + k] == checksum_bytes(checksum_between(c0, s, a, b))[k],
    ensures
        checksum_between(raw_lanes(d, at), s, b, c) == checksum_between(c0, s, a, c),
{
    let sum = checksum_between(c0, s, a, b);
    assert(sum.len() == 16);
    assert forall|i: int| 0 <= i < 16 implies #[trigger] raw_lanes(d, at)[i] == sum[i] by {
        assert(d[at + 2 * i] == checksum_bytes(sum)[2 * i]);
        assert(d[at + (2 * i + 1)] == checksum_bytes(sum)[2 * i + 1]);
        assert((2 * i) / 2 == i && (2 * i + 1) / 2 == i);
    }
    assert(raw_lanes(d, at) =~= sum);
    lemma_checksum_between_join(c0, s, a, b, c);
}

} // verus!
