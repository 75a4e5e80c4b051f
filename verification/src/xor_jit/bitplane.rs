//! The bit-plane layout of 512-byte blocks used by the XOR kernels.
//!
//! A block holds 256 little-endian words in 8 groups of 32.  The prepared
//! block stores 128 masks of 32 bits (4 bytes each): mask `m` collects, for
//! the 32 words of group `m % 8`, one bit of one byte half: bit
//! `7 - (m % 64) / 8` (counted from the most significant bit) of the high
//! byte for `m < 64` and of the low byte otherwise.  Bit `lane` of a mask
//! belongs to word `lane` of its group.
use crate::field::gf_mul;
use crate::galois::gf_mul_word;
use crate::field::{lemma_shr1, lemma_xor, xtime};
use crate::reedsolomon::{hi_byte, le_word, lo_byte};
use vstd::prelude::*;

verus! {

/// Bytes in one prepared block.
pub const AVX2_BLOCK_BYTES: usize = 512;

/// Which byte of a little-endian word a plane holds.
#[derive(Debug, Clone, Copy, PartialEq, Eq, Structural)]
pub enum ByteHalf {
    High,
    Low,
}

/// Bit `i` of `x`.
pub open spec fn bit_of(x: u8, i: int) -> bool {
    ((x >> (i as u8)) & 1u8) == 1u8
}

/// Byte `i` of `s`, or zero past its end.
pub open spec fn byte_at(s: Seq<u8>, i: int) -> u8 {
    if 0 <= i < s.len() {
        s[i]
    } else {
        0
    }
}

/// First mask index of a half: the high bytes come first.
pub open spec fn half_base(h: ByteHalf) -> int {
    match h {
        ByteHalf::High => 0,
        ByteHalf::Low => 64,
    }
}

/// Bit `lane` of mask `m` of the prepared block starting at `at`.
pub open spec fn prepared_bit(p: Seq<u8>, at: int, m: int, lane: int) -> bool {
    bit_of(p[at + 4 * m + lane / 8], lane % 8)
}

/// The source bit that mask `m` holds for word `lane` of its group, in the
/// block of `s` starting at `at` (zero past the end of `s`).
pub open spec fn source_bit(s: Seq<u8>, at: int, m: int, lane: int) -> bool {
    let g = m % 8;
    let b = (m % 64) / 8;
    let hb: int = if m < 64 { 1 } else { 0 };
    bit_of(byte_at(s, at + 2 * (g * 32 + lane) + hb), 7 - b)
}

/// `p[pat..pat + 512]` is the bit-plane form of `s[sat..sat + 512]` (with
/// zeros past the end of `s`).
pub open spec fn bitplane_block(s: Seq<u8>, sat: int, p: Seq<u8>, pat: int) -> bool {
    forall|m: int, lane: int| 0 <= m < 128 && 0 <= lane < 32 ==> #[trigger] prepared_bit(p, pat, m, lane) == source_bit(s, sat, m, lane)
}

/// Position of a 32-bit mask inside a prepared block.
#[derive(Debug, Clone, Copy, PartialEq, Eq)]
pub struct Plane {
    pub half: ByteHalf,
    pub bit_from_msb: usize,
    pub group: usize,
}

impl Plane {
    pub fn new(half: ByteHalf, bit_from_msb: usize, group: usize) -> (p: Self)
        ensures
            p.half == half,
            p.bit_from_msb == bit_from_msb,
            p.group == group,
    {
        Self { half, bit_from_msb, group }
    }

    /// Byte offset of the mask: `(base + 8 * bit_from_msb + group) * 4`.
    pub fn offset(self) -> (o: usize)
        requires
            self.bit_from_msb < 8,
            self.group < 8,
        ensures
            o == (half_base(self.half) + 8 * self.bit_from_msb + self.group) * 4,
    {
        let base: usize = match self.half {
            ByteHalf::High => 0,
            ByteHalf::Low => 64,
        };
        (base + self.bit_from_msb * 8 + self.group) * 4
    }
}

/// Byte offset of the mask for `(half, bit_from_msb, group)`.
pub fn mask_offset(half: ByteHalf, bit_from_msb: usize, group: usize) -> (o: usize)
    requires
        bit_from_msb < 8,
        group < 8,
    ensures
        o == (half_base(half) + 8 * bit_from_msb + group) * 4,
{
    Plane::new(half, bit_from_msb, group).offset()
}

proof fn lemma_set_bit(acc: u8, bit: u8, pos: u8, q: u8)
    by (bit_vector)
    requires
        bit <= 1,
        pos < 8,
        q < 8,
        (acc >> pos) & 1u8 == 0u8,
    ensures
        q == pos ==> (((acc | (bit << pos)) >> q) & 1u8 == 1u8) == (bit == 1u8),
        q != pos ==> (((acc | (bit << pos)) >> q) & 1u8) == ((acc >> q) & 1u8),
{
}

proof fn lemma_take_bit(x: u8, shift: u8)
    by (bit_vector)
    requires
        shift < 8,
    ensures
        ((x >> shift) & 1u8) <= 1u8,
        (((x >> shift) & 1u8) == 1u8) == (((x >> shift) & 1u8) == 1u8),
{
}

proof fn lemma_zero_bits(q: u8)
    by (bit_vector)
    requires
        q < 8,
    ensures
        ((0u8 >> q) & 1u8) == 0u8,
{
}

/// Two bytes with the same eight bits are equal.
pub proof fn lemma_byte_from_bits(x: u8, y: u8)
    requires
        forall|q: int| 0 <= q < 8 ==> #[trigger] bit_of(x, q) == bit_of(y, q),
    ensures
        x == y,
{
    assert(bit_of(x, 0) == bit_of(y, 0));
    assert(bit_of(x, 1) == bit_of(y, 1));
    assert(bit_of(x, 2) == bit_of(y, 2));
    assert(bit_of(x, 3) == bit_of(y, 3));
    assert(bit_of(x, 4) == bit_of(y, 4));
    assert(bit_of(x, 5) == bit_of(y, 5));
    assert(bit_of(x, 6) == bit_of(y, 6));
    assert(bit_of(x, 7) == bit_of(y, 7));
    lemma_bits_eq(x, y);
}

proof fn lemma_bits_eq(x: u8, y: u8)
    by (bit_vector)
    requires
        ((x >> 0u8) & 1u8 == 1u8) == ((y >> 0u8) & 1u8 == 1u8),
        ((x >> 1u8) & 1u8 == 1u8) == ((y >> 1u8) & 1u8 == 1u8),
        ((x >> 2u8) & 1u8 == 1u8) == ((y >> 2u8) & 1u8 == 1u8),
        ((x >> 3u8) & 1u8 == 1u8) == ((y >> 3u8) & 1u8 == 1u8),
        ((x >> 4u8) & 1u8 == 1u8) == ((y >> 4u8) & 1u8 == 1u8),
        ((x >> 5u8) & 1u8 == 1u8) == ((y >> 5u8) & 1u8 == 1u8),
        ((x >> 6u8) & 1u8 == 1u8) == ((y >> 6u8) & 1u8 == 1u8),
        ((x >> 7u8) & 1u8 == 1u8) == ((y >> 7u8) & 1u8 == 1u8),
    ensures
        x == y,
{
}

/// Where the `i`-th gathered bit goes.
pub open spec fn bit_pos(rev: bool, i: int) -> int {
    if rev {
        7 - i
    } else {
        i
    }
}

/// Collects bit `shift` of eight bytes of `s`, taken `stride` apart from
/// `start` (zero past the end of `s`), into one byte: the `i`-th into bit
/// `i`, or into bit `7 - i` when `rev` is set.
fn gather_bits(s: &[u8], start: usize, stride: usize, shift: u8, rev: bool) -> (r: u8)
    requires
        shift < 8,
        start + 7 * stride <= usize::MAX,
    ensures
        forall|i: int| 0 <= i < 8 ==> #[trigger] bit_of(r, bit_pos(rev, i)) == bit_of(byte_at(s@, start + stride * i), shift as int),
{
    let mut acc: u8 = 0;
    let mut i: usize = 0;
    proof {
        assert forall|k: int| 0 <= k < 8 implies !(#[trigger] bit_of(acc, bit_pos(rev, k))) by {
            lemma_zero_bits(bit_pos(rev, k) as u8);
        }
    }
    while i < 8
        invariant
            shift < 8,
            start + 7 * stride <= usize::MAX,
            i <= 8,
            forall|k: int| 0 <= k < i ==> #[trigger] bit_of(acc, bit_pos(rev, k)) == bit_of(byte_at(s@, start + stride * k), shift as int),
            forall|k: int| i <= k < 8 ==> !(#[trigger] bit_of(acc, bit_pos(rev, k))),
        decreases 8 - i,
    {
        proof {
            assert(stride * i <= stride * 7) by (nonlinear_arith)
                requires
                    i <= 7,
            ;
        }
        let idx = start + stride * i;
        let byte = if idx < s.len() {
            s[idx]
        } else {
            0
        };
        let bit = (byte >> shift) & 1;
        let pos: u8 = if rev {
            (7 - i) as u8
        } else {
            i as u8
        };
        let ghost old_acc = acc;
        proof {
            lemma_take_bit(byte, shift);
            assert(pos as int == bit_pos(rev, i as int));
            assert(!bit_of(acc, bit_pos(rev, i as int)));
            lemma_take_bit(acc, pos);
        }
        acc = acc | (bit << pos);
        proof {
            assert forall|k: int| 0 <= k < 8 implies #[trigger] bit_of(acc, bit_pos(rev, k)) == (if k == i {
                bit == 1u8
            } else {
                bit_of(old_acc, bit_pos(rev, k))
            }) by {
                let q: u8 = bit_pos(rev, k) as u8;
                lemma_set_bit(old_acc, bit, pos, q);
            }
        }
        i = i + 1;
    }
    acc
}

/// Writes the bit-plane form of `src[from..from + 512]` (zeros past the end
/// of `src`) to `dst[at..at + 512]`.
pub(crate) fn prepare_block_at(dst: &mut [u8], at: usize, src: &[u8], from: usize)
    requires
        at + 512 <= old(dst)@.len(),
        from + 1024 <= usize::MAX,
    ensures
        final(dst)@.len() == old(dst)@.len(),
        bitplane_block(src@, from as int, final(dst)@, at as int),
        forall|k: int| 0 <= k < old(dst)@.len() && !(at <= k < at + 512) ==> #[trigger] final(dst)@[k] == old(dst)@[k],
{
    let dlen = dst.len();
    let mut m: usize = 0;
    while m < 128
        invariant
            dlen == dst@.len(),
            at + 512 <= dst@.len(),
            dst@.len() == old(dst)@.len(),
            from + 1024 <= usize::MAX,
            m <= 128,
            forall|mm: int, lane: int| 0 <= mm < m && 0 <= lane < 32 ==> #[trigger] prepared_bit(dst@, at as int, mm, lane) == source_bit(src@, from as int, mm, lane),
            forall|k: int| 0 <= k < old(dst)@.len() && !(at <= k < at + 4 * m) ==> #[trigger] dst@[k] == old(dst)@[k],
        decreases 128 - m,
    {
        let hb: usize = if m < 64 {
            1
        } else {
            0
        };
        let b = (m % 64) / 8;
        let g = m % 8;
        let mut q: usize = 0;
        while q < 4
            invariant
                dlen == dst@.len(),
                at + 512 <= dst@.len(),
                dst@.len() == old(dst)@.len(),
                from + 1024 <= usize::MAX,
                m < 128,
                q <= 4,
                hb == (if m < 64 { 1usize } else { 0usize }),
                b == (m % 64) / 8,
                g == m % 8,
                forall|mm: int, lane: int| 0 <= mm < m && 0 <= lane < 32 ==> #[trigger] prepared_bit(dst@, at as int, mm, lane) == source_bit(src@, from as int, mm, lane),
                forall|lane: int| 0 <= lane < 8 * q ==> #[trigger] prepared_bit(dst@, at as int, m as int, lane) == source_bit(src@, from as int, m as int, lane),
                forall|k: int| 0 <= k < old(dst)@.len() && !(at <= k < at + 4 * m + q) ==> #[trigger] dst@[k] == old(dst)@[k],
            decreases 4 - q,
        {
            let start = from + 2 * (g * 32 + 8 * q) + hb;
            let v = gather_bits(src, start, 2, (7 - b) as u8, false);
            let ghost before = dst@;
            dst[at + 4 * m + q] = v;
            proof {
                assert forall|mm: int, lane: int| 0 <= mm < m && 0 <= lane < 32 implies #[trigger] prepared_bit(dst@, at as int, mm, lane) == source_bit(src@, from as int, mm, lane) by {
                    assert(prepared_bit(before, at as int, mm, lane) == source_bit(src@, from as int, mm, lane));
                    assert(lane / 8 < 4);
                    assert(dst@[at + 4 * mm + lane / 8] == before[at + 4 * mm + lane / 8]);
                }
                assert forall|lane: int| 0 <= lane < 8 * q + 8 implies #[trigger] prepared_bit(dst@, at as int, m as int, lane) == source_bit(src@, from as int, m as int, lane) by {
                    if lane < 8 * q {
                        assert(prepared_bit(before, at as int, m as int, lane) == source_bit(src@, from as int, m as int, lane));
                        assert(lane / 8 < q);
                        assert(dst@[at + 4 * m + lane / 8] == before[at + 4 * m + lane / 8]);
                    } else {
                        let t = lane - 8 * q;
                        assert(lane / 8 == q);
                        assert(lane % 8 == t);
                        assert(bit_of(v, bit_pos(false, t)) == bit_of(byte_at(src@, start + 2 * t), (7 - b) as int));
                        assert(start + 2 * t == from + 2 * (g * 32 + lane) + hb);
                    }
                }
            }
            q = q + 1;
        }
        m = m + 1;
    }
}

/// Writes the block `dst[at..at + 512]` (only its first `len` bytes) back
/// from its bit-plane form `prepared[from..from + 512]`.
pub(crate) fn finish_block_at(dst: &mut [u8], at: usize, len: usize, prepared: &[u8], from: usize)
    requires
        len <= 512,
        at + len <= old(dst)@.len(),
        from + 512 <= prepared@.len(),
    ensures
        final(dst)@.len() == old(dst)@.len(),
        forall|k: int| 0 <= k < old(dst)@.len() && !(at <= k < at + len) ==> #[trigger] final(dst)@[k] == old(dst)@[k],
        forall|k: int, q: int| 0 <= k < len && 0 <= q < 8 ==> #[trigger] bit_of(final(dst)@[at + k], q) == prepared_bit(prepared@, from as int, decode_mask(k, q), decode_lane(k)),
{
    let plen = prepared.len();
    let dlen = dst.len();
    let mut k: usize = 0;
    while k < len
        invariant
            plen == prepared@.len(),
            dlen == dst@.len(),
            len <= 512,
            at + len <= dst@.len(),
            dst@.len() == old(dst)@.len(),
            from + 512 <= prepared@.len(),
            k <= len,
            forall|j: int| 0 <= j < old(dst)@.len() && !(at <= j < at + k) ==> #[trigger] dst@[j] == old(dst)@[j],
            forall|j: int, q: int| 0 <= j < k && 0 <= q < 8 ==> #[trigger] bit_of(dst@[at + j], q) == prepared_bit(prepared@, from as int, decode_mask(j, q), decode_lane(j)),
        decreases len - k,
    {
        let w = k / 2;
        let hsel = k % 2;
        let g = w / 32;
        let lane = w % 32;
        let h_base: usize = if hsel == 1 {
            0
        } else {
            64
        };
        let start = from + (h_base + g) * 4 + lane / 8;
        let v = gather_bits(prepared, start, 32, (lane % 8) as u8, true);
        let ghost before = dst@;
        dst[at + k] = v;
        proof {
            assert forall|j: int, q: int| 0 <= j < k + 1 && 0 <= q < 8 implies #[trigger] bit_of(dst@[at + j], q) == prepared_bit(prepared@, from as int, decode_mask(j, q), decode_lane(j)) by {
                if j < k {
                    assert(dst@[at + j] == before[at + j]);
                } else {
                    let b = 7 - q;
                    assert(bit_of(v, bit_pos(true, b)) == bit_of(byte_at(prepared@, start + 32 * b), (lane % 8) as int));
                    assert(start + 32 * b == from + 4 * decode_mask(j, q) + decode_lane(j) / 8);
                }
            }
        }
        k = k + 1;
    }
}

/// The mask that holds bit `q` of byte `k` of a block.
pub open spec fn decode_mask(k: int, q: int) -> int {
    let w = k / 2;
    let base: int = if k % 2 == 1 { 0 } else { 64 };
    base + 8 * (7 - q) + w / 32
}

/// The lane that holds byte `k` of a block.
pub open spec fn decode_lane(k: int) -> int {
    (k / 2) % 32
}

/// The bit-plane form fixes every bit of the source block.
#[verifier::rlimit(50)]
pub proof fn lemma_source_bit_of_block(s: Seq<u8>, sat: int, p: Seq<u8>, pat: int, k: int, q: int)
    requires
        bitplane_block(s, sat, p, pat),
        0 <= k < 512,
        0 <= q < 8,
    ensures
        bit_of(byte_at(s, sat + k), q) == prepared_bit(p, pat, decode_mask(k, q), decode_lane(k)),
{
    let m = decode_mask(k, q);
    let lane = decode_lane(k);
    let w = k / 2;
    let hs = k % 2;
    let g = w / 32;
    assert(k == 2 * w + hs && 0 <= hs < 2);
    assert(w == 32 * g + lane && 0 <= lane < 32 && 0 <= g < 8);
    let base: int = if hs == 1 { 0 } else { 64 };
    assert(m == base + 8 * (7 - q) + g);
    assert(m % 8 == g) by {
        assert(m == 8 * (base / 8 + 7 - q) + g);
    }
    assert((m % 64) / 8 == 7 - q) by {
        assert(m % 64 == 8 * (7 - q) + g);
    }
    assert((m < 64) == (hs == 1));
    assert(prepared_bit(p, pat, m, lane) == source_bit(s, sat, m, lane));
    assert(2 * ((m % 8) * 32 + lane) + (if m < 64 { 1int } else { 0int }) == k);
    assert(7 - (m % 64) / 8 == q);
}

/// Prepare one 512-byte block.
pub fn prepare_avx2_block(dst: &mut [u8; 512], src: &[u8; 512])
    ensures
        bitplane_block(src@, 0, final(dst)@, 0),
{
    let mut out: Vec<u8> = vec![0u8; 512];
    prepare_block_at(out.as_mut_slice(), 0, src.as_slice(), 0);
    let mut j: usize = 0;
    while j < 512
        invariant
            out@.len() == 512,
            j <= 512,
            bitplane_block(src@, 0, out@, 0),
            forall|k: int| 0 <= k < j ==> #[trigger] dst@[k] == out@[k],
        decreases 512 - j,
    {
        dst[j] = out[j];
        j = j + 1;
    }
    proof {
        assert(dst@ =~= out@);
    }
}

/// Turn one prepared block back into its 512 bytes.
pub fn finish_avx2_block(dst: &mut [u8; 512], prepared: &[u8; 512])
    ensures
        bitplane_block(final(dst)@, 0, prepared@, 0),
{
    let mut out: Vec<u8> = vec![0u8; 512];
    finish_block_at(out.as_mut_slice(), 0, 512, prepared.as_slice(), 0);
    proof {
        assert forall|k: int, q: int| 0 <= k < 512 && 0 <= q < 8 implies #[trigger] bit_of(out@[k], q) == prepared_bit(prepared@, 0, decode_mask(k, q), decode_lane(k)) by {
            assert(bit_of(out@[0 + k], q) == prepared_bit(prepared@, 0, decode_mask(k, q), decode_lane(k)));
        }
    }
    let mut j: usize = 0;
    while j < 512
        invariant
            out@.len() == 512,
            j <= 512,
            forall|k: int, q: int| 0 <= k < 512 && 0 <= q < 8 ==> #[trigger] bit_of(out@[k], q) == prepared_bit(prepared@, 0, decode_mask(k, q), decode_lane(k)),
            forall|k: int| 0 <= k < j ==> #[trigger] dst@[k] == out@[k],
        decreases 512 - j,
    {
        dst[j] = out[j];
        j = j + 1;
    }
    proof {
        assert(dst@ =~= out@);
        lemma_block_from_decoded(dst@, prepared@, 0);
    }
}

/// Bytes decoded bit by bit from a prepared block form its source block.
proof fn lemma_block_from_decoded(d: Seq<u8>, p: Seq<u8>, pat: int)
    requires
        d.len() == 512,
        forall|k: int, q: int| 0 <= k < 512 && 0 <= q < 8 ==> #[trigger] bit_of(d[k], q) == prepared_bit(p, pat, decode_mask(k, q), decode_lane(k)),
    ensures
        bitplane_block(d, 0, p, pat),
{
    assert forall|m: int, lane: int| 0 <= m < 128 && 0 <= lane < 32 implies #[trigger] prepared_bit(p, pat, m, lane) == source_bit(d, 0, m, lane) by {
        let g = m % 8;
        let b = (m % 64) / 8;
        let hb: int = if m < 64 { 1 } else { 0 };
        let k = 2 * (g * 32 + lane) + hb;
        let q = 7 - b;
        assert(decode_mask(k, q) == m);
        assert(decode_lane(k) == lane);
        assert(bit_of(d[k], q) == prepared_bit(p, pat, decode_mask(k, q), decode_lane(k)));
    }
}

/// Two blocks with the same bit-plane form are equal.
pub proof fn lemma_bitplane_roundtrip(s1: Seq<u8>, s2: Seq<u8>, p: Seq<u8>, pat: int)
    requires
        s1.len() == 512,
        s2.len() == 512,
        bitplane_block(s1, 0, p, pat),
        bitplane_block(s2, 0, p, pat),
    ensures
        s1 == s2,
{
    assert forall|k: int| 0 <= k < 512 implies s1[k] == s2[k] by {
        assert forall|q: int| 0 <= q < 8 implies #[trigger] bit_of(s1[k], q) == bit_of(s2[k], q) by {
            lemma_source_bit_of_block(s1, 0, p, pat, k, q);
            lemma_source_bit_of_block(s2, 0, p, pat, k, q);
        }
        lemma_byte_from_bits(s1[k], s2[k]);
    }
    assert(s1 =~= s2);
}

/// Block `i` of `p` is the bit-plane form of block `i` of `s`.
pub open spec fn block_ok(s: Seq<u8>, p: Seq<u8>, i: int) -> bool {
    bitplane_block(s, 512 * i, p, 512 * i)
}

/// `len` rounded up to a whole number of blocks.
pub open spec fn prepared_len_of(len: nat) -> nat {
    ((len + 511) / 512) * 512
}

/// The bit-plane form of a block depends only on the block's bytes.
proof fn lemma_block_frame(s: Seq<u8>, sat: int, p: Seq<u8>, p2: Seq<u8>, pat: int)
    requires
        bitplane_block(s, sat, p, pat),
        0 <= pat,
        pat + 512 <= p.len(),
        p2.len() == p.len(),
        forall|k: int| pat <= k < pat + 512 ==> p2[k] == p[k],
    ensures
        bitplane_block(s, sat, p2, pat),
{
    assert forall|m: int, lane: int| 0 <= m < 128 && 0 <= lane < 32 implies #[trigger] prepared_bit(p2, pat, m, lane) == source_bit(s, sat, m, lane) by {
        assert(prepared_bit(p, pat, m, lane) == source_bit(s, sat, m, lane));
        assert(p2[pat + 4 * m + lane / 8] == p[pat + 4 * m + lane / 8]);
    }
}

/// Prepare `src` block by block into `dst`, padding the last block with
/// zeros; returns the prepared length, `src.len()` rounded up to 512.
pub fn prepare_avx2(dst: &mut [u8], src: &[u8]) -> (n: usize)
    requires
        src@.len() + 1024 <= usize::MAX,
        old(dst)@.len() >= prepared_len_of(src@.len() as nat),
    ensures
        n == prepared_len_of(src@.len() as nat),
        final(dst)@.len() == old(dst)@.len(),
        forall|i: int| 0 <= i < n / 512 ==> #[trigger] block_ok(src@, final(dst)@, i),
        forall|k: int| n <= k < old(dst)@.len() ==> #[trigger] final(dst)@[k] == old(dst)@[k],
{
    let blocks = (src.len() + 511) / 512;
    let n = blocks * 512;
    let mut i: usize = 0;
    let mut at: usize = 0;
    while i < blocks
        invariant
            blocks == (src@.len() + 511) / 512,
            n == blocks * 512,
            n == prepared_len_of(src@.len() as nat),
            src@.len() + 1024 <= usize::MAX,
            dst@.len() == old(dst)@.len(),
            dst@.len() >= n,
            i <= blocks,
            at == 512 * i,
            forall|j: int| 0 <= j < i ==> #[trigger] block_ok(src@, dst@, j),
            forall|k: int| at <= k < old(dst)@.len() ==> #[trigger] dst@[k] == old(dst)@[k],
        decreases blocks - i,
    {
        let ghost before = dst@;
        prepare_block_at(dst, at, src, at);
        proof {
            assert forall|j: int| 0 <= j < i + 1 implies #[trigger] block_ok(src@, dst@, j) by {
                if j < i {
                    assert(block_ok(src@, before, j));
                    lemma_block_frame(src@, 512 * j, before, dst@, 512 * j);
                }
            }
        }
        i = i + 1;
        at = at + 512;
    }
    n
}

/// Bit `q` of byte `k` of `d` is read from the prepared blocks `p`.
pub open spec fn decoded_bit_ok(d: Seq<u8>, p: Seq<u8>, k: int, q: int) -> bool {
    bit_of(d[k], q) == prepared_bit(p, 512 * (k / 512), decode_mask(k % 512, q), decode_lane(k % 512))
}

/// Every byte of `d` is decoded from the prepared blocks `p`.
pub open spec fn decoded_from(d: Seq<u8>, p: Seq<u8>) -> bool {
    forall|k: int, q: int| 0 <= k < d.len() && 0 <= q < 8 ==> #[trigger] decoded_bit_ok(d, p, k, q)
}

/// Turn prepared blocks back into `dst.len()` bytes.
pub fn finish_chunks(dst: &mut [u8], prepared: &[u8])
    requires
        prepared@.len() % 512 == 0,
        prepared@.len() >= prepared_len_of(old(dst)@.len() as nat),
    ensures
        final(dst)@.len() == old(dst)@.len(),
        decoded_from(final(dst)@, prepared@),
{
    let len = dst.len();
    let plen = prepared.len();
    let mut at: usize = 0;
    while at < len
        invariant
            plen == prepared@.len(),
            len == dst@.len(),
            dst@.len() == old(dst)@.len(),
            prepared@.len() % 512 == 0,
            prepared@.len() >= prepared_len_of(len as nat),
            at % 512 == 0,
            at <= len + 511,
            forall|k: int, q: int| 0 <= k < at && k < len && 0 <= q < 8 ==> #[trigger] decoded_bit_ok(dst@, prepared@, k, q),
        decreases len + 512 - at,
    {
        let chunk = if len - at < 512 {
            len - at
        } else {
            512
        };
        proof {
            assert(at + 512 <= prepared_len_of(len as nat)) by {
                assert(at < len);
                assert(at / 512 < (len + 511) / 512);
            }
        }
        let ghost before = dst@;
        finish_block_at(dst, at, chunk, prepared, at);
        proof {
            assert forall|k: int, q: int| 0 <= k < at + 512 && k < len && 0 <= q < 8 implies #[trigger] decoded_bit_ok(dst@, prepared@, k, q) by {
                if k < at {
                    assert(decoded_bit_ok(before, prepared@, k, q));
                    assert(dst@[k] == before[k]);
                } else {
                    let r = k - at;
                    assert(k / 512 == at / 512);
                    assert(k % 512 == r);
                    assert(512 * (k / 512) == at);
                    assert(bit_of(dst@[at + r], q) == prepared_bit(prepared@, at as int, decode_mask(r, q), decode_lane(r)));
                }
            }
        }
        at = at + 512;
    }
}

/// Prepared blocks decode back to the bytes they were prepared from.
pub proof fn lemma_prepare_finish_roundtrip(s: Seq<u8>, p: Seq<u8>, d: Seq<u8>)
    requires
        forall|i: int| 0 <= i < prepared_len_of(s.len()) / 512 ==> #[trigger] block_ok(s, p, i),
        d.len() == s.len(),
        decoded_from(d, p),
    ensures
        d == s,
{
    assert forall|k: int| 0 <= k < s.len() implies d[k] == s[k] by {
        let i = k / 512;
        let r = k % 512;
        assert(i < prepared_len_of(s.len()) / 512);
        assert(block_ok(s, p, i));
        assert forall|q: int| 0 <= q < 8 implies #[trigger] bit_of(d[k], q) == bit_of(s[k], q) by {
            assert(decoded_bit_ok(d, p, k, q));
            lemma_source_bit_of_block(s, 512 * i, p, 512 * i, r, q);
            assert(512 * i + r == k);
        }
        lemma_byte_from_bits(d[k], s[k]);
    }
    assert(d =~= s);
}

/// Multiplies `input` by `coefficient` in GF(2^16), bit by bit of the
/// coefficient.
pub fn multiply_word(input: u16, coefficient: u16) -> (r: u16)
    ensures
        r == gf_mul(input, coefficient),
{
    let mut input = input;
    let mut coeff = coefficient;
    let mut result: u16 = 0;
    let ghost a0 = input;
    let ghost c0 = coefficient;
    proof {
        lemma_xor(gf_mul(input, coeff), 0, 0);
    }
    while coeff != 0
        invariant
            result ^ gf_mul(input, coeff) == gf_mul(a0, c0),
        decreases coeff,
    {
        let ghost prev_result = result;
        let ghost prev_input = input;
        let ghost prev_coeff = coeff;
        proof {
            lemma_shr1(coeff);
        }
        if coeff & 1 != 0 {
            result = result ^ input;
        }
        coeff = coeff >> 1;
        if coeff != 0 {
            let carry = input & 0x8000 != 0;
            input = input << 1;
            if carry {
                input = input ^ 0x100b;
            }
            assert(input == xtime(prev_input));
        }
        proof {
            let rest = gf_mul(xtime(prev_input), prev_coeff / 2);
            assert(gf_mul(prev_input, prev_coeff) == if prev_coeff % 2 == 1 { prev_input ^ rest } else { rest });
            if coeff == 0 {
                assert(rest == 0);
            }
            assert(gf_mul(input, coeff) == rest);
            lemma_xor(prev_result, prev_input, rest);
        }
    }
    proof {
        lemma_xor(result, 0, 0);
    }
    result
}

/// The 512 bytes that multiply-adding `c` times the words of `s` into `o`
/// gives.
pub open spec fn mul_add_block(o: Seq<u8>, s: Seq<u8>, c: u16) -> Seq<u8> {
    Seq::new(512, |k: int| {
        let w = k / 2;
        let r = gf_mul(le_word(s[2 * w], s[2 * w + 1]), c);
        if k % 2 == 0 {
            o[k] ^ lo_byte(r)
        } else {
            o[k] ^ hi_byte(r)
        }
    })
}

/// Decodes the prepared block of `prepared` that starts at `from`.
fn decode_block(prepared: &[u8], from: usize) -> (d: Vec<u8>)
    requires
        from + 512 <= prepared@.len(),
    ensures
        d@.len() == 512,
        bitplane_block(d@, 0, prepared@, from as int),
{
    let mut d: Vec<u8> = vec![0u8; 512];
    finish_block_at(d.as_mut_slice(), 0, 512, prepared, from);
    proof {
        assert forall|k: int, q: int| 0 <= k < 512 && 0 <= q < 8 implies #[trigger] bit_of(d@[k], q) == prepared_bit(prepared@, from as int, decode_mask(k, q), decode_lane(k)) by {
            assert(bit_of(d@[0 + k], q) == prepared_bit(prepared@, from as int, decode_mask(k, q), decode_lane(k)));
        }
        lemma_block_from_decoded(d@, prepared@, from as int);
    }
    d
}

/// `out[..512] ^= c * words(s)` in place.
fn mul_add_words(out: &mut [u8], s: &Vec<u8>, coefficient: u16)
    requires
        old(out)@.len() >= 512,
        s@.len() == 512,
    ensures
        final(out)@.len() == old(out)@.len(),
        final(out)@.subrange(0, 512) == mul_add_block(old(out)@, s@, coefficient),
        forall|k: int| 512 <= k < old(out)@.len() ==> #[trigger] final(out)@[k] == old(out)@[k],
{
    let olen = out.len();
    let mut w: usize = 0;
    while w < 256
        invariant
            olen == out@.len(),
            out@.len() == old(out)@.len(),
            out@.len() >= 512,
            s@.len() == 512,
            w <= 256,
            forall|k: int| 0 <= k < 2 * w ==> #[trigger] out@[k] == mul_add_block(old(out)@, s@, coefficient)[k],
            forall|k: int| 2 * w <= k < old(out)@.len() ==> #[trigger] out@[k] == old(out)@[k],
        decreases 256 - w,
    {
        let word = (s[2 * w] as u16) | ((s[2 * w + 1] as u16) << 8);
        proof {
            lemma_le_word_bits(s@[2 * w as int], s@[2 * w as int + 1]);
        }
        let r = multiply_word(word, coefficient);
        proof {
            lemma_shr1(r);
            lemma_byte_split(r);
        }
        out[2 * w] = out[2 * w] ^ ((r & 0xff) as u8);
        out[2 * w + 1] = out[2 * w + 1] ^ ((r >> 8) as u8);
        proof {
            assert((2 * w as int) / 2 == w);
            assert((2 * w as int + 1) / 2 == w);
        }
        w = w + 1;
    }
    proof {
        assert(out@.subrange(0, 512) =~= mul_add_block(old(out)@, s@, coefficient));
    }
}

proof fn lemma_le_word_bits(lo: u8, hi: u8)
    by (bit_vector)
    ensures
        ((lo as u16) | ((hi as u16) << 8u16)) == ((lo as int + 256 * (hi as int)) as u16),
{
}

proof fn lemma_byte_split(r: u16)
    ensures
        ((r & 0xff) as u8) == lo_byte(r),
        ((r >> 8) as u8) == hi_byte(r),
{
    lemma_shr1(r);
}

/// Multiply-add one prepared block into a plain output block: every word
/// of the output accumulates `coefficient` times the word that the
/// prepared block holds.
pub fn multiply_add_prepared_avx2_block(prepared: &[u8], coefficient: u16, output: &mut [u8])
    requires
        prepared@.len() >= 512,
        old(output)@.len() >= 512,
    ensures
        final(output)@.len() == old(output)@.len(),
        forall|s: Seq<u8>| s.len() == 512 && #[trigger] bitplane_block(s, 0, prepared@, 0) ==>
            final(output)@.subrange(0, 512) == mul_add_block(old(output)@, s, coefficient),
        forall|k: int| 512 <= k < old(output)@.len() ==> #[trigger] final(output)@[k] == old(output)@[k],
{
    let d = decode_block(prepared, 0);
    mul_add_words(output, &d, coefficient);
    proof {
        assert forall|s: Seq<u8>| s.len() == 512 && #[trigger] bitplane_block(s, 0, prepared@, 0) implies
            output@.subrange(0, 512) == mul_add_block(old(output)@, s, coefficient) by {
            lemma_bitplane_roundtrip(s, d@, prepared@, 0);
        }
    }
}

/// Multiply-add the prepared block of `input` at `at` into the prepared
/// block of `output` at `at`; the rest of `output` is left alone.
pub fn multiply_add_prepared_at(input: &[u8], output: &mut [u8], at: usize, coefficient: u16)
    requires
        at + 512 <= input@.len(),
        at + 512 <= old(output)@.len(),
        at + 1024 <= usize::MAX,
    ensures
        final(output)@.len() == old(output)@.len(),
        forall|s: Seq<u8>, o: Seq<u8>| s.len() == 512 && o.len() == 512 && #[trigger] bitplane_block(s, 0, input@, at as int)
            && #[trigger] bitplane_block(o, 0, old(output)@, at as int) ==> bitplane_block(mul_add_block(o, s, coefficient), 0, final(output)@, at as int),
        forall|k: int| 0 <= k < old(output)@.len() && !(at <= k < at + 512) ==> #[trigger] final(output)@[k] == old(output)@[k],
{
    let d = decode_block(input, at);
    let mut o = decode_block(output, at);
    let ghost o0 = o@;
    mul_add_words(o.as_mut_slice(), &d, coefficient);
    let ghost sum = o@;
    proof {
        assert(sum =~= sum.subrange(0, 512));
    }
    prepare_block_at(output, at, o.as_slice(), 0);
    proof {
        assert forall|s: Seq<u8>, o: Seq<u8>| s.len() == 512 && o.len() == 512 && #[trigger] bitplane_block(s, 0, input@, at as int)
            && #[trigger] bitplane_block(o, 0, old(output)@, at as int) implies bitplane_block(mul_add_block(o, s, coefficient), 0, output@, at as int) by {
            lemma_bitplane_roundtrip(s, d@, input@, at as int);
            lemma_bitplane_roundtrip(o, o0, old(output)@, at as int);
            assert(mul_add_block(o, s, coefficient) =~= sum);
        }
    }
}

/// Multiply-add one prepared block into another prepared block.
pub fn multiply_add_prepared_avx2_block_to_prepared(prepared: &[u8; 512], coefficient: u16, output: &mut [u8; 512])
    ensures
        forall|s: Seq<u8>, o: Seq<u8>| s.len() == 512 && o.len() == 512 && #[trigger] bitplane_block(s, 0, prepared@, 0)
            && #[trigger] bitplane_block(o, 0, old(output)@, 0) ==> bitplane_block(mul_add_block(o, s, coefficient), 0, final(output)@, 0),
{
    let mut out: Vec<u8> = vec![0u8; 512];
    let mut j: usize = 0;
    while j < 512
        invariant
            out@.len() == 512,
            j <= 512,
            forall|k: int| 0 <= k < j ==> #[trigger] out@[k] == output@[k],
        decreases 512 - j,
    {
        out.set(j, output[j]);
        j = j + 1;
    }
    proof {
        assert(out@ =~= output@);
    }
    multiply_add_prepared_at(prepared.as_slice(), out.as_mut_slice(), 0, coefficient);
    let mut j: usize = 0;
    while j < 512
        invariant
            out@.len() == 512,
            j <= 512,
            forall|k: int| 0 <= k < j ==> #[trigger] output@[k] == out@[k],
        decreases 512 - j,
    {
        output[j] = out[j];
        j = j + 1;
    }
    proof {
        assert(output@ =~= out@);
    }
}

/// A prepared block determines the block it was prepared from: preparing
/// a block and finishing the prepared block gives the block back.
pub proof fn lemma_block_roundtrip(s: Seq<u8>, p: Seq<u8>, d: Seq<u8>)
    requires
        s.len() == 512,
        d.len() == 512,
        bitplane_block(s, 0, p, 0),
        bitplane_block(d, 0, p, 0),
    ensures
        d == s,
{
    assert forall|k: int| 0 <= k < 512 implies d[k] == s[k] by {
        assert forall|q: int| 0 <= q < 8 implies #[trigger] bit_of(d[k], q) == bit_of(s[k], q) by {
            lemma_source_bit_of_block(s, 0, p, 0, k, q);
            lemma_source_bit_of_block(d, 0, p, 0, k, q);
            assert(byte_at(s, 0 + k) == s[k]);
            assert(byte_at(d, 0 + k) == d[k]);
        }
        lemma_byte_from_bits(d[k], s[k]);
    }
    assert(d =~= s);
}

/// The bit-plane form of a source is unique: two buffers that both hold
/// the bit-plane form of every block of `src` agree on all those blocks.
pub proof fn lemma_prepared_form_unique(src: Seq<u8>, p1: Seq<u8>, p2: Seq<u8>)
    requires
        p1.len() >= prepared_len_of(src.len()),
        p2.len() >= prepared_len_of(src.len()),
        forall|i: int| 0 <= i < prepared_len_of(src.len()) / 512 ==> #[trigger] block_ok(src, p1, i),
        forall|i: int| 0 <= i < prepared_len_of(src.len()) / 512 ==> #[trigger] block_ok(src, p2, i),
    ensures
        p1.subrange(0, prepared_len_of(src.len()) as int) == p2.subrange(0, prepared_len_of(src.len()) as int),
{
    let n = prepared_len_of(src.len());
    assert forall|k: int| 0 <= k < n implies p1[k] == p2[k] by {
        assert(n / 512 == (src.len() + 511) / 512) by {
            vstd::arithmetic::div_mod::lemma_div_by_multiple(((src.len() + 511) / 512) as int, 512);
        }
        let i = k / 512;
        let kk = k % 512;
        assert(0 <= i < n / 512) by (nonlinear_arith)
            requires
                0 <= k < n,
                n == ((src.len() + 511) / 512) * 512,
                n / 512 == (src.len() + 511) / 512,
                i == k / 512,
        {
        }
        assert(block_ok(src, p1, i));
        assert(block_ok(src, p2, i));
        let m = kk / 4;
        let r = kk % 4;
        assert forall|q: int| 0 <= q < 8 implies #[trigger] bit_of(p1[k], q) == bit_of(p2[k], q) by {
            let lane = 8 * r + q;
            assert(lane / 8 == r && lane % 8 == q);
            assert(512 * i + 4 * m + r == k);
            assert(0 <= m < 128 && 0 <= lane < 32);
            assert(prepared_bit(p1, 512 * i, m, lane) == source_bit(src, 512 * i, m, lane));
            assert(prepared_bit(p2, 512 * i, m, lane) == source_bit(src, 512 * i, m, lane));
        }
        lemma_byte_from_bits(p1[k], p2[k]);
    }
    assert(p1.subrange(0, n as int) =~= p2.subrange(0, n as int));
}

/// The multiply-add of a block word by word is the table executor's
/// multiply-add: `o + c * s` on 512 bytes.
pub proof fn lemma_mul_add_block_is_mul_into(o: Seq<u8>, s: Seq<u8>, c: u16)
    requires
        s.len() == 512,
        o.len() == 512,
    ensures
        mul_add_block(o, s, c) == crate::reedsolomon::mul_into(c, s, o, crate::reedsolomon::WriteOp::Add),
{
    let a = mul_add_block(o, s, c);
    let b = crate::reedsolomon::mul_into(c, s, o, crate::reedsolomon::WriteOp::Add);
    assert forall|k: int| 0 <= k < 512 implies a[k] == b[k] by {
        let w = k / 2;
        crate::field::lemma_gf_mul_comm(le_word(s[2 * w], s[2 * w + 1]), c);
    }
    assert(a =~= b);
}

} // verus!
