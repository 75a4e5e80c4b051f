//! Forward Reed-Solomon encoding of PAR2 recovery blocks:
//! `recovery = sum over j of input[j] * base[j] ^ exponent`.
use crate::bases::{base_value, generate_base_values};
use crate::galois::{decimal_spec, push_decimal, Galois16};
use vstd::string::StringExecFns;
use crate::reedsolomon::codec::{gpow, RsError};
use crate::reedsolomon::{
    build_split_mul_table, lemma_tables_multiply, mul_into, mul_word_byte,
    process_slice_multiply_add, process_slice_multiply_direct, WriteOp,
};
use rayon::iter::{IntoParallelRefIterator, ParallelIterator};
use vstd::prelude::*;

verus! {

/// The recovery block obtained from `blocks` with coefficients `coeffs`:
/// each block times its coefficient, added into `size` zero bytes.
pub open spec fn encode_spec(blocks: Seq<Seq<u8>>, coeffs: Seq<u16>, size: nat) -> Seq<u8>
    decreases blocks.len(),
{
    if blocks.len() == 0 {
        Seq::new(size, |i: int| 0u8)
    } else {
        mul_into(coeffs[blocks.len() - 1], blocks.last(), encode_spec(blocks.drop_last(), coeffs, size), WriteOp::Add)
    }
}

/// The blocks given as a slice of slices.
pub open spec fn blocks_of(input_blocks: Seq<&[u8]>) -> Seq<Seq<u8>> {
    Seq::new(input_blocks.len(), |i: int| input_blocks[i]@)
}

/// The coefficient of each input block for `exponent`.
pub open spec fn coefficients(base_values: Seq<u16>, exponent: u16) -> Seq<u16> {
    Seq::new(base_values.len(), |i: int| gpow(base_values[i], exponent))
}

/// Every block has `size` bytes.
pub open spec fn blocks_sized(input_blocks: Seq<&[u8]>, size: nat) -> bool {
    forall|i: int| 0 <= i < input_blocks.len() ==> #[trigger] input_blocks[i]@.len() == size
}

/// The message for a wrong number of input blocks.
pub open spec fn block_count_text(expected: nat, got: nat) -> Seq<char> {
    "Expected "@ + decimal_spec(expected) + " input blocks, got "@ + decimal_spec(got)
}

/// The message for an input block of the wrong size.
pub open spec fn block_size_text(index: nat, size: nat, expected: nat) -> Seq<char> {
    "Input block "@ + decimal_spec(index) + " has size "@ + decimal_spec(size) + " but expected "@ + decimal_spec(expected)
}

/// The message for a wrong number of input blocks.
fn block_count_message(expected: usize, got: usize) -> (m: String)
    ensures
        m@ == block_count_text(expected as nat, got as nat),
{
    let mut m = String::new();
    m.append("Expected ");
    push_decimal(&mut m, expected);
    m.append(" input blocks, got ");
    push_decimal(&mut m, got);
    proof {
        assert(m@ =~= block_count_text(expected as nat, got as nat));
    }
    m
}

/// The message for an input block of the wrong size.
fn block_size_message(index: usize, size: usize, expected: usize) -> (m: String)
    ensures
        m@ == block_size_text(index as nat, size as nat, expected as nat),
{
    let mut m = String::new();
    m.append("Input block ");
    push_decimal(&mut m, index);
    m.append(" has size ");
    push_decimal(&mut m, size);
    m.append(" but expected ");
    push_decimal(&mut m, expected);
    proof {
        assert(m@ =~= block_size_text(index as nat, size as nat, expected as nat));
    }
    m
}

proof fn lemma_xor_zero_u8(r: u8)
    by (bit_vector)
    ensures
        0u8 ^ r == r,
{
}

/// Encoder for PAR2 recovery blocks.
pub struct RecoveryBlockEncoder {
    pub block_size: usize,
    pub total_input_blocks: usize,
    pub base_values: Vec<u16>,
}

impl RecoveryBlockEncoder {
    /// One base value per input block.
    pub open spec fn wf(&self) -> bool {
        self.base_values@.len() == self.total_input_blocks
    }

    /// Create an encoder for `total_input_blocks` blocks of `block_size` bytes.
    pub fn new(block_size: usize, total_input_blocks: usize) -> (e: Self)
        ensures
            e.wf(),
            e.block_size == block_size,
            e.total_input_blocks == total_input_blocks,
            forall|k: int| 0 <= k < total_input_blocks ==> #[trigger] e.base_values@[k] == base_value(k as nat),
    {
        let base_values = generate_base_values(total_input_blocks);
        Self { block_size, total_input_blocks, base_values }
    }

    /// Check that there is one input block per input and that each has the
    /// block size; the error names the first block that does not.
    fn check_input_blocks(&self, input_blocks: &[&[u8]]) -> (res: Result<(), RsError>)
        ensures
            res is Ok <==> input_blocks@.len() == self.total_input_blocks && blocks_sized(input_blocks@, self.block_size as nat),
            res is Err ==> (res matches Err(RsError::InvalidInput(_))),
            input_blocks@.len() != self.total_input_blocks ==> (res matches Err(RsError::InvalidInput(m))
                && m@ == block_count_text(self.total_input_blocks as nat, input_blocks@.len())),
            input_blocks@.len() == self.total_input_blocks && !blocks_sized(input_blocks@, self.block_size as nat) ==>
                (res matches Err(RsError::InvalidInput(m)) && exists|i: int| 0 <= i < input_blocks@.len()
                    && (forall|k: int| 0 <= k < i ==> #[trigger] input_blocks@[k]@.len() == self.block_size)
                    && #[trigger] input_blocks@[i]@.len() != self.block_size
                    && m@ == block_size_text(i as nat, input_blocks@[i]@.len(), self.block_size as nat)),
    {
        if input_blocks.len() != self.total_input_blocks {
            return Err(RsError::InvalidInput(block_count_message(self.total_input_blocks, input_blocks.len())));
        }
        let mut i: usize = 0;
        while i < input_blocks.len()
            invariant
                i <= input_blocks@.len(),
                input_blocks@.len() == self.total_input_blocks,
                forall|k: int| 0 <= k < i ==> #[trigger] input_blocks@[k]@.len() == self.block_size,
            decreases input_blocks@.len() - i,
        {
            if input_blocks[i].len() != self.block_size {
                return Err(RsError::InvalidInput(block_size_message(i, input_blocks[i].len(), self.block_size)));
            }
            i = i + 1;
        }
        Ok(())
    }

    /// Encode one recovery block: the sum of every input block times its
    /// base raised to `exponent`.
    pub fn encode_recovery_block(&self, exponent: u16, input_blocks: &[&[u8]]) -> (res: Result<Vec<u8>, RsError>)
        requires
            self.wf(),
        ensures
            res is Ok <==> input_blocks@.len() == self.total_input_blocks && blocks_sized(input_blocks@, self.block_size as nat),
            res is Err ==> (res matches Err(RsError::InvalidInput(_))),
            input_blocks@.len() != self.total_input_blocks ==> (res matches Err(RsError::InvalidInput(m))
                && m@ == block_count_text(self.total_input_blocks as nat, input_blocks@.len())),
            input_blocks@.len() == self.total_input_blocks && !blocks_sized(input_blocks@, self.block_size as nat) ==>
                (res matches Err(RsError::InvalidInput(m)) && exists|i: int| 0 <= i < input_blocks@.len()
                    && (forall|k: int| 0 <= k < i ==> #[trigger] input_blocks@[k]@.len() == self.block_size)
                    && #[trigger] input_blocks@[i]@.len() != self.block_size
                    && m@ == block_size_text(i as nat, input_blocks@[i]@.len(), self.block_size as nat)),
            res matches Ok(r) ==> r@ == encode_spec(blocks_of(input_blocks@), coefficients(self.base_values@, exponent), self.block_size as nat),
    {
        match self.check_input_blocks(input_blocks) {
            Err(e) => {
                return Err(e);
            },
            Ok(()) => {},
        }
        let ghost blocks = blocks_of(input_blocks@);
        let ghost coeffs = coefficients(self.base_values@, exponent);
        let mut recovery_data: Vec<u8> = vec![0u8; self.block_size];
        proof {
            assert(recovery_data@ =~= encode_spec(blocks.take(0), coeffs, self.block_size as nat));
        }
        let mut j: usize = 0;
        while j < input_blocks.len()
            invariant
                self.wf(),
                input_blocks@.len() == self.total_input_blocks,
                blocks_sized(input_blocks@, self.block_size as nat),
                blocks == blocks_of(input_blocks@),
                coeffs == coefficients(self.base_values@, exponent),
                j <= input_blocks@.len(),
                recovery_data@ == encode_spec(blocks.take(j as int), coeffs, self.block_size as nat),
                recovery_data@.len() == self.block_size,
            decreases input_blocks@.len() - j,
        {
            let base = Galois16::new(self.base_values[j]);
            let coefficient = base.pow(exponent);
            let mul_table = build_split_mul_table(coefficient);
            let ghost before = recovery_data@;
            if j == 0 {
                process_slice_multiply_direct(input_blocks[j], recovery_data.as_mut_slice(), &mul_table);
                proof {
                    lemma_tables_multiply(&mul_table, coefficient@, input_blocks@[j as int]@, before, recovery_data@, WriteOp::Direct);
                    assert forall|k: int| 0 <= k < before.len() implies before[k] == 0u8 by {}
                    let m = before.len() as int;
                    assert forall|k: int| 0 <= k < m implies #[trigger] mul_word_byte(coefficient@, input_blocks@[j as int]@, before, m, k, WriteOp::Direct)
                        == mul_word_byte(coefficient@, input_blocks@[j as int]@, before, m, k, WriteOp::Add) by {
                        lemma_xor_zero_u8(mul_word_byte(coefficient@, input_blocks@[j as int]@, before, m, k, WriteOp::Direct));
                    }
                    assert(mul_into(coefficient@, input_blocks@[j as int]@, before, WriteOp::Direct)
                        =~= mul_into(coefficient@, input_blocks@[j as int]@, before, WriteOp::Add));
                }
            } else {
                process_slice_multiply_add(input_blocks[j], recovery_data.as_mut_slice(), &mul_table);
                proof {
                    lemma_tables_multiply(&mul_table, coefficient@, input_blocks@[j as int]@, before, recovery_data@, WriteOp::Add);
                }
            }
            proof {
                assert(blocks.take(j as int + 1).drop_last() =~= blocks.take(j as int));
                assert(coeffs[j as int] == coefficient@);
            }
            j = j + 1;
        }
        proof {
            assert(blocks.take(j as int) =~= blocks);
        }
        Ok(recovery_data)
    }

    /// Encode one recovery block and pair it with its exponent.
    pub fn encode_recovery_pair(&self, exponent: u16, input_blocks: &[&[u8]]) -> (res: Result<(u16, Vec<u8>), RsError>)
        requires
            self.wf(),
        ensures
            res is Ok <==> input_blocks@.len() == self.total_input_blocks && blocks_sized(input_blocks@, self.block_size as nat),
            res is Err ==> (res matches Err(RsError::InvalidInput(_))),
            input_blocks@.len() != self.total_input_blocks ==> (res matches Err(RsError::InvalidInput(m))
                && m@ == block_count_text(self.total_input_blocks as nat, input_blocks@.len())),
            input_blocks@.len() == self.total_input_blocks && !blocks_sized(input_blocks@, self.block_size as nat) ==>
                (res matches Err(RsError::InvalidInput(m)) && exists|i: int| 0 <= i < input_blocks@.len()
                    && (forall|k: int| 0 <= k < i ==> #[trigger] input_blocks@[k]@.len() == self.block_size)
                    && #[trigger] input_blocks@[i]@.len() != self.block_size
                    && m@ == block_size_text(i as nat, input_blocks@[i]@.len(), self.block_size as nat)),
            res matches Ok(p) ==> p.0 == exponent && p.1@ == encode_spec(blocks_of(input_blocks@), coefficients(self.base_values@, exponent), self.block_size as nat),
    {
        match self.encode_recovery_block(exponent, input_blocks) {
            Ok(data) => Ok((exponent, data)),
            Err(e) => Err(e),
        }
    }

    /// Encode several recovery blocks, one per exponent, in parallel.
    pub fn encode_recovery_blocks_parallel(&self, exponents: &[u16], input_blocks: &[&[u8]]) -> (res: Result<Vec<(u16, Vec<u8>)>, RsError>)
        requires
            self.wf(),
        ensures
            res is Ok <==> (exponents@.len() == 0 || (input_blocks@.len() == self.total_input_blocks && blocks_sized(input_blocks@, self.block_size as nat))),
            res is Err ==> (res matches Err(RsError::InvalidInput(_))),
            exponents@.len() > 0 && input_blocks@.len() != self.total_input_blocks ==> (res matches Err(RsError::InvalidInput(m))
                && m@ == block_count_text(self.total_input_blocks as nat, input_blocks@.len())),
            exponents@.len() > 0 && input_blocks@.len() == self.total_input_blocks && !blocks_sized(input_blocks@, self.block_size as nat) ==>
                (res matches Err(RsError::InvalidInput(m)) && exists|i: int| 0 <= i < input_blocks@.len()
                    && (forall|k: int| 0 <= k < i ==> #[trigger] input_blocks@[k]@.len() == self.block_size)
                    && #[trigger] input_blocks@[i]@.len() != self.block_size
                    && m@ == block_size_text(i as nat, input_blocks@[i]@.len(), self.block_size as nat)),
            res matches Ok(v) ==> v@.len() == exponents@.len() && forall|k: int| 0 <= k < v@.len() ==>
                (#[trigger] v@[k]).0 == exponents@[k] && v@[k].1@ == encode_spec(blocks_of(input_blocks@), coefficients(self.base_values@, exponents@[k]), self.block_size as nat),
    {
        if exponents.len() > 0 {
            match self.check_input_blocks(input_blocks) {
                Err(e) => {
                    return Err(e);
                },
                Ok(()) => {},
            }
        }
        parallel_encode(self, exponents, input_blocks)
    }

    pub fn block_size(&self) -> (n: usize)
        ensures
            n == self.block_size,
    {
        self.block_size
    }

    pub fn total_input_blocks(&self) -> (n: usize)
        ensures
            n == self.total_input_blocks,
    {
        self.total_input_blocks
    }
}

/// Runs [`RecoveryBlockEncoder::encode_recovery_pair`] for every exponent on
/// rayon's thread pool and collects the results in order (rayon's
/// `collect` keeps the order of an indexed iterator), or one of the errors.
#[verifier::external_body]
fn parallel_encode(encoder: &RecoveryBlockEncoder, exponents: &[u16], input_blocks: &[&[u8]]) -> (res: Result<Vec<(u16, Vec<u8>)>, RsError>)
    requires
        encoder.wf(),
    ensures
        res is Ok <==> (exponents@.len() == 0 || (input_blocks@.len() == encoder.total_input_blocks && blocks_sized(input_blocks@, encoder.block_size as nat))),
        res is Err ==> (res matches Err(RsError::InvalidInput(_))),
        res is Ok ==> res->Ok_0@.len() == exponents@.len(),
        res is Ok ==> forall|k: int| 0 <= k < exponents@.len() ==> (#[trigger] res->Ok_0@[k]).0 == exponents@[k]
            && res->Ok_0@[k].1@ == encode_spec(blocks_of(input_blocks@), coefficients(encoder.base_values@, exponents@[k]), encoder.block_size as nat),
{
    exponents.par_iter().map(|&exponent| encoder.encode_recovery_pair(exponent, input_blocks)).collect()
}

} // verus!
