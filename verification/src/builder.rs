//! A Reed-Solomon configuration whose block counts are const generic
//! parameters, and a builder that walks through the required settings.
use crate::field::gf_mul;
use crate::galois::{group_galois16, Galois16};
use crate::matrix::{AlignedChunkSize, Matrix, RecoveryConfig};
use crate::reedsolomon::codec::{accumulate_byte, gpow, indices_where, RsError};
use core::marker::PhantomData;
use vstd::prelude::*;

verus! {

broadcast use group_galois16;

/// Builder state: nothing configured yet.
pub struct NoConfig;

/// Builder state: data blocks configured.
pub struct DataConfigured<const DATA_BLOCKS: usize>;

/// Builder state: recovery blocks configured.
pub struct RecoveryConfigured<const DATA_BLOCKS: usize, const RECOVERY_BLOCKS: usize>;

/// Builder state: ready to build.
pub struct FullyConfigured<const DATA_BLOCKS: usize, const RECOVERY_BLOCKS: usize>;

/// Builder whose type records which settings have been made.
pub struct ReedSolomonBuilder<State> {
    pub _state: PhantomData<State>,
}

impl ReedSolomonBuilder<NoConfig> {
    /// A builder in the unconfigured state.
    pub fn new() -> (b: Self) {
        Self { _state: PhantomData }
    }

    /// Configure the number of data blocks.
    pub fn with_data_blocks<const DATA_BLOCKS: usize>(self) -> (b: ReedSolomonBuilder<DataConfigured<DATA_BLOCKS>>) {
        ReedSolomonBuilder { _state: PhantomData }
    }
}

impl Default for ReedSolomonBuilder<NoConfig> {
    fn default() -> (b: Self) {
        Self::new()
    }
}

impl<const DATA_BLOCKS: usize> ReedSolomonBuilder<DataConfigured<DATA_BLOCKS>> {
    /// Configure the number of recovery blocks.
    pub fn with_recovery_blocks<const RECOVERY_BLOCKS: usize>(self) -> (b: ReedSolomonBuilder<RecoveryConfigured<DATA_BLOCKS, RECOVERY_BLOCKS>>) {
        ReedSolomonBuilder { _state: PhantomData }
    }
}

impl<const DATA_BLOCKS: usize, const RECOVERY_BLOCKS: usize> ReedSolomonBuilder<RecoveryConfigured<DATA_BLOCKS, RECOVERY_BLOCKS>> {
    /// Finish the configuration.
    pub fn finalize(self) -> (b: ReedSolomonBuilder<FullyConfigured<DATA_BLOCKS, RECOVERY_BLOCKS>>) {
        ReedSolomonBuilder { _state: PhantomData }
    }
}

impl<const DATA_BLOCKS: usize, const RECOVERY_BLOCKS: usize> ReedSolomonBuilder<FullyConfigured<DATA_BLOCKS, RECOVERY_BLOCKS>> {
    /// Build the encoder/decoder: nothing present, nothing computed.
    pub fn build(self) -> (rs: ReedSolomon<DATA_BLOCKS, RECOVERY_BLOCKS>)
        ensures
            !rs.computed,
            forall|i: int| 0 <= i < DATA_BLOCKS ==> !(#[trigger] rs.input_present@[i]),
            forall|i: int| 0 <= i < RECOVERY_BLOCKS ==> !(#[trigger] rs.recovery_present@[i]),
    {
        ReedSolomon::new()
    }
}

/// Reed-Solomon encoder/decoder with const generic dimensions.
pub struct ReedSolomon<const DATA_BLOCKS: usize, const RECOVERY_BLOCKS: usize> {
    /// Generator matrix: one row per recovery block, one column per data block.
    pub generator_matrix: Matrix<RECOVERY_BLOCKS, DATA_BLOCKS>,
    pub config: RecoveryConfig<DATA_BLOCKS, RECOVERY_BLOCKS>,
    pub input_present: [bool; DATA_BLOCKS],
    pub recovery_present: [bool; RECOVERY_BLOCKS],
    pub computed: bool,
}

/// Common PAR2 configuration: 10 data blocks, 5 recovery blocks.
pub type StandardPar2 = ReedSolomon<10, 5>;

/// High redundancy configuration: 20 data blocks, 20 recovery blocks.
pub type HighRedundancy = ReedSolomon<20, 20>;

/// Minimal configuration: 2 data blocks, 1 recovery block.
pub type MinimalConfig = ReedSolomon<2, 1>;

/// Generator entry for recovery block `r` and data block `d`: the base
/// `r + DATA_BLOCKS + 1` raised to the power `d`.
pub open spec fn generator_entry(data_blocks: nat, r: int, d: int) -> u16 {
    gpow((((r + data_blocks) % 65536) + 1) as u16, (d % 65536) as u16)
}

/// Each recovery row of the generator matrix is built on its own base,
/// `r + data_blocks + 1` taken as a 16-bit value: the row's entry for data
/// block 0 is one and its entry for data block 1 is that base, so two
/// different recovery rows differ in their entry for data block 1.
pub proof fn lemma_generator_row_bases(data_blocks: nat, r1: int, r2: int)
    requires
        0 <= r1,
        0 <= r2,
        r1 + data_blocks % 65536 < 65535,
        r2 + data_blocks % 65536 < 65535,
    ensures
        generator_entry(data_blocks, r1, 0) == 1,
        generator_entry(data_blocks, r1, 1) == r1 + data_blocks % 65536 + 1,
        r1 != r2 ==> generator_entry(data_blocks, r1, 1) != generator_entry(data_blocks, r2, 1),
        forall|d: int| 0 <= d < 65535 ==> #[trigger] generator_entry(data_blocks, r1, d + 1)
            == gf_mul(generator_entry(data_blocks, r1, d), generator_entry(data_blocks, r1, 1)),
{
    assert forall|r: int| 0 <= r && r + data_blocks % 65536 < 65535 implies
        #[trigger] generator_entry(data_blocks, r, 1) == r + data_blocks % 65536 + 1
        && generator_entry(data_blocks, r, 0) == 1 by {
        vstd::arithmetic::div_mod::lemma_add_mod_noop(r, data_blocks as int, 65536);
        assert((r + data_blocks) % 65536 == r + data_blocks % 65536) by {
            vstd::arithmetic::div_mod::lemma_small_mod((r + data_blocks % 65536) as nat, 65536);
        }
        let b: u16 = (r + data_blocks % 65536 + 1) as u16;
        assert(b == r + data_blocks % 65536 + 1);
        crate::field::lemma_gf_pow_1(b);
        assert(crate::field::gf_pow(b, 0) == 1);
    }
    let b1: u16 = (r1 + data_blocks % 65536 + 1) as u16;
    assert forall|d: int| 0 <= d < 65535 implies #[trigger] generator_entry(data_blocks, r1, d + 1)
        == gf_mul(generator_entry(data_blocks, r1, d), generator_entry(data_blocks, r1, 1)) by {
        assert(generator_entry(data_blocks, r1, 1) == b1);
        assert((d + 1) % 65536 == d + 1);
        assert(d % 65536 == d);
        assert(((d + 1) as u16) as nat == (d as u16) as nat + 1);
        assert(generator_entry(data_blocks, r1, d + 1) == crate::field::gf_pow(b1, (d + 1) as nat));
        assert(generator_entry(data_blocks, r1, d) == crate::field::gf_pow(b1, d as nat));
    }
}

impl<const DATA_BLOCKS: usize, const RECOVERY_BLOCKS: usize> ReedSolomon<DATA_BLOCKS, RECOVERY_BLOCKS> {
    /// A fresh encoder/decoder: nothing present, nothing computed.
    pub fn new() -> (rs: Self)
        ensures
            !rs.computed,
            forall|i: int| 0 <= i < DATA_BLOCKS ==> !(#[trigger] rs.input_present@[i]),
            forall|i: int| 0 <= i < RECOVERY_BLOCKS ==> !(#[trigger] rs.recovery_present@[i]),
    {
        Self {
            generator_matrix: Matrix::new(),
            config: RecoveryConfig::new(),
            input_present: [false; DATA_BLOCKS],
            recovery_present: [false; RECOVERY_BLOCKS],
            computed: false,
        }
    }

    /// Mark data block `block_index` present or missing.
    pub fn set_input_present(&mut self, block_index: usize, present: bool) -> (res: Result<(), RsError>)
        ensures
            res is Ok <==> block_index < DATA_BLOCKS,
            res is Err ==> (res matches Err(RsError::InvalidInput(m)) && m@ == "Block index out of bounds"@),
            res is Ok ==> final(self).input_present@ == old(self).input_present@.update(block_index as int, present),
            res is Err ==> final(self).input_present@ == old(self).input_present@,
            final(self).recovery_present@ == old(self).recovery_present@,
            final(self).computed == old(self).computed,
            final(self).generator_matrix == old(self).generator_matrix,
    {
        if block_index >= DATA_BLOCKS {
            return Err(RsError::InvalidInput("Block index out of bounds".to_string()));
        }
        self.input_present[block_index] = present;
        Ok(())
    }

    /// Mark recovery block `block_index` present or missing.
    pub fn set_recovery_present(&mut self, block_index: usize, present: bool) -> (res: Result<(), RsError>)
        ensures
            res is Ok <==> block_index < RECOVERY_BLOCKS,
            res is Err ==> (res matches Err(RsError::InvalidInput(m)) && m@ == "Recovery block index out of bounds"@),
            res is Ok ==> final(self).recovery_present@ == old(self).recovery_present@.update(block_index as int, present),
            res is Err ==> final(self).recovery_present@ == old(self).recovery_present@,
            final(self).input_present@ == old(self).input_present@,
            final(self).computed == old(self).computed,
            final(self).generator_matrix == old(self).generator_matrix,
    {
        if block_index >= RECOVERY_BLOCKS {
            return Err(RsError::InvalidInput("Recovery block index out of bounds".to_string()));
        }
        self.recovery_present[block_index] = present;
        Ok(())
    }

    /// The recovery configuration.
    pub fn config(&self) -> (c: &RecoveryConfig<DATA_BLOCKS, RECOVERY_BLOCKS>)
        ensures
            *c == self.config,
    {
        &self.config
    }

    /// Compute the generator matrix.
    pub fn compute(&mut self) -> (res: Result<(), RsError>)
        requires
            DATA_BLOCKS + RECOVERY_BLOCKS <= usize::MAX,
            RECOVERY_BLOCKS <= 65535 - DATA_BLOCKS % 65536,
        ensures
            res is Ok,
            final(self).computed,
            final(self).input_present@ == old(self).input_present@,
            final(self).recovery_present@ == old(self).recovery_present@,
            forall|r: int, d: int| 0 <= r < RECOVERY_BLOCKS && 0 <= d < DATA_BLOCKS ==>
                (#[trigger] final(self).generator_matrix.data@[r]@[d])@ == generator_entry(DATA_BLOCKS as nat, r, d),
            DATA_BLOCKS > 0 ==> forall|r: int| 0 <= r < RECOVERY_BLOCKS ==> (#[trigger] final(self).generator_matrix.data@[r]@[0])@ == 1,
            DATA_BLOCKS > 1 ==> forall|r: int| 0 <= r < RECOVERY_BLOCKS ==>
                (#[trigger] final(self).generator_matrix.data@[r]@[1])@ == r + DATA_BLOCKS % 65536 + 1,
    {
        let mut r: usize = 0;
        while r < RECOVERY_BLOCKS
            invariant
                DATA_BLOCKS + RECOVERY_BLOCKS <= usize::MAX,
                RECOVERY_BLOCKS <= 65535 - DATA_BLOCKS % 65536,
                r <= RECOVERY_BLOCKS,
                self.input_present@ == old(self).input_present@,
                self.recovery_present@ == old(self).recovery_present@,
                forall|a: int, d: int| 0 <= a < r && 0 <= d < DATA_BLOCKS ==>
                    (#[trigger] self.generator_matrix.data@[a]@[d])@ == generator_entry(DATA_BLOCKS as nat, a, d),
            decreases RECOVERY_BLOCKS - r,
        {
            proof {
                assert((r + DATA_BLOCKS) % 65536 == r + DATA_BLOCKS % 65536) by (nonlinear_arith)
                    requires
                        r + DATA_BLOCKS % 65536 < 65535,
                {
                    vstd::arithmetic::div_mod::lemma_add_mod_noop(r as int, DATA_BLOCKS as int, 65536);
                }
            }
            let mut d: usize = 0;
            while d < DATA_BLOCKS
                invariant
                    DATA_BLOCKS + RECOVERY_BLOCKS <= usize::MAX,
                    (r + DATA_BLOCKS) % 65536 != 65535,
                    r < RECOVERY_BLOCKS,
                    d <= DATA_BLOCKS,
                    self.input_present@ == old(self).input_present@,
                    self.recovery_present@ == old(self).recovery_present@,
                    forall|a: int, e: int| 0 <= a < DATA_BLOCKS + RECOVERY_BLOCKS && 0 <= e < DATA_BLOCKS && (a < r || (a == r && e < d)) && a < RECOVERY_BLOCKS ==>
                        (#[trigger] self.generator_matrix.data@[a]@[e])@ == generator_entry(DATA_BLOCKS as nat, a, e),
                decreases DATA_BLOCKS - d,
            {
                let base = Galois16::new(((r + DATA_BLOCKS) % 65536) as u16 + 1);
                let exponent = (d % 65536) as u16;
                let coefficient = base.pow(exponent);
                self.generator_matrix.set(r, d, coefficient);
                d = d + 1;
            }
            r = r + 1;
        }
        self.computed = true;
        proof {
            if DATA_BLOCKS > 1 {
                assert forall|q: int| 0 <= q < RECOVERY_BLOCKS implies
                    (#[trigger] self.generator_matrix.data@[q]@[1])@ == q + DATA_BLOCKS % 65536 + 1 by {
                    lemma_generator_row_bases(DATA_BLOCKS as nat, q, q);
                    assert((self.generator_matrix.data@[q]@[1])@ == generator_entry(DATA_BLOCKS as nat, q, 1));
                }
            }
            if DATA_BLOCKS > 0 {
                assert forall|q: int| 0 <= q < RECOVERY_BLOCKS implies
                    (#[trigger] self.generator_matrix.data@[q]@[0])@ == 1 by {
                    lemma_generator_row_bases(DATA_BLOCKS as nat, q, q);
                    assert((self.generator_matrix.data@[q]@[0])@ == generator_entry(DATA_BLOCKS as nat, q, 0));
                }
            }
        }
        Ok(())
    }

    /// Multiply-add one chunk: each output byte accumulates the input byte
    /// times the generator coefficient for `(recovery_index, data_index)`.
    pub fn process_aligned_chunk<const CHUNK_SIZE: usize>(
        &self,
        recovery_index: usize,
        input_buffer: &[u8; CHUNK_SIZE],
        data_index: usize,
        output_buffer: &mut [u8; CHUNK_SIZE],
        _alignment: AlignedChunkSize<CHUNK_SIZE>,
    ) -> (res: Result<(), RsError>)
        ensures
            !self.computed ==> (res matches Err(RsError::NotComputed)),
            self.computed && recovery_index >= RECOVERY_BLOCKS ==> (res matches Err(RsError::InvalidInput(m)) && m@ == "Recovery index out of bounds"@),
            self.computed && recovery_index < RECOVERY_BLOCKS && data_index >= DATA_BLOCKS ==> (res matches Err(RsError::InvalidInput(m)) && m@ == "Data index out of bounds"@),
            res is Ok <==> (self.computed && recovery_index < RECOVERY_BLOCKS && data_index < DATA_BLOCKS),
            res is Err ==> final(output_buffer)@ == old(output_buffer)@,
            res is Ok ==> forall|i: int| 0 <= i < CHUNK_SIZE ==> #[trigger] final(output_buffer)@[i] == accumulate_byte(
                old(output_buffer)@[i],
                input_buffer@[i],
                self.generator_matrix.data@[recovery_index as int]@[data_index as int]@,
            ),
    {
        if !self.computed {
            return Err(RsError::NotComputed);
        }
        if recovery_index >= RECOVERY_BLOCKS {
            return Err(RsError::InvalidInput("Recovery index out of bounds".to_string()));
        }
        if data_index >= DATA_BLOCKS {
            return Err(RsError::InvalidInput("Data index out of bounds".to_string()));
        }
        let coefficient = self.generator_matrix.get(recovery_index, data_index);
        self.multiply_add_chunk(coefficient, input_buffer, output_buffer);
        Ok(())
    }

    /// Each output byte accumulates the input byte times `coefficient`.
    fn multiply_add_chunk<const CHUNK_SIZE: usize>(&self, coefficient: Galois16, input: &[u8; CHUNK_SIZE], output: &mut [u8; CHUNK_SIZE])
        ensures
            forall|i: int| 0 <= i < CHUNK_SIZE ==> #[trigger] final(output)@[i] == accumulate_byte(old(output)@[i], input@[i], coefficient@),
    {
        let mut i: usize = 0;
        while i < CHUNK_SIZE
            invariant
                i <= CHUNK_SIZE,
                forall|k: int| 0 <= k < i ==> #[trigger] output@[k] == accumulate_byte(old(output)@[k], input@[k], coefficient@),
                forall|k: int| i <= k < CHUNK_SIZE ==> #[trigger] output@[k] == old(output)@[k],
            decreases CHUNK_SIZE - i,
        {
            let input_val = Galois16::new(input[i] as u16);
            let result = input_val * coefficient;
            let v = (result.value() ^ (output[i] as u16)) as u8;
            proof {
                crate::field::lemma_xor(result@, output@[i as int] as u16, 0);
            }
            output[i] = v;
            i = i + 1;
        }
    }

    /// The smaller of the number of missing data blocks and the number of
    /// present recovery blocks.
    pub fn recoverable_missing_count(&self) -> (n: usize)
        ensures
            n == vstd::math::min(indices_where(self.input_present@, false).len() as int, indices_where(self.recovery_present@, true).len() as int),
    {
        let missing_data = count_flags(&self.input_present, false);
        let available_recovery = count_flags(&self.recovery_present, true);
        if missing_data < available_recovery {
            missing_data
        } else {
            available_recovery
        }
    }

    /// Whether the present recovery blocks cover the missing data blocks.
    pub fn can_reconstruct(&self) -> (r: bool)
        ensures
            r == (indices_where(self.input_present@, false).len() <= indices_where(self.recovery_present@, true).len()),
    {
        let missing_data = count_flags(&self.input_present, false);
        let available_recovery = count_flags(&self.recovery_present, true);
        missing_data <= available_recovery
    }

    /// The matrix dimensions `(RECOVERY_BLOCKS, DATA_BLOCKS)`.
    pub fn dimensions() -> (d: (usize, usize))
        ensures
            d == (RECOVERY_BLOCKS, DATA_BLOCKS),
    {
        (RECOVERY_BLOCKS, DATA_BLOCKS)
    }
}

/// Number of entries equal to `flag`.
fn count_flags<const N: usize>(flags: &[bool; N], flag: bool) -> (n: usize)
    ensures
        n == indices_where(flags@, flag).len(),
{
    let mut n: usize = 0;
    let mut i: usize = 0;
    while i < N
        invariant
            i <= N,
            n == indices_where(flags@.take(i as int), flag).len(),
            n <= i,
        decreases N - i,
    {
        proof {
            assert(flags@.take(i as int + 1).drop_last() =~= flags@.take(i as int));
        }
        if flags[i] == flag {
            n = n + 1;
        }
        i = i + 1;
    }
    proof {
        assert(flags@.take(i as int) =~= flags@);
    }
    n
}

} // verus!
