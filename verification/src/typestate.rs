//! The Reed-Solomon codec with its stages recorded in the type: inputs are
//! set on a new instance, outputs on a configured one, and only a computed
//! one processes data.
use crate::bases::base_value;
use crate::elimination::gseq;
use crate::linalg::{flatten, identity, is_product, rows_of};
use crate::reedsolomon::codec::{
    accumulate_byte, indices_where, inputs_accepted, range_len, range_rows, rows_of_pairs,
    ReedSolomon as CodecReedSolomon, RsError, RsOutputRow,
};
use core::marker::PhantomData;
use vstd::prelude::*;

verus! {

/// Stage: just created.
pub struct New;

/// Stage: inputs and outputs are being set.
pub struct Configured;

/// Stage: the matrix is computed; data can be processed.
pub struct Computed;

/// The codec in stage `State`, delegating to [`CodecReedSolomon`].
pub struct ReedSolomon<State> {
    pub inner: CodecReedSolomon,
    pub _state: PhantomData<State>,
}

impl ReedSolomon<New> {
    /// A new instance in the initial stage.
    pub fn new() -> (rs: Self)
        ensures
            rs.inner.wf(),
            rs.inner.input_count == 0,
            rs.inner.database@.len() == 0,
            rs.inner.output_rows@.len() == 0,
            rs.inner.left_matrix@.len() == 0,
    {
        Self { inner: CodecReedSolomon::new(), _state: PhantomData }
    }

    /// Set which input blocks are present; moves to the configured stage.
    pub fn set_input(self, present: &[bool]) -> (res: Result<ReedSolomon<Configured>, RsError>)
        requires
            self.inner.outputs_wf(),
        ensures
            res is Ok <==> inputs_accepted(present@.len()),
            res is Err ==> (res matches Err(RsError::TooManyInputBlocks)),
            res matches Ok(rs) ==> {
                &&& rs.inner.wf()
                &&& rs.inner.input_count == #[verifier::truncate] (present@.len() as u32)
                &&& rs.inner.data_present_index@ == indices_where(present@, true)
                &&& rs.inner.data_missing_index@ == indices_where(present@, false)
                &&& rs.inner.database@.len() == present@.len()
                &&& forall|k: int| 0 <= k < present@.len() ==> #[trigger] rs.inner.database@[k] == base_value(k as nat)
                &&& rs.inner.output_rows@ == self.inner.output_rows@
                &&& rs.inner.left_matrix@ == self.inner.left_matrix@
            },
    {
        let mut inner = self.inner;
        match inner.set_input(present) {
            Ok(()) => Ok(ReedSolomon { inner, _state: PhantomData }),
            Err(e) => Err(e),
        }
    }

    /// Set `count` input blocks, all present; moves to the configured stage.
    pub fn set_input_all_present(self, count: u32) -> (res: Result<ReedSolomon<Configured>, RsError>)
        requires
            self.inner.outputs_wf(),
        ensures
            res is Ok <==> inputs_accepted(count as nat),
            res is Err ==> (res matches Err(RsError::TooManyInputBlocks)),
            res matches Ok(rs) ==> {
                &&& rs.inner.wf()
                &&& rs.inner.input_count == count
                &&& rs.inner.data_present_index@ == indices_where(Seq::new(count as nat, |i: int| true), true)
                &&& rs.inner.data_missing_index@.len() == 0
                &&& rs.inner.database@.len() == count
                &&& rs.inner.output_rows@ == self.inner.output_rows@
            },
    {
        let mut inner = self.inner;
        match inner.set_input_all_present(count) {
            Ok(()) => Ok(ReedSolomon { inner, _state: PhantomData }),
            Err(e) => Err(e),
        }
    }
}

impl Default for ReedSolomon<New> {
    fn default() -> (rs: Self)
        ensures
            rs.inner.wf(),
            rs.inner.output_rows@.len() == 0,
    {
        Self::new()
    }
}

impl ReedSolomon<Configured> {
    /// Record a recovery block as present or missing.
    pub fn set_output(self, present: bool, exponent: u16) -> (res: Result<ReedSolomon<Configured>, RsError>)
        requires
            self.inner.wf(),
            self.inner.output_count < u32::MAX,
        ensures
            res matches Ok(rs) && rs.inner.wf()
                && rs.inner.output_rows@ == self.inner.output_rows@.push(RsOutputRow { present, exponent })
                && rs.inner.database@ == self.inner.database@
                && rs.inner.input_count == self.inner.input_count
                && rs.inner.left_matrix@ == self.inner.left_matrix@
                && rs.inner.data_present_index@ == self.inner.data_present_index@
                && rs.inner.data_missing_index@ == self.inner.data_missing_index@,
    {
        let mut s = self;
        match s.inner.set_output(present, exponent) {
            Ok(()) => Ok(s),
            Err(e) => Err(e),
        }
    }

    /// Record the recovery blocks with exponents `low_exponent..=high_exponent`.
    pub fn set_output_range(self, present: bool, low_exponent: u16, high_exponent: u16) -> (res: Result<ReedSolomon<Configured>, RsError>)
        requires
            self.inner.wf(),
            self.inner.output_count as int + range_len(low_exponent, high_exponent) <= u32::MAX,
        ensures
            res matches Ok(rs) && rs.inner.wf()
                && rs.inner.output_rows@ == self.inner.output_rows@ + range_rows(present, low_exponent, high_exponent)
                && rs.inner.database@ == self.inner.database@
                && rs.inner.input_count == self.inner.input_count
                && rs.inner.left_matrix@ == self.inner.left_matrix@
                && rs.inner.data_present_index@ == self.inner.data_present_index@
                && rs.inner.data_missing_index@ == self.inner.data_missing_index@,
    {
        let mut s = self;
        match s.inner.set_output_range(present, low_exponent, high_exponent) {
            Ok(()) => Ok(s),
            Err(e) => Err(e),
        }
    }

    /// Compute the matrix; moves to the computed stage.
    pub fn compute(self) -> (res: Result<ReedSolomon<Computed>, RsError>)
        requires
            self.inner.wf(),
            self.inner.out_rows() * self.inner.in_cols() <= u32::MAX,
            self.inner.out_rows() <= u32::MAX,
            self.inner.data_missing > 0 ==> self.inner.out_rows() * self.inner.out_rows() <= u32::MAX,
        ensures
            self.inner.data_missing > self.inner.par_present ==> (res matches Err(RsError::NotEnoughRecoveryBlocks)),
            self.inner.data_missing <= self.inner.par_present && self.inner.out_rows() == 0 ==> (res matches Err(RsError::NoOutputBlocks)),
            self.inner.data_missing <= self.inner.par_present && self.inner.out_rows() > 0 ==>
                (res is Ok || (self.inner.data_missing > 0 && res matches Err(RsError::ComputationError))),
            res matches Ok(rs) ==> {
                &&& rs.inner.wf()
                &&& rs.inner.database@ == self.inner.database@
                &&& rs.inner.output_rows@ == self.inner.output_rows@
                &&& rs.inner.data_present_index@ == self.inner.data_present_index@
                &&& rs.inner.data_missing_index@ == self.inner.data_missing_index@
                &&& rs.inner.left_matrix@.len() == self.inner.out_rows() * self.inner.in_cols()
                &&& self.inner.data_missing == 0 ==> gseq(rs.inner.left_matrix@) == flatten(self.inner.initial_left())
                &&& exists|e: Seq<Seq<u16>>|
                    is_product(e, self.inner.initial_left(), rows_of(gseq(rs.inner.left_matrix@), self.inner.out_rows(), self.inner.in_cols()), self.inner.out_rows(), self.inner.in_cols())
                    && is_product(e, self.inner.initial_right(), identity(self.inner.out_rows()), self.inner.out_rows(), self.inner.out_rows())
            },
    {
        let mut inner = self.inner;
        match inner.compute() {
            Ok(()) => Ok(ReedSolomon { inner, _state: PhantomData }),
            Err(e) => Err(e),
        }
    }
}

impl ReedSolomon<Computed> {
    /// Process a block of data through the computed matrix.
    pub fn process(&self, input_index: u32, input_data: &[u8], output_index: u32, output_data: &mut [u8]) -> (res: Result<(), RsError>)
        requires
            self.inner.in_cols() <= u32::MAX,
            self.inner.factor_index(input_index, output_index) <= u32::MAX,
        ensures
            res is Ok <==> input_data@.len() == old(output_data)@.len()
                && self.inner.factor_index(input_index, output_index) < self.inner.left_matrix@.len(),
            res is Err ==> (res matches Err(RsError::ComputationError)),
            res is Err ==> final(output_data)@ == old(output_data)@,
            res is Ok ==> final(output_data)@.len() == old(output_data)@.len(),
            res is Ok ==> forall|i: int| 0 <= i < input_data@.len() ==>
                #[trigger] final(output_data)@[i] == accumulate_byte(
                    old(output_data)@[i],
                    input_data@[i],
                    self.inner.left_matrix@[self.inner.factor_index(input_index, output_index)]@,
                ),
    {
        self.inner.process(input_index, input_data, output_index, output_data)
    }

    /// The codec underneath.
    pub fn inner(&self) -> (r: &CodecReedSolomon)
        ensures
            *r == self.inner,
    {
        &self.inner
    }
}

/// Builder with the same settings as the untyped one, producing a
/// configured instance.
pub struct TypeSafeReedSolomonBuilder {
    pub input_status: Option<Vec<bool>>,
    pub recovery_blocks: Vec<(bool, u16)>,
}

impl TypeSafeReedSolomonBuilder {
    /// A builder with nothing set.
    pub fn new() -> (b: Self)
        ensures
            b.input_status is None,
            b.recovery_blocks@.len() == 0,
    {
        Self { input_status: None, recovery_blocks: Vec::new() }
    }

    /// Set the input block status.
    pub fn with_input_status(self, status: &[bool]) -> (b: Self)
        ensures
            b.input_status matches Some(v) && v@ == status@,
            b.recovery_blocks@ == self.recovery_blocks@,
    {
        let mut v: Vec<bool> = Vec::with_capacity(status.len());
        let mut i: usize = 0;
        while i < status.len()
            invariant
                i <= status@.len(),
                v@ == status@.take(i as int),
            decreases status@.len() - i,
        {
            v.push(status[i]);
            proof {
                assert(v@ =~= status@.take(i as int + 1));
            }
            i = i + 1;
        }
        proof {
            assert(status@.take(i as int) =~= status@);
        }
        Self { input_status: Some(v), recovery_blocks: self.recovery_blocks }
    }

    /// Add a recovery block.
    pub fn with_recovery_block(self, present: bool, exponent: u16) -> (b: Self)
        ensures
            b.input_status == self.input_status,
            b.recovery_blocks@ == self.recovery_blocks@.push((present, exponent)),
    {
        let mut s = self;
        s.recovery_blocks.push((present, exponent));
        s
    }

    /// Add recovery blocks with the exponents `low_exponent..=high_exponent`.
    pub fn with_recovery_blocks_range(self, present: bool, low_exponent: u16, high_exponent: u16) -> (b: Self)
        ensures
            b.input_status == self.input_status,
            rows_of_pairs(b.recovery_blocks@) == rows_of_pairs(self.recovery_blocks@) + range_rows(present, low_exponent, high_exponent),
            b.recovery_blocks@.len() == self.recovery_blocks@.len() + range_len(low_exponent, high_exponent),
    {
        let ghost start = self.recovery_blocks@;
        let mut s = self;
        if low_exponent > high_exponent {
            assert(rows_of_pairs(s.recovery_blocks@) + range_rows(present, low_exponent, high_exponent) =~= rows_of_pairs(start));
            return s;
        }
        let mut e: u16 = low_exponent;
        loop
            invariant
                low_exponent <= e <= high_exponent,
                s.input_status == self.input_status,
                start == self.recovery_blocks@,
                s.recovery_blocks@.len() == start.len() + (e - low_exponent),
                rows_of_pairs(s.recovery_blocks@) == rows_of_pairs(start) + crate::reedsolomon::codec::rows_from(present, low_exponent, (e - low_exponent) as nat),
            decreases high_exponent - e,
        {
            let ghost prev = s.recovery_blocks@;
            s.recovery_blocks.push((present, e));
            proof {
                assert(rows_of_pairs(s.recovery_blocks@) =~= rows_of_pairs(prev).push(RsOutputRow { present, exponent: e }));
                assert(crate::reedsolomon::codec::rows_from(present, low_exponent, (e - low_exponent + 1) as nat)
                    =~= crate::reedsolomon::codec::rows_from(present, low_exponent, (e - low_exponent) as nat).push(RsOutputRow { present, exponent: e }));
                assert(range_rows(present, low_exponent, high_exponent)
                    =~= crate::reedsolomon::codec::rows_from(present, low_exponent, (high_exponent - low_exponent + 1) as nat));
            }
            if e == high_exponent {
                return s;
            }
            e = e + 1;
        }
    }

    /// Build a configured instance.  The input status is required: without
    /// it the build fails with `ComputationError`.
    pub fn build(self) -> (res: Result<ReedSolomon<Configured>, RsError>)
        requires
            self.recovery_blocks@.len() < u32::MAX,
        ensures
            self.input_status is None ==> (res matches Err(RsError::ComputationError)),
            self.input_status matches Some(st) ==> (res is Ok <==> inputs_accepted(st@.len())),
            self.input_status matches Some(st) && !inputs_accepted(st@.len()) ==> (res matches Err(RsError::TooManyInputBlocks)),
            res matches Ok(rs) ==> {
                &&& rs.inner.wf()
                &&& rs.inner.output_rows@ == rows_of_pairs(self.recovery_blocks@)
                &&& self.input_status matches Some(st) && rs.inner.data_present_index@ == indices_where(st@, true)
                    && rs.inner.data_missing_index@ == indices_where(st@, false)
                    && rs.inner.database@.len() == st@.len()
                    && (forall|k: int| 0 <= k < st@.len() ==> #[trigger] rs.inner.database@[k] == base_value(k as nat))
                    && rs.inner.input_count == #[verifier::truncate] (st@.len() as u32)
                    && rs.inner.left_matrix@.len() == 0
            },
    {
        let rs = ReedSolomon::new();
        let mut rs = match &self.input_status {
            Some(status) => {
                match rs.set_input(status.as_slice()) {
                    Ok(r) => r,
                    Err(e) => {
                        return Err(e);
                    },
                }
            },
            None => {
                return Err(RsError::ComputationError);
            },
        };
        let ghost rs_in = rs.inner;
        let mut i: usize = 0;
        while i < self.recovery_blocks.len()
            invariant
                i <= self.recovery_blocks@.len(),
                self.recovery_blocks@.len() < u32::MAX,
                rs.inner.wf(),
                rs.inner.output_rows@ == rows_of_pairs(self.recovery_blocks@.take(i as int)),
                rs.inner.data_present_index@ == rs_in.data_present_index@,
                rs.inner.data_missing_index@ == rs_in.data_missing_index@,
                rs.inner.database@ == rs_in.database@,
                rs.inner.input_count == rs_in.input_count,
                rs.inner.left_matrix@.len() == 0,
            decreases self.recovery_blocks@.len() - i,
        {
            let (present, exponent) = self.recovery_blocks[i];
            proof {
                assert(rows_of_pairs(self.recovery_blocks@.take(i as int + 1)) =~= rows_of_pairs(self.recovery_blocks@.take(i as int)).push(RsOutputRow { present, exponent }));
            }
            rs = match rs.set_output(present, exponent) {
                Ok(r) => r,
                Err(e) => {
                    return Err(e);
                },
            };
            i = i + 1;
        }
        proof {
            assert(self.recovery_blocks@.take(i as int) =~= self.recovery_blocks@);
        }
        Ok(rs)
    }
}

impl Default for TypeSafeReedSolomonBuilder {
    fn default() -> (b: Self)
        ensures
            b.input_status is None,
    {
        Self::new()
    }
}

} // verus!
