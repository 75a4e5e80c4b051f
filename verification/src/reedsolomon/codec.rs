//! The PAR2 Reed-Solomon codec: which input and recovery blocks are present,
//! the Vandermonde system built from them, and its solution.
use crate::bases::{base_value, lemma_logbase_bound, lemma_logbase_monotone, logbase_seq, next_logbase};
use crate::elimination::{eliminate_fixed_pivots, gmat, gseq, zero_in_rows};
use crate::field::{gf_mul, gf_pow, lemma_xor};
use crate::galois::{group_galois16, Galois16};
use crate::linalg::{
    flatten, identity, is_matrix, is_product, lemma_identity_product, lemma_product_split, lemma_rows_of_flatten, left_part,
    right_part, rows_of, unit, block_at, leading_singular, singular,
};
use vstd::prelude::*;

verus! {

broadcast use group_galois16;

/// The standard library's I/O error, carried by [`RsError::IoError`].
#[verifier::external_type_specification]
#[verifier::external_body]
pub struct ExIoError(std::io::Error);

/// Result type for Reed-Solomon operations.
pub type RsResult<T> = Result<T, RsError>;

/// Errors that can occur during Reed-Solomon operations.
#[derive(Debug)]
pub enum RsError {
    TooManyInputBlocks,
    NotEnoughRecoveryBlocks,
    NoOutputBlocks,
    ComputationError,
    InvalidMatrix(String),
    SingularMatrix(usize),
    InvalidInput(String),
    NotComputed,
    IoError(std::io::Error),
}

/// Output row specification for the Reed-Solomon matrix.
#[derive(Debug, Clone, Copy)]
pub struct RsOutputRow {
    pub present: bool,
    pub exponent: u16,
}

impl RsOutputRow {
    pub fn new(present: bool, exponent: u16) -> (r: Self)
        ensures
            r.present == present,
            r.exponent == exponent,
    {
        Self { present, exponent }
    }
}

/// Positions `i` of `s` with `s[i] == b`, in increasing order.
pub open spec fn indices_where(s: Seq<bool>, b: bool) -> Seq<u32>
    decreases s.len(),
{
    if s.len() == 0 {
        Seq::empty()
    } else if s.last() == b {
        indices_where(s.drop_last(), b).push((s.len() - 1) as u32)
    } else {
        indices_where(s.drop_last(), b)
    }
}

/// Exponents of the rows whose presence flag is `present`, in order.
pub open spec fn exponents_where(rows: Seq<RsOutputRow>, present: bool) -> Seq<u16>
    decreases rows.len(),
{
    if rows.len() == 0 {
        Seq::empty()
    } else if rows.last().present == present {
        exponents_where(rows.drop_last(), present).push(rows.last().exponent)
    } else {
        exponents_where(rows.drop_last(), present)
    }
}


/// Reed-Solomon encoder/decoder following the PAR2 reference approach.
pub struct ReedSolomon {
    pub input_count: u32,
    pub data_present: u32,
    pub data_missing: u32,
    pub data_present_index: Vec<u32>,
    pub data_missing_index: Vec<u32>,
    /// Base values of the Vandermonde matrix, one per input block.
    pub database: Vec<u16>,
    pub output_count: u32,
    pub par_present: u32,
    pub par_missing: u32,
    pub output_rows: Vec<RsOutputRow>,
    /// Row-major `(missing data + missing recovery) x inputs` matrix.
    pub left_matrix: Vec<Galois16>,
}

impl ReedSolomon {
    /// The output counters agree with the recorded output rows.
    pub open spec fn outputs_wf(&self) -> bool {
        &&& self.output_count as nat == self.output_rows@.len()
        &&& self.par_present as nat == exponents_where(self.output_rows@, true).len()
        &&& self.par_missing as nat == exponents_where(self.output_rows@, false).len()
    }

    /// The input bookkeeping describes `database@.len()` blocks.
    pub open spec fn inputs_wf(&self) -> bool {
        &&& self.data_present as nat == self.data_present_index@.len()
        &&& self.data_missing as nat == self.data_missing_index@.len()
        &&& self.data_present_index@.len() + self.data_missing_index@.len() == self.database@.len()
        &&& self.database@.len() <= 65535
        &&& forall|i: int| 0 <= i < self.data_present_index@.len() ==> #[trigger] self.data_present_index@[i] < self.database@.len()
        &&& forall|i: int| 0 <= i < self.data_missing_index@.len() ==> #[trigger] self.data_missing_index@[i] < self.database@.len()
    }

    pub open spec fn wf(&self) -> bool {
        self.inputs_wf() && self.outputs_wf()
    }

    pub fn new() -> (rs: Self)
        ensures
            rs.wf(),
            rs.input_count == 0,
            rs.data_present == 0 && rs.data_missing == 0,
            rs.data_present_index@ == Seq::<u32>::empty(),
            rs.data_missing_index@ == Seq::<u32>::empty(),
            rs.database@ == Seq::<u16>::empty(),
            rs.output_count == 0 && rs.par_present == 0 && rs.par_missing == 0,
            rs.output_rows@ == Seq::<RsOutputRow>::empty(),
            rs.left_matrix@ == Seq::<Galois16>::empty(),
    {
        Self {
            input_count: 0,
            data_present: 0,
            data_missing: 0,
            data_present_index: Vec::new(),
            data_missing_index: Vec::new(),
            database: Vec::new(),
            output_count: 0,
            par_present: 0,
            par_missing: 0,
            output_rows: Vec::new(),
            left_matrix: Vec::new(),
        }
    }

    /// Record whether a recovery block with the specified exponent is
    /// present or missing.
    pub fn set_output(&mut self, present: bool, exponent: u16) -> (res: Result<(), RsError>)
        requires
            old(self).outputs_wf(),
            old(self).output_count < u32::MAX,
        ensures
            res is Ok,
            final(self).outputs_wf(),
            final(self).output_rows@ == old(self).output_rows@.push(RsOutputRow { present, exponent }),
            final(self).output_count == old(self).output_count + 1,
            final(self).par_present == old(self).par_present + (if present { 1int } else { 0int }),
            final(self).par_missing == old(self).par_missing + (if present { 0int } else { 1int }),
            final(self).input_count == old(self).input_count,
            final(self).data_present == old(self).data_present,
            final(self).data_missing == old(self).data_missing,
            final(self).data_present_index@ == old(self).data_present_index@,
            final(self).data_missing_index@ == old(self).data_missing_index@,
            final(self).database@ == old(self).database@,
            final(self).left_matrix@ == old(self).left_matrix@,
    {
        let ghost rows0 = self.output_rows@;
        self.output_rows.push(RsOutputRow::new(present, exponent));
        proof {
            assert(self.output_rows@.drop_last() =~= rows0);
            assert(exponents_where(rows0, true).len() <= rows0.len()) by {
                lemma_exponents_len(rows0);
            }
            assert(exponents_where(rows0, false).len() <= rows0.len()) by {
                lemma_exponents_len(rows0);
            }
        }
        self.output_count = self.output_count + 1;
        if present {
            self.par_present = self.par_present + 1;
        } else {
            self.par_missing = self.par_missing + 1;
        }
        Ok(())
    }

    /// Record whether the recovery blocks with exponents
    /// `low_exponent..=high_exponent` are present or missing.
    pub fn set_output_range(&mut self, present: bool, low_exponent: u16, high_exponent: u16) -> (res: Result<(), RsError>)
        requires
            old(self).outputs_wf(),
            old(self).output_count as int + range_len(low_exponent, high_exponent) <= u32::MAX,
        ensures
            res is Ok,
            final(self).outputs_wf(),
            final(self).output_rows@ == old(self).output_rows@ + range_rows(present, low_exponent, high_exponent),
            final(self).output_count == old(self).output_count + range_len(low_exponent, high_exponent),
            final(self).par_present == old(self).par_present + (if present { range_len(low_exponent, high_exponent) } else { 0int }),
            final(self).par_missing == old(self).par_missing + (if present { 0int } else { range_len(low_exponent, high_exponent) }),
            final(self).input_count == old(self).input_count,
            final(self).data_present == old(self).data_present,
            final(self).data_missing == old(self).data_missing,
            final(self).data_present_index@ == old(self).data_present_index@,
            final(self).data_missing_index@ == old(self).data_missing_index@,
            final(self).database@ == old(self).database@,
            final(self).left_matrix@ == old(self).left_matrix@,
    {
        if low_exponent > high_exponent {
            assert(range_rows(present, low_exponent, high_exponent) =~= Seq::<RsOutputRow>::empty());
            assert(old(self).output_rows@ + Seq::<RsOutputRow>::empty() =~= old(self).output_rows@);
            return Ok(());
        }
        let mut e: u16 = low_exponent;
        loop
            invariant
                low_exponent <= e <= high_exponent,
                self.outputs_wf(),
                self.output_count as int + (high_exponent - e + 1) <= u32::MAX,
                self.output_rows@ == old(self).output_rows@ + rows_from(present, low_exponent, (e - low_exponent) as nat),
                self.output_count == old(self).output_count + (e - low_exponent),
                self.par_present == old(self).par_present + (if present { e - low_exponent } else { 0int }),
                self.par_missing == old(self).par_missing + (if present { 0int } else { e - low_exponent }),
                self.input_count == old(self).input_count,
                self.data_present == old(self).data_present,
                self.data_missing == old(self).data_missing,
                self.data_present_index@ == old(self).data_present_index@,
                self.data_missing_index@ == old(self).data_missing_index@,
                self.database@ == old(self).database@,
                self.left_matrix@ == old(self).left_matrix@,
            decreases high_exponent - e,
        {
            let r = self.set_output(present, e);
            proof {
                assert(rows_from(present, low_exponent, (e - low_exponent + 1) as nat) =~= rows_from(present, low_exponent, (e - low_exponent) as nat).push(RsOutputRow { present, exponent: e }));
                assert(range_rows(present, low_exponent, high_exponent) =~= rows_from(present, low_exponent, (high_exponent - low_exponent + 1) as nat));
            }
            if e == high_exponent {
                return r;
            }
            e = e + 1;
        }
    }
}

impl ReedSolomon {
    /// Set which input blocks are present or missing and pick the base
    /// value of each block.  Fails with `TooManyInputBlocks` when the
    /// logbase of some block reaches 65535; the blocks before it are then
    /// recorded, and the failing block's index too.
    pub fn set_input(&mut self, present: &[bool]) -> (res: Result<(), RsError>)
        requires
            old(self).outputs_wf(),
        ensures
            final(self).outputs_wf(),
            final(self).output_count == old(self).output_count,
            final(self).par_present == old(self).par_present,
            final(self).par_missing == old(self).par_missing,
            final(self).output_rows@ == old(self).output_rows@,
            final(self).left_matrix@ == old(self).left_matrix@,
            final(self).input_count == #[verifier::truncate] (present@.len() as u32),
            res is Ok <==> inputs_accepted(present@.len()),
            res is Ok ==> {
                &&& final(self).wf()
                &&& final(self).data_present_index@ == indices_where(present@, true)
                &&& final(self).data_missing_index@ == indices_where(present@, false)
                &&& final(self).database@.len() == present@.len()
            },
            res is Err ==> {
                &&& res matches Err(RsError::TooManyInputBlocks)
                &&& final(self).database@.len() < present@.len()
                &&& logbase_seq(final(self).database@.len() as nat) >= 65535
                &&& final(self).data_present_index@ == indices_where(present@.take(final(self).database@.len() as int + 1), true)
                &&& final(self).data_missing_index@ == indices_where(present@.take(final(self).database@.len() as int + 1), false)
            },
            forall|k: int| 0 <= k < final(self).database@.len() ==> #[trigger] final(self).database@[k] == base_value(k as nat),
            final(self).data_present as nat == final(self).data_present_index@.len(),
            final(self).data_missing as nat == final(self).data_missing_index@.len(),
    {
        self.input_count = #[verifier::truncate] (present.len() as u32);
        self.data_present_index.clear();
        self.data_missing_index.clear();
        self.database.clear();
        self.data_present = 0;
        self.data_missing = 0;
        let mut logbase: u32 = 0;
        let mut index: usize = 0;
        while index < present.len()
            invariant
                index <= present@.len(),
                self.outputs_wf(),
                self.output_count == old(self).output_count,
                self.par_present == old(self).par_present,
                self.par_missing == old(self).par_missing,
                self.output_rows@ == old(self).output_rows@,
                self.left_matrix@ == old(self).left_matrix@,
                self.input_count == #[verifier::truncate] (present@.len() as u32),
                index <= 65535,
                self.database@.len() == index,
                logbase as nat == (if index == 0 { 0 } else { logbase_seq((index - 1) as nat) + 1 }),
                logbase <= 65535,
                self.data_present_index@ == indices_where(present@.take(index as int), true),
                self.data_missing_index@ == indices_where(present@.take(index as int), false),
                self.data_present as nat == self.data_present_index@.len(),
                self.data_missing as nat == self.data_missing_index@.len(),
                self.data_present_index@.len() + self.data_missing_index@.len() == index,
                forall|i: int| 0 <= i < self.data_present_index@.len() ==> #[trigger] self.data_present_index@[i] < index,
                forall|i: int| 0 <= i < self.data_missing_index@.len() ==> #[trigger] self.data_missing_index@[i] < index,
                forall|k: int| 0 <= k < index ==> #[trigger] self.database@[k] == base_value(k as nat),
                forall|k: nat| k < index ==> #[trigger] logbase_seq(k) < 65535,
            decreases present@.len() - index,
        {
            let ghost pre = present@.take(index as int);
            proof {
                assert(present@.take(index as int + 1).drop_last() =~= pre);
                lemma_indices_bound(pre, true);
                lemma_indices_bound(pre, false);
            }
            if present[index] {
                self.data_present_index.push(index as u32);
                self.data_present = self.data_present + 1;
            } else {
                self.data_missing_index.push(index as u32);
                self.data_missing = self.data_missing + 1;
            }
            logbase = next_logbase(logbase);
            proof {
                lemma_logbase_bound(index as nat);
            }
            if logbase >= 65535 {
                proof {
                    assert(logbase as nat == logbase_seq(index as nat));
                    lemma_logbase_monotone(index as nat, (present@.len() - 1) as nat);
                }
                return Err(RsError::TooManyInputBlocks);
            }
            let base = Galois16::new(logbase as u16).alog();
            self.database.push(base);
            logbase = logbase + 1;
            index = index + 1;
            proof {
                assert(logbase_seq((index - 1) as nat) < 65535);
            }
        }
        proof {
            assert(present@.take(index as int) =~= present@);
            if present@.len() > 0 {
                assert(logbase_seq((present@.len() - 1) as nat) < 65535);
            }
        }
        Ok(())
    }

    /// Set all `count` input blocks as present.
    pub fn set_input_all_present(&mut self, count: u32) -> (res: Result<(), RsError>)
        requires
            old(self).outputs_wf(),
        ensures
            final(self).outputs_wf(),
            final(self).output_rows@ == old(self).output_rows@,
            final(self).output_count == old(self).output_count,
            final(self).input_count == count,
            res is Ok <==> inputs_accepted(count as nat),
            res is Ok ==> {
                &&& final(self).wf()
                &&& final(self).data_present_index@ == indices_where(Seq::new(count as nat, |i: int| true), true)
                &&& final(self).data_missing_index@ == Seq::<u32>::empty()
                &&& final(self).database@.len() == count
            },
            res is Err ==> res matches Err(RsError::TooManyInputBlocks),
            forall|k: int| 0 <= k < final(self).database@.len() ==> #[trigger] final(self).database@[k] == base_value(k as nat),
    {
        let present: Vec<bool> = vec![true; count as usize];
        let res = self.set_input(present.as_slice());
        proof {
            assert(present@ =~= Seq::new(count as nat, |i: int| true));
            if res is Ok {
                lemma_indices_none(present@);
            }
        }
        res
    }
}

/// `n` input blocks fit: the logbase of the last one stays below 65535.
pub open spec fn inputs_accepted(n: nat) -> bool {
    n == 0 || logbase_seq((n - 1) as nat) < 65535
}

/// Every recorded index is below the length.
pub proof fn lemma_indices_bound(s: Seq<bool>, b: bool)
    ensures
        forall|i: int| 0 <= i < indices_where(s, b).len() ==> #[trigger] indices_where(s, b)[i] < s.len(),
        indices_where(s, b).len() <= s.len(),
        indices_where(s, true).len() + indices_where(s, false).len() == s.len(),
    decreases s.len(),
{
    if s.len() > 0 {
        lemma_indices_bound(s.drop_last(), b);
    }
}

/// Where every flag is `true`, no index is recorded as `false`.
proof fn lemma_indices_none(s: Seq<bool>)
    requires
        forall|i: int| 0 <= i < s.len() ==> #[trigger] s[i],
    ensures
        indices_where(s, false) == Seq::<u32>::empty(),
    decreases s.len(),
{
    if s.len() > 0 {
        lemma_indices_none(s.drop_last());
    }
}

/// `b` to the power `e` as [`Galois16::pow`] computes it (zero stays zero).
pub open spec fn gpow(b: u16, e: u16) -> u16 {
    if b == 0 {
        0
    } else {
        gf_pow(b, e as nat)
    }
}

/// A row of the Vandermonde matrix: the bases of the blocks listed in `idx`,
/// each raised to the power `e`.
pub open spec fn vrow(db: Seq<u16>, idx: Seq<u32>, e: u16) -> Seq<u16> {
    Seq::new(idx.len(), |c: int| gpow(db[idx[c] as int], e))
}

/// A row of `n` zeros.
pub open spec fn zeros(n: nat) -> Seq<u16> {
    Seq::new(n, |i: int| 0u16)
}

impl ReedSolomon {
    /// Exponents of the present recovery blocks, in the order recorded.
    pub open spec fn present_exponents(&self) -> Seq<u16> {
        exponents_where(self.output_rows@, true)
    }

    /// Exponents of the missing recovery blocks, in the order recorded.
    pub open spec fn missing_exponents(&self) -> Seq<u16> {
        exponents_where(self.output_rows@, false)
    }

    /// The left matrix before elimination: one row per missing data block
    /// (taken from the present recovery blocks, in order), then one per
    /// missing recovery block.  Its columns are the present data blocks and
    /// then the missing ones.
    pub open spec fn initial_left(&self) -> Seq<Seq<u16>> {
        let dm = self.data_missing as nat;
        let db = self.database@;
        let pidx = self.data_present_index@;
        Seq::new(dm + self.par_missing as nat, |r: int|
            if r < dm {
                vrow(db, pidx, self.present_exponents()[r]) + unit(dm, r)
            } else {
                vrow(db, pidx, self.missing_exponents()[r - dm]) + zeros(dm)
            })
    }

    /// The right matrix before elimination: the same rows over the missing
    /// data blocks, then over the missing recovery blocks.
    pub open spec fn initial_right(&self) -> Seq<Seq<u16>> {
        let dm = self.data_missing as nat;
        let pm = self.par_missing as nat;
        let db = self.database@;
        let midx = self.data_missing_index@;
        Seq::new(dm + pm, |r: int|
            if r < dm {
                vrow(db, midx, self.present_exponents()[r]) + zeros(pm)
            } else {
                vrow(db, midx, self.missing_exponents()[r - dm]) + unit(pm, r - dm)
            })
    }
}

/// The exponents of the rows with the given presence flag.
fn collect_exponents(rows: &Vec<RsOutputRow>, present: bool) -> (v: Vec<u16>)
    ensures
        v@ == exponents_where(rows@, present),
{
    let mut v: Vec<u16> = Vec::new();
    let mut i: usize = 0;
    while i < rows.len()
        invariant
            i <= rows@.len(),
            v@ == exponents_where(rows@.take(i as int), present),
        decreases rows@.len() - i,
    {
        proof {
            assert(rows@.take(i as int + 1).drop_last() =~= rows@.take(i as int));
        }
        if rows[i].present == present {
            v.push(rows[i].exponent);
        }
        i = i + 1;
    }
    proof {
        assert(rows@.take(i as int) =~= rows@);
    }
    v
}

/// Appends the Vandermonde row for exponent `e` over the blocks in `idx`.
fn push_vrow(out: &mut Vec<Galois16>, db: &Vec<u16>, idx: &Vec<u32>, e: u16)
    requires
        forall|c: int| 0 <= c < idx@.len() ==> #[trigger] idx@[c] < db@.len(),
    ensures
        gseq(final(out)@) == gseq(old(out)@) + vrow(db@, idx@, e),
{
    let ghost start = gseq(out@);
    let mut c: usize = 0;
    while c < idx.len()
        invariant
            c <= idx@.len(),
            forall|k: int| 0 <= k < idx@.len() ==> #[trigger] idx@[k] < db@.len(),
            gseq(out@) == start + vrow(db@, idx@, e).take(c as int),
        decreases idx@.len() - c,
    {
        let base = Galois16::new(db[idx[c] as usize]);
        let ghost prev = out@;
        let v = base.pow(e);
        out.push(v);
        proof {
            assert(gseq(out@) =~= gseq(prev).push(v@));
            assert(gseq(out@) =~= start + vrow(db@, idx@, e).take(c as int + 1));
        }
        c = c + 1;
    }
    proof {
        assert(vrow(db@, idx@, e).take(c as int) =~= vrow(db@, idx@, e));
    }
}

/// Appends `n` entries that are one at position `k` and zero elsewhere
/// (all zero when `k >= n`).
fn push_unit(out: &mut Vec<Galois16>, n: u32, k: u32)
    ensures
        gseq(final(out)@) == gseq(old(out)@) + unit(n as nat, k as int),
{
    let ghost start = gseq(out@);
    let mut c: u32 = 0;
    while c < n
        invariant
            c <= n,
            gseq(out@) == start + unit(n as nat, k as int).take(c as int),
        decreases n - c,
    {
        let ghost prev = out@;
        let v = if c == k {
            Galois16::new(1)
        } else {
            Galois16::new(0)
        };
        out.push(v);
        proof {
            assert(gseq(out@) =~= gseq(prev).push(v@));
            assert(gseq(out@) =~= start + unit(n as nat, k as int).take(c as int + 1));
        }
        c = c + 1;
    }
    proof {
        assert(unit(n as nat, k as int).take(c as int) =~= unit(n as nat, k as int));
    }
}

/// Appends `n` zeros.
fn push_zeros(out: &mut Vec<Galois16>, n: u32)
    ensures
        gseq(final(out)@) == gseq(old(out)@) + zeros(n as nat),
{
    push_unit(out, n, n);
    proof {
        assert(unit(n as nat, n as int) =~= zeros(n as nat));
    }
}

impl ReedSolomon {
    /// Fill the left matrix (and the right one, when given) with the
    /// Vandermonde system for the recorded inputs and outputs.  Fails with
    /// `InvalidMatrix` when there are fewer present recovery blocks than
    /// missing data blocks; nothing is written then.
    pub fn build_matrix(
        &mut self,
        out_count: u32,
        in_count: u32,
        right_matrix: Option<&mut Vec<Galois16>>,
    ) -> (res: Result<(), RsError>)
        requires
            old(self).wf(),
            out_count as nat == old(self).data_missing + old(self).par_missing,
            in_count as nat == old(self).data_present + old(self).data_missing,
            old(self).left_matrix@.len() == out_count * in_count,
            right_matrix matches Some(r) ==> r@.len() == out_count * out_count,
        ensures
            final(self).wf(),
            final(self).output_rows@ == old(self).output_rows@,
            final(self).database@ == old(self).database@,
            final(self).data_present_index@ == old(self).data_present_index@,
            final(self).data_missing_index@ == old(self).data_missing_index@,
            final(self).input_count == old(self).input_count,
            final(self).data_present == old(self).data_present,
            final(self).data_missing == old(self).data_missing,
            final(self).output_count == old(self).output_count,
            final(self).par_present == old(self).par_present,
            final(self).par_missing == old(self).par_missing,
            res is Ok <==> old(self).data_missing <= old(self).par_present,
            res is Err ==> res matches Err(RsError::InvalidMatrix(_)),
            res is Err ==> final(self).left_matrix@ == old(self).left_matrix@,
            res is Ok ==> gseq(final(self).left_matrix@) == flatten(old(self).initial_left()),
            res is Ok ==> (right_matrix matches Some(r) ==> gseq((*final(r))@) == flatten(old(self).initial_right())),
    {
        let pe = collect_exponents(&self.output_rows, true);
        let me = collect_exponents(&self.output_rows, false);
        if (self.data_missing as usize) > pe.len() {
            return Err(RsError::InvalidMatrix("Present recovery block not found".to_string()));
        }
        let dm = self.data_missing;
        let pm = self.par_missing;
        let ghost left0 = self.initial_left();
        let ghost right0 = self.initial_right();
        let mut left: Vec<Galois16> = Vec::new();
        let mut right: Vec<Galois16> = Vec::new();
        let mut r: u32 = 0;
        while r < out_count
            invariant
                self.wf(),
                out_count as nat == dm + pm,
                dm == self.data_missing,
                pm == self.par_missing,
                pe@ == self.present_exponents(),
                me@ == self.missing_exponents(),
                dm <= pe@.len(),
                pm == me@.len(),
                r <= out_count,
                left0 == self.initial_left(),
                right0 == self.initial_right(),
                gseq(left@) == flatten(left0.take(r as int)),
                gseq(right@) == flatten(right0.take(r as int)),
            decreases out_count - r,
        {
            if r < dm {
                let e = pe[r as usize];
                push_vrow(&mut left, &self.database, &self.data_present_index, e);
                push_unit(&mut left, dm, r);
                push_vrow(&mut right, &self.database, &self.data_missing_index, e);
                push_zeros(&mut right, pm);
            } else {
                let e = me[(r - dm) as usize];
                push_vrow(&mut left, &self.database, &self.data_present_index, e);
                push_zeros(&mut left, dm);
                push_vrow(&mut right, &self.database, &self.data_missing_index, e);
                push_unit(&mut right, pm, r - dm);
            }
            proof {
                assert(left0.take(r as int + 1).drop_last() =~= left0.take(r as int));
                assert(right0.take(r as int + 1).drop_last() =~= right0.take(r as int));
            }
            r = r + 1;
        }
        proof {
            assert(left0.take(r as int) =~= left0);
            assert(right0.take(r as int) =~= right0);
        }
        self.left_matrix = left;
        if let Some(rm) = right_matrix {
            *rm = right;
        }
        Ok(())
    }
}

/// Reads row `i` of two row-major matrices of widths `c` and `n` into one
/// augmented row.
fn augmented_row(left: &Vec<Galois16>, right: &Vec<Galois16>, i: usize, c: usize, n: usize) -> (row: Vec<Galois16>)
    requires
        i < n,
        left@.len() == n * c,
        right@.len() == n * n,
        c + n <= usize::MAX,
    ensures
        row@.len() == c + n,
        gseq(row@) == rows_of(gseq(left@), n as nat, c as nat)[i as int] + rows_of(gseq(right@), n as nat, n as nat)[i as int],
{
    let ghost lrow = rows_of(gseq(left@), n as nat, c as nat)[i as int];
    let ghost rrow = rows_of(gseq(right@), n as nat, n as nat)[i as int];
    proof {
        assert(i * c + c <= n * c) by (nonlinear_arith)
            requires
                i < n,
        ;
        assert(i * n + n <= n * n) by (nonlinear_arith)
            requires
                i < n,
        ;
    }
    let llen = left.len();
    let rlen = right.len();
    let mut row: Vec<Galois16> = Vec::with_capacity(c + n);
    let mut j: usize = 0;
    while j < c
        invariant
            i < n,
            left@.len() == n * c,
            llen == left@.len(),
            i * c + c <= n * c,
            j <= c,
            lrow == rows_of(gseq(left@), n as nat, c as nat)[i as int],
            gseq(row@) == lrow.take(j as int),
        decreases c - j,
    {
        let ghost prev = row@;
        proof {
            assert(i * c + j < n * c) by (nonlinear_arith)
                requires
                    i * c + c <= n * c,
                    j < c,
            ;
        }
        let v = left[i * c + j];
        row.push(v);
        proof {
            assert(gseq(row@) =~= gseq(prev).push(v@));
            assert(gseq(row@) =~= lrow.take(j as int + 1));
        }
        j = j + 1;
    }
    let mut k: usize = 0;
    while k < n
        invariant
            i < n,
            right@.len() == n * n,
            rlen == right@.len(),
            i * n + n <= n * n,
            k <= n,
            j == c,
            lrow.len() == c,
            rrow == rows_of(gseq(right@), n as nat, n as nat)[i as int],
            gseq(row@) == lrow + rrow.take(k as int),
        decreases n - k,
    {
        let ghost prev = row@;
        proof {
            assert(i * n + k < n * n) by (nonlinear_arith)
                requires
                    i * n + n <= n * n,
                    k < n,
            ;
        }
        let v = right[i * n + k];
        row.push(v);
        proof {
            assert(gseq(row@) =~= gseq(prev).push(v@));
            assert(gseq(row@) =~= lrow + rrow.take(k as int + 1));
        }
        k = k + 1;
    }
    proof {
        assert(lrow.take(c as int) =~= lrow);
        assert(rrow.take(n as int) =~= rrow);
    }
    row
}

/// Lays out entries `lo..hi` of each row one row after another.
fn gather_columns(aug: &Vec<Vec<Galois16>>, lo: usize, hi: usize) -> (flat: Vec<Galois16>)
    requires
        lo <= hi,
        forall|i: int| 0 <= i < aug@.len() ==> #[trigger] aug@[i]@.len() >= hi,
    ensures
        gseq(flat@) == flatten(Seq::new(aug@.len(), |i: int| gmat(aug@)[i].subrange(lo as int, hi as int))),
{
    let ghost m = Seq::new(aug@.len(), |i: int| gmat(aug@)[i].subrange(lo as int, hi as int));
    let mut flat: Vec<Galois16> = Vec::new();
    let mut i: usize = 0;
    while i < aug.len()
        invariant
            lo <= hi,
            forall|k: int| 0 <= k < aug@.len() ==> #[trigger] aug@[k]@.len() >= hi,
            i <= aug@.len(),
            m == Seq::new(aug@.len(), |i: int| gmat(aug@)[i].subrange(lo as int, hi as int)),
            gseq(flat@) == flatten(m.take(i as int)),
        decreases aug@.len() - i,
    {
        let ghost start = gseq(flat@);
        let mut j: usize = lo;
        while j < hi
            invariant
                lo <= j <= hi,
                i < aug@.len(),
                aug@[i as int]@.len() >= hi,
                gseq(flat@) == start + m[i as int].take(j - lo),
                m == Seq::new(aug@.len(), |i: int| gmat(aug@)[i].subrange(lo as int, hi as int)),
            decreases hi - j,
        {
            let ghost prev = flat@;
            let v = aug[i][j];
            flat.push(v);
            proof {
                assert(gseq(flat@) =~= gseq(prev).push(v@));
                assert(gseq(flat@) =~= start + m[i as int].take(j - lo + 1));
            }
            j = j + 1;
        }
        proof {
            assert(m[i as int].take(hi - lo) =~= m[i as int]);
            assert(m.take(i as int + 1).drop_last() =~= m.take(i as int));
        }
        i = i + 1;
    }
    proof {
        assert(m.take(i as int) =~= m);
    }
    flat
}

impl ReedSolomon {
    /// Eliminates with the pivots of the first `data_missing` rows on the
    /// diagonal of the right matrix, applying the same row operations to
    /// the left matrix.  Fails with `ComputationError` on a zero pivot.
    fn gauss_eliminate(&mut self, rows: u32, cols: u32, right_matrix: &mut Vec<Galois16>) -> (res: Result<(), RsError>)
        requires
            old(self).data_missing <= rows,
            old(self).left_matrix@.len() == rows * cols,
            old(right_matrix)@.len() == rows * rows,
            cols as int + rows as int <= usize::MAX,
        ensures
            final(self).input_count == old(self).input_count,
            final(self).data_present == old(self).data_present,
            final(self).data_missing == old(self).data_missing,
            final(self).data_present_index@ == old(self).data_present_index@,
            final(self).data_missing_index@ == old(self).data_missing_index@,
            final(self).database@ == old(self).database@,
            final(self).output_count == old(self).output_count,
            final(self).par_present == old(self).par_present,
            final(self).par_missing == old(self).par_missing,
            final(self).output_rows@ == old(self).output_rows@,
            final(self).left_matrix@.len() == rows * cols,
            final(right_matrix)@.len() == rows * rows,
            res is Ok || res matches Err(RsError::ComputationError),
            res is Err <==> leading_singular(rows_of(gseq(old(right_matrix)@), rows as nat, rows as nat), old(self).data_missing as nat, 0),
            res is Ok ==> exists|e: Seq<Seq<u16>>|
                is_product(e, rows_of(gseq(old(self).left_matrix@), rows as nat, cols as nat), rows_of(gseq(final(self).left_matrix@), rows as nat, cols as nat), rows as nat, cols as nat)
                && is_product(e, rows_of(gseq(old(right_matrix)@), rows as nat, rows as nat), rows_of(gseq(final(right_matrix)@), rows as nat, rows as nat), rows as nat, rows as nat),
            res is Ok ==> forall|i: int, k: int| 0 <= i < rows && 0 <= k < old(self).data_missing ==>
                #[trigger] rows_of(gseq(final(right_matrix)@), rows as nat, rows as nat)[i][k] == (if i == k { 1u16 } else { 0u16 }),
            res is Ok ==> forall|i: int, j: int| 0 <= i < rows && 0 <= j < rows
                && zero_in_rows(rows_of(gseq(old(right_matrix)@), rows as nat, rows as nat), j, old(self).data_missing as nat) ==>
                #[trigger] rows_of(gseq(final(right_matrix)@), rows as nat, rows as nat)[i][j] == rows_of(gseq(old(right_matrix)@), rows as nat, rows as nat)[i][j],
    {
        let n = rows as usize;
        let c = cols as usize;
        let w = c + n;
        let ghost l0 = rows_of(gseq(self.left_matrix@), n as nat, c as nat);
        let ghost r0 = rows_of(gseq(right_matrix@), n as nat, n as nat);
        let mut aug: Vec<Vec<Galois16>> = Vec::with_capacity(n);
        let mut i: usize = 0;
        while i < n
            invariant
                n == rows,
                c == cols,
                w == c + n,
                i <= n,
                self.left_matrix@.len() == n * c,
                right_matrix@.len() == n * n,
                l0 == rows_of(gseq(self.left_matrix@), n as nat, c as nat),
                r0 == rows_of(gseq(right_matrix@), n as nat, n as nat),
                aug@.len() == i,
                forall|k: int| 0 <= k < i ==> #[trigger] aug@[k]@.len() == w,
                forall|k: int| 0 <= k < i ==> #[trigger] gseq(aug@[k]@) == l0[k] + r0[k],
            decreases n - i,
        {
            let row = augmented_row(&self.left_matrix, right_matrix, i, c, n);
            aug.push(row);
            i = i + 1;
        }
        let ghost a0 = gmat(aug@);
        proof {
            assert forall|k: int| 0 <= k < n implies #[trigger] a0[k] == l0[k] + r0[k] by {
                assert(a0[k] == gseq(aug@[k]@));
            }
            assert forall|k: int| 0 <= k < n implies #[trigger] l0[k].len() == c by {
                assert(k * c + c <= n * c && 0 <= k * c) by (nonlinear_arith)
                    requires
                        0 <= k < n,
                ;
            }
            assert forall|k: int| 0 <= k < n implies #[trigger] r0[k].len() == n by {
                assert(k * n + n <= n * n && 0 <= k * n) by (nonlinear_arith)
                    requires
                        0 <= k < n,
                ;
            }
            assert(is_matrix(l0, n as nat, c as nat));
            assert(is_matrix(r0, n as nat, n as nat));
            assert forall|m: nat| m <= n implies #[trigger] block_at(a0, m, c as nat) == block_at(r0, m, 0) by {
                assert forall|k: int| 0 <= k < m implies #[trigger] block_at(a0, m, c as nat)[k] =~= block_at(r0, m, 0)[k] by {
                    assert(a0[k] == l0[k] + r0[k]);
                }
                assert(block_at(a0, m, c as nat) =~= block_at(r0, m, 0));
            }
            assert(leading_singular(a0, self.data_missing as nat, c as nat) <==> leading_singular(r0, self.data_missing as nat, 0)) by {
                if leading_singular(a0, self.data_missing as nat, c as nat) {
                    let m = choose|m: nat| 1 <= m <= self.data_missing && #[trigger] singular(block_at(a0, m, c as nat), m);
                    assert(block_at(a0, m, c as nat) == block_at(r0, m, 0));
                }
                if leading_singular(r0, self.data_missing as nat, 0) {
                    let m = choose|m: nat| 1 <= m <= self.data_missing && #[trigger] singular(block_at(r0, m, 0), m);
                    assert(block_at(a0, m, c as nat) == block_at(r0, m, 0));
                }
            }
        }
        let dm = self.data_missing as usize;
        match eliminate_fixed_pivots(&mut aug, n, w, dm, c) {
            Err(_) => {
                return Err(RsError::ComputationError);
            },
            Ok(()) => {},
        }
        let ghost af = gmat(aug@);
        let new_left = gather_columns(&aug, 0, c);
        let new_right = gather_columns(&aug, c, w);
        proof {
            let lf = Seq::new(aug@.len(), |i: int| af[i].subrange(0, c as int));
            let rf = Seq::new(aug@.len(), |i: int| af[i].subrange(c as int, w as int));
            assert(lf =~= left_part(af, c as nat));
            assert(rf =~= right_part(af, c as nat, n as nat));
            assert forall|i: int| 0 <= i < lf.len() implies #[trigger] lf[i].len() == c by {}
            assert forall|i: int| 0 <= i < rf.len() implies #[trigger] rf[i].len() == n by {}
            lemma_rows_of_flatten(lf, c as nat);
            lemma_rows_of_flatten(rf, n as nat);
            let e = choose|e: Seq<Seq<u16>>| is_product(e, a0, af, n as nat, w as nat);
            lemma_product_split(e, l0, r0, a0, af, n as nat, c as nat, n as nat);
            assert forall|i: int, k: int| 0 <= i < n && 0 <= k < dm implies #[trigger] rf[i][k] == (if i == k { 1u16 } else { 0u16 }) by {
                assert(af[i][c + k] == (if i == k { 1u16 } else { 0u16 }));
            }
            assert forall|i: int, j: int| 0 <= i < n && 0 <= j < n && zero_in_rows(r0, j, dm as nat) implies #[trigger] rf[i][j] == r0[i][j] by {
                assert forall|k: int| 0 <= k < dm implies #[trigger] a0[k][c + j] == 0 by {
                    assert(r0[k][j] == 0);
                }
                assert(zero_in_rows(a0, c + j, dm as nat));
                assert(af[i][c + j] == a0[i][c + j]);
            }
            lemma_flatten_len(lf, c as nat);
            lemma_flatten_len(rf, n as nat);
        }
        self.left_matrix = new_left;
        *right_matrix = new_right;
        Ok(())
    }
}

/// The layout of `m.len()` rows of length `c` has `m.len() * c` entries.
proof fn lemma_flatten_len(m: Seq<Seq<u16>>, c: nat)
    requires
        forall|i: int| 0 <= i < m.len() ==> #[trigger] m[i].len() == c,
    ensures
        flatten(m).len() == m.len() * c,
{
    crate::linalg::lemma_flatten_index(m, c);
}

impl ReedSolomon {
    /// Number of rows of the system: missing data plus missing recovery blocks.
    pub open spec fn out_rows(&self) -> nat {
        self.data_missing as nat + self.par_missing as nat
    }

    /// Number of columns of the left matrix: all input blocks.
    pub open spec fn in_cols(&self) -> nat {
        self.data_present as nat + self.data_missing as nat
    }

    /// Compute the Reed-Solomon matrix.  On success the left matrix is
    /// `R^-1 * L` for the initial left and right matrices `L` and `R`: the
    /// row operations that turn `R` into the identity, applied to `L`.
    pub fn compute(&mut self) -> (res: Result<(), RsError>)
        requires
            old(self).wf(),
            old(self).out_rows() * old(self).in_cols() <= u32::MAX,
            old(self).out_rows() <= u32::MAX,
            old(self).data_missing > 0 ==> old(self).out_rows() * old(self).out_rows() <= u32::MAX,
        ensures
            final(self).wf(),
            final(self).input_count == old(self).input_count,
            final(self).data_present == old(self).data_present,
            final(self).data_missing == old(self).data_missing,
            final(self).data_present_index@ == old(self).data_present_index@,
            final(self).data_missing_index@ == old(self).data_missing_index@,
            final(self).database@ == old(self).database@,
            final(self).output_count == old(self).output_count,
            final(self).par_present == old(self).par_present,
            final(self).par_missing == old(self).par_missing,
            final(self).output_rows@ == old(self).output_rows@,
            old(self).data_missing > old(self).par_present ==> res matches Err(RsError::NotEnoughRecoveryBlocks),
            old(self).data_missing <= old(self).par_present && old(self).out_rows() == 0 ==> res matches Err(RsError::NoOutputBlocks),
            old(self).data_missing <= old(self).par_present && old(self).out_rows() > 0 ==>
                (res is Ok || (old(self).data_missing > 0 && res matches Err(RsError::ComputationError))),
            res matches Err(RsError::ComputationError) <==> (old(self).data_missing <= old(self).par_present && old(self).out_rows() > 0
                && old(self).data_missing > 0 && leading_singular(old(self).initial_right(), old(self).data_missing as nat, 0)),
            res is Ok ==> final(self).left_matrix@.len() == old(self).out_rows() * old(self).in_cols(),
            res is Ok && old(self).data_missing == 0 ==> gseq(final(self).left_matrix@) == flatten(old(self).initial_left()),
            res is Ok ==> exists|e: Seq<Seq<u16>>|
                is_product(e, old(self).initial_left(), rows_of(gseq(final(self).left_matrix@), old(self).out_rows(), old(self).in_cols()), old(self).out_rows(), old(self).in_cols())
                && is_product(e, old(self).initial_right(), identity(old(self).out_rows()), old(self).out_rows(), old(self).out_rows()),
    {
        if self.data_missing > self.par_present {
            return Err(RsError::NotEnoughRecoveryBlocks);
        }
        let out_count = self.data_missing + self.par_missing;
        let in_count = self.data_present + self.data_missing;
        if out_count == 0 {
            return Err(RsError::NoOutputBlocks);
        }
        let ghost l0 = self.initial_left();
        let ghost r0 = self.initial_right();
        let ghost dm = self.data_missing as nat;
        let ghost pm = self.par_missing as nat;
        proof {
            lemma_exponents_len(self.output_rows@);
            assert forall|i: int| 0 <= i < l0.len() implies #[trigger] l0[i].len() == in_count by {}
            assert forall|i: int| 0 <= i < r0.len() implies #[trigger] r0[i].len() == out_count by {}
            lemma_rows_of_flatten(l0, in_count as nat);
            lemma_rows_of_flatten(r0, out_count as nat);
            lemma_flatten_len(l0, in_count as nat);
            lemma_flatten_len(r0, out_count as nat);
        }
        self.left_matrix = vec_of_zero_elements((out_count * in_count) as usize);
        if self.data_missing > 0 {
            let mut right: Vec<Galois16> = vec_of_zero_elements((out_count * out_count) as usize);
            let built = self.build_matrix(out_count, in_count, Some(&mut right));
            if built.is_err() {
                return built;
            }
            proof {
                assert(out_count <= 65536) by (nonlinear_arith)
                    requires
                        out_count * out_count <= u32::MAX,
                ;
            }
            proof {
                assert(rows_of(gseq(right@), out_count as nat, out_count as nat) == r0);
            }
            let elim = self.gauss_eliminate(out_count, in_count, &mut right);
            if elim.is_err() {
                return elim;
            }
            proof {
                let rf = rows_of(gseq(right@), out_count as nat, out_count as nat);
                assert forall|i: int| 0 <= i < rf.len() implies #[trigger] rf[i].len() == out_count by {
                    assert(i * out_count + out_count <= out_count * out_count && 0 <= i * out_count) by (nonlinear_arith)
                        requires
                            0 <= i < out_count,
                    ;
                }
                assert forall|i: int, j: int| 0 <= i < out_count && 0 <= j < out_count implies #[trigger] rf[i][j] == identity(out_count as nat)[i][j] by {
                    if j >= dm {
                        assert forall|k: int| 0 <= k < dm implies #[trigger] r0[k][j] == 0 by {
                            assert(r0[k] == vrow(self.database@, self.data_missing_index@, self.present_exponents()[k]) + zeros(pm));
                        }
                        assert(zero_in_rows(r0, j, dm));
                        if i >= dm {
                            assert(r0[i] == vrow(self.database@, self.data_missing_index@, self.missing_exponents()[i - dm]) + unit(pm, i - dm));
                        } else {
                            assert(r0[i] == vrow(self.database@, self.data_missing_index@, self.present_exponents()[i]) + zeros(pm));
                        }
                    }
                }
                assert forall|i: int| 0 <= i < out_count implies #[trigger] rf[i] =~= identity(out_count as nat)[i] by {
                    assert forall|j: int| 0 <= j < out_count implies #[trigger] rf[i][j] == identity(out_count as nat)[i][j] by {}
                }
                assert(rf =~= identity(out_count as nat));
            }
        } else {
            let built = self.build_matrix(out_count, in_count, None);
            if built.is_err() {
                return built;
            }
            proof {
                assert(r0 =~= identity(out_count as nat)) by {
                    assert forall|i: int| 0 <= i < out_count implies #[trigger] r0[i] =~= identity(out_count as nat)[i] by {
                        assert(r0[i] == vrow(self.database@, self.data_missing_index@, self.missing_exponents()[i]) + unit(pm, i));
                    }
                }
                lemma_identity_product(l0, out_count as nat, in_count as nat);
                lemma_identity_product(r0, out_count as nat, out_count as nat);
            }
        }
        Ok(())
    }
}

/// `n` zero field elements.
fn vec_of_zero_elements(n: usize) -> (v: Vec<Galois16>)
    ensures
        v@.len() == n,
        forall|i: int| 0 <= i < n ==> (#[trigger] v@[i])@ == 0,
{
    let mut v: Vec<Galois16> = Vec::with_capacity(n);
    let mut i: usize = 0;
    while i < n
        invariant
            i <= n,
            v@.len() == i,
            forall|k: int| 0 <= k < i ==> (#[trigger] v@[k])@ == 0,
        decreases n - i,
    {
        v.push(Galois16::new(0));
        i = i + 1;
    }
    v
}

/// What byte `b` of an output block becomes when the input byte `x` is
/// multiplied by `f` and added to it (the product truncated to a byte).
pub open spec fn accumulate_byte(b: u8, x: u8, f: u16) -> u8 {
    ((b as u16) ^ gf_mul(x as u16, f)) as u8
}

impl ReedSolomon {
    /// The factor of the left matrix for the given output and input block.
    pub open spec fn factor_index(&self, input_index: u32, output_index: u32) -> int {
        output_index as int * self.in_cols() as int + input_index as int
    }

    /// What `process` leaves in an output block: each byte accumulates the
    /// input byte at its position times the factor for
    /// `(output_index, input_index)`.
    pub open spec fn processed(&self, input_index: u32, input: Seq<u8>, output_index: u32, out: Seq<u8>) -> Seq<u8> {
        Seq::new(out.len(), |i: int| accumulate_byte(out[i], input[i], self.left_matrix@[self.factor_index(input_index, output_index)]@))
    }

    /// Process a block of data through the Reed-Solomon matrix: each output
    /// byte accumulates the input byte times the matrix factor for
    /// `(output_index, input_index)`.
    pub fn process(&self, input_index: u32, input_data: &[u8], output_index: u32, output_data: &mut [u8]) -> (res: Result<(), RsError>)
        requires
            self.in_cols() <= u32::MAX,
            self.factor_index(input_index, output_index) <= u32::MAX,
        ensures
            res is Ok <==> input_data@.len() == old(output_data)@.len() && self.factor_index(input_index, output_index) < self.left_matrix@.len(),
            res is Err ==> (res matches Err(RsError::ComputationError)),
            res is Err ==> final(output_data)@ == old(output_data)@,
            res is Ok ==> final(output_data)@ == self.processed(input_index, input_data@, output_index, old(output_data)@),
            res is Ok ==> final(output_data)@.len() == old(output_data)@.len(),
            res is Ok ==> forall|i: int| 0 <= i < input_data@.len() ==>
                #[trigger] final(output_data)@[i] == accumulate_byte(
                    old(output_data)@[i],
                    input_data@[i],
                    self.left_matrix@[self.factor_index(input_index, output_index)]@,
                ),
    {
        if input_data.len() != output_data.len() {
            return Err(RsError::ComputationError);
        }
        let in_count = self.data_present + self.data_missing;
        let factor_index = (output_index * in_count + input_index) as usize;
        if factor_index >= self.left_matrix.len() {
            return Err(RsError::ComputationError);
        }
        let factor = self.left_matrix[factor_index];
        if factor.value() == 0 {
            proof {
                assert forall|i: int| 0 <= i < input_data@.len() implies #[trigger] output_data@[i] == accumulate_byte(
                    output_data@[i], input_data@[i], factor@) by {
                    lemma_xor(output_data@[i] as u16, 0, 0);
                    lemma_u8_facts(output_data@[i], 0);
                }
                assert(output_data@ =~= self.processed(input_index, input_data@, output_index, output_data@));
            }
            return Ok(());
        }
        let ghost old_out = output_data@;
        let mut i: usize = 0;
        while i < input_data.len()
            invariant
                i <= input_data@.len(),
                input_data@.len() == old_out.len(),
                output_data@.len() == old_out.len(),
                forall|k: int| 0 <= k < i ==> #[trigger] output_data@[k] == accumulate_byte(old_out[k], input_data@[k], factor@),
                forall|k: int| i <= k < old_out.len() ==> #[trigger] output_data@[k] == old_out[k],
            decreases input_data@.len() - i,
        {
            let input_val = Galois16::new(input_data[i] as u16);
            let result = input_val * factor;
            let output_val = Galois16::new(output_data[i] as u16);
            let new_output = output_val + result;
            output_data[i] = new_output.value() as u8;
            i = i + 1;
        }
        proof {
            assert(output_data@ =~= self.processed(input_index, input_data@, output_index, old_out));
        }
        Ok(())
    }
}

/// Processing the same input block twice into an output block gives the
/// output back, and a zero factor leaves it as it was.
pub proof fn lemma_process_round_trip(rs: &ReedSolomon, input_index: u32, output_index: u32, input: Seq<u8>, out: Seq<u8>)
    requires
        input.len() == out.len(),
        0 <= rs.factor_index(input_index, output_index) < rs.left_matrix@.len(),
    ensures
        rs.processed(input_index, input, output_index, rs.processed(input_index, input, output_index, out)) == out,
        rs.left_matrix@[rs.factor_index(input_index, output_index)]@ == 0 ==> rs.processed(input_index, input, output_index, out) == out,
{
    let once = rs.processed(input_index, input, output_index, out);
    let f = rs.left_matrix@[rs.factor_index(input_index, output_index)]@;
    assert forall|i: int| 0 <= i < out.len() implies #[trigger] rs.processed(input_index, input, output_index, once)[i] == out[i] by {
        lemma_accumulate_twice(out[i], input[i], f);
    }
    assert(rs.processed(input_index, input, output_index, once) =~= out);
    if f == 0 {
        assert forall|i: int| 0 <= i < out.len() implies #[trigger] once[i] == out[i] by {
            crate::field::lemma_gf_mul_one_right(input[i] as u16);
            lemma_xor(out[i] as u16, 0, 0);
            lemma_u8_facts(out[i], 0);
        }
        assert(once =~= out);
    }
}

proof fn lemma_u8_facts(b: u8, g: u16)
    by (bit_vector)
    ensures
        ((b as u16) as u8) == b,
        ((((((b as u16) ^ g) as u8) as u16) ^ g) as u8) == b,
{
}

/// Accumulating the same product twice gives the byte back.
pub proof fn lemma_accumulate_twice(b: u8, x: u8, f: u16)
    ensures
        accumulate_byte(accumulate_byte(b, x, f), x, f) == b,
{
    lemma_u8_facts(b, gf_mul(x as u16, f));
}

impl Default for ReedSolomon {
    fn default() -> (rs: Self)
        ensures
            rs.wf(),
            rs.input_count == 0,
            rs.database@.len() == 0,
            rs.output_rows@.len() == 0,
            rs.left_matrix@.len() == 0,
    {
        Self::new()
    }
}

/// The output rows that a list of `(present, exponent)` pairs records.
pub open spec fn rows_of_pairs(blocks: Seq<(bool, u16)>) -> Seq<RsOutputRow> {
    Seq::new(blocks.len(), |i: int| RsOutputRow { present: blocks[i].0, exponent: blocks[i].1 })
}

/// Builder for a [`ReedSolomon`] configuration: the input block status and
/// the recovery blocks, applied in order by [`ReedSolomonBuilder::build`].
pub struct ReedSolomonBuilder {
    pub input_status: Option<Vec<bool>>,
    pub recovery_blocks: Vec<(bool, u16)>,
}

impl ReedSolomonBuilder {
    /// Create a new builder with an empty configuration.
    pub fn new() -> (b: Self)
        ensures
            b.input_status is None,
            b.recovery_blocks@ == Seq::<(bool, u16)>::empty(),
    {
        Self { input_status: None, recovery_blocks: Vec::new() }
    }

    /// Set the input block status (which blocks are present or missing).
    pub fn with_input_status(self, status: &[bool]) -> (b: Self)
        ensures
            b.input_status matches Some(v) && v@ == status@,
            b.recovery_blocks@ == self.recovery_blocks@,
    {
        let mut v: Vec<bool> = Vec::with_capacity(status.len());
        let mut i: usize = 0;
        while i < status.len()
            invariant
                i <= status@.len(),
                v@ == status@.take(i as int),
            decreases status@.len() - i,
        {
            v.push(status[i]);
            proof {
                assert(v@ =~= status@.take(i as int + 1));
            }
            i = i + 1;
        }
        proof {
            assert(status@.take(i as int) =~= status@);
        }
        Self { input_status: Some(v), recovery_blocks: self.recovery_blocks }
    }

    /// Add a recovery block with the given exponent.
    pub fn with_recovery_block(self, present: bool, exponent: u16) -> (b: Self)
        ensures
            b.input_status == self.input_status,
            b.recovery_blocks@ == self.recovery_blocks@.push((present, exponent)),
    {
        let mut s = self;
        s.recovery_blocks.push((present, exponent));
        s
    }

    /// Add recovery blocks with the exponents `low_exponent..=high_exponent`.
    pub fn with_recovery_blocks_range(self, present: bool, low_exponent: u16, high_exponent: u16) -> (b: Self)
        ensures
            b.input_status == self.input_status,
            rows_of_pairs(b.recovery_blocks@) == rows_of_pairs(self.recovery_blocks@) + range_rows(present, low_exponent, high_exponent),
            b.recovery_blocks@.len() == self.recovery_blocks@.len() + range_len(low_exponent, high_exponent),
    {
        let ghost start = self.recovery_blocks@;
        let mut s = self;
        if low_exponent > high_exponent {
            assert(rows_of_pairs(s.recovery_blocks@) + range_rows(present, low_exponent, high_exponent) =~= rows_of_pairs(start));
            return s;
        }
        let mut e: u16 = low_exponent;
        loop
            invariant
                low_exponent <= e <= high_exponent,
                s.input_status == self.input_status,
                s.recovery_blocks@.len() == start.len() + (e - low_exponent),
                start == self.recovery_blocks@,
                rows_of_pairs(s.recovery_blocks@) == rows_of_pairs(start) + rows_from(present, low_exponent, (e - low_exponent) as nat),
            decreases high_exponent - e,
        {
            let ghost prev = s.recovery_blocks@;
            s.recovery_blocks.push((present, e));
            proof {
                assert(rows_of_pairs(s.recovery_blocks@) =~= rows_of_pairs(prev).push(RsOutputRow { present, exponent: e }));
                assert(rows_from(present, low_exponent, (e - low_exponent + 1) as nat) =~= rows_from(present, low_exponent, (e - low_exponent) as nat).push(RsOutputRow { present, exponent: e }));
                assert(range_rows(present, low_exponent, high_exponent) =~= rows_from(present, low_exponent, (high_exponent - low_exponent + 1) as nat));
            }
            if e == high_exponent {
                return s;
            }
            e = e + 1;
        }
    }

    /// Build the [`ReedSolomon`] instance: the input status is applied first
    /// (when set), then each recovery block in order.
    pub fn build(self) -> (res: Result<ReedSolomon, RsError>)
        requires
            self.recovery_blocks@.len() < u32::MAX,
        ensures
            res is Ok <==> (self.input_status matches Some(st) ==> inputs_accepted(st@.len())),
            res is Err ==> (res matches Err(RsError::TooManyInputBlocks)),
            res matches Ok(rs) ==> {
                &&& rs.wf()
                &&& rs.output_rows@ == rows_of_pairs(self.recovery_blocks@)
                &&& rs.left_matrix@.len() == 0
                &&& forall|k: int| 0 <= k < rs.database@.len() ==> #[trigger] rs.database@[k] == base_value(k as nat)
                &&& match self.input_status {
                    Some(st) => {
                        &&& rs.input_count == #[verifier::truncate] (st@.len() as u32)
                        &&& rs.data_present_index@ == indices_where(st@, true)
                        &&& rs.data_missing_index@ == indices_where(st@, false)
                        &&& rs.database@.len() == st@.len()
                    },
                    None => {
                        &&& rs.input_count == 0
                        &&& rs.database@.len() == 0
                        &&& rs.data_present_index@.len() == 0
                        &&& rs.data_missing_index@.len() == 0
                    },
                }
            },
    {
        let mut rs = ReedSolomon::new();
        match &self.input_status {
            Some(status) => {
                let r = rs.set_input(status.as_slice());
                if r.is_err() {
                    return Err(RsError::TooManyInputBlocks);
                }
            },
            None => {},
        }
        let ghost rs_in = rs;
        let mut i: usize = 0;
        while i < self.recovery_blocks.len()
            invariant
                i <= self.recovery_blocks@.len(),
                self.recovery_blocks@.len() < u32::MAX,
                rs.wf(),
                rs.output_rows@ == rows_of_pairs(self.recovery_blocks@.take(i as int)),
                rs.input_count == rs_in.input_count,
                rs.data_present_index@ == rs_in.data_present_index@,
                rs.data_missing_index@ == rs_in.data_missing_index@,
                rs.database@ == rs_in.database@,
                rs.left_matrix@.len() == 0,
            decreases self.recovery_blocks@.len() - i,
        {
            let (present, exponent) = self.recovery_blocks[i];
            let _ = rs.set_output(present, exponent);
            proof {
                assert(rows_of_pairs(self.recovery_blocks@.take(i as int + 1)) =~= rows_of_pairs(self.recovery_blocks@.take(i as int)).push(RsOutputRow { present, exponent }));
            }
            i = i + 1;
        }
        proof {
            assert(self.recovery_blocks@.take(i as int) =~= self.recovery_blocks@);
        }
        Ok(rs)
    }
}

impl Default for ReedSolomonBuilder {
    fn default() -> (b: Self)
        ensures
            b.input_status is None,
            b.recovery_blocks@.len() == 0,
    {
        Self::new()
    }
}

/// Number of exponents in `low..=high`.
pub open spec fn range_len(low: u16, high: u16) -> int {
    if low <= high {
        high - low + 1
    } else {
        0
    }
}

/// The output rows recorded for the exponents `low..=high`.
pub open spec fn range_rows(present: bool, low: u16, high: u16) -> Seq<RsOutputRow> {
    rows_from(present, low, range_len(low, high) as nat)
}

/// `n` output rows with consecutive exponents starting at `low`.
pub open spec fn rows_from(present: bool, low: u16, n: nat) -> Seq<RsOutputRow> {
    Seq::new(n, |i: int| RsOutputRow { present, exponent: (low + i) as u16 })
}

/// There are no more matching exponents than rows.
pub proof fn lemma_exponents_len(rows: Seq<RsOutputRow>)
    ensures
        exponents_where(rows, true).len() + exponents_where(rows, false).len() == rows.len(),
    decreases rows.len(),
{
    if rows.len() > 0 {
        lemma_exponents_len(rows.drop_last());
    }
}

} // verus!
