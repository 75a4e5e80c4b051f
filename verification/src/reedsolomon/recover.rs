//! Rebuilding missing input slices from the recovery slices and the slices
//! that are present.
use crate::elimination::gmat;
use crate::encoder::encode_spec;
use crate::field::{gf_mul, lemma_gf_mul_zero_left, lemma_gf_mul_comm, lemma_xor};
use crate::fxmap::{index_map_get, slice_map_get, slice_map_insert, slice_map_keys, slice_map_new, IndexMap, SliceMap};
use crate::galois::{decimal_spec, group_galois16, push_decimal, Galois16};
use vstd::string::StringExecFns;
use crate::linalg::{dot, identity, is_product, lemma_inverse_row_nonzero, singular};
use crate::reedsolomon::codec::gpow;
use crate::reedsolomon::engine::{singular_text, square_part, ReconstructionEngine};
use crate::recovery_law::{
    data_layout, encoded_from, lemma_local_inverse, lemma_local_solution, lemma_missing_distinct,
    lemma_reconstruction_recovers_data, lemma_word_add, local_layout, word,
};
use crate::reedsolomon::{
    build_split_mul_table, hi_byte, le_word, lemma_tables_multiply, lo_byte, mul_into, mul_word_byte,
    process_slice_multiply_add, WriteOp,
};
use vstd::prelude::*;

verus! {

broadcast use group_galois16;

/// Result of a reconstruction.
#[derive(Debug)]
pub struct ReconstructionResult {
    pub success: bool,
    pub reconstructed_slices: SliceMap,
    pub error_message: Option<String>,
}

/// The message for a matrix that could not be inverted.
fn invert_failure_message(reason: &String) -> (m: String)
    ensures
        m@ == "Failed to invert matrix: "@ + reason@,
{
    let mut m = String::new();
    m.append("Failed to invert matrix: ");
    m.append(reason.as_str());
    proof {
        assert(m@ =~= "Failed to invert matrix: "@ + reason@);
    }
    m
}

/// The message for a missing slice without any contribution.
fn no_coefficient_message(index: usize) -> (m: String)
    ensures
        m@ == "Internal error: no coefficients found for slice "@ + decimal_spec(index as nat),
{
    let mut m = String::new();
    m.append("Internal error: no coefficients found for slice ");
    push_decimal(&mut m, index);
    proof {
        assert(m@ =~= "Internal error: no coefficients found for slice "@ + decimal_spec(index as nat));
    }
    m
}

/// The exponent of recovery slice `eq`, as the 16-bit exponent used.
pub open spec fn recovery_exponent(e: &ReconstructionEngine, eq: int) -> u16 {
    e.recovery_slices@[eq].exponent as u16
}

/// The system for the missing slices: row `eq` holds, for each missing
/// slice, its base raised to the exponent of recovery slice `eq`.
pub open spec fn missing_system(e: &ReconstructionEngine, missing: Seq<usize>) -> Seq<Seq<u16>> {
    Seq::new(missing.len(), |eq: int| Seq::new(missing.len(), |c: int| gpow(e.base_values@[missing[c] as int], recovery_exponent(e, eq))))
}

/// The coefficients of present slice `key` in the first `n` recovery slices.
pub open spec fn key_coefficients(e: &ReconstructionEngine, key: usize, n: nat) -> Seq<u16> {
    Seq::new(n, |eq: int| gpow(e.base_values@[key as int], recovery_exponent(e, eq)))
}

/// The coefficient of present slice `key` in the output of row `inv_row`.
pub open spec fn combined_coefficient(e: &ReconstructionEngine, inv_row: Seq<u16>, key: usize) -> u16 {
    if key < e.total_input_slices {
        dot(inv_row, key_coefficients(e, key, inv_row.len()))
    } else {
        0
    }
}

/// The data that go into an output: the first `n` recovery slices, then
/// the present slices in the order `keys`.
pub open spec fn output_data(e: &ReconstructionEngine, slices: Map<usize, Vec<u8>>, keys: Seq<usize>, n: nat) -> Seq<Seq<u8>> {
    Seq::new(n, |eq: int| e.recovery_slices@[eq].recovery_data@) + Seq::new(keys.len(), |i: int| slices[keys[i]]@)
}

/// The coefficients of those data for the output of row `inv_row`.
pub open spec fn output_coefficients(e: &ReconstructionEngine, inv_row: Seq<u16>, keys: Seq<usize>) -> Seq<u16> {
    inv_row + Seq::new(keys.len(), |i: int| combined_coefficient(e, inv_row, keys[i]))
}

/// The reconstructed slice for the output of row `inv_row`.
pub open spec fn reconstructed(e: &ReconstructionEngine, slices: Map<usize, Vec<u8>>, keys: Seq<usize>, inv_row: Seq<u16>) -> Seq<u8> {
    encode_spec(output_data(e, slices, keys, inv_row.len()), output_coefficients(e, inv_row, keys), e.slice_size as nat)
}

/// Adding zero times anything changes nothing.
proof fn lemma_mul_into_zero(input: Seq<u8>, old_out: Seq<u8>)
    ensures
        mul_into(0, input, old_out, WriteOp::Add) == old_out,
{
    let m = if input.len() < old_out.len() {
        input.len() as int
    } else {
        old_out.len() as int
    };
    assert forall|i: int| 0 <= i < m implies #[trigger] mul_word_byte(0, input, old_out, m, i, WriteOp::Add) == old_out[i] by {
        let k = i / 2;
        if i < (m / 2) * 2 {
            lemma_gf_mul_zero_left(crate::reedsolomon::le_word(input[2 * k], input[2 * k + 1]));
        } else {
            lemma_gf_mul_zero_left(input[i] as u16);
        }
        lemma_xor_zero_u8(old_out[i]);
    }
    assert(mul_into(0, input, old_out, WriteOp::Add) =~= old_out);
}

proof fn lemma_xor_zero_u8(b: u8)
    by (bit_vector)
    ensures
        b ^ (((0u16 % 256) as u8)) == b,
        b ^ (((0u16 / 256) as u8)) == b,
{
}

impl ReconstructionEngine {
    /// One base value per input slice.
    pub open spec fn wf(&self) -> bool {
        self.base_values@.len() == self.total_input_slices
    }

    /// The system for the missing slices, as rows of field elements.
    fn missing_matrix(&self, missing: &[usize]) -> (m: Vec<Vec<Galois16>>)
        requires
            missing@.len() <= self.recovery_slices@.len(),
            forall|i: int| 0 <= i < missing@.len() ==> #[trigger] missing@[i] < self.base_values@.len(),
        ensures
            m@.len() == missing@.len(),
            forall|i: int| 0 <= i < m@.len() ==> #[trigger] m@[i]@.len() == missing@.len(),
            gmat(m@) == missing_system(self, missing@),
    {
        let n = missing.len();
        let mut m: Vec<Vec<Galois16>> = Vec::with_capacity(n);
        let mut eq: usize = 0;
        while eq < n
            invariant
                n == missing@.len(),
                n <= self.recovery_slices@.len(),
                forall|i: int| 0 <= i < n ==> #[trigger] missing@[i] < self.base_values@.len(),
                eq <= n,
                m@.len() == eq,
                forall|i: int| 0 <= i < eq ==> #[trigger] m@[i]@.len() == n,
                forall|i: int| 0 <= i < eq ==> #[trigger] gmat(m@)[i] == missing_system(self, missing@)[i],
            decreases n - eq,
        {
            let exponent = self.recovery_slices[eq].exponent as u16;
            let mut row: Vec<Galois16> = Vec::with_capacity(n);
            let mut c: usize = 0;
            while c < n
                invariant
                    n == missing@.len(),
                    eq < n,
                    n <= self.recovery_slices@.len(),
                    exponent == recovery_exponent(self, eq as int),
                    forall|i: int| 0 <= i < n ==> #[trigger] missing@[i] < self.base_values@.len(),
                    c <= n,
                    row@.len() == c,
                    forall|j: int| 0 <= j < c ==> (#[trigger] row@[j])@ == gpow(self.base_values@[missing@[j] as int], exponent),
                decreases n - c,
            {
                let base = Galois16::new(self.base_values[missing[c]]);
                row.push(base.pow(exponent));
                c = c + 1;
            }
            proof {
                assert(crate::elimination::gseq(row@) =~= missing_system(self, missing@)[eq as int]);
            }
            let ghost prev = m@;
            m.push(row);
            proof {
                assert forall|i: int| 0 <= i < eq + 1 implies #[trigger] gmat(m@)[i] == missing_system(self, missing@)[i] by {
                    if i < eq {
                        assert(m@[i] == prev[i]);
                        assert(gmat(prev)[i] == missing_system(self, missing@)[i]);
                        assert(gmat(m@)[i] == crate::elimination::gseq(m@[i]@));
                        assert(gmat(prev)[i] == crate::elimination::gseq(prev[i]@));
                    } else {
                        assert(m@[i] == row);
                    }
                }
            }
            eq = eq + 1;
        }
        proof {
            assert(gmat(m@) =~= missing_system(self, missing@));
        }
        m
    }

    /// The coefficient of present slice `key` for the output of `inv_row`.
    fn combined_coefficient_of(&self, inv_row: &Vec<Galois16>, key: usize) -> (c: u16)
        requires
            self.wf(),
            inv_row@.len() <= self.recovery_slices@.len(),
        ensures
            c == combined_coefficient(self, crate::elimination::gseq(inv_row@), key),
    {
        if key >= self.total_input_slices {
            return 0;
        }
        let n = inv_row.len();
        let ghost row = crate::elimination::gseq(inv_row@);
        let ghost kc = key_coefficients(self, key, n as nat);
        let mut acc = Galois16::new(0);
        let mut eq: usize = 0;
        while eq < n
            invariant
                self.wf(),
                key < self.total_input_slices,
                n == inv_row@.len(),
                n <= self.recovery_slices@.len(),
                row == crate::elimination::gseq(inv_row@),
                kc == key_coefficients(self, key, n as nat),
                eq <= n,
                acc@ == dot(row.take(eq as int), kc.take(eq as int)),
            decreases n - eq,
        {
            let exponent = self.recovery_slices[eq].exponent as u16;
            let coefficient = Galois16::new(self.base_values[key]).pow(exponent);
            acc = acc + inv_row[eq] * coefficient;
            proof {
                assert(row.take(eq as int + 1).drop_last() =~= row.take(eq as int));
                assert(kc.take(eq as int + 1).drop_last() =~= kc.take(eq as int));
            }
            eq = eq + 1;
        }
        proof {
            assert(row.take(n as int) =~= row);
            assert(kc.take(n as int) =~= kc);
        }
        acc.value()
    }
}

impl ReconstructionEngine {
    /// The output for one row of the inverse: every recovery slice and
    /// every present slice times its coefficient, added into zeros; and
    /// whether any coefficient was nonzero.
    fn accumulate_output(&self, inv_row: &Vec<Galois16>, keys: &Vec<usize>, all_slices: &SliceMap) -> (r: (Vec<u8>, bool))
        requires
            self.wf(),
            inv_row@.len() <= self.recovery_slices@.len(),
            forall|i: int| 0 <= i < keys@.len() ==> all_slices@.contains_key(#[trigger] keys@[i]),
        ensures
            r.0@ == reconstructed(self, all_slices@, keys@, crate::elimination::gseq(inv_row@)),
            r.1 == exists|j: int| 0 <= j < inv_row@.len() + keys@.len()
                && #[trigger] output_coefficients(self, crate::elimination::gseq(inv_row@), keys@)[j] != 0,
    {
        let n = inv_row.len();
        let ghost row = crate::elimination::gseq(inv_row@);
        let ghost datas = output_data(self, all_slices@, keys@, n as nat);
        let ghost coeffs = output_coefficients(self, row, keys@);
        let mut out: Vec<u8> = vec![0u8; self.slice_size];
        let mut nonzero = false;
        proof {
            assert(out@ =~= encode_spec(datas.take(0), coeffs, self.slice_size as nat));
        }
        let mut eq: usize = 0;
        while eq < n
            invariant
                self.wf(),
                n == inv_row@.len(),
                n <= self.recovery_slices@.len(),
                row == crate::elimination::gseq(inv_row@),
                datas == output_data(self, all_slices@, keys@, n as nat),
                coeffs == output_coefficients(self, row, keys@),
                eq <= n,
                out@ == encode_spec(datas.take(eq as int), coeffs, self.slice_size as nat),
                out@.len() == self.slice_size,
                nonzero == exists|j: int| 0 <= j < eq && #[trigger] coeffs[j] != 0,
            decreases n - eq,
        {
            let c = inv_row[eq];
            let ghost before = out@;
            proof {
                assert(coeffs[eq as int] == c@);
                assert(datas[eq as int] == self.recovery_slices@[eq as int].recovery_data@);
                assert(datas.take(eq as int + 1).drop_last() =~= datas.take(eq as int));
            }
            if c.value() != 0 {
                let table = build_split_mul_table(c);
                process_slice_multiply_add(self.recovery_slices[eq].recovery_data.as_slice(), out.as_mut_slice(), &table);
                proof {
                    lemma_tables_multiply(&table, c@, self.recovery_slices@[eq as int].recovery_data@, before, out@, WriteOp::Add);
                }
                nonzero = true;
            } else {
                proof {
                    lemma_mul_into_zero(self.recovery_slices@[eq as int].recovery_data@, before);
                }
            }
            eq = eq + 1;
        }
        let mut i: usize = 0;
        while i < keys.len()
            invariant
                self.wf(),
                n == inv_row@.len(),
                n <= self.recovery_slices@.len(),
                row == crate::elimination::gseq(inv_row@),
                datas == output_data(self, all_slices@, keys@, n as nat),
                coeffs == output_coefficients(self, row, keys@),
                forall|k: int| 0 <= k < keys@.len() ==> all_slices@.contains_key(#[trigger] keys@[k]),
                i <= keys@.len(),
                out@ == encode_spec(datas.take(n + i), coeffs, self.slice_size as nat),
                out@.len() == self.slice_size,
                nonzero == exists|j: int| 0 <= j < n + i && #[trigger] coeffs[j] != 0,
            decreases keys@.len() - i,
        {
            let key = keys[i];
            let c = self.combined_coefficient_of(inv_row, key);
            let ghost before = out@;
            proof {
                assert(coeffs[n + i] == c);
                assert(datas[n + i] == all_slices@[key]@);
                assert(datas.take(n + i + 1).drop_last() =~= datas.take(n + i));
                assert(all_slices@.contains_key(key));
            }
            if c != 0 {
                let data = slice_map_get(all_slices, key);
                match data {
                    Some(d) => {
                        let table = build_split_mul_table(Galois16::new(c));
                        process_slice_multiply_add(d.as_slice(), out.as_mut_slice(), &table);
                        proof {
                            lemma_tables_multiply(&table, c, all_slices@[key]@, before, out@, WriteOp::Add);
                        }
                    },
                    None => {},
                }
                nonzero = true;
            } else {
                proof {
                    lemma_mul_into_zero(all_slices@[key]@, before);
                }
            }
            i = i + 1;
        }
        proof {
            assert(datas.take(n + i) =~= datas);
        }
        (out, nonzero)
    }

    /// Reconstruct the slices with the given global indices from all the
    /// slices present (by global index) and the recovery slices.
    ///
    /// The system of the missing slices over the first recovery slices is
    /// inverted once; each missing slice is then the sum of every recovery
    /// slice times its entry of the inverse, and of every present slice
    /// times the coefficient that the inverse gives it.
    pub fn reconstruct_missing_slices_global(&self, all_slices: &SliceMap, global_missing_indices: &[usize], _total_input_slices: usize) -> (r: ReconstructionResult)
        requires
            self.wf(),
            0 < global_missing_indices@.len() <= self.recovery_slices@.len() ==>
                forall|i: int| 0 <= i < global_missing_indices@.len() ==> #[trigger] global_missing_indices@[i] < self.base_values@.len(),
            2 * global_missing_indices@.len() <= usize::MAX,
        ensures
            global_missing_indices@.len() == 0 ==> r.success && r.error_message is None,
            global_missing_indices@.len() > 0 && self.recovery_slices@.len() < global_missing_indices@.len() ==> !r.success
                && (r.error_message matches Some(m) && m@ == "Not enough recovery slices available"@),
            r.success <==> (global_missing_indices@.len() == 0 || (global_missing_indices@.len() <= self.recovery_slices@.len()
                && !singular(missing_system(self, global_missing_indices@), global_missing_indices@.len()))),
            0 < global_missing_indices@.len() <= self.recovery_slices@.len() && !r.success ==> (r.error_message matches Some(m)
                && exists|c: nat| c < global_missing_indices@.len() && m@ == "Failed to invert matrix: "@ + #[trigger] singular_text(c)),
            !r.success ==> r.error_message is Some && forall|k: usize| !r.reconstructed_slices@.contains_key(k),
            r.success ==> forall|k: usize| r.reconstructed_slices@.contains_key(k) <==> global_missing_indices@.contains(k),
            r.success && global_missing_indices@.len() > 0 ==> r.error_message is None && exists|inv: Seq<Seq<u16>>, ks: Seq<usize>| {
                &&& ks.no_duplicates()
                &&& ks.to_set() == all_slices@.dom()
                &&& is_product(inv, missing_system(self, global_missing_indices@), identity(global_missing_indices@.len()), global_missing_indices@.len(), global_missing_indices@.len())
                &&& forall|out: int| 0 <= out < global_missing_indices@.len()
                    && (forall|later: int| out < later < global_missing_indices@.len() ==> global_missing_indices@[later] != global_missing_indices@[out])
                    ==> #[trigger] r.reconstructed_slices@[global_missing_indices@[out]]@ == reconstructed(self, all_slices@, ks, inv[out])
            },
            r.success && global_missing_indices@.len() > 0 ==> forall|data: Seq<Seq<u8>>|
                #[trigger] encoded_from(self, data, global_missing_indices@.len())
                && data_layout(self, data, all_slices@, global_missing_indices@)
                ==> forall|out: int| 0 <= out < global_missing_indices@.len() ==>
                    #[trigger] r.reconstructed_slices@[global_missing_indices@[out]]@ == data[global_missing_indices@[out] as int],
    {
        let n = global_missing_indices.len();
        if n == 0 {
            let empty = slice_map_new();
            proof {
                assert forall|k: usize| empty@.contains_key(k) <==> global_missing_indices@.contains(k) by {}
            }
            return ReconstructionResult { success: true, reconstructed_slices: empty, error_message: None };
        }
        if !self.can_reconstruct(n) {
            return ReconstructionResult {
                success: false,
                reconstructed_slices: slice_map_new(),
                error_message: Some("Not enough recovery slices available".to_string()),
            };
        }
        let matrix = self.missing_matrix(global_missing_indices);
        proof {
            assert(square_part(matrix@, n as nat) =~= missing_system(self, global_missing_indices@)) by {
                assert forall|i: int| 0 <= i < n implies #[trigger] square_part(matrix@, n as nat)[i] =~= missing_system(self, global_missing_indices@)[i] by {
                    assert(gmat(matrix@)[i] == crate::elimination::gseq(matrix@[i]@));
                }
            }
        }
        let matrix_inv = match self.invert_gf_matrix(matrix.as_slice()) {
            Ok(inv) => inv,
            Err(e) => {
                proof {
                    assert(matrix@[0]@.len() == n);
                }
                return ReconstructionResult {
                    success: false,
                    reconstructed_slices: slice_map_new(),
                    error_message: Some(invert_failure_message(&e)),
                };
            },
        };
        let ghost inv = gmat(matrix_inv@);
        proof {
            assert(matrix@[0]@.len() == n);
            assert(!singular(missing_system(self, global_missing_indices@), n as nat));
            assert forall|i: int| 0 <= i < n implies #[trigger] matrix_inv@[i]@.len() == n by {
                assert(gmat(matrix_inv@)[i].len() == n);
            }
        }
        let keys = slice_map_keys(all_slices);
        proof {
            assert forall|i: int| 0 <= i < keys@.len() implies all_slices@.contains_key(#[trigger] keys@[i]) by {
                assert(keys@.to_set().contains(keys@[i]));
            }
        }
        let mut result = slice_map_new();
        let mut out: usize = 0;
        while out < n
            invariant
                self.wf(),
                n == global_missing_indices@.len(),
                n <= self.recovery_slices@.len(),
                matrix_inv@.len() == n,
                forall|i: int| 0 <= i < n ==> #[trigger] matrix_inv@[i]@.len() == n,
                inv == gmat(matrix_inv@),
                is_product(inv, missing_system(self, global_missing_indices@), identity(n as nat), n as nat, n as nat),
                !singular(missing_system(self, global_missing_indices@), n as nat),
                keys@.no_duplicates(),
                keys@.to_set() == all_slices@.dom(),
                forall|i: int| 0 <= i < keys@.len() ==> all_slices@.contains_key(#[trigger] keys@[i]),
                out <= n,
                forall|k: usize| result@.contains_key(k) <==> global_missing_indices@.take(out as int).contains(k),
                forall|o: int| 0 <= o < out && (forall|later: int| o < later < out ==> global_missing_indices@[later] != global_missing_indices@[o])
                    ==> #[trigger] result@[global_missing_indices@[o]]@ == reconstructed(self, all_slices@, keys@, inv[o]),
            decreases n - out,
        {
            let (buffer, nonzero) = self.accumulate_output(&matrix_inv[out], &keys, all_slices);
            proof {
                lemma_inverse_row_nonzero(inv, missing_system(self, global_missing_indices@), n as nat, out as int);
                let k = choose|k: int| 0 <= k < n && #[trigger] inv[out as int][k] != 0;
                assert(inv[out as int] == crate::elimination::gseq(matrix_inv@[out as int]@));
                assert(output_coefficients(self, crate::elimination::gseq(matrix_inv@[out as int]@), keys@)[k] != 0);
            }
            if !nonzero {
                return ReconstructionResult {
                    success: false,
                    reconstructed_slices: slice_map_new(),
                    error_message: Some(no_coefficient_message(global_missing_indices[out])),
                };
            }
            let ghost before = result@;
            let ghost key_out = global_missing_indices@[out as int];
            slice_map_insert(&mut result, global_missing_indices[out], buffer);
            proof {
                assert(inv[out as int] == crate::elimination::gseq(matrix_inv@[out as int]@));
                assert forall|k: usize| result@.contains_key(k) <==> global_missing_indices@.take(out as int + 1).contains(k) by {
                    let s1 = global_missing_indices@.take(out as int);
                    let s2 = global_missing_indices@.take(out as int + 1);
                    assert(s2 =~= s1.push(key_out));
                    if s2.contains(k) {
                        let j = choose|j: int| 0 <= j < s2.len() && s2[j] == k;
                        if j < out {
                            assert(s1[j] == k);
                        }
                    }
                    if s1.contains(k) {
                        let j = choose|j: int| 0 <= j < s1.len() && s1[j] == k;
                        assert(s2[j] == k);
                    }
                    if k == key_out {
                        assert(s2[out as int] == k);
                    }
                }
                assert forall|o: int| 0 <= o < out + 1 && (forall|later: int| o < later < out + 1 ==> global_missing_indices@[later] != global_missing_indices@[o])
                    implies #[trigger] result@[global_missing_indices@[o]]@ == reconstructed(self, all_slices@, keys@, inv[o]) by {
                    if o < out {
                        assert(global_missing_indices@[out as int] != global_missing_indices@[o]);
                        assert(result@[global_missing_indices@[o]] == before[global_missing_indices@[o]]);
                    }
                }
            }
            out = out + 1;
        }
        proof {
            assert(global_missing_indices@.take(n as int) =~= global_missing_indices@);
            lemma_missing_distinct(self, global_missing_indices@, inv);
            assert forall|data: Seq<Seq<u8>>|
                #[trigger] encoded_from(self, data, global_missing_indices@.len())
                && data_layout(self, data, all_slices@, global_missing_indices@)
                implies forall|o: int| 0 <= o < global_missing_indices@.len() ==>
                    #[trigger] result@[global_missing_indices@[o]]@ == data[global_missing_indices@[o] as int] by {
                assert forall|o: int| 0 <= o < global_missing_indices@.len() implies
                    #[trigger] result@[global_missing_indices@[o]]@ == data[global_missing_indices@[o] as int] by {
                    assert forall|later: int| o < later < n implies global_missing_indices@[later] != global_missing_indices@[o] by {}
                    assert(result@[global_missing_indices@[o]]@ == reconstructed(self, all_slices@, keys@, inv[o]));
                    lemma_reconstruction_recovers_data(self, data, all_slices@, global_missing_indices@, keys@, inv, o);
                }
            }
        }
        ReconstructionResult { success: true, reconstructed_slices: result, error_message: None }
    }
}

/// The little-endian word at word position `wp` of `data`, or zero when
/// the data end before it.
pub open spec fn word_at(data: Seq<u8>, wp: int) -> u16 {
    if 2 * wp + 1 < data.len() {
        le_word(data[2 * wp], data[2 * wp + 1])
    } else {
        0
    }
}

/// The system of the missing slices given by file-local index: the column
/// of a slice that the map does not place is zero.
pub open spec fn local_system(e: &ReconstructionEngine, missing: Seq<usize>, gmap: Map<usize, usize>) -> Seq<Seq<u16>> {
    Seq::new(missing.len(), |eq: int| Seq::new(missing.len(), |c: int|
        if gmap.contains_key(missing[c]) {
            gpow(e.base_values@[gmap[missing[c]] as int], recovery_exponent(e, eq))
        } else {
            0
        }))
}

/// What present slice `k` adds to equation `eq` at word position `wp`.
pub open spec fn present_term(e: &ReconstructionEngine, slices: Map<usize, Vec<u8>>, gmap: Map<usize, usize>, k: usize, eq: int, wp: int) -> u16 {
    if gmap.contains_key(k) && gmap[k] < e.total_input_slices {
        gf_mul(gpow(e.base_values@[gmap[k] as int], recovery_exponent(e, eq)), word_at(slices[k]@, wp))
    } else {
        0
    }
}

/// The right-hand side of equation `eq` at word position `wp`: the
/// recovery word minus what the present slices (in the order `ks`) add.
pub open spec fn rhs_word(e: &ReconstructionEngine, slices: Map<usize, Vec<u8>>, gmap: Map<usize, usize>, ks: Seq<usize>, eq: int, wp: int) -> u16
    decreases ks.len(),
{
    if ks.len() == 0 {
        word_at(e.recovery_slices@[eq].recovery_data@, wp)
    } else {
        rhs_word(e, slices, gmap, ks.drop_last(), eq, wp) ^ present_term(e, slices, gmap, ks.last(), eq, wp)
    }
}

/// The right-hand sides of the first `n` equations at word position `wp`.
pub open spec fn rhs_vector(e: &ReconstructionEngine, slices: Map<usize, Vec<u8>>, gmap: Map<usize, usize>, ks: Seq<usize>, n: nat, wp: int) -> Seq<u16> {
    Seq::new(n, |eq: int| rhs_word(e, slices, gmap, ks, eq, wp))
}

/// A slice of `size` bytes whose word `wp` is the `i`-th entry of
/// `sols[wp]` (zero past the last whole word).
pub open spec fn assembled(sols: Seq<Seq<u16>>, i: int, size: nat) -> Seq<u8> {
    Seq::new(size, |b: int|
        if b / 2 < sols.len() {
            if b % 2 == 0 {
                lo_byte(sols[b / 2][i])
            } else {
                hi_byte(sols[b / 2][i])
            }
        } else {
            0u8
        })
}

/// The message for a system that could not be solved.
fn solve_failure_message(word: usize, reason: &String) -> (m: String)
    ensures
        m@ == "Failed to solve linear system at word "@ + decimal_spec(word as nat) + ": "@ + reason@,
{
    let mut m = String::new();
    m.append("Failed to solve linear system at word ");
    push_decimal(&mut m, word);
    m.append(": ");
    m.append(reason.as_str());
    proof {
        assert(m@ =~= "Failed to solve linear system at word "@ + decimal_spec(word as nat) + ": "@ + reason@);
    }
    m
}

impl ReconstructionEngine {
    /// The system of the missing slices, with file-local indices.
    fn local_matrix(&self, missing: &[usize], gmap: &IndexMap) -> (m: Vec<Vec<Galois16>>)
        requires
            missing@.len() <= self.recovery_slices@.len(),
            forall|i: int| 0 <= i < missing@.len() && gmap@.contains_key(missing@[i]) ==> #[trigger] gmap@[missing@[i]] < self.base_values@.len(),
        ensures
            m@.len() == missing@.len(),
            forall|i: int| 0 <= i < m@.len() ==> #[trigger] m@[i]@.len() == missing@.len(),
            gmat(m@) == local_system(self, missing@, gmap@),
    {
        let n = missing.len();
        let mut m: Vec<Vec<Galois16>> = Vec::with_capacity(n);
        let mut eq: usize = 0;
        while eq < n
            invariant
                n == missing@.len(),
                n <= self.recovery_slices@.len(),
                forall|i: int| 0 <= i < n && gmap@.contains_key(missing@[i]) ==> #[trigger] gmap@[missing@[i]] < self.base_values@.len(),
                eq <= n,
                m@.len() == eq,
                forall|i: int| 0 <= i < eq ==> #[trigger] m@[i]@.len() == n,
                forall|i: int| 0 <= i < eq ==> #[trigger] gmat(m@)[i] == local_system(self, missing@, gmap@)[i],
            decreases n - eq,
        {
            let exponent = self.recovery_slices[eq].exponent as u16;
            let mut row: Vec<Galois16> = Vec::with_capacity(n);
            let mut c: usize = 0;
            while c < n
                invariant
                    n == missing@.len(),
                    eq < n,
                    n <= self.recovery_slices@.len(),
                    exponent == recovery_exponent(self, eq as int),
                    forall|i: int| 0 <= i < n && gmap@.contains_key(missing@[i]) ==> #[trigger] gmap@[missing@[i]] < self.base_values@.len(),
                    c <= n,
                    row@.len() == c,
                    forall|j: int| 0 <= j < c ==> (#[trigger] row@[j])@ == local_system(self, missing@, gmap@)[eq as int][j],
                decreases n - c,
            {
                match index_map_get(gmap, missing[c]) {
                    Some(g) => {
                        let base = Galois16::new(self.base_values[g]);
                        row.push(base.pow(exponent));
                    },
                    None => {
                        row.push(Galois16::new(0));
                    },
                }
                c = c + 1;
            }
            proof {
                assert(crate::elimination::gseq(row@) =~= local_system(self, missing@, gmap@)[eq as int]);
            }
            let ghost prev = m@;
            m.push(row);
            proof {
                assert forall|i: int| 0 <= i < eq + 1 implies #[trigger] gmat(m@)[i] == local_system(self, missing@, gmap@)[i] by {
                    if i < eq {
                        assert(m@[i] == prev[i]);
                        assert(gmat(prev)[i] == local_system(self, missing@, gmap@)[i]);
                        assert(gmat(m@)[i] == crate::elimination::gseq(m@[i]@));
                        assert(gmat(prev)[i] == crate::elimination::gseq(prev[i]@));
                    } else {
                        assert(m@[i] == row);
                    }
                }
            }
            eq = eq + 1;
        }
        proof {
            assert(gmat(m@) =~= local_system(self, missing@, gmap@));
        }
        m
    }

    /// The right-hand sides at one word position.
    fn rhs_at(&self, existing: &SliceMap, gmap: &IndexMap, keys: &Vec<usize>, n: usize, wp: usize) -> (rhs: Vec<Galois16>)
        requires
            self.wf(),
            n <= self.recovery_slices@.len(),
            forall|i: int| 0 <= i < keys@.len() ==> existing@.contains_key(#[trigger] keys@[i]),
            2 * wp + 2 <= usize::MAX,
        ensures
            rhs@.len() == n,
            crate::elimination::gseq(rhs@) == rhs_vector(self, existing@, gmap@, keys@, n as nat, wp as int),
    {
        let mut rhs: Vec<Galois16> = Vec::with_capacity(n);
        let mut eq: usize = 0;
        while eq < n
            invariant
                self.wf(),
                n <= self.recovery_slices@.len(),
                forall|i: int| 0 <= i < keys@.len() ==> existing@.contains_key(#[trigger] keys@[i]),
                2 * wp + 2 <= usize::MAX,
                eq <= n,
                rhs@.len() == eq,
                forall|j: int| 0 <= j < eq ==> (#[trigger] rhs@[j])@ == rhs_word(self, existing@, gmap@, keys@, j, wp as int),
            decreases n - eq,
        {
            let exponent = self.recovery_slices[eq].exponent as u16;
            let mut acc = Galois16::new(word_of(&self.recovery_slices[eq].recovery_data, wp));
            let mut i: usize = 0;
            while i < keys.len()
                invariant
                    self.wf(),
                    eq < n,
                    n <= self.recovery_slices@.len(),
                    exponent == recovery_exponent(self, eq as int),
                    forall|k: int| 0 <= k < keys@.len() ==> existing@.contains_key(#[trigger] keys@[k]),
                    2 * wp + 2 <= usize::MAX,
                    i <= keys@.len(),
                    acc@ == rhs_word(self, existing@, gmap@, keys@.take(i as int), eq as int, wp as int),
                decreases keys@.len() - i,
            {
                let key = keys[i];
                let ghost prev = acc@;
                proof {
                    assert(keys@.take(i as int + 1).drop_last() =~= keys@.take(i as int));
                    assert(existing@.contains_key(key));
                }
                let mut term = Galois16::new(0);
                match index_map_get(gmap, key) {
                    Some(g) => {
                        if g < self.total_input_slices {
                            match slice_map_get(existing, key) {
                                Some(data) => {
                                    let coefficient = Galois16::new(self.base_values[g]).pow(exponent);
                                    term = coefficient * Galois16::new(word_of(data, wp));
                                },
                                None => {},
                            }
                        }
                    },
                    None => {},
                }
                proof {
                    assert(term@ == present_term(self, existing@, gmap@, key, eq as int, wp as int));
                }
                acc = acc - term;
                i = i + 1;
            }
            proof {
                assert(keys@.take(i as int) =~= keys@);
            }
            rhs.push(acc);
            eq = eq + 1;
        }
        proof {
            assert(crate::elimination::gseq(rhs@) =~= rhs_vector(self, existing@, gmap@, keys@, n as nat, wp as int));
        }
        rhs
    }
}

/// The little-endian word at word position `wp`, or zero past the end.
fn word_of(data: &Vec<u8>, wp: usize) -> (w: u16)
    requires
        2 * wp + 2 <= usize::MAX,
    ensures
        w == word_at(data@, wp as int),
{
    let off = wp * 2;
    if off + 1 < data.len() {
        let lo = data[off];
        let hi = data[off + 1];
        proof {
            lemma_le_bits(lo, hi);
        }
        (lo as u16) | ((hi as u16) << 8)
    } else {
        0
    }
}

proof fn lemma_le_bits(lo: u8, hi: u8)
    by (bit_vector)
    ensures
        ((lo as u16) | ((hi as u16) << 8u16)) == ((lo as int + 256 * (hi as int)) as u16),
{
}

/// `sol` solves the system at one word position: `sol = E * rhs` for a
/// matrix `E` with `E * A == I`.
pub open spec fn solves(a: Seq<Seq<u16>>, rhs: Seq<u16>, sol: Seq<u16>, n: nat) -> bool {
    exists|e: Seq<Seq<u16>>| {
        &&& is_product(e, a, identity(n), n, n)
        &&& sol.len() == n
        &&& forall|i: int| 0 <= i < n ==> #[trigger] sol[i] == dot(e[i], rhs)
    }
}

impl ReconstructionEngine {
    /// Reconstruct missing slices word by word: at each word position the
    /// linear system of the missing slices (with the present slices' terms
    /// moved to the right-hand side) is solved, and the solution gives that
    /// word of every missing slice.  Slices are named by file-local index;
    /// `global_slice_map` gives their global index.
    pub fn reconstruct_missing_slices(&self, existing_slices: &SliceMap, missing_slices: &[usize], global_slice_map: &IndexMap) -> (r: ReconstructionResult)
        requires
            self.wf(),
            missing_slices@.len() < usize::MAX,
            0 < missing_slices@.len() <= self.recovery_slices@.len() && self.slice_size / 2 > 0 ==>
                forall|i: int| 0 <= i < missing_slices@.len() && global_slice_map@.contains_key(missing_slices@[i])
                    ==> #[trigger] global_slice_map@[missing_slices@[i]] < self.base_values@.len(),
        ensures
            missing_slices@.len() == 0 ==> r.success && r.error_message is None && forall|k: usize| !r.reconstructed_slices@.contains_key(k),
            missing_slices@.len() > 0 && self.recovery_slices@.len() < missing_slices@.len() ==> !r.success
                && (r.error_message matches Some(m) && m@ == "Not enough recovery slices available"@),
            r.success <==> (missing_slices@.len() == 0 || (missing_slices@.len() <= self.recovery_slices@.len()
                && (self.slice_size / 2 > 0 ==> !singular(local_system(self, missing_slices@, global_slice_map@), missing_slices@.len())))),
            0 < missing_slices@.len() <= self.recovery_slices@.len() && !r.success ==> (r.error_message matches Some(m)
                && exists|c: nat| c < missing_slices@.len()
                    && m@ == "Failed to solve linear system at word "@ + decimal_spec(0) + ": "@ + #[trigger] singular_text(c)),
            !r.success ==> r.error_message is Some && forall|k: usize| !r.reconstructed_slices@.contains_key(k),
            r.success ==> r.error_message is None,
            r.success && self.slice_size / 2 == 0 ==> forall|k: usize| !r.reconstructed_slices@.contains_key(k),
            r.success && self.slice_size / 2 > 0 ==> forall|k: usize| r.reconstructed_slices@.contains_key(k) <==> missing_slices@.contains(k),
            r.success && self.slice_size / 2 > 0 && missing_slices@.len() > 0 ==> exists|ks: Seq<usize>, sols: Seq<Seq<u16>>| {
                &&& ks.no_duplicates()
                &&& ks.to_set() == existing_slices@.dom()
                &&& sols.len() == self.slice_size / 2
                &&& forall|wp: int| 0 <= wp < sols.len() ==> #[trigger] solves(
                    local_system(self, missing_slices@, global_slice_map@),
                    rhs_vector(self, existing_slices@, global_slice_map@, ks, missing_slices@.len(), wp),
                    sols[wp],
                    missing_slices@.len(),
                )
                &&& forall|idx: int| 0 <= idx < missing_slices@.len()
                    && (forall|later: int| idx < later < missing_slices@.len() ==> missing_slices@[later] != missing_slices@[idx])
                    ==> #[trigger] r.reconstructed_slices@[missing_slices@[idx]]@ == assembled(sols, idx, self.slice_size as nat)
            },
            r.success && self.slice_size / 2 > 0 && missing_slices@.len() > 0 ==> forall|data: Seq<Seq<u8>>|
                #[trigger] encoded_from(self, data, missing_slices@.len())
                && local_layout(self, data, existing_slices@, global_slice_map@, missing_slices@)
                ==> forall|idx: int| 0 <= idx < missing_slices@.len() ==>
                    #[trigger] r.reconstructed_slices@[missing_slices@[idx]]@ == data[global_slice_map@[missing_slices@[idx]] as int],
    {
        let n = missing_slices.len();
        if n == 0 {
            return ReconstructionResult { success: true, reconstructed_slices: slice_map_new(), error_message: None };
        }
        if !self.can_reconstruct(n) {
            return ReconstructionResult {
                success: false,
                reconstructed_slices: slice_map_new(),
                error_message: Some("Not enough recovery slices available".to_string()),
            };
        }
        let num_words = self.slice_size / 2;
        if num_words == 0 {
            return ReconstructionResult { success: true, reconstructed_slices: slice_map_new(), error_message: None };
        }
        let matrix = self.local_matrix(missing_slices, global_slice_map);
        let ghost a = local_system(self, missing_slices@, global_slice_map@);
        proof {
            assert(square_part(matrix@, n as nat) =~= a) by {
                assert forall|i: int| 0 <= i < n implies #[trigger] square_part(matrix@, n as nat)[i] =~= a[i] by {
                    assert(gmat(matrix@)[i] == crate::elimination::gseq(matrix@[i]@));
                }
            }
        }
        let keys = slice_map_keys(existing_slices);
        proof {
            assert forall|i: int| 0 <= i < keys@.len() implies existing_slices@.contains_key(#[trigger] keys@[i]) by {
                assert(keys@.to_set().contains(keys@[i]));
            }
        }
        let mut sols: Vec<Vec<Galois16>> = Vec::with_capacity(num_words);
        let mut wp: usize = 0;
        while wp < num_words
            invariant
                self.wf(),
                n == missing_slices@.len(),
                n > 0,
                n < usize::MAX,
                n <= self.recovery_slices@.len(),
                num_words == self.slice_size / 2,
                matrix@.len() == n,
                forall|i: int| 0 <= i < n ==> #[trigger] matrix@[i]@.len() == n,
                square_part(matrix@, n as nat) == a,
                a == local_system(self, missing_slices@, global_slice_map@),
                forall|i: int| 0 <= i < keys@.len() ==> existing_slices@.contains_key(#[trigger] keys@[i]),
                wp <= num_words,
                wp > 0 ==> !singular(a, n as nat),
                sols@.len() == wp,
                forall|w: int| 0 <= w < wp ==> (#[trigger] sols@[w])@.len() == n,
                forall|w: int| 0 <= w < wp ==> #[trigger] solves(a, rhs_vector(self, existing_slices@, global_slice_map@, keys@, n as nat, w), crate::elimination::gseq(sols@[w]@), n as nat),
            decreases num_words - wp,
        {
            let rhs = self.rhs_at(existing_slices, global_slice_map, &keys, n, wp);
            match self.solve_gf_system(matrix.as_slice(), rhs.as_slice()) {
                Ok(sol) => {
                    proof {
                        assert(matrix@[0]@.len() == n);
                        assert(!singular(a, n as nat));
                        let rv = rhs_vector(self, existing_slices@, global_slice_map@, keys@, n as nat, wp as int);
                        let sv = crate::elimination::gseq(sol@);
                        let e = choose|e: Seq<Seq<u16>>| {
                            &&& is_product(e, square_part(matrix@, n as nat), identity(n as nat), n as nat, n as nat)
                            &&& forall|i: int| 0 <= i < n ==> #[trigger] sol@[i]@ == dot(e[i], crate::elimination::gseq(rhs@))
                        };
                        assert forall|i: int| 0 <= i < n implies #[trigger] sv[i] == dot(e[i], rv) by {
                            assert(sol@[i]@ == dot(e[i], crate::elimination::gseq(rhs@)));
                        }
                        assert(solves(a, rv, sv, n as nat));
                    }
                    let ghost prev = sols@;
                    sols.push(sol);
                    proof {
                        assert forall|w: int| 0 <= w < wp + 1 implies #[trigger] solves(a, rhs_vector(self, existing_slices@, global_slice_map@, keys@, n as nat, w), crate::elimination::gseq(sols@[w]@), n as nat) by {
                            if w < wp {
                                assert(sols@[w] == prev[w]);
                            }
                        }
                        assert forall|w: int| 0 <= w < wp + 1 implies (#[trigger] sols@[w])@.len() == n by {
                            if w < wp {
                                assert(sols@[w] == prev[w]);
                            }
                        }
                    }
                },
                Err(e) => {
                    proof {
                        assert(matrix@[0]@.len() == n);
                    }
                    return ReconstructionResult {
                        success: false,
                        reconstructed_slices: slice_map_new(),
                        error_message: Some(solve_failure_message(wp, &e)),
                    };
                },
            }
            wp = wp + 1;
        }
        let mut result = slice_map_new();
        if num_words == 0 {
            return ReconstructionResult { success: true, reconstructed_slices: result, error_message: None };
        }
        let ghost sv = Seq::new(sols@.len(), |w: int| crate::elimination::gseq(sols@[w]@));
        let mut idx: usize = 0;
        while idx < n
            invariant
                n == missing_slices@.len(),
                n > 0,
                num_words == self.slice_size / 2,
                num_words > 0,
                sols@.len() == num_words,
                forall|w: int| 0 <= w < num_words ==> (#[trigger] sols@[w])@.len() == n,
                sv == Seq::new(sols@.len(), |w: int| crate::elimination::gseq(sols@[w]@)),
                a == local_system(self, missing_slices@, global_slice_map@),
                keys@.no_duplicates(),
                keys@.to_set() == existing_slices@.dom(),
                forall|w: int| 0 <= w < num_words ==> #[trigger] solves(a, rhs_vector(self, existing_slices@, global_slice_map@, keys@, n as nat, w), crate::elimination::gseq(sols@[w]@), n as nat),
                idx <= n,
                forall|k: usize| result@.contains_key(k) <==> missing_slices@.take(idx as int).contains(k),
                forall|o: int| 0 <= o < idx && (forall|later: int| o < later < idx ==> missing_slices@[later] != missing_slices@[o])
                    ==> #[trigger] result@[missing_slices@[o]]@ == assembled(sv, o, self.slice_size as nat),
            decreases n - idx,
        {
            let buf = assemble_slice(&sols, idx, self.slice_size);
            let ghost before = result@;
            let ghost key_out = missing_slices@[idx as int];
            proof {
                assert(buf@ == assembled(sv, idx as int, self.slice_size as nat)) by {
                    assert forall|b: int| 0 <= b < self.slice_size implies #[trigger] buf@[b] == assembled(sv, idx as int, self.slice_size as nat)[b] by {
                        if b / 2 < num_words {
                            assert(sv[b / 2][idx as int] == sols@[b / 2]@[idx as int]@);
                        }
                    }
                    assert(buf@ =~= assembled(sv, idx as int, self.slice_size as nat));
                }
            }
            slice_map_insert(&mut result, missing_slices[idx], buf);
            proof {
                assert forall|k: usize| result@.contains_key(k) <==> missing_slices@.take(idx as int + 1).contains(k) by {
                    let s1 = missing_slices@.take(idx as int);
                    let s2 = missing_slices@.take(idx as int + 1);
                    assert(s2 =~= s1.push(key_out));
                    if s2.contains(k) {
                        let j = choose|j: int| 0 <= j < s2.len() && s2[j] == k;
                        if j < idx {
                            assert(s1[j] == k);
                        }
                    }
                    if s1.contains(k) {
                        let j = choose|j: int| 0 <= j < s1.len() && s1[j] == k;
                        assert(s2[j] == k);
                    }
                    if k == key_out {
                        assert(s2[idx as int] == k);
                    }
                }
                assert forall|o: int| 0 <= o < idx + 1 && (forall|later: int| o < later < idx + 1 ==> missing_slices@[later] != missing_slices@[o])
                    implies #[trigger] result@[missing_slices@[o]]@ == assembled(sv, o, self.slice_size as nat) by {
                    if o < idx {
                        assert(missing_slices@[idx as int] != missing_slices@[o]);
                        assert(result@[missing_slices@[o]] == before[missing_slices@[o]]);
                    }
                }
            }
            idx = idx + 1;
        }
        proof {
            assert(missing_slices@.take(n as int) =~= missing_slices@);
            assert forall|w: int| 0 <= w < sv.len() implies #[trigger] solves(a, rhs_vector(self, existing_slices@, global_slice_map@, keys@, n as nat, w), sv[w], n as nat) by {
                assert(solves(a, rhs_vector(self, existing_slices@, global_slice_map@, keys@, n as nat, w), crate::elimination::gseq(sols@[w]@), n as nat));
            }
            let len = self.slice_size as nat;
            assert(sv.len() == self.slice_size / 2);
            assert forall|idx: int| 0 <= idx < missing_slices@.len()
                && (forall|later: int| idx < later < missing_slices@.len() ==> missing_slices@[later] != missing_slices@[idx])
                implies #[trigger] result@[missing_slices@[idx]]@ == assembled(sv, idx, self.slice_size as nat) by {}
            assert(exists|ks: Seq<usize>, sols: Seq<Seq<u16>>| {
                &&& ks.no_duplicates()
                &&& ks.to_set() == existing_slices@.dom()
                &&& sols.len() == self.slice_size / 2
                &&& forall|wp: int| 0 <= wp < sols.len() ==> #[trigger] solves(
                    local_system(self, missing_slices@, global_slice_map@),
                    rhs_vector(self, existing_slices@, global_slice_map@, ks, missing_slices@.len(), wp),
                    sols[wp],
                    missing_slices@.len(),
                )
                &&& forall|idx: int| 0 <= idx < missing_slices@.len()
                    && (forall|later: int| idx < later < missing_slices@.len() ==> missing_slices@[later] != missing_slices@[idx])
                    ==> #[trigger] result@[missing_slices@[idx]]@ == assembled(sols, idx, self.slice_size as nat)
            }) by {
                assert({
                    &&& keys@.no_duplicates()
                    &&& keys@.to_set() == existing_slices@.dom()
                    &&& sv.len() == self.slice_size / 2
                    &&& forall|wp: int| 0 <= wp < sv.len() ==> #[trigger] solves(
                        local_system(self, missing_slices@, global_slice_map@),
                        rhs_vector(self, existing_slices@, global_slice_map@, keys@, missing_slices@.len(), wp),
                        sv[wp],
                        missing_slices@.len(),
                    )
                    &&& forall|idx: int| 0 <= idx < missing_slices@.len()
                        && (forall|later: int| idx < later < missing_slices@.len() ==> missing_slices@[later] != missing_slices@[idx])
                        ==> #[trigger] result@[missing_slices@[idx]]@ == assembled(sv, idx, self.slice_size as nat)
                });
            }
            assert forall|data: Seq<Seq<u8>>|
                #[trigger] encoded_from(self, data, missing_slices@.len())
                && local_layout(self, data, existing_slices@, global_slice_map@, missing_slices@)
                implies forall|idx: int| 0 <= idx < missing_slices@.len() ==>
                    #[trigger] result@[missing_slices@[idx]]@ == data[global_slice_map@[missing_slices@[idx]] as int] by {
                // The missing slices are distinct: the system at word 0 has an inverse.
                assert(solves(a, rhs_vector(self, existing_slices@, global_slice_map@, keys@, n as nat, 0), sv[0], n as nat));
                let inv0 = choose|inv: Seq<Seq<u16>>| {
                    &&& is_product(inv, a, identity(n as nat), n as nat, n as nat)
                    &&& sv[0].len() == n
                    &&& forall|q: int| 0 <= q < n ==> #[trigger] sv[0][q] == dot(inv[q], rhs_vector(self, existing_slices@, global_slice_map@, keys@, n as nat, 0))
                };
                assert forall|idx: int| 0 <= idx < missing_slices@.len() implies
                    #[trigger] result@[missing_slices@[idx]]@ == data[global_slice_map@[missing_slices@[idx]] as int] by {
                    assert forall|later: int| idx < later < n implies missing_slices@[later] != missing_slices@[idx] by {
                        lemma_local_inverse(self, missing_slices@, global_slice_map@, inv0, idx, idx);
                        lemma_local_inverse(self, missing_slices@, global_slice_map@, inv0, idx, later);
                    }
                    let target = data[global_slice_map@[missing_slices@[idx]] as int];
                    let got = assembled(sv, idx, len);
                    assert(result@[missing_slices@[idx]]@ == got);
                    assert forall|b: int| 0 <= b < len implies #[trigger] got[b] == target[b] by {
                        let w = b / 2;
                        lemma_local_solution(self, data, existing_slices@, global_slice_map@, missing_slices@, keys@, sv[w], w, idx);
                        assert(sv[w][idx] == word(target, w));
                        lemma_word_add(target[2 * w], target[2 * w + 1], 0);
                        assert(b == 2 * w || b == 2 * w + 1);
                    }
                    assert(got =~= target);
                }
            }
        }
        ReconstructionResult { success: true, reconstructed_slices: result, error_message: None }
    }
}

/// A slice of `size` bytes whose word `wp` is entry `i` of `sols[wp]`.
fn assemble_slice(sols: &Vec<Vec<Galois16>>, i: usize, size: usize) -> (buf: Vec<u8>)
    requires
        sols@.len() == size / 2,
        forall|w: int| 0 <= w < sols@.len() ==> i < (#[trigger] sols@[w])@.len(),
    ensures
        buf@.len() == size,
        forall|b: int| 0 <= b < size ==> #[trigger] buf@[b] == (if b / 2 < sols@.len() {
            if b % 2 == 0 {
                lo_byte(sols@[b / 2]@[i as int]@)
            } else {
                hi_byte(sols@[b / 2]@[i as int]@)
            }
        } else {
            0u8
        }),
{
    let mut buf: Vec<u8> = vec![0u8; size];
    let mut wp: usize = 0;
    while wp < sols.len()
        invariant
            sols@.len() == size / 2,
            forall|w: int| 0 <= w < sols@.len() ==> i < (#[trigger] sols@[w])@.len(),
            buf@.len() == size,
            wp <= sols@.len(),
            forall|b: int| 0 <= b < size ==> #[trigger] buf@[b] == (if b / 2 < wp {
                if b % 2 == 0 {
                    lo_byte(sols@[b / 2]@[i as int]@)
                } else {
                    hi_byte(sols@[b / 2]@[i as int]@)
                }
            } else {
                0u8
            }),
        decreases sols@.len() - wp,
    {
        let v = sols[wp][i].value();
        proof {
            crate::field::lemma_shr1(v);
        }
        buf.set(2 * wp, (v & 0xff) as u8);
        buf.set(2 * wp + 1, (v >> 8) as u8);
        proof {
            assert forall|b: int| 0 <= b < size implies #[trigger] buf@[b] == (if b / 2 < wp + 1 {
                if b % 2 == 0 {
                    lo_byte(sols@[b / 2]@[i as int]@)
                } else {
                    hi_byte(sols@[b / 2]@[i as int]@)
                }
            } else {
                0u8
            }) by {
                if b / 2 == wp {
                    assert(b == 2 * wp || b == 2 * wp + 1);
                }
            }
        }
        wp = wp + 1;
    }
    buf
}

/// The coefficients of a chunked reconstruction: for each missing slice,
/// the row of the inverse (one coefficient per recovery slice) and one
/// coefficient per available slice.
pub struct ChunkedReconstructionPlan {
    pub missing: Vec<usize>,
    pub available: Vec<usize>,
    pub recovery_coefficients: Vec<Vec<u16>>,
    pub present_coefficients: Vec<Vec<u16>>,
}

impl ChunkedReconstructionPlan {
    /// One row per missing slice; rows as long as the recovery slices used
    /// and the available slices.
    pub open spec fn wf(&self) -> bool {
        &&& self.recovery_coefficients@.len() == self.missing@.len()
        &&& self.present_coefficients@.len() == self.missing@.len()
        &&& forall|o: int| 0 <= o < self.missing@.len() ==> (#[trigger] self.recovery_coefficients@[o])@.len() == self.missing@.len()
        &&& forall|o: int| 0 <= o < self.missing@.len() ==> (#[trigger] self.present_coefficients@[o])@.len() == self.available@.len()
    }

    /// The coefficients of output `o`: recovery slices first, then the
    /// available slices.
    pub open spec fn coefficients_of(&self, o: int) -> Seq<u16> {
        self.recovery_coefficients@[o]@ + self.present_coefficients@[o]@
    }
}

/// `d` cut or zero-padded to `len` bytes.
pub open spec fn padded(d: Seq<u8>, len: nat) -> Seq<u8> {
    Seq::new(len, |i: int| if i < d.len() { d[i] } else { 0u8 })
}

fn pad_to(d: &Vec<u8>, len: usize) -> (p: Vec<u8>)
    ensures
        p@ == padded(d@, len as nat),
{
    let mut p: Vec<u8> = Vec::with_capacity(len);
    let mut i: usize = 0;
    while i < len
        invariant
            i <= len,
            p@ == padded(d@, len as nat).take(i as int),
        decreases len - i,
    {
        if i < d.len() {
            p.push(d[i]);
        } else {
            p.push(0);
        }
        proof {
            assert(p@ =~= padded(d@, len as nat).take(i as int + 1));
        }
        i = i + 1;
    }
    proof {
        assert(padded(d@, len as nat).take(len as int) =~= padded(d@, len as nat));
    }
    p
}

/// Multiply-adds `data` (padded to the output length) times `c` into `out`.
fn add_scaled(out: &mut Vec<u8>, data: &Vec<u8>, c: u16)
    ensures
        final(out)@ == mul_into(c, padded(data@, old(out)@.len()), old(out)@, WriteOp::Add),
{
    let p = pad_to(data, out.len());
    if c != 0 {
        let table = build_split_mul_table(Galois16::new(c));
        let ghost before = out@;
        process_slice_multiply_add(p.as_slice(), out.as_mut_slice(), &table);
        proof {
            lemma_tables_multiply(&table, c, p@, before, out@, WriteOp::Add);
        }
    } else {
        proof {
            lemma_mul_into_zero(p@, out@);
        }
    }
}

/// The chunk of each missing slice rebuilt from the chunks of the recovery
/// slices and of the available slices, each padded to `chunk_len` bytes.
pub fn reconstruct_chunk(plan: &ChunkedReconstructionPlan, chunk_len: usize, recovery_chunks: &Vec<Vec<u8>>, input_chunks: &Vec<Vec<u8>>) -> (outputs: Vec<Vec<u8>>)
    requires
        plan.wf(),
        recovery_chunks@.len() == plan.missing@.len(),
        input_chunks@.len() == plan.available@.len(),
    ensures
        outputs@.len() == plan.missing@.len(),
        forall|o: int| 0 <= o < outputs@.len() ==> (#[trigger] outputs@[o])@ == encode_spec(
            Seq::new(recovery_chunks@.len(), |eq: int| padded(recovery_chunks@[eq]@, chunk_len as nat))
                + Seq::new(input_chunks@.len(), |i: int| padded(input_chunks@[i]@, chunk_len as nat)),
            plan.coefficients_of(o),
            chunk_len as nat,
        ),
{
    let n = plan.missing.len();
    let ghost datas = Seq::new(recovery_chunks@.len(), |eq: int| padded(recovery_chunks@[eq]@, chunk_len as nat))
        + Seq::new(input_chunks@.len(), |i: int| padded(input_chunks@[i]@, chunk_len as nat));
    let mut outputs: Vec<Vec<u8>> = Vec::with_capacity(n);
    let mut o: usize = 0;
    while o < n
        invariant
            plan.wf(),
            n == plan.missing@.len(),
            recovery_chunks@.len() == n,
            input_chunks@.len() == plan.available@.len(),
            datas == Seq::new(recovery_chunks@.len(), |eq: int| padded(recovery_chunks@[eq]@, chunk_len as nat))
                + Seq::new(input_chunks@.len(), |i: int| padded(input_chunks@[i]@, chunk_len as nat)),
            o <= n,
            outputs@.len() == o,
            forall|k: int| 0 <= k < o ==> (#[trigger] outputs@[k])@ == encode_spec(datas, plan.coefficients_of(k), chunk_len as nat),
        decreases n - o,
    {
        let ghost coeffs = plan.coefficients_of(o as int);
        let mut buf: Vec<u8> = vec![0u8; chunk_len];
        proof {
            assert(buf@ =~= encode_spec(datas.take(0), coeffs, chunk_len as nat));
        }
        let mut j: usize = 0;
        while j < n
            invariant
                plan.wf(),
                n == plan.missing@.len(),
                o < n,
                recovery_chunks@.len() == n,
                input_chunks@.len() == plan.available@.len(),
                datas == Seq::new(recovery_chunks@.len(), |eq: int| padded(recovery_chunks@[eq]@, chunk_len as nat))
                    + Seq::new(input_chunks@.len(), |i: int| padded(input_chunks@[i]@, chunk_len as nat)),
                coeffs == plan.coefficients_of(o as int),
                j <= n,
                buf@.len() == chunk_len,
                buf@ == encode_spec(datas.take(j as int), coeffs, chunk_len as nat),
            decreases n - j,
        {
            let c = plan.recovery_coefficients[o][j];
            proof {
                assert(coeffs[j as int] == c);
                assert(datas[j as int] == padded(recovery_chunks@[j as int]@, chunk_len as nat));
                assert(datas.take(j as int + 1).drop_last() =~= datas.take(j as int));
            }
            add_scaled(&mut buf, &recovery_chunks[j], c);
            j = j + 1;
        }
        let m = input_chunks.len();
        let mut i: usize = 0;
        while i < m
            invariant
                plan.wf(),
                n == plan.missing@.len(),
                o < n,
                recovery_chunks@.len() == n,
                m == input_chunks@.len(),
                input_chunks@.len() == plan.available@.len(),
                datas == Seq::new(recovery_chunks@.len(), |eq: int| padded(recovery_chunks@[eq]@, chunk_len as nat))
                    + Seq::new(input_chunks@.len(), |i: int| padded(input_chunks@[i]@, chunk_len as nat)),
                coeffs == plan.coefficients_of(o as int),
                i <= m,
                buf@.len() == chunk_len,
                buf@ == encode_spec(datas.take(n + i), coeffs, chunk_len as nat),
            decreases m - i,
        {
            let c = plan.present_coefficients[o][i];
            proof {
                assert(coeffs[n + i] == c);
                assert(datas[n + i] == padded(input_chunks@[i as int]@, chunk_len as nat));
                assert(datas.take(n + i + 1).drop_last() =~= datas.take(n + i));
            }
            add_scaled(&mut buf, &input_chunks[i], c);
            i = i + 1;
        }
        proof {
            assert(datas.take(n + m) =~= datas);
        }
        outputs.push(buf);
        o = o + 1;
    }
    outputs
}

/// Chunk size used for chunked reconstruction when the caller passes zero.
pub const DEFAULT_CHUNK_SIZE: usize = 65536;

/// The chunk size to use: `chunk_size`, or the default when it is zero.
pub fn effective_chunk_size(chunk_size: usize) -> (n: usize)
    ensures
        n == (if chunk_size == 0 { DEFAULT_CHUNK_SIZE } else { chunk_size }),
        n > 0,
{
    if chunk_size == 0 {
        DEFAULT_CHUNK_SIZE
    } else {
        chunk_size
    }
}

impl ReconstructionEngine {
    /// The answer of a chunked reconstruction that ends before any slice
    /// data is read: success with nothing to rebuild when no slice is
    /// missing, failure when there are fewer recovery slices than missing
    /// ones; `None` when the reconstruction has to go on.
    pub fn chunked_early_result(&self, global_missing_indices: &[usize]) -> (r: Option<ReconstructionResult>)
        ensures
            r is None <==> 0 < global_missing_indices@.len() <= self.recovery_slices@.len(),
            global_missing_indices@.len() == 0 ==> (r matches Some(x) && x.success && x.error_message is None
                && forall|k: usize| !x.reconstructed_slices@.contains_key(k)),
            global_missing_indices@.len() > self.recovery_slices@.len() ==> (r matches Some(x) && !x.success
                && (x.error_message matches Some(m) && m@ == "Not enough recovery slices available"@)
                && forall|k: usize| !x.reconstructed_slices@.contains_key(k)),
    {
        if global_missing_indices.len() == 0 {
            return Some(ReconstructionResult { success: true, reconstructed_slices: slice_map_new(), error_message: None });
        }
        if !self.can_reconstruct(global_missing_indices.len()) {
            return Some(ReconstructionResult {
                success: false,
                reconstructed_slices: slice_map_new(),
                error_message: Some("Not enough recovery slices available".to_string()),
            });
        }
        None
    }
}

/// Number of chunks of `chunk_size` bytes that cover a slice of
/// `slice_size` bytes (the last one may be shorter).
pub fn chunk_count(slice_size: usize, chunk_size: usize) -> (n: usize)
    requires
        chunk_size > 0,
    ensures
        n as int == (slice_size as int + chunk_size as int - 1) / chunk_size as int,
{
    let q = slice_size / chunk_size;
    let r = slice_size % chunk_size;
    proof {
        vstd::arithmetic::div_mod::lemma_fundamental_div_mod(slice_size as int, chunk_size as int);
        assert(slice_size == chunk_size * q + r && 0 <= r < chunk_size);
        assert((slice_size as int + chunk_size as int - 1) / chunk_size as int == q + (if r == 0 { 0int } else { 1int })) by (nonlinear_arith)
            requires
                slice_size == chunk_size * q + r,
                0 <= r < chunk_size,
                chunk_size > 0,
        {
            vstd::arithmetic::div_mod::lemma_fundamental_div_mod(slice_size as int + chunk_size as int - 1, chunk_size as int);
        }
        assert(r > 0 ==> q < slice_size) by (nonlinear_arith)
            requires
                slice_size == chunk_size * q + r,
                chunk_size > 0,
        ;
    }
    if r == 0 { q } else { q + 1 }
}

/// Offset and length of chunk `index` of a slice: `index * chunk_size`,
/// and the rest of the slice or a whole chunk, whichever is shorter.
pub fn chunk_bounds(slice_size: usize, chunk_size: usize, index: usize) -> (r: (usize, usize))
    requires
        chunk_size > 0,
        (index as int) < (slice_size as int + chunk_size as int - 1) / chunk_size as int,
    ensures
        r.0 == index * chunk_size,
        r.0 < slice_size,
        r.1 == (if slice_size - r.0 < chunk_size { (slice_size - r.0) as int } else { chunk_size as int }),
        r.1 > 0,
{
    proof {
        assert(index * chunk_size < slice_size) by (nonlinear_arith)
            requires
                chunk_size > 0,
                (index as int) < (slice_size as int + chunk_size as int - 1) / chunk_size as int,
        ;
    }
    let offset = index * chunk_size;
    let rest = slice_size - offset;
    let len = if rest < chunk_size { rest } else { chunk_size };
    (offset, len)
}

impl ReconstructionEngine {
    /// The coefficients for reconstructing the given missing slices from
    /// the recovery slices and the slices in `available_slices`, chunk by
    /// chunk.  Fails exactly when missing slices are asked for and there are
    /// too few recovery slices, or the system of the missing slices is
    /// singular.
    pub fn plan_chunked_reconstruction(&self, global_missing_indices: &[usize], available_slices: &[usize]) -> (r: Result<ChunkedReconstructionPlan, String>)
        requires
            self.wf(),
            0 < global_missing_indices@.len() <= self.recovery_slices@.len() ==>
                forall|i: int| 0 <= i < global_missing_indices@.len() ==> #[trigger] global_missing_indices@[i] < self.base_values@.len(),
            2 * global_missing_indices@.len() <= usize::MAX,
        ensures
            global_missing_indices@.len() > 0 && self.recovery_slices@.len() < global_missing_indices@.len() ==> (r matches Err(m) && m@ == "Not enough recovery slices available"@),
            r is Err <==> ((global_missing_indices@.len() > 0 && self.recovery_slices@.len() < global_missing_indices@.len())
                || singular(missing_system(self, global_missing_indices@), global_missing_indices@.len())),
            0 < global_missing_indices@.len() <= self.recovery_slices@.len() ==> (r matches Err(m) ==>
                exists|c: nat| c < global_missing_indices@.len() && m@ == "Failed to invert matrix: "@ + #[trigger] singular_text(c)),
            r matches Ok(plan) ==> {
                &&& plan.wf()
                &&& plan.missing@ == global_missing_indices@
                &&& plan.available@ == available_slices@
                &&& exists|inv: Seq<Seq<u16>>| {
                    &&& is_product(inv, missing_system(self, global_missing_indices@), identity(global_missing_indices@.len()), global_missing_indices@.len(), global_missing_indices@.len())
                    &&& forall|o: int| 0 <= o < global_missing_indices@.len() ==> (#[trigger] plan.recovery_coefficients@[o])@ == inv[o]
                    &&& forall|o: int, i: int| 0 <= o < global_missing_indices@.len() && 0 <= i < available_slices@.len()
                        ==> #[trigger] plan.present_coefficients@[o]@[i] == combined_coefficient(self, inv[o], available_slices@[i])
                }
            },
    {
        let n = global_missing_indices.len();
        if n > 0 && !self.can_reconstruct(n) {
            return Err("Not enough recovery slices available".to_string());
        }
        let mut missing: Vec<usize> = Vec::with_capacity(n);
        let mut k: usize = 0;
        while k < n
            invariant
                n == global_missing_indices@.len(),
                k <= n,
                missing@ == global_missing_indices@.take(k as int),
            decreases n - k,
        {
            missing.push(global_missing_indices[k]);
            proof {
                assert(missing@ =~= global_missing_indices@.take(k as int + 1));
            }
            k = k + 1;
        }
        proof {
            assert(global_missing_indices@.take(n as int) =~= global_missing_indices@);
        }
        let mut available: Vec<usize> = Vec::with_capacity(available_slices.len());
        let mut k: usize = 0;
        while k < available_slices.len()
            invariant
                k <= available_slices@.len(),
                available@ == available_slices@.take(k as int),
            decreases available_slices@.len() - k,
        {
            available.push(available_slices[k]);
            proof {
                assert(available@ =~= available_slices@.take(k as int + 1));
            }
            k = k + 1;
        }
        proof {
            assert(available_slices@.take(available_slices@.len() as int) =~= available_slices@);
        }
        if n == 0 {
            let plan = ChunkedReconstructionPlan {
                missing,
                available,
                recovery_coefficients: Vec::new(),
                present_coefficients: Vec::new(),
            };
            proof {
                let inv = Seq::<Seq<u16>>::empty();
                assert(is_product(inv, missing_system(self, global_missing_indices@), identity(0), 0, 0));
            }
            return Ok(plan);
        }
        let matrix = self.missing_matrix(global_missing_indices);
        proof {
            assert(square_part(matrix@, n as nat) =~= missing_system(self, global_missing_indices@)) by {
                assert forall|i: int| 0 <= i < n implies #[trigger] square_part(matrix@, n as nat)[i] =~= missing_system(self, global_missing_indices@)[i] by {
                    assert(gmat(matrix@)[i] == crate::elimination::gseq(matrix@[i]@));
                }
            }
        }
        let matrix_inv = match self.invert_gf_matrix(matrix.as_slice()) {
            Ok(inv) => inv,
            Err(e) => {
                proof {
                    assert(matrix@[0]@.len() == n);
                }
                return Err(invert_failure_message(&e));
            },
        };
        let ghost inv = gmat(matrix_inv@);
        proof {
            assert forall|i: int| 0 <= i < n implies #[trigger] matrix_inv@[i]@.len() == n by {
                assert(gmat(matrix_inv@)[i].len() == n);
            }
        }
        let mut recovery_coefficients: Vec<Vec<u16>> = Vec::with_capacity(n);
        let mut present_coefficients: Vec<Vec<u16>> = Vec::with_capacity(n);
        let mut o: usize = 0;
        while o < n
            invariant
                self.wf(),
                n == global_missing_indices@.len(),
                n <= self.recovery_slices@.len(),
                matrix_inv@.len() == n,
                forall|i: int| 0 <= i < n ==> #[trigger] matrix_inv@[i]@.len() == n,
                inv == gmat(matrix_inv@),
                o <= n,
                recovery_coefficients@.len() == o,
                present_coefficients@.len() == o,
                forall|q: int| 0 <= q < o ==> (#[trigger] recovery_coefficients@[q])@ == inv[q],
                forall|q: int| 0 <= q < o ==> (#[trigger] present_coefficients@[q])@.len() == available_slices@.len(),
                forall|q: int, i: int| 0 <= q < o && 0 <= i < available_slices@.len()
                    ==> #[trigger] present_coefficients@[q]@[i] == combined_coefficient(self, inv[q], available_slices@[i]),
            decreases n - o,
        {
            let mut rrow: Vec<u16> = Vec::with_capacity(n);
            let mut j: usize = 0;
            while j < n
                invariant
                    n == global_missing_indices@.len(),
                    matrix_inv@.len() == n,
                    forall|i: int| 0 <= i < n ==> #[trigger] matrix_inv@[i]@.len() == n,
                    inv == gmat(matrix_inv@),
                    o < n,
                    j <= n,
                    rrow@ == inv[o as int].take(j as int),
                decreases n - j,
            {
                rrow.push(matrix_inv[o][j].value());
                proof {
                    assert(rrow@ =~= inv[o as int].take(j as int + 1));
                }
                j = j + 1;
            }
            proof {
                assert(inv[o as int].take(n as int) =~= inv[o as int]);
            }
            let mut prow: Vec<u16> = Vec::with_capacity(available_slices.len());
            let mut i: usize = 0;
            while i < available_slices.len()
                invariant
                    self.wf(),
                    n == global_missing_indices@.len(),
                    n <= self.recovery_slices@.len(),
                    matrix_inv@.len() == n,
                    forall|q: int| 0 <= q < n ==> #[trigger] matrix_inv@[q]@.len() == n,
                    inv == gmat(matrix_inv@),
                    o < n,
                    i <= available_slices@.len(),
                    prow@.len() == i,
                    forall|t: int| 0 <= t < i ==> #[trigger] prow@[t] == combined_coefficient(self, inv[o as int], available_slices@[t]),
                decreases available_slices@.len() - i,
            {
                let c = self.combined_coefficient_of(&matrix_inv[o], available_slices[i]);
                proof {
                    assert(inv[o as int] == crate::elimination::gseq(matrix_inv@[o as int]@));
                }
                prow.push(c);
                i = i + 1;
            }
            recovery_coefficients.push(rrow);
            present_coefficients.push(prow);
            o = o + 1;
        }
        Ok(ChunkedReconstructionPlan { missing, available, recovery_coefficients, present_coefficients })
    }
}

} // verus!
