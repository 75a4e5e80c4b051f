use par2rs::galois::{gcd, Galois16};
use par2rs::reedsolomon::{
    build_split_mul_table, process_slice_multiply_add, process_slice_multiply_direct,
    process_slice_multiply_mode, Matrix, ReconstructionEngine, RecoverySlicePacket, ReedSolomon,
    ReedSolomonBuilder, RsError, RsResult, WriteOp,
};

fn create_test_recovery_slice(exponent: u32, data_size: usize) -> RecoverySlicePacket {
    let recovery_data = vec![0u8; data_size];
    let length = (8 + 8 + 16 + 16 + 16 + 4 + data_size) as u64;
    RecoverySlicePacket {
        length,
        md5: [0; 16],
        set_id: [0; 16],
        type_of_packet: *b"PAR 2.0\0RecvSlic",
        exponent,
        recovery_data,
    }
}

#[test]
fn build_split_mul_table_zero_coefficient() {
    let table = build_split_mul_table(Galois16::new(0));
    for i in 0..256 {
        assert_eq!(table.low[i], 0, "low[{}] should be 0", i);
        assert_eq!(table.high[i], 0, "high[{}] should be 0", i);
    }
}

#[test]
fn build_split_mul_table_one_coefficient() {
    let table = build_split_mul_table(Galois16::new(1));
    for i in 0..256 {
        assert_eq!(table.low[i], i as u16, "low[{}] should be {}", i, i);
        assert_eq!(table.high[i], (i as u16) << 8, "high[{}] should be {}", i, i << 8);
    }
}

#[test]
fn build_split_mul_table_arbitrary_coefficient() {
    let coeff = Galois16::new(42);
    let table = build_split_mul_table(coeff);
    assert_eq!(table.low[0], 0);
    assert_eq!(table.high[0], 0);
    assert_eq!(table.low[1], 42);
    let val = 0x0F;
    let expected = coeff * Galois16::new(val);
    assert_eq!(table.low[val as usize] ^ table.high[0], expected.value());
}

#[test]
fn process_slice_multiply_direct_basic() {
    let input = vec![1, 2, 3, 4, 5, 6, 7, 8];
    let mut output = vec![0u8; 8];
    let coeff = Galois16::new(2);
    let tables = build_split_mul_table(coeff);
    process_slice_multiply_direct(&input, &mut output, &tables);
    for i in 0..4 {
        let in_word = u16::from_le_bytes([input[i * 2], input[i * 2 + 1]]);
        let out_word = u16::from_le_bytes([output[i * 2], output[i * 2 + 1]]);
        let expected = (coeff * Galois16::new(in_word)).value();
        assert_eq!(out_word, expected, "word {} mismatch", i);
    }
}

#[test]
fn process_slice_multiply_direct_empty() {
    let input: Vec<u8> = vec![];
    let mut output: Vec<u8> = vec![];
    let tables = build_split_mul_table(Galois16::new(1));
    process_slice_multiply_direct(&input, &mut output, &tables);
    assert!(output.is_empty());
}

#[test]
fn process_slice_multiply_direct_odd_length() {
    let input = vec![1, 2, 3, 4, 5];
    let mut output = vec![0u8; 5];
    let coeff = Galois16::new(3);
    let tables = build_split_mul_table(coeff);
    process_slice_multiply_direct(&input, &mut output, &tables);
    assert_ne!(output[4], 0);
}

#[test]
fn process_slice_multiply_add_accumulates() {
    let input = vec![1, 0, 2, 0];
    let mut output = vec![3, 0, 4, 0];
    let coeff = Galois16::new(2);
    let tables = build_split_mul_table(coeff);
    let original_output = output.clone();
    process_slice_multiply_add(&input, &mut output, &tables);
    for i in 0..2 {
        let in_word = u16::from_le_bytes([input[i * 2], input[i * 2 + 1]]);
        let orig_word = u16::from_le_bytes([original_output[i * 2], original_output[i * 2 + 1]]);
        let out_word = u16::from_le_bytes([output[i * 2], output[i * 2 + 1]]);
        let mult_result = (coeff * Galois16::new(in_word)).value();
        assert_eq!(out_word, orig_word ^ mult_result, "word {} mismatch", i);
    }
}

#[test]
fn process_slice_multiply_add_large_buffer() {
    let input = vec![0x5Au8; 128];
    let mut output = vec![0xA5u8; 128];
    let coeff = Galois16::new(123);
    let tables = build_split_mul_table(coeff);
    process_slice_multiply_add(&input, &mut output, &tables);
    assert_ne!(output, vec![0xA5u8; 128]);
}

#[test]
fn process_slice_multiply_mode_direct_vs_separate_function() {
    let input = vec![10, 20, 30, 40];
    let mut output1 = vec![0u8; 4];
    let mut output2 = vec![0u8; 4];
    let tables = build_split_mul_table(Galois16::new(7));
    process_slice_multiply_mode(&input, &mut output1, &tables, WriteOp::Direct);
    process_slice_multiply_direct(&input, &mut output2, &tables);
    assert_eq!(output1, output2, "Direct mode should match direct function");
}

#[test]
fn process_slice_multiply_mode_add_accumulates_correctly() {
    let input = vec![5, 0, 10, 0];
    let mut output = vec![1, 0, 2, 0];
    let tables = build_split_mul_table(Galois16::new(4));
    let expected_first_word =
        u16::from_le_bytes([1, 0]) ^ (Galois16::new(4) * Galois16::new(5)).value();
    process_slice_multiply_mode(&input, &mut output, &tables, WriteOp::Add);
    let result_first_word = u16::from_le_bytes([output[0], output[1]]);
    assert_eq!(result_first_word, expected_first_word);
}

#[test]
fn reed_solomon_basic_creation() {
    let mut rs = ReedSolomon::new();
    rs.set_input_all_present(4).unwrap();
    rs.set_output(false, 0).unwrap();
    rs.set_output(false, 1).unwrap();
    rs.compute().unwrap();
    assert_eq!(rs.data_present, 4);
    assert_eq!(rs.par_missing, 2);
}

#[test]
fn reed_solomon_reconstruction_scenario() {
    let mut rs = ReedSolomon::new();
    rs.set_input(&[true, false, true]).unwrap();
    rs.set_output(true, 0).unwrap();
    rs.compute().unwrap();
    assert_eq!(rs.data_missing, 1);
    assert_eq!(rs.par_present, 1);
}

#[test]
fn reed_solomon_all_inputs_missing_fails() {
    let mut rs = ReedSolomon::new();
    rs.set_input(&[false, false]).unwrap();
    rs.set_output(true, 0).unwrap();
    let result = rs.compute();
    assert!(result.is_err());
}

#[test]
fn reed_solomon_no_outputs_specified() {
    let mut rs = ReedSolomon::new();
    rs.set_input_all_present(3).unwrap();
    let result = rs.compute();
    assert!(result.is_err());
    assert!(matches!(result.unwrap_err(), RsError::NoOutputBlocks));
}

#[test]
fn reed_solomon_process_with_real_data() -> RsResult<()> {
    let mut rs = ReedSolomon::new();
    rs.set_input_all_present(2)?;
    rs.set_output(false, 0)?;
    rs.compute()?;
    let data = vec![1u8, 2, 3, 4];
    let mut recovery = vec![0u8; 4];
    rs.process(0, &data, 0, &mut recovery)?;
    assert_ne!(recovery, vec![0u8; 4]);
    Ok(())
}

#[test]
fn reed_solomon_builder_basic() {
    let rs = ReedSolomonBuilder::new()
        .with_input_status(&[true, true, false, true])
        .with_recovery_block(true, 0)
        .with_recovery_block(false, 1)
        .build()
        .expect("Failed to build ReedSolomon");
    assert_eq!(rs.input_count, 4);
    assert_eq!(rs.data_present, 3);
    assert_eq!(rs.data_missing, 1);
    assert_eq!(rs.output_count, 2);
    assert_eq!(rs.par_present, 1);
    assert_eq!(rs.par_missing, 1);
}

#[test]
fn reed_solomon_builder_range() {
    let rs = ReedSolomonBuilder::new()
        .with_input_status(&[true, true, true])
        .with_recovery_blocks_range(true, 0, 3)
        .build()
        .expect("Failed to build ReedSolomon");
    assert_eq!(rs.input_count, 3);
    assert_eq!(rs.data_present, 3);
    assert_eq!(rs.output_count, 4);
    assert_eq!(rs.par_present, 4);
}

#[test]
fn reed_solomon_builder_empty_inputs() {
    let result = ReedSolomonBuilder::new()
        .with_input_status(&[])
        .with_recovery_block(true, 0)
        .build();
    if let Ok(rs) = result {
        assert_eq!(rs.input_count, 0);
    }
}

#[test]
fn reed_solomon_builder_all_inputs_missing() {
    let result = ReedSolomonBuilder::new()
        .with_input_status(&[false, false, false])
        .with_recovery_block(true, 0)
        .build();
    if let Ok(mut rs) = result {
        assert_eq!(rs.data_missing, 3);
        assert_eq!(rs.data_present, 0);
        assert!(rs.compute().is_err());
    }
}

#[test]
fn reed_solomon_builder_many_recovery_blocks() {
    let rs = ReedSolomonBuilder::new()
        .with_input_status(&[true; 10])
        .with_recovery_blocks_range(true, 0, 50)
        .build()
        .expect("Should handle many recovery blocks");
    assert_eq!(rs.input_count, 10);
    assert_eq!(rs.output_count, 51);
}

#[test]
fn gcd_function_basic() {
    assert_eq!(gcd(48, 18), 6);
    assert_eq!(gcd(65535, 2), 1);
    assert_eq!(gcd(65535, 3), 3);
    assert_eq!(gcd(100, 50), 50);
    assert_eq!(gcd(17, 19), 1);
}

#[test]
fn reedsolomon_gcd_with_zero() {
    assert_eq!(gcd(0, 5), 0);
    assert_eq!(gcd(5, 0), 0);
    assert_eq!(gcd(0, 0), 0);
}

#[test]
fn reedsolomon_gcd_identical_numbers() {
    assert_eq!(gcd(42, 42), 42);
    assert_eq!(gcd(1, 1), 1);
    assert_eq!(gcd(65535, 65535), 65535);
}

#[test]
fn matrix_new_initializes_zeros() {
    let mat = Matrix::new(3, 4);
    assert_eq!(mat.rows, 3);
    assert_eq!(mat.cols, 4);
    for row in 0..3 {
        for col in 0..4 {
            assert_eq!(mat.get(row, col).value(), 0);
        }
    }
}

#[test]
fn matrix_identity() {
    let mat = Matrix::identity(4);
    for i in 0..4 {
        for j in 0..4 {
            if i == j {
                assert_eq!(mat.get(i, j).value(), 1);
            } else {
                assert_eq!(mat.get(i, j).value(), 0);
            }
        }
    }
}

#[test]
fn matrix_set_and_get() {
    let mut mat = Matrix::new(2, 2);
    mat.set(0, 0, Galois16::new(5));
    mat.set(1, 1, Galois16::new(10));
    assert_eq!(mat.get(0, 0).value(), 5);
    assert_eq!(mat.get(1, 1).value(), 10);
    assert_eq!(mat.get(0, 1).value(), 0);
}

#[test]
fn matrix_swap_rows() {
    let mut mat = Matrix::new(3, 2);
    mat.set(0, 0, Galois16::new(1));
    mat.set(0, 1, Galois16::new(2));
    mat.set(1, 0, Galois16::new(3));
    mat.set(1, 1, Galois16::new(4));
    mat.swap_rows(0, 1);
    assert_eq!(mat.get(0, 0).value(), 3);
    assert_eq!(mat.get(0, 1).value(), 4);
    assert_eq!(mat.get(1, 0).value(), 1);
    assert_eq!(mat.get(1, 1).value(), 2);
}

#[test]
fn par2_base_values_match_par2cmdline() {
    let mut rs = ReedSolomon::new();
    rs.set_input_all_present(10).unwrap();
    let expected_bases = [2u16, 4, 16, 128, 256, 2048, 8192, 16384, 4107, 32856];
    for (i, &expected) in expected_bases.iter().enumerate() {
        assert_eq!(rs.database[i], expected, "Base value {} mismatch", i);
    }
}

#[test]
fn par2_logbase_selection_rule() {
    let mut rs = ReedSolomon::new();
    rs.set_input_all_present(20).unwrap();
    for (i, &base) in rs.database.iter().enumerate() {
        let log_val = Galois16::new(base).log();
        let gcd_result = gcd(65535, log_val as u32);
        assert_eq!(gcd_result, 1, "Base {} (value {}) has log {}", i, base, log_val);
    }
}

#[test]
fn build_matrix_creates_recovery() -> RsResult<()> {
    let mut rs = ReedSolomon::new();
    rs.set_input_all_present(3)?;
    rs.set_output(false, 0)?;
    rs.set_output(false, 1)?;
    rs.compute()?;
    assert!(!rs.left_matrix.is_empty());
    let expected_size = (rs.par_missing * (rs.data_present + rs.data_missing)) as usize;
    assert_eq!(rs.left_matrix.len(), expected_size);
    Ok(())
}

#[test]
fn build_matrix_with_missing_data() -> RsResult<()> {
    let mut rs = ReedSolomon::new();
    rs.set_input(&[true, false, true])?;
    rs.set_output(true, 0)?;
    rs.compute()?;
    assert!(!rs.left_matrix.is_empty());
    let expected_rows = rs.data_missing + rs.par_missing;
    let expected_cols = rs.data_present + rs.data_missing;
    let expected_size = (expected_rows * expected_cols) as usize;
    assert_eq!(rs.left_matrix.len(), expected_size);
    Ok(())
}

#[test]
fn gaussian_elimination_single_missing() -> RsResult<()> {
    let mut rs = ReedSolomon::new();
    rs.set_input(&[true, false, true])?;
    rs.set_output(true, 0)?;
    let result = rs.compute();
    assert!(result.is_ok(), "Gaussian elimination should succeed");
    Ok(())
}

#[test]
fn gaussian_elimination_multiple_missing() -> RsResult<()> {
    let mut rs = ReedSolomon::new();
    rs.set_input(&[true, false, true, false])?;
    rs.set_output(true, 0)?;
    rs.set_output(true, 1)?;
    let result = rs.compute();
    assert!(result.is_ok(), "Gaussian elimination with multiple missing should succeed");
    Ok(())
}

#[test]
fn process_applies_matrix_coefficient() -> RsResult<()> {
    let mut rs = ReedSolomon::new();
    rs.set_input_all_present(2)?;
    rs.set_output(false, 0)?;
    rs.compute()?;
    let input = vec![1u8, 2, 3, 4];
    let mut output = vec![0u8; 4];
    rs.process(0, &input, 0, &mut output)?;
    assert_ne!(output, vec![0u8; 4], "Output should be modified");
    Ok(())
}

#[test]
fn process_with_zero_coefficient_does_nothing() -> RsResult<()> {
    let mut rs = ReedSolomon::new();
    rs.set_input_all_present(3)?;
    rs.set_output(false, 0)?;
    rs.compute()?;
    if !rs.left_matrix.is_empty() {
        rs.left_matrix[0] = Galois16::new(0);
        let input = vec![1u8, 2, 3, 4];
        let mut output = vec![5u8; 4];
        let original_output = output.clone();
        rs.process(0, &input, 0, &mut output)?;
        assert_eq!(output, original_output);
    }
    Ok(())
}

#[test]
fn process_accumulates_correctly() -> RsResult<()> {
    let mut rs = ReedSolomon::new();
    rs.set_input_all_present(2)?;
    rs.set_output(false, 0)?;
    rs.compute()?;
    let input1 = vec![1u8; 8];
    let input2 = vec![2u8; 8];
    let mut output = vec![0u8; 8];
    rs.process(0, &input1, 0, &mut output)?;
    let after_first = output.clone();
    rs.process(1, &input2, 0, &mut output)?;
    assert_ne!(output, vec![0u8; 8]);
    assert_ne!(output, after_first);
    Ok(())
}

#[test]
fn set_output_range() -> RsResult<()> {
    let mut rs = ReedSolomon::new();
    rs.set_input_all_present(5)?;
    rs.set_output_range(true, 0, 3)?;
    assert_eq!(rs.output_count, 4);
    assert_eq!(rs.par_present, 4);
    assert_eq!(rs.par_missing, 0);
    Ok(())
}

#[test]
fn set_output_range_mixed() -> RsResult<()> {
    let mut rs = ReedSolomon::new();
    rs.set_input_all_present(5)?;
    rs.set_output_range(true, 0, 2)?;
    rs.set_output_range(false, 3, 5)?;
    assert_eq!(rs.output_count, 6);
    assert_eq!(rs.par_present, 3);
    assert_eq!(rs.par_missing, 3);
    Ok(())
}

#[test]
fn reconstruction_engine_creation() {
    let recovery_slices = vec![];
    let engine = ReconstructionEngine::new(1024, 10, recovery_slices);
    assert_eq!(engine.slice_size, 1024);
    assert_eq!(engine.total_input_slices, 10);
    assert_eq!(engine.base_values.len(), 10);
}

#[test]
fn reconstruction_engine_base_values_match_par2() {
    let recovery_slices = vec![];
    let engine = ReconstructionEngine::new(1024, 10, recovery_slices);
    let expected = [2u16, 4, 16, 128, 256, 2048, 8192, 16384, 4107, 32856];
    for (i, &expected_base) in expected.iter().enumerate() {
        assert_eq!(engine.base_values[i], expected_base, "Base {} mismatch", i);
    }
}

#[test]
fn reconstruction_engine_can_reconstruct() {
    let recovery_slices = vec![
        create_test_recovery_slice(0, 1024),
        create_test_recovery_slice(1, 1024),
    ];
    let engine = ReconstructionEngine::new(1024, 10, recovery_slices);
    assert!(engine.can_reconstruct(1));
    assert!(engine.can_reconstruct(2));
    assert!(!engine.can_reconstruct(3));
}

#[test]
fn invert_gf_matrix_identity() -> Result<(), String> {
    let engine = ReconstructionEngine::new(0, 0, vec![]);
    let identity = vec![
        vec![Galois16::new(1), Galois16::new(0), Galois16::new(0)],
        vec![Galois16::new(0), Galois16::new(1), Galois16::new(0)],
        vec![Galois16::new(0), Galois16::new(0), Galois16::new(1)],
    ];
    let inv = engine.invert_gf_matrix(&identity)?;
    assert_eq!(inv, identity);
    Ok(())
}

#[test]
fn solve_gf_system_simple() -> Result<(), String> {
    let engine = ReconstructionEngine::new(0, 0, vec![]);
    let mat = vec![
        vec![Galois16::new(1), Galois16::new(0)],
        vec![Galois16::new(0), Galois16::new(1)],
    ];
    let rhs = vec![Galois16::new(5), Galois16::new(7)];
    let sol = engine.solve_gf_system(&mat, &rhs)?;
    assert_eq!(sol[0].value(), 5);
    assert_eq!(sol[1].value(), 7);
    Ok(())
}

#[test]
fn invert_gf_matrix_singular() {
    let engine = ReconstructionEngine::new(0, 0, vec![]);
    let singular = vec![
        vec![Galois16::new(1), Galois16::new(2)],
        vec![Galois16::new(1), Galois16::new(2)],
    ];
    let res = engine.invert_gf_matrix(&singular);
    assert!(res.is_err());
}

#[test]
fn solve_gf_system_singular() {
    let engine = ReconstructionEngine::new(0, 0, vec![]);
    let mat = vec![
        vec![Galois16::new(1), Galois16::new(2)],
        vec![Galois16::new(1), Galois16::new(2)],
    ];
    let rhs = vec![Galois16::new(1), Galois16::new(2)];
    let res = engine.solve_gf_system(&mat, &rhs);
    assert!(res.is_err());
}

#[test]
fn build_matrix_all_data_present_creates_recovery_matrix() -> RsResult<()> {
    let mut rs = ReedSolomon::new();
    rs.set_input_all_present(4)?;
    rs.set_output(false, 0)?;
    rs.set_output(false, 1)?;
    rs.compute()?;
    assert_eq!(rs.left_matrix.len(), 2 * 4);
    for col in 0..4 {
        let base = Galois16::new(rs.database[col]);
        let expected = base.pow(0);
        assert_eq!(rs.left_matrix[col], expected);
    }
    for col in 0..4 {
        let base = Galois16::new(rs.database[col]);
        let expected = base.pow(1);
        assert_eq!(rs.left_matrix[4 + col], expected);
    }
    Ok(())
}

#[test]
fn build_matrix_with_one_missing_one_present() -> RsResult<()> {
    let mut rs = ReedSolomon::new();
    rs.set_input(&[true, false, true])?;
    rs.set_output(true, 0)?;
    rs.compute()?;
    assert_eq!(rs.left_matrix.len(), 3);
    assert_eq!(rs.left_matrix[2].value(), 1);
    Ok(())
}

#[test]
fn build_matrix_identity_columns_for_missing_data() -> RsResult<()> {
    let mut rs = ReedSolomon::new();
    rs.set_input(&[true, false, true, false])?;
    rs.set_output(true, 0)?;
    rs.set_output(true, 1)?;
    let out_count = rs.data_missing + rs.par_missing;
    let in_count = rs.data_present + rs.data_missing;
    rs.left_matrix = vec![Galois16::new(0); (out_count * in_count) as usize];
    rs.build_matrix(out_count, in_count, None)?;
    assert_eq!(rs.left_matrix[2].value(), 1);
    assert_eq!(rs.left_matrix[3].value(), 0);
    assert_eq!(rs.left_matrix[(in_count + 2) as usize].value(), 0);
    assert_eq!(rs.left_matrix[(in_count + 3) as usize].value(), 1);
    Ok(())
}

#[test]
fn gauss_eliminate_performs_pivot_scaling() -> RsResult<()> {
    let mut rs = ReedSolomon::new();
    rs.set_input(&[true, false, true])?;
    rs.set_output(true, 1)?;
    let result = rs.compute();
    assert!(result.is_ok());
    Ok(())
}

#[test]
fn process_slice_multiply_mode_direct_small_buffer() {
    let tables = build_split_mul_table(Galois16::new(5));
    let input = vec![1u8, 2, 3, 4];
    let mut output = vec![99u8; 4];
    process_slice_multiply_mode(&input, &mut output, &tables, WriteOp::Direct);
    assert_ne!(output, vec![99u8; 4]);
    let expected = {
        let mut buf = vec![0u8; 4];
        process_slice_multiply_direct(&input, &mut buf, &tables);
        buf
    };
    assert_eq!(output, expected);
}

#[test]
fn process_slice_multiply_mode_add_small_buffer() {
    let tables = build_split_mul_table(Galois16::new(7));
    let input = vec![1u8, 2, 3, 4];
    let mut output = vec![5u8, 6, 7, 8];
    let original_output = output.clone();
    process_slice_multiply_mode(&input, &mut output, &tables, WriteOp::Add);
    assert_ne!(output, original_output);
}

#[test]
fn process_slice_multiply_mode_odd_length() {
    let tables = build_split_mul_table(Galois16::new(3));
    let input = vec![1u8, 2, 3, 4, 5];
    let mut output_direct = vec![0u8; 5];
    let mut output_add = vec![1u8; 5];
    process_slice_multiply_mode(&input, &mut output_direct, &tables, WriteOp::Direct);
    process_slice_multiply_mode(&input, &mut output_add, &tables, WriteOp::Add);
    assert_ne!(output_direct[4], 0);
}

#[test]
fn process_slice_multiply_mode_empty_buffer() {
    let tables = build_split_mul_table(Galois16::new(3));
    let input: Vec<u8> = vec![];
    let mut output: Vec<u8> = vec![];
    process_slice_multiply_mode(&input, &mut output, &tables, WriteOp::Direct);
    process_slice_multiply_mode(&input, &mut output, &tables, WriteOp::Add);
    assert!(output.is_empty());
}

#[test]
fn process_slice_multiply_mode_large_buffer_triggers_unrolled_loop() {
    let tables = build_split_mul_table(Galois16::new(11));
    let input = vec![1u8; 64];
    let mut output = vec![0u8; 64];
    process_slice_multiply_mode(&input, &mut output, &tables, WriteOp::Direct);
    assert!(output.iter().all(|&b| b != 0));
}

#[test]
fn reed_solomon_process_odd_length_buffers() -> RsResult<()> {
    let mut rs = ReedSolomon::new();
    rs.set_input_all_present(2)?;
    rs.set_output(false, 0)?;
    rs.compute()?;
    let input = vec![1u8, 2, 3, 4, 5];
    let mut output = vec![0u8; 5];
    rs.process(0, &input, 0, &mut output)?;
    assert_ne!(output, vec![0u8; 5]);
    Ok(())
}

#[test]
fn reed_solomon_error_not_enough_recovery() {
    let mut rs = ReedSolomon::new();
    rs.set_input(&[true, false, false]).unwrap();
    rs.set_output(true, 0).unwrap();
    let result = rs.compute();
    assert!(matches!(result, Err(RsError::NotEnoughRecoveryBlocks)));
}

#[test]
fn reed_solomon_error_no_output_blocks() {
    let mut rs = ReedSolomon::new();
    rs.set_input_all_present(3).unwrap();
    let result = rs.compute();
    assert!(matches!(result, Err(RsError::NoOutputBlocks)));
}

#[test]
fn reed_solomon_error_too_many_inputs() {
    let mut rs = ReedSolomon::new();
    let many = vec![true; 65536];
    let result = rs.set_input(&many);
    assert!(matches!(result, Err(RsError::TooManyInputBlocks)));
}

#[test]
fn reed_solomon_process_mismatched_buffer_lengths() {
    let mut rs = ReedSolomon::new();
    rs.set_input_all_present(2).unwrap();
    rs.set_output(false, 0).unwrap();
    rs.compute().unwrap();
    let input = vec![1u8, 2, 3, 4];
    let mut output = vec![0u8; 8];
    let result = rs.process(0, &input, 0, &mut output);
    assert!(matches!(result, Err(RsError::ComputationError)));
}

#[test]
fn reed_solomon_process_out_of_bounds_index() {
    let mut rs = ReedSolomon::new();
    rs.set_input_all_present(2).unwrap();
    rs.set_output(false, 0).unwrap();
    rs.compute().unwrap();
    let input = vec![1u8; 4];
    let mut output = vec![0u8; 4];
    let result = rs.process(99, &input, 0, &mut output);
    assert!(matches!(result, Err(RsError::ComputationError)));
}

#[test]
fn reconstruction_engine_matrix_inversion_success() {
    let slice_size = 16;
    let total_inputs = 4;
    let mut recovery_slices = vec![];
    for exp in 0..3 {
        let mut packet = create_test_recovery_slice(exp, slice_size);
        packet.recovery_data = vec![exp as u8; slice_size];
        packet.length = 100;
        recovery_slices.push(packet);
    }
    let engine = ReconstructionEngine::new(slice_size, total_inputs, recovery_slices);
    let matrix = vec![
        vec![Galois16::new(1), Galois16::new(2)],
        vec![Galois16::new(3), Galois16::new(4)],
    ];
    let result = engine.invert_gf_matrix(&matrix);
    assert!(result.is_ok(), "Should successfully invert non-singular matrix");
    if let Ok(inv) = result {
        assert_eq!(inv.len(), 2);
        assert_eq!(inv[0].len(), 2);
    }
}

#[test]
fn reconstruction_engine_invalid_matrix_dimensions() {
    let engine = ReconstructionEngine::new(0, 0, vec![]);
    let empty: Vec<Vec<Galois16>> = vec![];
    let result = engine.invert_gf_matrix(&empty);
    assert!(result.is_err());
    let non_square = vec![
        vec![Galois16::new(1), Galois16::new(2), Galois16::new(3)],
        vec![Galois16::new(4), Galois16::new(5), Galois16::new(6)],
    ];
    let result2 = engine.invert_gf_matrix(&non_square);
    assert!(result2.is_err());
}

#[test]
fn reconstruction_engine_solve_system_invalid_dimensions() {
    let engine = ReconstructionEngine::new(0, 0, vec![]);
    let mat = vec![
        vec![Galois16::new(1), Galois16::new(0)],
        vec![Galois16::new(0), Galois16::new(1)],
    ];
    let bad_rhs = vec![Galois16::new(1)];
    let result = engine.solve_gf_system(&mat, &bad_rhs);
    assert!(result.is_err());
}

#[test]
fn gauss_eliminate_error_path_pivot_out_of_bounds() -> RsResult<()> {
    let mut rs = ReedSolomon::new();
    rs.set_input(&[false, true])?;
    rs.set_output(true, 0)?;
    let result = rs.compute();
    assert!(result.is_ok());
    Ok(())
}

#[test]
fn process_slice_multiply_direct_large_buffer_unrolled() {
    let tables = build_split_mul_table(Galois16::new(13));
    let input = vec![0xAB; 256];
    let mut output = vec![0u8; 256];
    process_slice_multiply_direct(&input, &mut output, &tables);
    assert!(output.iter().any(|&b| b != 0));
}

#[test]
fn process_slice_multiply_add_large_buffer_accumulation() {
    let tables = build_split_mul_table(Galois16::new(17));
    let input = vec![1u8; 128];
    let mut output = vec![2u8; 128];
    let original = output.clone();
    process_slice_multiply_add(&input, &mut output, &tables);
    assert_ne!(output, original);
}

#[test]
fn build_split_mul_table_values_correct() {
    let coef = Galois16::new(5);
    let tables = build_split_mul_table(coef);
    assert_eq!(tables.low.len(), 256);
    assert_eq!(tables.high.len(), 256);
    assert_eq!(tables.low[0], 0);
    assert_eq!(tables.high[0], 0);
    for i in 0..256 {
        let input = Galois16::new(i as u16);
        let expected = (input * coef).value();
        let actual = tables.low[i];
        assert_eq!(actual, expected, "Low table mismatch at index {}", i);
    }
}

#[test]
fn reed_solomon_builder_pattern_works() {
    let builder = ReedSolomonBuilder::new();
    let rs = builder.build().unwrap();
    assert_eq!(rs.input_count, 0);
    assert_eq!(rs.output_count, 0);
}

#[test]
fn reed_solomon_set_input_tracks_indices_correctly() -> RsResult<()> {
    let mut rs = ReedSolomon::new();
    rs.set_input(&[true, false, true, false, true])?;
    assert_eq!(rs.data_present, 3);
    assert_eq!(rs.data_missing, 2);
    assert_eq!(rs.data_present_index, vec![0, 2, 4]);
    assert_eq!(rs.data_missing_index, vec![1, 3]);
    Ok(())
}

#[test]
fn reed_solomon_output_tracking() -> RsResult<()> {
    let mut rs = ReedSolomon::new();
    rs.set_input_all_present(3)?;
    rs.set_output(true, 0)?;
    assert_eq!(rs.par_present, 1);
    assert_eq!(rs.par_missing, 0);
    rs.set_output(false, 1)?;
    assert_eq!(rs.par_present, 1);
    assert_eq!(rs.par_missing, 1);
    rs.set_output(true, 2)?;
    assert_eq!(rs.par_present, 2);
    assert_eq!(rs.par_missing, 1);
    Ok(())
}

#[test]
fn reconstruction_engine_base_generation_coprime() {
    let engine = ReconstructionEngine::new(1024, 100, vec![]);
    for (i, &base) in engine.base_values.iter().enumerate() {
        let log_val = Galois16::new(base).log();
        let gcd_val = gcd(65535, log_val as u32);
        assert_eq!(gcd_val, 1, "Base {} (value {}) has log {}", i, base, log_val);
    }
}

#[test]
fn reconstruction_engine_handles_large_slice_count() {
    let engine = ReconstructionEngine::new(512, 50, vec![]);
    assert_eq!(engine.base_values.len(), 50);
    assert_eq!(engine.slice_size, 512);
    assert_eq!(engine.total_input_slices, 50);
}

#[test]
fn matrix_operations_basic() {
    let mut mat = Matrix::new(3, 3);
    mat.set(0, 0, Galois16::new(1));
    mat.set(1, 1, Galois16::new(2));
    mat.set(2, 2, Galois16::new(3));
    assert_eq!(mat.get(0, 0).value(), 1);
    assert_eq!(mat.get(1, 1).value(), 2);
    assert_eq!(mat.get(2, 2).value(), 3);
    mat.set(0, 1, Galois16::new(10));
    mat.set(1, 1, Galois16::new(20));
    mat.swap_rows(0, 1);
    assert_eq!(mat.get(0, 1).value(), 20);
    assert_eq!(mat.get(1, 1).value(), 10);
}

#[test]
fn write_op_enum_equality() {
    assert_eq!(WriteOp::Direct, WriteOp::Direct);
    assert_eq!(WriteOp::Add, WriteOp::Add);
    assert_ne!(WriteOp::Direct, WriteOp::Add);
}

#[test]
fn process_slice_multiply_mismatched_lengths() {
    let tables = build_split_mul_table(Galois16::new(7));
    let input = vec![1u8; 100];
    let mut output = vec![0u8; 50];
    process_slice_multiply_direct(&input, &mut output, &tables);
    let input2 = vec![1u8; 30];
    let mut output2 = vec![0u8; 60];
    process_slice_multiply_add(&input2, &mut output2, &tables);
    assert!(output2[30..].iter().all(|&b| b == 0));
}

// ---- additional checks of the contracts on concrete values ----

#[test]
fn compute_recovers_single_missing_block() -> RsResult<()> {
    // Encode two data blocks into one recovery block, lose the second data
    // block, and rebuild it from the first and the recovery block.
    let data0 = vec![0x11u8, 0x22, 0x33, 0x44];
    let data1 = vec![0x55u8, 0x66, 0x77, 0x88];
    let mut enc = ReedSolomon::new();
    enc.set_input_all_present(2)?;
    enc.set_output(false, 0)?;
    enc.compute()?;
    let mut recovery = vec![0u8; 4];
    enc.process(0, &data0, 0, &mut recovery)?;
    enc.process(1, &data1, 0, &mut recovery)?;
    // With exponent 0 every factor is one: the recovery block is the XOR.
    let xor: Vec<u8> = data0.iter().zip(data1.iter()).map(|(a, b)| a ^ b).collect();
    assert_eq!(recovery, xor);

    let mut dec = ReedSolomon::new();
    dec.set_input(&[true, false])?;
    dec.set_output(true, 0)?;
    dec.compute()?;
    // Columns: present block 0, then missing block 1.
    let mut rebuilt = vec![0u8; 4];
    dec.process(0, &data0, 0, &mut rebuilt)?;
    dec.process(1, &recovery, 0, &mut rebuilt)?;
    assert_eq!(rebuilt, data1);
    Ok(())
}

#[test]
fn set_input_too_many_keeps_prefix() {
    let mut rs = ReedSolomon::new();
    let many = vec![true; 40000];
    assert!(matches!(rs.set_input(&many), Err(RsError::TooManyInputBlocks)));
    // 65535 = 3 * 5 * 17 * 257 leaves 32768 usable logbases.
    assert_eq!(rs.database.len(), 32768);
}

#[test]
fn matrix_augment_and_extract() {
    let mut m = Matrix::new(2, 2);
    m.set(0, 0, Galois16::new(7));
    m.set(1, 0, Galois16::new(9));
    let aug = m.augment_with_identity();
    assert_eq!(aug.dims(), (2, 4));
    assert_eq!(aug.get(0, 0).value(), 7);
    assert_eq!(aug.get(1, 0).value(), 9);
    assert_eq!(aug.get(0, 2).value(), 1);
    assert_eq!(aug.get(1, 3).value(), 1);
    assert_eq!(aug.get(0, 3).value(), 0);
    let right = aug.extract_right_half();
    assert_eq!(right.dims(), (2, 2));
    assert_eq!(right.get(0, 0).value(), 1);
    assert_eq!(right.get(1, 1).value(), 1);
    assert_eq!(right.get(0, 1).value(), 0);
    assert!(!right.is_singular());
    assert!(Matrix::new(2, 3).is_singular());
    assert_eq!(right.row(1).len(), 2);
    assert_eq!(right.row(1)[1].value(), 1);
}

#[test]
fn invert_gf_matrix_gives_left_inverse() {
    let engine = ReconstructionEngine::new(0, 0, vec![]);
    let a = vec![
        vec![Galois16::new(1), Galois16::new(2)],
        vec![Galois16::new(3), Galois16::new(4)],
    ];
    let inv = engine.invert_gf_matrix(&a).unwrap();
    for i in 0..2 {
        for j in 0..2 {
            let mut s = Galois16::new(0);
            for k in 0..2 {
                s = s + inv[i][k] * a[k][j];
            }
            assert_eq!(s.value(), if i == j { 1 } else { 0 });
        }
    }
}

#[test]
fn solve_gf_system_solves() {
    let engine = ReconstructionEngine::new(0, 0, vec![]);
    let a = vec![
        vec![Galois16::new(3), Galois16::new(5)],
        vec![Galois16::new(7), Galois16::new(11)],
    ];
    let x = vec![Galois16::new(100), Galois16::new(200)];
    let b: Vec<Galois16> = (0..2).map(|i| a[i][0] * x[0] + a[i][1] * x[1]).collect();
    let sol = engine.solve_gf_system(&a, &b).unwrap();
    assert_eq!(sol, x);
}

#[test]
fn reed_solomon_process_twice_restores_output() {
    let mut rs = ReedSolomon::new();
    rs.set_input_all_present(2).unwrap();
    rs.set_output(false, 0).unwrap();
    rs.compute().unwrap();
    let input = vec![9u8, 200, 3, 77];
    let original = vec![5u8, 6, 7, 8];
    let mut output = original.clone();
    rs.process(1, &input, 0, &mut output).unwrap();
    assert_ne!(output, original);
    rs.process(1, &input, 0, &mut output).unwrap();
    assert_eq!(output, original);
}
