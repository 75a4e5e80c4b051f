use par2rs::galois::Galois16;
use par2rs::reedsolomon::{build_split_mul_table, process_slice_multiply_add};
use par2rs::simd::{
    build_nibble_tables, build_pshufb_tables, prepare_avx2_coeff, process_slice_multiply_add_avx2_unrolled, process_slice_multiply_add_portable_simd,
    process_slice_multiply_add_prepared_avx2, process_slice_multiply_add_pshufb, process_slice_multiply_add_scalar,
    process_slice_multiply_add_simd, process_slices_multiply_add_prepared_avx2_x2,
    process_slices_multiply_add_prepared_avx2_x4, SimdLevel,
};

#[test]
fn simd_simd_level_enum_equality() {
    assert_eq!(SimdLevel::NoSimd, SimdLevel::NoSimd);
    assert_eq!(SimdLevel::Ssse3, SimdLevel::Ssse3);
    assert_eq!(SimdLevel::Avx2, SimdLevel::Avx2);
    assert_ne!(SimdLevel::NoSimd, SimdLevel::Ssse3);
    assert_ne!(SimdLevel::Ssse3, SimdLevel::Avx2);
}

#[test]
fn simd_process_slice_multiply_add_simd_with_none_does_nothing() {
    let input = vec![1u8, 2, 3, 4];
    let mut output = vec![5u8, 6, 7, 8];
    let tables = build_split_mul_table(Galois16::new(2));
    let original_output = output.clone();
    process_slice_multiply_add_simd(&input, &mut output, &tables, SimdLevel::NoSimd);
    assert_eq!(output, original_output);
}

#[test]
fn simd_process_slice_multiply_add_simd_avx2_modifies_output() {
    let input = vec![0x5Au8; 64];
    let mut output = vec![0xA5u8; 64];
    let tables = build_split_mul_table(Galois16::new(7));
    let original_output = output.clone();
    process_slice_multiply_add_simd(&input, &mut output, &tables, SimdLevel::Avx2);
    assert_ne!(output, original_output);
}

#[test]
fn simd_process_slice_multiply_add_simd_ssse3_modifies_output() {
    let input = vec![1u8, 2, 3, 4, 5, 6, 7, 8];
    let mut output = vec![10u8, 20, 30, 40, 50, 60, 70, 80];
    let tables = build_split_mul_table(Galois16::new(3));
    let original_output = output.clone();
    process_slice_multiply_add_simd(&input, &mut output, &tables, SimdLevel::Ssse3);
    assert_ne!(output, original_output);
}

#[test]
fn simd_process_slice_multiply_add_simd_empty_buffers() {
    let input: Vec<u8> = vec![];
    let mut output: Vec<u8> = vec![];
    let tables = build_split_mul_table(Galois16::new(1));
    process_slice_multiply_add_simd(&input, &mut output, &tables, SimdLevel::NoSimd);
    assert!(output.is_empty());
}

#[test]
fn simd_process_slice_multiply_add_simd_small_buffer() {
    let input = vec![1u8, 2, 3, 4];
    let mut output = vec![0u8; 4];
    let tables = build_split_mul_table(Galois16::new(2));
    process_slice_multiply_add_simd(&input, &mut output, &tables, SimdLevel::Avx2);
    assert_eq!(output, vec![2u8, 4, 6, 8]);
}

#[test]
fn mod_simd_level_enum_equality() {
    assert_eq!(SimdLevel::NoSimd, SimdLevel::NoSimd);
    assert_eq!(SimdLevel::Ssse3, SimdLevel::Ssse3);
    assert_eq!(SimdLevel::Avx2, SimdLevel::Avx2);
    assert_eq!(SimdLevel::PortableSimd, SimdLevel::PortableSimd);
    assert_ne!(SimdLevel::NoSimd, SimdLevel::Ssse3);
    assert_ne!(SimdLevel::Ssse3, SimdLevel::Avx2);
    assert_ne!(SimdLevel::Avx2, SimdLevel::PortableSimd);
}

#[test]
fn mod_process_slice_multiply_add_simd_with_none_does_nothing() {
    let input = vec![1u8, 2, 3, 4];
    let mut output = vec![5u8, 6, 7, 8];
    let tables = build_split_mul_table(Galois16::new(2));
    let original_output = output.clone();
    process_slice_multiply_add_simd(&input, &mut output, &tables, SimdLevel::NoSimd);
    assert_eq!(output, original_output);
}

#[test]
fn mod_process_slice_multiply_add_simd_avx2_modifies_output() {
    let input = vec![0x5Au8; 64];
    let mut output = vec![0xA5u8; 64];
    let tables = build_split_mul_table(Galois16::new(7));
    let original_output = output.clone();
    process_slice_multiply_add_simd(&input, &mut output, &tables, SimdLevel::Avx2);
    assert_ne!(output, original_output);
}

#[test]
fn mod_process_slice_multiply_add_simd_ssse3_modifies_output() {
    let input = vec![1u8, 2, 3, 4, 5, 6, 7, 8];
    let mut output = vec![10u8, 20, 30, 40, 50, 60, 70, 80];
    let tables = build_split_mul_table(Galois16::new(3));
    let original_output = output.clone();
    process_slice_multiply_add_simd(&input, &mut output, &tables, SimdLevel::Ssse3);
    assert_ne!(output, original_output);
}

#[test]
fn mod_process_slice_multiply_add_simd_empty_buffers() {
    let input: Vec<u8> = vec![];
    let mut output: Vec<u8> = vec![];
    let tables = build_split_mul_table(Galois16::new(1));
    process_slice_multiply_add_simd(&input, &mut output, &tables, SimdLevel::NoSimd);
    assert!(output.is_empty());
}

#[test]
fn mod_process_slice_multiply_add_simd_small_buffer() {
    let input = vec![1u8, 2, 3, 4];
    let mut output = vec![0u8; 4];
    let tables = build_split_mul_table(Galois16::new(2));
    process_slice_multiply_add_simd(&input, &mut output, &tables, SimdLevel::PortableSimd);
    assert_eq!(output, vec![2u8, 4, 6, 8]);
}

#[test]
fn process_slice_multiply_add_scalar_basic() {
    let input = vec![1u8; 64];
    let mut output = vec![0u8; 64];
    let tables = build_split_mul_table(Galois16::new(5));
    process_slice_multiply_add_scalar(&input, &mut output, &tables);
    assert!(output.iter().any(|&b| b != 0));
}

#[test]
fn process_slice_multiply_add_scalar_accumulates() {
    let input = vec![1u8, 0, 2, 0];
    let mut output = vec![3u8, 0, 4, 0];
    let tables = build_split_mul_table(Galois16::new(2));
    let original_output = output.clone();
    process_slice_multiply_add_scalar(&input, &mut output, &tables);
    assert_ne!(output, original_output);
}

fn identity_table() -> [u16; 256] {
    let mut table = [0u16; 256];
    for (i, item) in table.iter_mut().enumerate() {
        *item = i as u16;
    }
    table
}

#[test]
fn pshufb_build_pshufb_tables_basic() {
    let table = identity_table();
    let (lo_nib_lo, lo_nib_hi, hi_nib_lo, hi_nib_hi) = build_pshufb_tables(&table);
    assert_eq!(lo_nib_lo[0], 0);
    assert_eq!(lo_nib_hi[0], 0);
    assert_eq!(lo_nib_lo[1], 1);
    assert_eq!(lo_nib_hi[1], 0);
    assert_eq!(hi_nib_lo[0], 0);
    assert_eq!(hi_nib_hi[0], 0);
    assert_eq!(hi_nib_lo[1], 16);
    assert_eq!(hi_nib_hi[1], 0);
}

#[test]
fn simd_pshufb_build_pshufb_tables_basic() {
    let table = identity_table();
    let (lo_nib_lo, lo_nib_hi, hi_nib_lo, hi_nib_hi) = build_pshufb_tables(&table);
    assert_eq!(lo_nib_lo[0], 0);
    assert_eq!(lo_nib_hi[0], 0);
    assert_eq!(lo_nib_lo[1], 1);
    assert_eq!(lo_nib_hi[1], 0);
    assert_eq!(hi_nib_lo[0], 0);
    assert_eq!(hi_nib_hi[0], 0);
    assert_eq!(hi_nib_lo[1], 16);
    assert_eq!(hi_nib_hi[1], 0);
}

#[test]
fn build_pshufb_tables_zero_table() {
    let table = [0u16; 256];
    let (lo_nib_lo, lo_nib_hi, hi_nib_lo, hi_nib_hi) = build_pshufb_tables(&table);
    for &val in &lo_nib_lo {
        assert_eq!(val, 0);
    }
    for &val in &lo_nib_hi {
        assert_eq!(val, 0);
    }
    for &val in &hi_nib_lo {
        assert_eq!(val, 0);
    }
    for &val in &hi_nib_hi {
        assert_eq!(val, 0);
    }
}

#[test]
fn build_pshufb_tables_nibble_extraction() {
    let mut table = [0u16; 256];
    table[0x0F] = 0xABCD;
    table[0xF0] = 0x1234;
    let (lo_nib_lo, lo_nib_hi, hi_nib_lo, hi_nib_hi) = build_pshufb_tables(&table);
    assert_eq!(lo_nib_lo[0xF], 0xCD);
    assert_eq!(lo_nib_hi[0xF], 0xAB);
    assert_eq!(hi_nib_lo[0xF], 0x34);
    assert_eq!(hi_nib_hi[0xF], 0x12);
}

#[test]
fn prepare_avx2_coeff_splits_both_tables() {
    let tables = build_split_mul_table(Galois16::new(0x1234));
    let prepared = prepare_avx2_coeff(&tables);
    let low = build_nibble_tables(&tables.low);
    assert_eq!(prepared.low.lo_nib_lo_byte, low.lo_nib_lo_byte);
    assert_eq!(prepared.high.hi_nib_hi_byte[3], (tables.high[0x30] >> 8) as u8);
}

#[test]
fn pshufb_process_slice_multiply_add_pshufb_requires_avx2() {
    let input = vec![0x5Au8; 64];
    let mut output = vec![0xA5u8; 64];
    let tables = build_split_mul_table(Galois16::new(7));
    let original_output = output.clone();
    process_slice_multiply_add_pshufb(&input, &mut output, &tables);
    assert_ne!(output, original_output);
}

#[test]
fn pshufb_process_slice_multiply_add_pshufb_small_buffer() {
    let input = vec![1u8, 2, 3, 4];
    let mut output = vec![0u8; 4];
    let tables = build_split_mul_table(Galois16::new(2));
    let original_output = output.clone();
    process_slice_multiply_add_pshufb(&input, &mut output, &tables);
    assert_ne!(output, original_output);
}

#[test]
fn simd_pshufb_process_slice_multiply_add_pshufb_requires_avx2() {
    let input = vec![0x5Au8; 64];
    let mut output = vec![0xA5u8; 64];
    let tables = build_split_mul_table(Galois16::new(7));
    let original_output = output.clone();
    process_slice_multiply_add_pshufb(&input, &mut output, &tables);
    assert_ne!(output, original_output);
}

#[test]
fn process_slice_multiply_add_pshufb_exactly_32_bytes() {
    let input = vec![1u8; 32];
    let mut output = vec![0u8; 32];
    let tables = build_split_mul_table(Galois16::new(3));
    process_slice_multiply_add_pshufb(&input, &mut output, &tables);
    assert!(output.iter().any(|&b| b != 0));
}

#[test]
fn process_slice_multiply_add_pshufb_large_buffer() {
    let input = vec![0xAAu8; 128];
    let mut output = vec![0x55u8; 128];
    let tables = build_split_mul_table(Galois16::new(11));
    let original_output = output.clone();
    process_slice_multiply_add_pshufb(&input, &mut output, &tables);
    assert_ne!(output, original_output);
    let changed = output.iter().zip(original_output.iter()).filter(|(a, b)| a != b).count();
    assert!(changed > 0, "Expected some bytes to change");
}

#[test]
fn process_slice_multiply_add_pshufb_accumulates() {
    let input = vec![1u8; 64];
    let mut output = vec![2u8; 64];
    let tables = build_split_mul_table(Galois16::new(5));
    process_slice_multiply_add_pshufb(&input, &mut output, &tables);
    let after_first = output.clone();
    process_slice_multiply_add_pshufb(&input, &mut output, &tables);
    assert_ne!(output, after_first, "Second operation should modify output");
}

#[test]
fn process_slice_multiply_add_pshufb_empty_buffer() {
    let input: Vec<u8> = vec![];
    let mut output: Vec<u8> = vec![];
    let tables = build_split_mul_table(Galois16::new(1));
    process_slice_multiply_add_pshufb(&input, &mut output, &tables);
    assert!(output.is_empty());
}

fn pattern(len: usize, seed: u8) -> Vec<u8> {
    (0..len).map(|i| (i as u8).wrapping_mul(37).wrapping_add(seed)).collect()
}

#[test]
fn vector_kernels_match_scalar_for_all_lengths() {
    for &coeff in &[1u16, 2, 0x1234, 0xFFFF] {
        let tables = build_split_mul_table(Galois16::new(coeff));
        let prepared = prepare_avx2_coeff(&tables);
        for &len in &[0usize, 1, 2, 15, 16, 17, 31, 32, 33, 63, 64, 65, 100] {
            let input = pattern(len, 3);
            let base = pattern(len, 200);
            let mut expected = base.clone();
            process_slice_multiply_add_scalar(&input, &mut expected, &tables);

            let mut a = base.clone();
            process_slice_multiply_add_pshufb(&input, &mut a, &tables);
            assert_eq!(a, expected, "pshufb coeff {coeff} len {len}");

            let mut b = base.clone();
            process_slice_multiply_add_prepared_avx2(&input, &mut b, &prepared, &tables);
            assert_eq!(b, expected, "prepared coeff {coeff} len {len}");

            let mut c = base.clone();
            process_slice_multiply_add_portable_simd(&input, &mut c, &tables);
            assert_eq!(c, expected, "portable coeff {coeff} len {len}");

            for level in [SimdLevel::Ssse3, SimdLevel::Avx2, SimdLevel::PortableSimd] {
                let mut d = base.clone();
                process_slice_multiply_add_simd(&input, &mut d, &tables, level);
                assert_eq!(d, expected, "{level:?} coeff {coeff} len {len}");
            }
        }
    }
}

#[test]
fn pshufb_times_one_is_plain_xor() {
    let tables = build_split_mul_table(Galois16::new(1));
    let input = pattern(70, 9);
    let base = pattern(70, 50);
    let mut out = base.clone();
    process_slice_multiply_add_pshufb(&input, &mut out, &tables);
    for i in 0..70 {
        assert_eq!(out[i], base[i] ^ input[i]);
    }
}

#[test]
fn pshufb_uneven_lengths_touch_only_common_prefix() {
    let tables = build_split_mul_table(Galois16::new(7));
    let input = pattern(40, 1);
    let base = pattern(80, 2);
    let mut out = base.clone();
    process_slice_multiply_add_pshufb(&input, &mut out, &tables);
    assert_eq!(&out[40..], &base[40..]);
    assert_ne!(&out[..40], &base[..40]);
}

#[test]
fn process_slice_multiply_add_avx2_unrolled_basic() {
    let input = vec![1u8; 64];
    let mut output = vec![0u8; 64];
    let tables = build_split_mul_table(Galois16::new(5));
    process_slice_multiply_add_avx2_unrolled(&input, &mut output, &tables);
    assert!(output.iter().any(|&b| b != 0));
}

#[test]
fn process_slice_multiply_add_avx2_unrolled_accumulates() {
    let input = vec![1u8, 0, 2, 0];
    let mut output = vec![3u8, 0, 4, 0];
    let tables = build_split_mul_table(Galois16::new(2));
    let original_output = output.clone();
    process_slice_multiply_add_avx2_unrolled(&input, &mut output, &tables);
    assert_ne!(output, original_output);
}

#[test]
fn avx2_unrolled_matches_scalar_and_skips_lone_byte() {
    let tables = build_split_mul_table(Galois16::new(0xBEEF));
    for &len in &[2usize, 3, 63, 64, 65, 129, 200] {
        let input = pattern(len, 17);
        let base = pattern(len, 99);
        let mut expected = base.clone();
        process_slice_multiply_add_scalar(&input, &mut expected, &tables);
        let mut actual = base.clone();
        process_slice_multiply_add_avx2_unrolled(&input, &mut actual, &tables);
        assert_eq!(actual, expected, "len {len}");
    }
    let input = vec![0x42u8];
    let mut output = vec![0x17u8];
    process_slice_multiply_add_avx2_unrolled(&input, &mut output, &tables);
    assert_eq!(output, vec![0x17u8]);
}

#[test]
fn process_slices_multiply_add_prepared_avx2_x2_matches_separate_adds() {
    let input_a = (0..257).map(|idx| (idx * 3) as u8).collect::<Vec<_>>();
    let input_b = (0..257).map(|idx| (idx * 5 + 11) as u8).collect::<Vec<_>>();
    let table_a = build_split_mul_table(Galois16::new(7));
    let table_b = build_split_mul_table(Galois16::new(29));
    let prepared_a = prepare_avx2_coeff(&table_a);
    let prepared_b = prepare_avx2_coeff(&table_b);

    let mut expected = vec![0xA5; input_a.len()];
    process_slice_multiply_add(&input_a, &mut expected, &table_a);
    process_slice_multiply_add(&input_b, &mut expected, &table_b);

    let mut actual = vec![0xA5; input_a.len()];
    process_slices_multiply_add_prepared_avx2_x2(&input_a, &prepared_a, &table_a, &input_b, &prepared_b, &table_b, &mut actual);

    assert_eq!(actual, expected);
}

#[test]
fn process_slices_multiply_add_prepared_avx2_x4_matches_separate_adds() {
    let inputs = (0..4)
        .map(|source| (0..255).map(|byte| (byte * 11 + source * 31) as u8).collect::<Vec<_>>())
        .collect::<Vec<_>>();
    let coeffs = [3, 5, 7, 11]
        .into_iter()
        .map(|value| {
            let split = build_split_mul_table(Galois16::new(value));
            let prepared = prepare_avx2_coeff(&split);
            (split, prepared)
        })
        .collect::<Vec<_>>();

    let mut expected = vec![0u8; 255];
    inputs.iter().zip(coeffs.iter()).for_each(|(input, (split, _))| process_slice_multiply_add(input, &mut expected, split));

    let mut actual = vec![0u8; 255];
    process_slices_multiply_add_prepared_avx2_x4(
        &inputs[0],
        &coeffs[0].1,
        &coeffs[0].0,
        &inputs[1],
        &coeffs[1].1,
        &coeffs[1].0,
        &inputs[2],
        &coeffs[2].1,
        &coeffs[2].0,
        &inputs[3],
        &coeffs[3].1,
        &coeffs[3].0,
        &mut actual,
    );

    assert_eq!(actual, expected);
}

#[test]
fn prepared_x2_short_and_uneven_inputs() {
    let ta = build_split_mul_table(Galois16::new(0x1234));
    let tb = build_split_mul_table(Galois16::new(0x0F0F));
    let pa = prepare_avx2_coeff(&ta);
    let pb = prepare_avx2_coeff(&tb);
    // below one block: both inputs added over their own lengths
    let a = pattern(10, 1);
    let b = pattern(20, 2);
    let base = pattern(16, 3);
    let mut expected = base.clone();
    process_slice_multiply_add_scalar(&a, &mut expected, &ta);
    process_slice_multiply_add_scalar(&b, &mut expected, &tb);
    let mut actual = base.clone();
    process_slices_multiply_add_prepared_avx2_x2(&a, &pa, &ta, &b, &pb, &tb, &mut actual);
    assert_eq!(actual, expected);
    // equal lengths with a tail: the same as two separate adds
    let a = pattern(77, 4);
    let b = pattern(77, 5);
    let base = pattern(77, 6);
    let mut expected = base.clone();
    process_slice_multiply_add_scalar(&a, &mut expected, &ta);
    process_slice_multiply_add_scalar(&b, &mut expected, &tb);
    let mut actual = base.clone();
    process_slices_multiply_add_prepared_avx2_x2(&a, &pa, &ta, &b, &pb, &tb, &mut actual);
    assert_eq!(actual, expected);
}

#[test]
fn simd_level_choice_follows_cpu_features() {
    assert_eq!(par2rs::simd::simd_level_for(true, true, true), SimdLevel::Avx2);
    assert_eq!(par2rs::simd::simd_level_for(true, false, true), SimdLevel::Ssse3);
    assert_eq!(par2rs::simd::simd_level_for(true, true, false), SimdLevel::NoSimd);
    assert_eq!(par2rs::simd::simd_level_for(false, true, true), SimdLevel::PortableSimd);
}
