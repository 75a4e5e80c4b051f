use par2rs::galois::Galois16;
use par2rs::matrix::SliceLength;
use par2rs::aligned::alloc_aligned_vec;
use par2rs::xor_jit::{
    xor_packed_multi_region_v16i1, xor_packed_multi_region_v16i1_ptr, xor_prepared_bitplane_chunks,
    xor_prepared_bitplane_multi_chunks, xor_prepared_bitplane_multi_chunks_v1i6,
};
use par2rs::reedsolomon::{build_split_mul_table, process_slice_multiply_add};
use par2rs::xor_jit::bitplane::{
    self, finish_avx2_block, mask_offset, multiply_add_prepared_avx2_block,
    multiply_add_prepared_avx2_block_to_prepared, multiply_word, prepare_avx2, prepare_avx2_block,
    ByteHalf, AVX2_BLOCK_BYTES,
};
use par2rs::xor_jit::{
    bitplane_vector_offset, finish_xor_jit_bitplane_chunks, prepare_xor_jit_bitplane_chunks,
    prepare_xor_jit_bitplane_segment, turbo_physical_word_bit, xor_jit_create_avx2_method_info,
    xor_jit_create_output_prefetch_rounds, xor_jit_create_prefetch_plan,
    xor_jit_write_strategy_for_cpu, BitplaneCoeffPlan, XorJitBitplaneKernel, XorJitPreparedCoeff,
    XorJitBitplaneScratch, XorJitPreparedCoeffCache, XorJitWriteStrategy,
};
use par2rs::xor_jit::turbo::{
    build_turbo_dep_tables, emit_bitplane_chunk_program_bytes, emit_bitplane_chunk_program_dynamic_for_coefficient_into,
    emit_bitplane_chunk_program_dynamic_into, emit_bitplane_chunk_program_into, xor_jit_body_static_prefix,
};

fn prepared_mask(prepared: &[u8], half: ByteHalf, bit_from_msb: usize, group: usize) -> u32 {
    let offset = mask_offset(half, bit_from_msb, group);
    u32::from_le_bytes(prepared[offset..offset + 4].try_into().unwrap())
}

#[test]
fn xor_jit_write_strategy_matches_turbo_zen3_policy() {
    assert_eq!(xor_jit_write_strategy_for_cpu(*b"AuthenticAMD", 0xaf, 0x21), XorJitWriteStrategy::Clear);
}

#[test]
fn xor_jit_write_strategy_matches_turbo_intel_old_core_policy() {
    assert_eq!(xor_jit_write_strategy_for_cpu(*b"GenuineIntel", 6, 0x2a), XorJitWriteStrategy::Clear);
}

#[test]
fn xor_jit_write_strategy_matches_turbo_intel_new_core_policy() {
    assert_eq!(xor_jit_write_strategy_for_cpu(*b"GenuineIntel", 6, 0x8c), XorJitWriteStrategy::CopyNt);
}

#[test]
fn bitplane_coeff_plan_matches_basis_multiplication() {
    for coefficient in [0, 1, 2, 3, 5, 0x100b, 0x678b, 0xffff] {
        let plan = BitplaneCoeffPlan::new(coefficient);
        for input_bit in 0..16 {
            let product = multiply_word(1 << input_bit, coefficient);
            for output_bit in 0..16 {
                assert_eq!(
                    plan.output_bit_depends_on(output_bit, input_bit),
                    product & (1 << output_bit) != 0,
                    "coefficient={coefficient:#06x} output_bit={output_bit} input_bit={input_bit}"
                );
            }
        }
    }
}

#[test]
fn avx2_bitplane_prepare_matches_turbo_block_layout() {
    let mut input = [0u8; AVX2_BLOCK_BYTES];
    input[0] = 0b1000_0001;
    input[1] = 0b0100_0010;
    input[62] = 0xff;
    input[63] = 0x80;
    input[64] = 0x01;
    let mut prepared = [0u8; AVX2_BLOCK_BYTES];
    prepare_avx2_block(&mut prepared, &input);
    assert_eq!(prepared_mask(&prepared, ByteHalf::High, 1, 0), 1);
    assert_eq!(prepared_mask(&prepared, ByteHalf::High, 6, 0), 1);
    assert_eq!(prepared_mask(&prepared, ByteHalf::High, 0, 0), 1 << 31);
    assert_eq!(prepared_mask(&prepared, ByteHalf::Low, 0, 0), 1 | (1 << 31));
    assert_eq!(prepared_mask(&prepared, ByteHalf::Low, 7, 0), 1 | (1 << 31));
    assert_eq!(prepared_mask(&prepared, ByteHalf::Low, 7, 1), 1);
    assert_eq!(prepared_mask(&prepared, ByteHalf::High, 0, 1), 0);
}

#[test]
fn avx2_bitplane_layout_uses_turbo_physical_bit_order() {
    for physical_bit in 0..16 {
        let word_bit = turbo_physical_word_bit(physical_bit);
        let half = if word_bit < 8 { ByteHalf::Low } else { ByteHalf::High };
        let bit_from_msb = 7 - (word_bit & 7);
        let offset = mask_offset(half, bit_from_msb, 0);
        assert_eq!(offset, physical_bit * 32);
        assert_eq!(bitplane_vector_offset(word_bit), physical_bit as i32 * 32 - 128);
        assert_eq!(mask_offset(half, bit_from_msb, 7), offset + 28);
    }
}

#[test]
fn avx2_bitplane_prepare_zero_pads_partial_final_block() {
    let input = vec![0xffu8; 33];
    let mut prepared = vec![0x55u8; AVX2_BLOCK_BYTES * 2];
    let prepared_len = prepare_avx2(&mut prepared, &input);
    assert_eq!(prepared_len, AVX2_BLOCK_BYTES);
    for bit_from_msb in 0..8 {
        assert_eq!(prepared_mask(&prepared, ByteHalf::Low, bit_from_msb, 0), (1 << 17) - 1);
        assert_eq!(prepared_mask(&prepared, ByteHalf::High, bit_from_msb, 0), (1 << 16) - 1);
        assert_eq!(prepared_mask(&prepared, ByteHalf::High, bit_from_msb, 1), 0);
    }
    assert!(prepared[prepared_len..].iter().all(|&byte| byte == 0x55));
}

#[test]
fn prepared_bitplane_multiply_add_matches_table_executor() {
    let input = (0..AVX2_BLOCK_BYTES).map(|value| (value * 37) as u8).collect::<Vec<_>>();
    let mut prepared = vec![0u8; AVX2_BLOCK_BYTES];
    prepare_avx2(&mut prepared, &input);
    for coefficient in [0, 1, 2, 3, 5, 0x100b, 0x678b, 0xffff] {
        let tables = build_split_mul_table(Galois16::new(coefficient));
        let mut expected = vec![0xa5; AVX2_BLOCK_BYTES];
        let mut actual = expected.clone();
        process_slice_multiply_add(&input, &mut expected, &tables);
        multiply_add_prepared_avx2_block(&prepared, coefficient, &mut actual);
        assert_eq!(actual, expected, "coefficient={coefficient:#06x}");
    }
}

#[test]
fn xor_jit_create_prefetch_plan_matches_turbo_avx2_rules() {
    let method_info = xor_jit_create_avx2_method_info();
    let prefetch_plan = xor_jit_create_prefetch_plan(method_info, 128 * 1024);
    assert_eq!(method_info.ideal_input_multiple, 1);
    assert_eq!(method_info.prefetch_downscale, 1);
    assert_eq!(method_info.alignment, 32);
    assert_eq!(method_info.stride, AVX2_BLOCK_BYTES);
    assert_eq!(prefetch_plan.output_prefetch_rounds, xor_jit_create_output_prefetch_rounds(method_info));
    assert_eq!(prefetch_plan.output_prefetch_rounds, 2);
    assert_eq!(prefetch_plan.pf_len, 64 * 1024);
}

#[test]
fn avx2_bitplane_finish_roundtrips_prepared_block() {
    let input: [u8; AVX2_BLOCK_BYTES] = core::array::from_fn(|idx| (idx * 37 + 11) as u8);
    let mut prepared = [0u8; AVX2_BLOCK_BYTES];
    let mut actual = [0u8; AVX2_BLOCK_BYTES];
    prepare_avx2_block(&mut prepared, &input);
    finish_avx2_block(&mut actual, &prepared);
    assert_eq!(actual, input);
}

#[test]
fn public_bitplane_prepare_finish_roundtrips_partial_chunks() {
    let input = (0..AVX2_BLOCK_BYTES * 2 + 37).map(|idx| (idx * 29 + 17) as u8).collect::<Vec<_>>();
    let mut prepared = vec![0u8; input.len().next_multiple_of(AVX2_BLOCK_BYTES)];
    let mut actual = vec![0u8; input.len()];
    let prepared_len = prepare_xor_jit_bitplane_chunks(&mut prepared, &input);
    finish_xor_jit_bitplane_chunks(&mut actual, &prepared[..prepared_len]);
    assert_eq!(actual, input);
}

#[test]
fn prepare_xor_jit_bitplane_segment_matches_full_prepare_for_aligned_segment() {
    let input = (0..AVX2_BLOCK_BYTES * 2).map(|idx| (idx * 11 + 3) as u8).collect::<Vec<_>>();
    let mut expected = vec![0u8; input.len()];
    let mut actual = vec![0x55u8; input.len()];
    prepare_xor_jit_bitplane_chunks(&mut expected, &input);
    prepare_xor_jit_bitplane_segment(&mut actual, &input);
    assert_eq!(actual, expected);
}

#[test]
fn prepare_xor_jit_bitplane_segment_zero_pads_tail() {
    let input = (0..AVX2_BLOCK_BYTES / 2).map(|idx| (idx * 7 + 1) as u8).collect::<Vec<_>>();
    let mut prepared = vec![0x55u8; AVX2_BLOCK_BYTES * 2];
    prepare_xor_jit_bitplane_segment(&mut prepared, &input);
    assert!(prepared[AVX2_BLOCK_BYTES..].iter().all(|&byte| byte == 0));
}

#[test]
fn finish_segment_roundtrips_partial_chunk() {
    let input = (0..AVX2_BLOCK_BYTES + 37).map(|idx| (idx * 5 + 9) as u8).collect::<Vec<_>>();
    let mut prepared = vec![0u8; AVX2_BLOCK_BYTES * 2];
    let mut actual = vec![0u8; input.len()];
    prepare_xor_jit_bitplane_segment(&mut prepared, &input);
    finish_xor_jit_bitplane_chunks(&mut actual, &prepared);
    assert_eq!(actual, input);
}

#[test]
fn xor_jit_word_multiply_matches_table() {
    let coeffs = [0, 1, 2, 7, 0x100b, 0xbeef, 0xffff];
    let values = [0, 1, 2, 0x1234, 0x8000, 0xffff];
    for coeff in coeffs {
        let table = build_split_mul_table(Galois16::new(coeff));
        for value in values {
            let expected = table.low[(value & 0xff) as usize] ^ table.high[(value >> 8) as usize];
            assert_eq!(multiply_word(value, coeff), expected, "coeff={coeff:#06x} value={value:#06x}");
        }
    }
}

// ---- additional checks ----

#[test]
fn kernel_multiply_add_matches_plain_multiply_add() {
    let input = (0..AVX2_BLOCK_BYTES * 2).map(|i| (i * 13 + 5) as u8).collect::<Vec<_>>();
    let out0 = (0..AVX2_BLOCK_BYTES * 2).map(|i| (i * 7 + 1) as u8).collect::<Vec<_>>();
    let coefficient = 0x1234u16;
    let mut prep_in = vec![0u8; input.len()];
    let mut prep_out = vec![0u8; out0.len()];
    prepare_xor_jit_bitplane_chunks(&mut prep_in, &input);
    prepare_xor_jit_bitplane_chunks(&mut prep_out, &out0);
    let mut cache = XorJitPreparedCoeffCache::new();
    let prepared = cache.prepare(coefficient);
    assert_eq!(prepared.coefficient(), coefficient);
    let kernel = XorJitBitplaneKernel::new(&prepared).unwrap();
    kernel.multiply_add_chunks(&prep_in, &mut prep_out);
    let mut actual = vec![0u8; out0.len()];
    finish_xor_jit_bitplane_chunks(&mut actual, &prep_out);
    let mut expected = out0.clone();
    process_slice_multiply_add(&input, &mut expected, &build_split_mul_table(Galois16::new(coefficient)));
    assert_eq!(actual, expected);
}

#[test]
fn prepared_to_prepared_block_matches_plain() {
    let input: [u8; AVX2_BLOCK_BYTES] = core::array::from_fn(|i| (i * 3 + 2) as u8);
    let out0: [u8; AVX2_BLOCK_BYTES] = core::array::from_fn(|i| (i * 5 + 7) as u8);
    let mut p_in = [0u8; AVX2_BLOCK_BYTES];
    let mut p_out = [0u8; AVX2_BLOCK_BYTES];
    prepare_avx2_block(&mut p_in, &input);
    prepare_avx2_block(&mut p_out, &out0);
    multiply_add_prepared_avx2_block_to_prepared(&p_in, 0x00ff, &mut p_out);
    let mut actual = [0u8; AVX2_BLOCK_BYTES];
    finish_avx2_block(&mut actual, &p_out);
    let mut expected = out0.to_vec();
    process_slice_multiply_add(&input, &mut expected, &build_split_mul_table(Galois16::new(0x00ff)));
    assert_eq!(actual.to_vec(), expected);
}

#[test]
fn coefficient_cache_keeps_handles() {
    let mut cache = XorJitPreparedCoeffCache::new();
    let p = XorJitPreparedCoeff::new(7);
    cache.cache_bitplane_handle(7, p.bitplane_handle());
    assert_eq!(cache.bitplane_handle_for_coefficient(7).coefficient, 7);
    assert!(cache.bitplane_handle_for_coefficient(8).plan.is_none());
    assert_eq!(cache.bitplane_handle_table().len(), 65536);
    let _ = bitplane::AVX2_BLOCK_BYTES;
}

#[test]
fn write_strategy_other_vendors() {
    assert_eq!(xor_jit_write_strategy_for_cpu(*b"AuthenticAMD", 0x17, 0x01), XorJitWriteStrategy::Direct);
    assert_eq!(xor_jit_write_strategy_for_cpu(*b"AuthenticAMD", 0x1f, 0x01), XorJitWriteStrategy::CopyNt);
    assert_eq!(xor_jit_write_strategy_for_cpu(*b"GenuineIntel", 6, 0x5c), XorJitWriteStrategy::CopyNt);
}

use par2rs::xor_jit::encoder::{Program, ProgramSink};

#[test]
fn add_rax_imm32_uses_accumulator_encoding() {
    let encoded = Program::new().finish_turbo_block_loop_prefix();
    assert_eq!(
        &encoded[..13],
        [0x48, 0x05, 0x00, 0x02, 0x00, 0x00, 0x48, 0x81, 0xc2, 0x00, 0x02, 0x00, 0x00]
    );
}

#[test]
fn constant_function_encoding() {
    let generated = Program::new().mov_eax_imm32(7).ret().finish();
    assert_eq!(generated, [0xb8, 0x07, 0x00, 0x00, 0x00, 0xc3]);
}

#[test]
fn lane_xor_program_encoding() {
    let generated = Program::new()
        .vmovdqu_ymm0_from_rdi()
        .vmovdqu_ymm1_from_rsi()
        .vpxor_ymm0_ymm0_ymm1()
        .vmovdqu_rsi_from_ymm0()
        .vzeroupper()
        .ret()
        .finish();
    assert_eq!(
        generated,
        [
            0xc5, 0xfe, 0x6f, 0x07, 0xc5, 0xfe, 0x6f, 0x0e, 0xc5, 0xfd, 0xef, 0xc1, 0xc5, 0xfe,
            0x7f, 0x06, 0xc5, 0xf8, 0x77, 0xc3
        ]
    );
}

#[test]
fn program_sink_matches_program() {
    let program = Program::new()
        .vmovdqa_ymm_from_rdi_offset(3, 32)
        .vpxor_ymm(9, 3, 12)
        .vpxor_ymm_rsi_offset(2, 2, -256)
        .vmovdqa_rdx_offset_from_ymm(0, 9)
        .vmovdqa_ymm(10, 1)
        .finish();
    let sink = ProgramSink::new(Vec::new())
        .vmovdqa_ymm_from_rdi_offset(3, 32)
        .vpxor_ymm(9, 3, 12)
        .vpxor_ymm_rsi_offset(2, 2, -256)
        .vmovdqa_rdx_offset_from_ymm(0, 9)
        .vmovdqa_ymm(10, 1);
    assert_eq!(sink.encoded, program);
    // An extended register operand takes the three-byte VEX form.
    assert_eq!(&program[5..8], [0xc4, 0x41, 0x65]);
}

#[test]
fn block_loop_jumps_back_over_body() {
    let code = Program::new().vpxor_ymm0_ymm0_ymm1().finish_block_loop(512);
    // vpxor (4) + add rdi (7) + add rsi (7) + sub rdx (7) + jne (6) + vzeroupper (3) + ret (1)
    assert_eq!(code.len(), 35);
    assert_eq!(&code[25..27], [0x0f, 0x85]);
    assert_eq!(i32::from_le_bytes(code[27..31].try_into().unwrap()), -31);
    assert_eq!(&code[31..], [0xc5, 0xf8, 0x77, 0xc3]);
    assert_eq!(Program::new().finish_block_loop(512), [0xc5, 0xf8, 0x77, 0xc3]);
}

#[test]
fn static_prefix_loop_jumps_to_prefix() {
    let prefix = [0x90u8, 0x90];
    let code = Program::new().vpxor_ymm0_ymm0_ymm2().finish_block_loop_with_static_prefix_no_vzeroupper(&prefix, 512, None);
    // prefix (2) + vpxor (4) + cmp (3) + jl (6) + ret (1)
    assert_eq!(code.len(), 16);
    assert_eq!(&code[6..9], [0x48, 0x39, 0xca]);
    assert_eq!(i32::from_le_bytes(code[11..15].try_into().unwrap()), -15);
    let mut out = Vec::new();
    let n = Program::new().vpxor_ymm0_ymm0_ymm2().finish_block_loop_dynamic_after_static_prefix_no_vzeroupper_into(2, 512, None, &mut out);
    assert_eq!(n, 14);
    assert_eq!(out, code[2..].to_vec());
}

#[test]
fn xor_prepared_chunks_xor_inputs() {
    let a = vec![0x0fu8; 512];
    let b = vec![0xf0u8; 512];
    let mut out = vec![0x01u8; 512];
    xor_prepared_bitplane_chunks(&a, &mut out, None);
    assert!(out.iter().all(|&x| x == 0x0e));
    let inputs: Vec<&[u8]> = vec![&a, &b];
    xor_prepared_bitplane_multi_chunks_v1i6(&inputs, 512, &mut out, None, None);
    assert!(out.iter().all(|&x| x == 0xf1));
}

#[test]
fn validate_slice_mut_writes_through() {
    let mut buf = [1u8, 2, 3, 4];
    {
        let arr = SliceLength::<4>::validate_slice_mut(&mut buf[..]).unwrap();
        arr[0] = 9;
    }
    assert_eq!(buf[0], 9);
    assert!(SliceLength::<3>::validate_slice_mut(&mut buf[..]).is_err());
}

#[test]
fn xor_prepared_bitplane_multi_chunks_v1i6_matches_single_input_xors() {
    let len = AVX2_BLOCK_BYTES * 2;
    for input_count in [6usize, 7, 12] {
        let prepared_inputs = (0..input_count)
            .map(|input_idx| {
                let mut prepared = alloc_aligned_vec(len);
                for (byte_idx, byte) in prepared.iter_mut().enumerate() {
                    *byte = (byte_idx as u8)
                        .wrapping_mul(17)
                        .wrapping_add((input_idx as u8).wrapping_mul(29))
                        .wrapping_add(3);
                }
                prepared
            })
            .collect::<Vec<_>>();
        let input_refs = prepared_inputs.iter().map(|input| input.as_slice()).collect::<Vec<_>>();
        let mut expected = alloc_aligned_vec(len);
        let mut actual = alloc_aligned_vec(len);
        for (byte_idx, byte) in expected.iter_mut().enumerate() {
            *byte = (byte_idx as u8).wrapping_mul(11).wrapping_add(5);
        }
        actual.copy_from_slice(&expected);
        for input in &prepared_inputs {
            xor_prepared_bitplane_chunks(input, &mut expected, None);
        }
        xor_prepared_bitplane_multi_chunks_v1i6(&input_refs, len, &mut actual, None, None);
        assert_eq!(actual, expected, "input_count={input_count}");
    }
}

#[test]
fn xor_prepared_bitplane_multi_chunks_matches_single_input_xors() {
    let len = AVX2_BLOCK_BYTES * 2;
    for input_count in [6usize, 7, 12] {
        let prepared_inputs = (0..input_count)
            .map(|input_idx| {
                let mut prepared = alloc_aligned_vec(len);
                for (byte_idx, byte) in prepared.iter_mut().enumerate() {
                    *byte = (byte_idx as u8)
                        .wrapping_mul(23)
                        .wrapping_add((input_idx as u8).wrapping_mul(31))
                        .wrapping_add(7);
                }
                prepared
            })
            .collect::<Vec<_>>();
        let input_refs = prepared_inputs.iter().map(|input| input.as_slice()).collect::<Vec<_>>();
        let mut expected = alloc_aligned_vec(len);
        let mut actual = alloc_aligned_vec(len);
        for (byte_idx, byte) in expected.iter_mut().enumerate() {
            *byte = (byte_idx as u8).wrapping_mul(13).wrapping_add(9);
        }
        actual.copy_from_slice(&expected);
        for input in &prepared_inputs {
            xor_prepared_bitplane_chunks(input, &mut expected, None);
        }
        xor_prepared_bitplane_multi_chunks(&input_refs, len, &mut actual, None, None);
        assert_eq!(actual, expected, "input_count={input_count}");
    }
}

#[test]
fn xor_prepared_bitplane_multi_chunks_matches_single_input_xors_with_prefetch() {
    let len = AVX2_BLOCK_BYTES * 2;
    let input_count = 12usize;
    let prepared_inputs = (0..input_count)
        .map(|input_idx| {
            let mut prepared = alloc_aligned_vec(len);
            for (byte_idx, byte) in prepared.iter_mut().enumerate() {
                *byte = (byte_idx as u8)
                    .wrapping_mul(41)
                    .wrapping_add((input_idx as u8).wrapping_mul(13))
                    .wrapping_add(17);
            }
            prepared
        })
        .collect::<Vec<_>>();
    let input_refs = prepared_inputs.iter().map(|input| input.as_slice()).collect::<Vec<_>>();
    let mut expected = alloc_aligned_vec(len);
    let mut actual = alloc_aligned_vec(len);
    for (byte_idx, byte) in expected.iter_mut().enumerate() {
        *byte = (byte_idx as u8).wrapping_mul(11).wrapping_add(27);
    }
    actual.copy_from_slice(&expected);
    for input in &prepared_inputs {
        xor_prepared_bitplane_chunks(input, &mut expected, None);
    }
    let output_prefetch = actual.as_ptr() as usize + len / 2;
    let input_prefetch = prepared_inputs[6].as_ptr() as usize;
    xor_prepared_bitplane_multi_chunks(&input_refs, len, &mut actual, Some(input_prefetch), Some(output_prefetch));
    assert_eq!(actual, expected);
}

#[test]
fn prepared_bitplane_multiply_add_to_prepared_matches_table_executor() {
    let input = (0..AVX2_BLOCK_BYTES).map(|value| (value * 37 + 11) as u8).collect::<Vec<_>>();
    let initial_output = (0..AVX2_BLOCK_BYTES).map(|value| (value * 17 + 3) as u8).collect::<Vec<_>>();
    let mut prepared_input = [0u8; AVX2_BLOCK_BYTES];
    let mut prepared_output = [0u8; AVX2_BLOCK_BYTES];
    prepare_avx2_block(&mut prepared_input, input.as_slice().try_into().unwrap());
    prepare_avx2_block(&mut prepared_output, initial_output.as_slice().try_into().unwrap());
    for coefficient in [0, 1, 2, 3, 5, 0x100b, 0x678b, 0xffff] {
        let tables = build_split_mul_table(Galois16::new(coefficient));
        let mut expected = initial_output.clone();
        let mut actual = [0u8; AVX2_BLOCK_BYTES];
        let mut output_block = prepared_output;
        process_slice_multiply_add(&input, &mut expected, &tables);
        multiply_add_prepared_avx2_block_to_prepared(&prepared_input, coefficient, &mut output_block);
        finish_avx2_block(&mut actual, &output_block);
        assert_eq!(actual.as_slice(), expected, "coefficient={coefficient:#06x}");
    }
}

#[test]
fn public_bitplane_kernel_uses_prepared_coefficient_metadata() {
    let input = (0..AVX2_BLOCK_BYTES * 2).map(|idx| (idx * 13 + 7) as u8).collect::<Vec<_>>();
    let initial_output = (0..AVX2_BLOCK_BYTES * 2).map(|idx| (idx * 19 + 5) as u8).collect::<Vec<_>>();
    let mut prepared_input = alloc_aligned_vec(input.len());
    let mut expected = vec![0u8; input.len()];
    let mut actual = alloc_aligned_vec(input.len());
    let coefficient = 0xbeef;
    let prepared = XorJitPreparedCoeff::new(coefficient);
    prepare_avx2(&mut prepared_input, &input);
    prepare_avx2(&mut expected, &initial_output);
    prepare_avx2(&mut actual, &initial_output);
    for (input_block, output_block) in prepared_input
        .chunks_exact(AVX2_BLOCK_BYTES)
        .zip(expected.chunks_exact_mut(AVX2_BLOCK_BYTES))
    {
        multiply_add_prepared_avx2_block_to_prepared(input_block.try_into().unwrap(), coefficient, output_block.try_into().unwrap());
    }
    let kernel = XorJitBitplaneKernel::new(&prepared).expect("bitplane kernel");
    kernel.multiply_add_chunks(&prepared_input, &mut actual);
    assert_eq!(actual, expected);
}

#[test]
fn biased_prefetch_pointer_matches_turbo_stub_bias() {
    let ptr = 1024usize;
    assert_eq!(
        par2rs::xor_jit::xor_jit_biased_prefetch_ptr(ptr),
        1024 - par2rs::xor_jit::XOR_JIT_PREFETCH_STUB_BIAS_BYTES
    );
    assert_eq!(par2rs::xor_jit::xor_jit_biased_prefetch_ptr(0), usize::MAX - 127);
}

#[test]
fn load_instructions_encoding() {
    let code = Program::new()
        .vmovdqu_ymm0_from_rdi_offset(32)
        .vmovdqu_ymm1_from_rsi_offset(-32)
        .vmovdqu_ymm2_from_rdi_offset(0x200)
        .vmovdqa_ymm_from_rax_offset(12, 0)
        .vmovdqu_rsi_offset_from_ymm(64, 3)
        .finish();
    // vmovdqu ymm0, [rdi+32]
    assert_eq!(&code[0..5], [0xc5, 0xfe, 0x6f, 0x47, 0x20]);
    // vmovdqu ymm1, [rsi-32]
    assert_eq!(&code[5..10], [0xc5, 0xfe, 0x6f, 0x4e, 0xe0]);
    // vmovdqu ymm2, [rdi+0x200]
    assert_eq!(&code[10..18], [0xc5, 0xfe, 0x6f, 0x97, 0x00, 0x02, 0x00, 0x00]);
    // vmovdqa ymm12, [rax]
    assert_eq!(&code[18..22], [0xc5, 0x7d, 0x6f, 0x20]);
    // vmovdqu [rsi+64], ymm3
    assert_eq!(&code[22..27], [0xc5, 0xfe, 0x7f, 0x5e, 0x40]);
}

#[test]
fn xor_packed_multi_region_v16i1_matches_single_input_xors() {
    let len = AVX2_BLOCK_BYTES * 2;

    for input_count in [6usize, 7, 12] {
        let mut packed_inputs = alloc_aligned_vec(len * input_count);
        for input_idx in 0..input_count {
            let start = input_idx * len;
            for (byte_idx, byte) in packed_inputs[start..start + len].iter_mut().enumerate() {
                *byte = (byte_idx as u8)
                    .wrapping_mul(7)
                    .wrapping_add((input_idx as u8).wrapping_mul(17))
                    .wrapping_add(11);
            }
        }

        let mut expected = alloc_aligned_vec(len);
        let mut actual = alloc_aligned_vec(len);
        for (byte_idx, byte) in expected.iter_mut().enumerate() {
            *byte = (byte_idx as u8).wrapping_mul(5).wrapping_add(13);
        }
        actual.copy_from_slice(&expected);

        for input_idx in 0..input_count {
            let start = input_idx * len;
            xor_prepared_bitplane_chunks(&packed_inputs[start..start + len], &mut expected, None);
        }

        xor_packed_multi_region_v16i1(&packed_inputs, input_count, len, &mut actual, None, None);

        assert_eq!(actual, expected, "input_count={input_count}");
    }
}

#[test]
fn xor_packed_multi_region_v16i1_ptr_add_only_matches_single_input_xors() {
    let len = AVX2_BLOCK_BYTES * 2;
    let input_count = 12usize;
    let method_info = xor_jit_create_avx2_method_info();
    let mut packed_inputs = alloc_aligned_vec(len * input_count);
    for input_idx in 0..input_count {
        let start = input_idx * len;
        for (byte_idx, byte) in packed_inputs[start..start + len].iter_mut().enumerate() {
            *byte = (byte_idx as u8)
                .wrapping_mul(19)
                .wrapping_add((input_idx as u8).wrapping_mul(23))
                .wrapping_add(5);
        }
    }

    let mut expected = alloc_aligned_vec(len);
    let mut actual = alloc_aligned_vec(len);
    for (byte_idx, byte) in expected.iter_mut().enumerate() {
        *byte = (byte_idx as u8).wrapping_mul(3).wrapping_add(29);
    }
    actual.copy_from_slice(&expected);

    for input_idx in 0..input_count {
        let start = input_idx * len;
        xor_prepared_bitplane_chunks(&packed_inputs[start..start + len], &mut expected, None);
    }

    let output_prefetch = actual.as_ptr() as usize + len / 2;
    let input_prefetch = packed_inputs.as_ptr() as usize + len * 6;
    xor_packed_multi_region_v16i1_ptr(
        &packed_inputs,
        input_count,
        &mut actual,
        len,
        method_info,
        Some(input_prefetch),
        Some(output_prefetch),
    );

    assert_eq!(actual, expected);
}

#[test]
fn xor_packed_multi_region_zero_regions_leaves_output() {
    let len = AVX2_BLOCK_BYTES;
    let packed = vec![0xFFu8; len * 3];
    let mut out: Vec<u8> = (0..len).map(|i| i as u8).collect();
    let before = out.clone();
    xor_packed_multi_region_v16i1(&packed, 0, len, &mut out, None, None);
    assert_eq!(out, before);
}

#[test]
fn xor_packed_multi_region_many_regions_with_prefetch_hints() {
    let len = AVX2_BLOCK_BYTES;
    for regions in [1usize, 5, 13, 20] {
        let packed: Vec<u8> = (0..len * regions).map(|i| (i * 31 % 251) as u8).collect();
        let base: Vec<u8> = (0..len).map(|i| (i * 7) as u8).collect();
        let mut expected = base.clone();
        for r in 0..regions {
            for k in 0..len {
                expected[k] ^= packed[r * len + k];
            }
        }
        for (pin, pout) in [(None, None), (Some(4096usize), None), (None, Some(8192usize)), (Some(1usize), Some(2usize))] {
            let mut out = base.clone();
            xor_packed_multi_region_v16i1(&packed, regions, len, &mut out, pin, pout);
            assert_eq!(out, expected, "regions={regions}");
        }
    }
}

#[test]
fn scratch_zero_coefficient_leaves_output_unloaded_and_unchanged() {
    let input = alloc_aligned_vec(AVX2_BLOCK_BYTES);
    let mut output = alloc_aligned_vec(AVX2_BLOCK_BYTES);
    output.iter_mut().enumerate().for_each(|(idx, byte)| *byte = (idx * 17 + 3) as u8);
    let expected = output.clone();
    let prefetch = vec![0xccu8; input.len()];
    let prepared = XorJitPreparedCoeff::new(0);
    let mut scratch = XorJitBitplaneScratch::new().expect("scratch");

    scratch.multiply_add_chunks_with_prefetch(&prepared, &input, &mut output, None);
    scratch.multiply_add_chunks_with_prefetch(&prepared, &input, &mut output, Some(prefetch.as_ptr() as usize));

    assert_eq!(output, expected);
    assert_eq!(scratch.loaded, None);
}

#[test]
fn scratch_rewrites_same_code_for_repeated_coefficient_and_mode() {
    let input = alloc_aligned_vec(AVX2_BLOCK_BYTES);
    let mut output = alloc_aligned_vec(AVX2_BLOCK_BYTES);
    let prefetch = vec![0xccu8; input.len()];
    let prepared = XorJitPreparedCoeff::new(0x100b);
    let mut scratch = XorJitBitplaneScratch::new().expect("scratch");

    scratch.multiply_add_chunks_with_prefetch(&prepared, &input, &mut output, None);
    let body_len = scratch.code.len();
    let body_code = scratch.code.clone();
    scratch.multiply_add_chunks_with_prefetch(&prepared, &input, &mut output, None);
    assert_eq!(scratch.code.len(), body_len);
    assert_eq!(scratch.code, body_code);

    scratch.multiply_add_chunks_with_prefetch(&prepared, &input, &mut output, Some(prefetch.as_ptr() as usize));
    let prefetch_len = scratch.code.len();
    let prefetch_code = scratch.code.clone();
    scratch.multiply_add_chunks_with_prefetch(&prepared, &input, &mut output, Some(prefetch.as_ptr() as usize));
    assert_eq!(scratch.code.len(), prefetch_len);
    assert_eq!(scratch.code, prefetch_code);
    assert_ne!(prefetch_code, body_code);
}

#[test]
fn scratch_multiply_add_matches_kernel_and_holds_generated_body() {
    let coefficient = 0x678b;
    let prepared = XorJitPreparedCoeff::new(coefficient);
    let kernel = XorJitBitplaneKernel::new(&prepared).expect("kernel");
    let input: Vec<u8> = (0..AVX2_BLOCK_BYTES * 2).map(|i| (i * 13 + 7) as u8).collect();
    let base: Vec<u8> = (0..AVX2_BLOCK_BYTES * 2).map(|i| (i * 5 + 1) as u8).collect();
    let mut expected = base.clone();
    kernel.multiply_add_chunks(&input, &mut expected);
    let mut scratch = XorJitBitplaneScratch::new().expect("scratch");
    let mut actual = base.clone();
    scratch.multiply_add_chunks_with_prefetch(&prepared, &input, &mut actual, None);
    assert_eq!(actual, expected);
    assert_eq!(scratch.loaded, Some((coefficient, false)));
    let whole = emit_bitplane_chunk_program_bytes(&prepared.plan, &scratch.tables, false);
    assert_eq!(scratch.code, whole);
    assert_eq!(&scratch.code[..scratch.code_start], &xor_jit_body_static_prefix()[..]);
}

#[test]
fn dynamic_encoder_appends_after_prefix() {
    let tables = build_turbo_dep_tables();
    for coefficient in [1u16, 2, 3, 5, 0x100b, 0x678b, 0xc814, 0xffff] {
        let plan = BitplaneCoeffPlan::new(coefficient);
        for prefetch in [false, true] {
            let expected = emit_bitplane_chunk_program_bytes(&plan, &tables, prefetch);
            let prefix = xor_jit_body_static_prefix();
            let mut code = prefix.clone();
            let n = emit_bitplane_chunk_program_dynamic_into(&plan, &tables, prefetch, prefix.len(), &mut code);
            assert_eq!(code, expected, "coefficient={coefficient:#06x} prefetch={prefetch}");
            assert_eq!(prefix.len() + n, expected.len());
            let mut into = Vec::new();
            let total = emit_bitplane_chunk_program_into(&plan, &tables, prefetch, &mut into);
            assert_eq!(into, expected);
            assert_eq!(total, expected.len());
        }
    }
}

#[test]
fn direct_bitplane_dynamic_encoder_matches_program_encoder() {
    let tables = build_turbo_dep_tables();
    for coefficient in [1, 2, 3, 5, 0x100b, 0x678b, 0xc814, 0xffff] {
        let plan = BitplaneCoeffPlan::new(coefficient);
        for prefetch in [false, true] {
            let expected = emit_bitplane_chunk_program_bytes(&plan, &tables, prefetch);
            let mut code: Vec<u8> = Vec::new();
            let generated_len = emit_bitplane_chunk_program_into(&plan, &tables, prefetch, &mut code);
            let actual = code[..generated_len].to_vec();
            assert_eq!(actual, expected, "coefficient={coefficient:#06x} prefetch={prefetch}");
        }
    }
}

#[test]
fn coefficient_dynamic_encoder_matches_plan_dynamic_encoder() {
    let tables = build_turbo_dep_tables();
    for coefficient in [1, 2, 3, 5, 0x100b, 0x678b, 0xc814, 0xffff] {
        let plan = BitplaneCoeffPlan::new(coefficient);
        for prefetch in [false, true] {
            let mut expected = Vec::new();
            let static_prefix_len = xor_jit_body_static_prefix().len();
            let expected_len = emit_bitplane_chunk_program_dynamic_into(&plan, &tables, prefetch, static_prefix_len, &mut expected);
            let mut actual = Vec::new();
            let actual_len = emit_bitplane_chunk_program_dynamic_for_coefficient_into(coefficient, &tables, prefetch, static_prefix_len, &mut actual);
            assert_eq!(actual_len, expected_len);
            assert_eq!(actual, expected, "coefficient={coefficient:#06x} prefetch={prefetch}");
        }
    }
}

#[test]
fn multi_chunks_group_passes_add_every_input_once() {
    let len = AVX2_BLOCK_BYTES;
    for input_count in [0usize, 1, 5, 13, 20, 25] {
        let inputs = (0..input_count)
            .map(|i| (0..len).map(|b| (b as u8).wrapping_mul(7).wrapping_add((i as u8).wrapping_mul(19)).wrapping_add(1)).collect::<Vec<u8>>())
            .collect::<Vec<_>>();
        let refs = inputs.iter().map(|v| v.as_slice()).collect::<Vec<_>>();
        let start = (0..len).map(|b| (b as u8).wrapping_mul(3)).collect::<Vec<u8>>();
        let mut expected = start.clone();
        for b in 0..len {
            for input in &inputs {
                expected[b] ^= input[b];
            }
        }
        for (pin, pout) in [(None, None), (Some(4096usize), None), (None, Some(8192usize)), (Some(4096), Some(8192))] {
            let mut actual = start.clone();
            xor_prepared_bitplane_multi_chunks(&refs, len, &mut actual, pin, pout);
            assert_eq!(actual, expected, "input_count={input_count}");
        }
    }
}

#[test]
fn cpuid_decoding_of_vendor_family_and_model() {
    // "GenuineIntel" in EBX, EDX, ECX
    let v = par2rs::xor_jit::cpu_vendor_from_registers(0x756e_6547, 0x4965_6e69, 0x6c65_746e);
    assert_eq!(&v, b"GenuineIntel");
    // family 6, extended model 9, model 0xe: Kaby Lake style signature
    assert_eq!(par2rs::xor_jit::cpu_family_model(0x0009_06ea), (6, 0x9e));
    // base family 15 adds the extended family
    assert_eq!(par2rs::xor_jit::cpu_family_model(0x00a0_0f11), (0x19, 0x01));
}
