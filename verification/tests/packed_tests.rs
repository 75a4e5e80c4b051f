use par2rs::aligned::alloc_aligned_vec;
use par2rs::xor_jit::bitplane::AVX2_BLOCK_BYTES;
use par2rs::xor_jit::packed::{
    finish_xor_jit_bitplane_packed_output_cksum, finish_xor_jit_bitplane_partial_packsum,
    prepare_xor_jit_bitplane_packed_input_cksum, prepare_xor_jit_bitplane_partial_packsum, xor_jit_checksum_offset,
    xor_jit_gf16_exp,
};

fn packed_storage_len(slice_len: usize, num_slices: usize, chunk_len: usize) -> usize {
    let aligned_slice_len = slice_len.next_multiple_of(AVX2_BLOCK_BYTES);
    let compute_len = aligned_slice_len + AVX2_BLOCK_BYTES;
    let segment_count = compute_len.div_ceil(chunk_len);
    let last_chunk_len = if compute_len % chunk_len == 0 {
        chunk_len
    } else {
        compute_len % chunk_len
    };
    (segment_count - 1) * num_slices * chunk_len + num_slices * last_chunk_len
}

fn prepare_pattern37(len: usize) -> Vec<u8> {
    (0..len).map(|idx| ((idx * 37 + 11) & 0xff) as u8).collect::<Vec<_>>()
}

fn prepare_pattern29(len: usize) -> Vec<u8> {
    (0..len).map(|idx| ((idx * 29 + 7) & 0xff) as u8).collect::<Vec<_>>()
}

#[test]
fn prepare_xor_jit_bitplane_packed_input_matches_segment_loop() {
    let chunk_len = 128 * 1024;
    let input_pack_size = 16;
    let input_num = 3;
    let slice_len = chunk_len + AVX2_BLOCK_BYTES * 3;
    let compute_len = slice_len + AVX2_BLOCK_BYTES;
    let segment_count = compute_len.div_ceil(chunk_len);
    let last_chunk_len = if compute_len % chunk_len == 0 {
        chunk_len
    } else {
        compute_len % chunk_len
    };
    let storage_len = (segment_count - 1) * input_pack_size * chunk_len + input_pack_size * last_chunk_len;
    let mut prepared = alloc_aligned_vec(storage_len);
    let input = (0..slice_len).map(|idx| ((idx * 29 + 7) & 0xff) as u8).collect::<Vec<_>>();

    prepare_xor_jit_bitplane_packed_input_cksum(&mut prepared, &input, slice_len, input_pack_size, input_num, chunk_len);

    let mut actual = vec![0u8; slice_len];
    assert!(finish_xor_jit_bitplane_packed_output_cksum(&mut actual, &prepared, input_pack_size, input_num, chunk_len));
    assert_eq!(actual, input);
}

#[test]
fn prepare_xor_jit_bitplane_packed_input_requested_cases_roundtrip() {
    let chunk_len = 128 * 1024;
    for (slice_len, input_num) in [
        (1024 * 1024usize, 0usize),
        (1024 * 1024usize, 11usize),
        (1024 * 1024usize - 512, 0usize),
        (1024 * 1024usize - 512, 11usize),
    ] {
        let aligned_slice_len = slice_len.next_multiple_of(AVX2_BLOCK_BYTES);
        let mut prepared = alloc_aligned_vec(packed_storage_len(slice_len, 12, chunk_len));
        let input = prepare_pattern37(slice_len);
        prepare_xor_jit_bitplane_packed_input_cksum(&mut prepared, &input, aligned_slice_len, 12, input_num, chunk_len);
        let mut actual = vec![0u8; slice_len];
        assert!(finish_xor_jit_bitplane_packed_output_cksum(&mut actual, &prepared, 12, input_num, chunk_len));
        assert_eq!(actual, input, "slice_len={slice_len} input_num={input_num}");
    }
}

#[test]
fn finish_xor_jit_bitplane_packed_output_matches_segment_loop() {
    let chunk_len = 128 * 1024;
    let num_outputs = 8;
    let output_num = 5;
    let slice_len = chunk_len + AVX2_BLOCK_BYTES * 5;
    let compute_len = slice_len + AVX2_BLOCK_BYTES;
    let segment_count = compute_len.div_ceil(chunk_len);
    let last_chunk_len = if compute_len % chunk_len == 0 {
        chunk_len
    } else {
        compute_len % chunk_len
    };
    let storage_len = (segment_count - 1) * num_outputs * chunk_len + num_outputs * last_chunk_len;
    let mut prepared = alloc_aligned_vec(storage_len);
    let input = (0..slice_len).map(|idx| (((idx) * 17 + 11) & 0xff) as u8).collect::<Vec<_>>();

    prepare_xor_jit_bitplane_packed_input_cksum(&mut prepared, &input, slice_len, num_outputs, output_num, chunk_len);
    let checksum_offset = xor_jit_checksum_offset(slice_len, num_outputs, output_num, chunk_len);
    prepared[checksum_offset] ^= 1;

    let mut actual = vec![0u8; slice_len];
    assert!(!finish_xor_jit_bitplane_packed_output_cksum(&mut actual, &prepared, num_outputs, output_num, chunk_len));
    assert_eq!(actual, input);
}

#[test]
fn finish_xor_jit_bitplane_packed_output_requested_cases_roundtrip() {
    let chunk_len = 128 * 1024;
    let slice_len = 1024 * 1024;
    let num_outputs = 8;

    for output_num in [0usize, 7usize] {
        let input = prepare_pattern29(slice_len);
        let mut prepared = alloc_aligned_vec(packed_storage_len(slice_len, num_outputs, chunk_len));
        prepare_xor_jit_bitplane_packed_input_cksum(&mut prepared, &input, slice_len, num_outputs, output_num, chunk_len);

        let mut actual = vec![0u8; slice_len];
        assert!(finish_xor_jit_bitplane_packed_output_cksum(&mut actual, &prepared, num_outputs, output_num, chunk_len));
        assert_eq!(actual, input, "output_num={output_num}");
    }
}

#[test]
fn packed_short_source_pads_with_zeros_and_roundtrips() {
    let chunk_len = 2048;
    let pack = 3;
    for num in 0..pack {
        for src_len in [0usize, 1, 511, 512, 1000, 4096, 5000, 5120] {
            let slice_len = 5120;
            let mut prepared = vec![0xEEu8; packed_storage_len(slice_len, pack, chunk_len)];
            let input = prepare_pattern37(src_len);
            prepare_xor_jit_bitplane_packed_input_cksum(&mut prepared, &input, slice_len, pack, num, chunk_len);
            let mut actual = vec![0x55u8; slice_len];
            assert!(finish_xor_jit_bitplane_packed_output_cksum(&mut actual, &prepared, pack, num, chunk_len));
            let mut expected = input.clone();
            expected.resize(slice_len, 0);
            assert_eq!(actual, expected, "num={num} src_len={src_len}");
        }
    }
}

#[test]
fn packed_slices_share_a_buffer_without_clobbering() {
    let chunk_len = 1024;
    let pack = 4;
    let slice_len = 2560;
    let mut prepared = vec![0u8; packed_storage_len(slice_len, pack, chunk_len)];
    let inputs: Vec<Vec<u8>> = (0..pack).map(|n| (0..slice_len).map(|i| ((i * 13 + n * 71) % 256) as u8).collect()).collect();
    for (n, input) in inputs.iter().enumerate() {
        prepare_xor_jit_bitplane_packed_input_cksum(&mut prepared, input, slice_len, pack, n, chunk_len);
    }
    for (n, input) in inputs.iter().enumerate() {
        let mut actual = vec![0u8; slice_len];
        assert!(finish_xor_jit_bitplane_packed_output_cksum(&mut actual, &prepared, pack, n, chunk_len));
        assert_eq!(&actual, input, "slice {n}");
    }
}

#[test]
fn packed_checksum_offset_values() {
    // slice 2560, chunk 1024: two whole chunks, then 512 data + 512 checksum.
    assert_eq!(xor_jit_checksum_offset(2560, 4, 0, 1024), 2 * 4 * 1024 + 512);
    assert_eq!(xor_jit_checksum_offset(2560, 4, 3, 1024), 2 * 4 * 1024 + 3 * 1024 + 512);
    // slice 3584 (3.5 chunks): (3584 + 512) % 1024 == 0, so the last chunk is whole.
    assert_eq!(xor_jit_checksum_offset(3584, 2, 1, 1024), 3 * 2 * 1024 + 1024 + 1024 - 512);
}

#[test]
fn packed_gf16_exp_is_power_of_two() {
    assert_eq!(xor_jit_gf16_exp(0), 1);
    assert_eq!(xor_jit_gf16_exp(1), 2);
    assert_eq!(xor_jit_gf16_exp(4), 16);
    assert_eq!(xor_jit_gf16_exp(16), 0x100B);
    assert_eq!(xor_jit_gf16_exp(65535), 1);
}

#[test]
fn packed_empty_destination_passes() {
    let prepared = vec![0u8; 512];
    let mut dst: Vec<u8> = Vec::new();
    assert!(finish_xor_jit_bitplane_packed_output_cksum(&mut dst, &prepared, 1, 0, 512));
}

#[test]
fn packed_corrupted_data_block_fails_check() {
    let chunk_len = 1024;
    let slice_len = 2048;
    let mut prepared = vec![0u8; packed_storage_len(slice_len, 2, chunk_len)];
    let input = prepare_pattern29(slice_len);
    prepare_xor_jit_bitplane_packed_input_cksum(&mut prepared, &input, slice_len, 2, 1, chunk_len);
    let mut actual = vec![0u8; slice_len];
    assert!(finish_xor_jit_bitplane_packed_output_cksum(&mut actual, &prepared, 2, 1, chunk_len));
    prepared[1024] ^= 0x10;
    assert!(!finish_xor_jit_bitplane_packed_output_cksum(&mut actual, &prepared, 2, 1, chunk_len));
}

#[test]
fn partial_packsum_parts_match_whole_prepare_and_finish() {
    let chunk_len = 1024;
    let pack = 3;
    let num = 1;
    let slice_len = 5120;
    let src = prepare_pattern29(4700);
    let storage = packed_storage_len(slice_len, pack, chunk_len);

    let mut whole = vec![0x33u8; storage];
    prepare_xor_jit_bitplane_packed_input_cksum(&mut whole, &src, slice_len, pack, num, chunk_len);

    let mut parts = vec![0x33u8; storage];
    for (offset, len) in [(0usize, 1024usize), (1024, 2048), (3072, 4700 - 3072)] {
        prepare_xor_jit_bitplane_partial_packsum(&mut parts, &src, slice_len, pack, num, chunk_len, offset, len);
    }
    assert_eq!(parts, whole);

    let mut decoded = vec![0u8; 4700];
    let mut prepared = whole.clone();
    let mut results = Vec::new();
    for (offset, len) in [(0usize, 1024usize), (1024, 1024), (2048, 4700 - 2048)] {
        results.push(finish_xor_jit_bitplane_partial_packsum(
            &mut decoded,
            &mut prepared,
            4700,
            pack,
            num,
            chunk_len,
            offset,
            len,
        ));
    }
    assert_eq!(results, vec![true, true, true]);
    assert_eq!(decoded, src);

    let mut whole_decoded = vec![0u8; 4700];
    assert!(finish_xor_jit_bitplane_packed_output_cksum(&mut whole_decoded, &whole, pack, num, chunk_len));
    assert_eq!(whole_decoded, src);
}

#[test]
fn partial_packsum_single_part_is_whole() {
    let chunk_len = 2048;
    let slice_len = 4096;
    let src = prepare_pattern37(slice_len);
    let storage = packed_storage_len(slice_len, 2, chunk_len);
    let mut whole = vec![0u8; storage];
    prepare_xor_jit_bitplane_packed_input_cksum(&mut whole, &src, slice_len, 2, 0, chunk_len);
    let mut one = vec![0u8; storage];
    prepare_xor_jit_bitplane_partial_packsum(&mut one, &src, slice_len, 2, 0, chunk_len, 0, slice_len);
    assert_eq!(one, whole);
}

#[test]
fn partial_finish_detects_corruption_in_last_part() {
    let chunk_len = 1024;
    let slice_len = 3072;
    let src = prepare_pattern37(slice_len);
    let mut prepared = vec![0u8; packed_storage_len(slice_len, 1, chunk_len)];
    prepare_xor_jit_bitplane_packed_input_cksum(&mut prepared, &src, slice_len, 1, 0, chunk_len);
    prepared[2048 + 7] ^= 0x01;
    let mut decoded = vec![0u8; slice_len];
    assert!(finish_xor_jit_bitplane_partial_packsum(&mut decoded, &mut prepared, slice_len, 1, 0, chunk_len, 0, 1024));
    assert!(!finish_xor_jit_bitplane_partial_packsum(&mut decoded, &mut prepared, slice_len, 1, 0, chunk_len, 1024, 2048));
}
