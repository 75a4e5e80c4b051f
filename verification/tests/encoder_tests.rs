use par2rs::encoder::RecoveryBlockEncoder;
use par2rs::reedsolomon::{ReedSolomon, RsError};

#[test]
fn test_encoder_creation() {
    let encoder = RecoveryBlockEncoder::new(1024, 10);
    assert_eq!(encoder.block_size(), 1024);
    assert_eq!(encoder.total_input_blocks(), 10);
    assert_eq!(encoder.base_values.len(), 10);
    for &base in &encoder.base_values {
        assert_ne!(base, 0, "Base values must be non-zero");
    }
}

#[test]
fn test_base_values_relatively_prime() {
    let encoder = RecoveryBlockEncoder::new(64, 100);
    for (i, &base) in encoder.base_values.iter().enumerate() {
        assert_ne!(base, 0, "Base value {} should not be zero", i);
        for (j, &other_base) in encoder.base_values.iter().enumerate() {
            if i != j {
                assert_ne!(base, other_base, "Base values {} and {} should be different", i, j);
            }
        }
    }
}

#[test]
fn test_encode_single_recovery_block() {
    let block_size = 64;
    let encoder = RecoveryBlockEncoder::new(block_size, 3);
    let block1 = vec![0xFF; block_size];
    let block2 = vec![0xAA; block_size];
    let block3 = vec![0x33; block_size];
    let input_blocks: Vec<&[u8]> = vec![&block1, &block2, &block3];
    let result = encoder.encode_recovery_block(0, &input_blocks);
    assert!(result.is_ok());
    let recovery = result.unwrap();
    assert_eq!(recovery.len(), block_size);
    assert!(recovery.iter().any(|&b| b != 0));
}

#[test]
fn test_encode_wrong_input_count() {
    let encoder = RecoveryBlockEncoder::new(64, 5);
    let block1 = vec![0x01; 64];
    let block2 = vec![0x02; 64];
    let input_blocks: Vec<&[u8]> = vec![&block1, &block2];
    let result = encoder.encode_recovery_block(0, &input_blocks);
    assert!(result.is_err());
    match result.unwrap_err() {
        RsError::InvalidInput(msg) => assert!(msg.contains("Expected 5 input blocks")),
        _ => panic!("Expected InvalidInput error"),
    }
}

#[test]
fn test_encode_wrong_block_size() {
    let encoder = RecoveryBlockEncoder::new(64, 2);
    let block1 = vec![0x01; 64];
    let block2 = vec![0x02; 32];
    let input_blocks: Vec<&[u8]> = vec![&block1, &block2];
    let result = encoder.encode_recovery_block(0, &input_blocks);
    assert!(result.is_err());
    match result.unwrap_err() {
        RsError::InvalidInput(msg) => assert!(msg.contains("expected 64")),
        _ => panic!("Expected InvalidInput error"),
    }
}

#[test]
fn test_encode_multiple_recovery_blocks() {
    let block_size = 64;
    let encoder = RecoveryBlockEncoder::new(block_size, 3);
    let block1 = vec![0x01; block_size];
    let block2 = vec![0x02; block_size];
    let block3 = vec![0x03; block_size];
    let input_blocks: Vec<&[u8]> = vec![&block1, &block2, &block3];
    let exponents = vec![0, 1, 2];
    let result = encoder.encode_recovery_blocks_parallel(&exponents, &input_blocks);
    assert!(result.is_ok());
    let recovery_blocks = result.unwrap();
    assert_eq!(recovery_blocks.len(), 3);
    for (exp, data) in recovery_blocks {
        assert!(exponents.contains(&exp));
        assert_eq!(data.len(), block_size);
    }
}

#[test]
fn test_different_exponents_produce_different_results() {
    let block_size = 64;
    let encoder = RecoveryBlockEncoder::new(block_size, 2);
    let block1 = vec![0xFF; block_size];
    let block2 = vec![0xAA; block_size];
    let input_blocks: Vec<&[u8]> = vec![&block1, &block2];
    let recovery0 = encoder.encode_recovery_block(0, &input_blocks).unwrap();
    let recovery1 = encoder.encode_recovery_block(1, &input_blocks).unwrap();
    let recovery2 = encoder.encode_recovery_block(2, &input_blocks).unwrap();
    assert_ne!(recovery0, recovery1);
    assert_ne!(recovery1, recovery2);
    assert_ne!(recovery0, recovery2);
}

#[test]
fn test_encode_with_zero_blocks() {
    let block_size = 128;
    let encoder = RecoveryBlockEncoder::new(block_size, 3);
    let block1 = vec![0x00; block_size];
    let block2 = vec![0x00; block_size];
    let block3 = vec![0x00; block_size];
    let input_blocks: Vec<&[u8]> = vec![&block1, &block2, &block3];
    let recovery = encoder.encode_recovery_block(0, &input_blocks).unwrap();
    assert!(recovery.iter().all(|&b| b == 0));
}

#[test]
fn test_encode_identity_check() {
    let block_size = 64;
    let encoder = RecoveryBlockEncoder::new(block_size, 1);
    let pattern = vec![0x42; block_size];
    let input_blocks: Vec<&[u8]> = vec![&pattern];
    let recovery = encoder.encode_recovery_block(0, &input_blocks).unwrap();
    assert!(recovery.iter().any(|&b| b != 0));
}

#[test]
fn test_parallel_encoding_consistency() {
    let block_size = 256;
    let input_count = 5;
    let encoder = RecoveryBlockEncoder::new(block_size, input_count);
    let blocks: Vec<Vec<u8>> = (0..input_count).map(|i| vec![(i as u8).wrapping_mul(17); block_size]).collect();
    let input_refs: Vec<&[u8]> = blocks.iter().map(|b| b.as_slice()).collect();
    let exponents = vec![0, 1, 2, 3, 4];
    let result1 = encoder.encode_recovery_blocks_parallel(&exponents, &input_refs).unwrap();
    let result2 = encoder.encode_recovery_blocks_parallel(&exponents, &input_refs).unwrap();
    assert_eq!(result1.len(), result2.len());
    for ((exp1, data1), (exp2, data2)) in result1.iter().zip(result2.iter()) {
        assert_eq!(exp1, exp2);
        assert_eq!(data1, data2);
    }
}

#[test]
fn test_block_size_validation_all_blocks() {
    let encoder = RecoveryBlockEncoder::new(128, 3);
    let block1 = vec![0x01; 128];
    let block2 = vec![0x02; 128];
    let block3 = vec![0x03; 64];
    let input_blocks: Vec<&[u8]> = vec![&block1, &block2, &block3];
    let result = encoder.encode_recovery_block(0, &input_blocks);
    assert!(result.is_err());
}

#[test]
fn test_large_input_count() {
    let encoder = RecoveryBlockEncoder::new(512, 1000);
    assert_eq!(encoder.total_input_blocks(), 1000);
    assert_eq!(encoder.base_values.len(), 1000);
    let mut sorted = encoder.base_values.clone();
    sorted.sort_unstable();
    sorted.dedup();
    assert_eq!(sorted.len(), 1000);
}

#[test]
fn test_small_block_sizes() {
    let encoder = RecoveryBlockEncoder::new(4, 2);
    let block1 = vec![0xAA, 0xBB, 0xCC, 0xDD];
    let block2 = vec![0x11, 0x22, 0x33, 0x44];
    let input_blocks: Vec<&[u8]> = vec![&block1, &block2];
    let recovery = encoder.encode_recovery_block(0, &input_blocks).unwrap();
    assert_eq!(recovery.len(), 4);
}

#[test]
fn encoder_matches_codec_process() {
    // The recovery block equals what the codec computes with `process`
    // for word-sized data when every factor is one byte wide.
    let encoder = RecoveryBlockEncoder::new(6, 3);
    let b0 = vec![1u8, 0, 2, 0, 3, 0];
    let b1 = vec![4u8, 0, 5, 0, 6, 0];
    let b2 = vec![7u8, 0, 8, 0, 9, 0];
    let input_blocks: Vec<&[u8]> = vec![&b0, &b1, &b2];
    let recovery = encoder.encode_recovery_block(0, &input_blocks).unwrap();
    // Exponent zero: every coefficient is one, so the block is the XOR.
    let expected: Vec<u8> = (0..6).map(|i| b0[i] ^ b1[i] ^ b2[i]).collect();
    assert_eq!(recovery, expected);
    let mut rs = ReedSolomon::new();
    rs.set_input_all_present(3).unwrap();
    assert_eq!(rs.database, encoder.base_values);
}

#[test]
fn test_large_block_size() {
    let block_size = 1024 * 1024;
    let encoder = RecoveryBlockEncoder::new(block_size, 2);
    let block1 = vec![0x55; block_size];
    let block2 = vec![0xAA; block_size];
    let input_blocks: Vec<&[u8]> = vec![&block1, &block2];
    let result = encoder.encode_recovery_block(0, &input_blocks);
    assert!(result.is_ok());
    assert_eq!(result.unwrap().len(), block_size);
}

#[test]
fn test_high_exponent_values() {
    let block_size = 64;
    let encoder = RecoveryBlockEncoder::new(block_size, 2);
    let block1 = vec![0xFF; block_size];
    let block2 = vec![0x00; block_size];
    let input_blocks: Vec<&[u8]> = vec![&block1, &block2];
    let recovery0 = encoder.encode_recovery_block(100, &input_blocks).unwrap();
    let recovery1 = encoder.encode_recovery_block(1000, &input_blocks).unwrap();
    let recovery2 = encoder.encode_recovery_block(10000, &input_blocks).unwrap();
    assert_ne!(recovery0, recovery1);
    assert_ne!(recovery1, recovery2);
    assert_ne!(recovery0, recovery2);
}

#[test]
fn encoder_error_messages_are_exact() {
    let encoder = RecoveryBlockEncoder::new(4, 3);
    let a = vec![0u8; 4];
    let short = vec![0u8; 2];
    match encoder.encode_recovery_block(0, &[&a, &a]) {
        Err(RsError::InvalidInput(m)) => assert_eq!(m, "Expected 3 input blocks, got 2"),
        _ => panic!("expected an input error"),
    }
    match encoder.encode_recovery_block(0, &[&a, &short, &short]) {
        Err(RsError::InvalidInput(m)) => assert_eq!(m, "Input block 1 has size 2 but expected 4"),
        _ => panic!("expected an input error"),
    }
}

#[test]
fn encoder_parallel_error_messages_are_exact() {
    let encoder = RecoveryBlockEncoder::new(4, 3);
    let a = vec![0u8; 4];
    let short = vec![0u8; 2];
    match encoder.encode_recovery_blocks_parallel(&[0, 1, 2], &[&a, &a]) {
        Err(RsError::InvalidInput(m)) => assert_eq!(m, "Expected 3 input blocks, got 2"),
        _ => panic!("expected an input error"),
    }
    match encoder.encode_recovery_blocks_parallel(&[5, 6], &[&a, &a, &short]) {
        Err(RsError::InvalidInput(m)) => assert_eq!(m, "Input block 2 has size 2 but expected 4"),
        _ => panic!("expected an input error"),
    }
    assert!(encoder.encode_recovery_blocks_parallel(&[], &[&a]).unwrap().is_empty());
}
