use par2rs::par2_reed_solomon::Par2ReedSolomon;
use par2rs::reedsolomon::RecoverySlicePacket;
use par2rs::types::ReconstructionConfig;
use rustc_hash::FxHashMap;

fn recovery(exponent: u32, recovery_data: Vec<u8>) -> RecoverySlicePacket {
    RecoverySlicePacket {
        length: 100,
        md5: [0; 16],
        set_id: [0; 16],
        type_of_packet: *b"PAR 2.0\0RecvSlic",
        exponent,
        recovery_data,
    }
}

fn two_slice_setup() -> (Par2ReedSolomon, FxHashMap<usize, Vec<u8>>, FxHashMap<usize, usize>) {
    // With exponent 0 every coefficient is 1, so the recovery slice is the
    // XOR of the data slices.
    let d0 = vec![1u8, 2, 3, 4];
    let d1 = vec![5u8, 6, 7, 8];
    let parity: Vec<u8> = d0.iter().zip(d1.iter()).map(|(a, b)| a ^ b).collect();
    let config = ReconstructionConfig::new(4, 2, 1);
    let rs = Par2ReedSolomon::new(config, vec![recovery(0, parity)]);
    let mut existing = FxHashMap::default();
    existing.insert(0usize, d0);
    let mut global = FxHashMap::default();
    global.insert(0usize, 0usize);
    global.insert(1usize, 1usize);
    (rs, existing, global)
}

#[test]
fn par2_single_slice_rebuilds_from_xor_parity() {
    let (rs, existing, global) = two_slice_setup();
    let rebuilt = rs.reconstruct_single_slice(&existing, 1, &global).unwrap();
    assert_eq!(rebuilt, vec![5u8, 6, 7, 8]);
}

#[test]
fn par2_reconstruct_slices_rebuilds_and_falls_back_to_zeros() {
    let (rs, existing, global) = two_slice_setup();
    let result = rs.reconstruct_slices(&existing, &[1], &global);
    assert!(result.success);
    assert_eq!(result.reconstructed_slices.get(&1), Some(&vec![5u8, 6, 7, 8]));
    assert_eq!(
        result.error_message.as_deref(),
        Some("PAR2 Reed-Solomon reconstruction attempted - may contain fallback zero slices")
    );

    // A slice the map does not place gets a zero-filled slice.
    let result = rs.reconstruct_slices(&existing, &[7], &global);
    assert!(result.success);
    assert_eq!(result.reconstructed_slices.get(&7), Some(&vec![0u8; 4]));
}

#[test]
fn par2_reconstruct_slices_refuses_too_many_missing() {
    let (rs, existing, global) = two_slice_setup();
    let result = rs.reconstruct_slices(&existing, &[0, 1], &global);
    assert!(!result.success);
    assert!(result.reconstructed_slices.is_empty());
    assert_eq!(
        result.error_message.as_deref(),
        Some("Reconstruction not feasible: 2 missing slices, max parity: 1")
    );
}

#[test]
fn par2_single_slice_error_messages() {
    let (rs, existing, mut global) = two_slice_setup();
    assert_eq!(
        rs.reconstruct_single_slice(&existing, 9, &global),
        Err("Missing slice not found in global slice map".to_string())
    );
    global.insert(3usize, 5usize);
    assert_eq!(
        rs.reconstruct_single_slice(&existing, 3, &global),
        Err("Missing slice global index 5 out of range (have 2 constants)".to_string())
    );
    let empty = Par2ReedSolomon::new(ReconstructionConfig::new(4, 2, 0), vec![]);
    assert_eq!(
        empty.reconstruct_single_slice(&existing, 1, &global),
        Err("No recovery slices available".to_string())
    );
}

#[test]
fn par2_recovery_exponents_in_order() {
    let config = ReconstructionConfig::new(4, 2, 3);
    let rs = Par2ReedSolomon::new(
        config,
        vec![recovery(3, vec![0; 4]), recovery(0, vec![0; 4]), recovery(7, vec![0; 4])],
    );
    assert_eq!(rs.get_recovery_exponents(), vec![3u32, 0, 7]);
    assert_eq!(rs.input_constants.len(), 2);
}
