use par2rs::encoder::RecoveryBlockEncoder;
use par2rs::reedsolomon::{ReconstructionEngine, RecoverySlicePacket};
use par2rs::reedsolomon::recover::{effective_chunk_size, reconstruct_chunk, DEFAULT_CHUNK_SIZE};
use rustc_hash::FxHashMap;

fn packet(exponent: u32, recovery_data: Vec<u8>) -> RecoverySlicePacket {
    RecoverySlicePacket {
        length: 100,
        md5: [0; 16],
        set_id: [0; 16],
        type_of_packet: *b"PAR 2.0\0RecvSlic",
        exponent,
        recovery_data,
    }
}

#[test]
fn reconstruction_engine_no_missing_slices() {
    let engine = ReconstructionEngine::new(1024, 10, vec![]);
    let existing = FxHashMap::default();
    let missing: Vec<usize> = vec![];
    let global_map = FxHashMap::default();
    let result = engine.reconstruct_missing_slices(&existing, &missing, &global_map);
    assert!(result.success);
    assert!(result.reconstructed_slices.is_empty());
}

#[test]
fn reconstruction_engine_insufficient_recovery() {
    let engine = ReconstructionEngine::new(1024, 10, vec![packet(0, vec![0u8; 1024])]);
    let existing = FxHashMap::default();
    let missing = vec![0, 1];
    let global_map = FxHashMap::default();
    let result = engine.reconstruct_missing_slices(&existing, &missing, &global_map);
    assert!(!result.success);
    assert!(result.error_message.is_some());
}

#[test]
fn reconstruction_engine_global_no_missing() {
    let engine = ReconstructionEngine::new(1024, 10, vec![]);
    let all_slices = FxHashMap::default();
    let missing: Vec<usize> = vec![];
    let result = engine.reconstruct_missing_slices_global(&all_slices, &missing, 10);
    assert!(result.success);
    assert!(result.reconstructed_slices.is_empty());
}

#[test]
fn reconstruction_engine_simple_word_by_word_reconstruction() {
    let slice_size = 4;
    let total_inputs = 2;
    let recovery_slice = packet(0, vec![0x12, 0x34, 0x56, 0x78]);
    let engine = ReconstructionEngine::new(slice_size, total_inputs, vec![recovery_slice]);
    let mut existing = FxHashMap::default();
    existing.insert(0, vec![0x01, 0x02, 0x03, 0x04]);
    let mut global_map = FxHashMap::default();
    global_map.insert(0, 0);
    global_map.insert(1, 1);
    let missing = vec![1];
    let result = engine.reconstruct_missing_slices(&existing, &missing, &global_map);
    assert!(result.success);
    assert_eq!(result.reconstructed_slices.len(), 1);
    assert!(result.reconstructed_slices.contains_key(&1));
    // Exponent zero makes every coefficient one: the missing slice is the XOR.
    assert_eq!(result.reconstructed_slices[&1], vec![0x13, 0x36, 0x55, 0x7c]);
}

#[test]
fn reconstruction_engine_global_reconstruction_with_data() {
    let slice_size = 8;
    let total_inputs = 3;
    let mut recovery_slices = vec![];
    for exp in 0..2 {
        recovery_slices.push(packet(exp, vec![(exp + 1) as u8; slice_size]));
    }
    let engine = ReconstructionEngine::new(slice_size, total_inputs, recovery_slices);
    let mut all_slices = FxHashMap::default();
    all_slices.insert(0, vec![1u8; slice_size]);
    let missing = vec![1, 2];
    let result = engine.reconstruct_missing_slices_global(&all_slices, &missing, total_inputs);
    assert!(result.success, "Reconstruction should succeed");
    assert_eq!(result.reconstructed_slices.len(), 2, "Should reconstruct 2 slices");
}

#[test]
fn encode_then_reconstruct_global_recovers_lost_slices() {
    let slice_size = 16;
    let total = 5;
    let data: Vec<Vec<u8>> = (0..total)
        .map(|i| (0..slice_size).map(|j| (i * 31 + j * 7 + 3) as u8).collect())
        .collect();
    let refs: Vec<&[u8]> = data.iter().map(|d| d.as_slice()).collect();
    let encoder = RecoveryBlockEncoder::new(slice_size, total);
    let exps = [0u16, 1, 2];
    let recovery: Vec<RecoverySlicePacket> = exps
        .iter()
        .map(|&e| packet(e as u32, encoder.encode_recovery_block(e, &refs).unwrap()))
        .collect();
    let engine = ReconstructionEngine::new(slice_size, total, recovery);
    let missing = vec![1usize, 3, 4];
    let mut present = FxHashMap::default();
    for i in [0usize, 2] {
        present.insert(i, data[i].clone());
    }
    let result = engine.reconstruct_missing_slices_global(&present, &missing, total);
    assert!(result.success);
    for &m in &missing {
        assert_eq!(result.reconstructed_slices[&m], data[m], "slice {m}");
    }
}

#[test]
fn encode_then_reconstruct_word_by_word_recovers_lost_slices() {
    let slice_size = 12;
    let total = 4;
    let data: Vec<Vec<u8>> = (0..total)
        .map(|i| (0..slice_size).map(|j| (i * 57 + j * 13 + 1) as u8).collect())
        .collect();
    let refs: Vec<&[u8]> = data.iter().map(|d| d.as_slice()).collect();
    let encoder = RecoveryBlockEncoder::new(slice_size, total);
    let recovery: Vec<RecoverySlicePacket> = [0u16, 5]
        .iter()
        .map(|&e| packet(e as u32, encoder.encode_recovery_block(e, &refs).unwrap()))
        .collect();
    let engine = ReconstructionEngine::new(slice_size, total, recovery);
    let mut present = FxHashMap::default();
    present.insert(0usize, data[0].clone());
    present.insert(3usize, data[3].clone());
    let mut global_map = FxHashMap::default();
    for i in 0..total {
        global_map.insert(i, i);
    }
    let result = engine.reconstruct_missing_slices(&present, &[1, 2], &global_map);
    assert!(result.success);
    assert_eq!(result.reconstructed_slices[&1], data[1]);
    assert_eq!(result.reconstructed_slices[&2], data[2]);
}

#[test]
fn reconstruct_global_with_singular_system_fails() {
    // The same missing slice twice gives two equal columns.
    let engine = ReconstructionEngine::new(4, 3, vec![packet(0, vec![0; 4]), packet(1, vec![0; 4])]);
    let present = FxHashMap::default();
    let result = engine.reconstruct_missing_slices_global(&present, &[1, 1], 3);
    assert!(!result.success);
    assert!(result.error_message.unwrap().starts_with("Failed to invert matrix"));
    assert!(result.reconstructed_slices.is_empty());
}

#[test]
fn chunked_plan_rebuilds_slices_chunk_by_chunk() {
    let slice_size = 20;
    let total = 4;
    let data: Vec<Vec<u8>> = (0..total)
        .map(|i| (0..slice_size).map(|j| (i * 19 + j * 23 + 5) as u8).collect())
        .collect();
    let refs: Vec<&[u8]> = data.iter().map(|d| d.as_slice()).collect();
    let encoder = RecoveryBlockEncoder::new(slice_size, total);
    let recovery_data: Vec<Vec<u8>> = [0u16, 1].iter().map(|&e| encoder.encode_recovery_block(e, &refs).unwrap()).collect();
    let recovery: Vec<RecoverySlicePacket> = recovery_data.iter().enumerate().map(|(e, d)| packet(e as u32, d.clone())).collect();
    let engine = ReconstructionEngine::new(slice_size, total, recovery);
    let missing = [0usize, 2];
    let available = [1usize, 3];
    let plan = engine.plan_chunked_reconstruction(&missing, &available).unwrap();
    let chunk = 8;
    let mut rebuilt = vec![Vec::new(); missing.len()];
    let mut offset = 0;
    while offset < slice_size {
        let len = chunk.min(slice_size - offset);
        let rec: Vec<Vec<u8>> = recovery_data.iter().map(|d| d[offset..offset + len].to_vec()).collect();
        let inp: Vec<Vec<u8>> = available.iter().map(|&a| data[a][offset..offset + len].to_vec()).collect();
        let outs = reconstruct_chunk(&plan, len, &rec, &inp);
        for (k, o) in outs.into_iter().enumerate() {
            rebuilt[k].extend_from_slice(&o);
        }
        offset += len;
    }
    assert_eq!(rebuilt[0], data[0]);
    assert_eq!(rebuilt[1], data[2]);
}

#[test]
fn chunked_plan_needs_enough_recovery_slices() {
    let engine = ReconstructionEngine::new(8, 4, vec![packet(0, vec![0; 8])]);
    assert!(engine.plan_chunked_reconstruction(&[0, 1], &[2, 3]).is_err());
}

#[test]
fn chunked_plan_fails_only_on_a_singular_system() {
    let engine = ReconstructionEngine::new(4, 3, vec![packet(0, vec![0; 4]), packet(1, vec![0; 4])]);
    // The same missing slice twice: two equal columns.
    assert!(engine.plan_chunked_reconstruction(&[1, 1], &[0, 2]).is_err());
    // Two distinct missing slices: the system is invertible.
    assert!(engine.plan_chunked_reconstruction(&[0, 1], &[2]).is_ok());
    // Nothing missing: nothing to solve.
    assert!(engine.plan_chunked_reconstruction(&[], &[0, 1, 2]).is_ok());
}

#[test]
fn chunk_schedule_covers_the_slice() {
    assert_eq!(par2rs::reedsolomon::recover::chunk_count(100, 32), 4);
    assert_eq!(par2rs::reedsolomon::recover::chunk_count(96, 32), 3);
    assert_eq!(par2rs::reedsolomon::recover::chunk_count(0, 32), 0);
    assert_eq!(par2rs::reedsolomon::recover::chunk_bounds(100, 32, 0), (0, 32));
    assert_eq!(par2rs::reedsolomon::recover::chunk_bounds(100, 32, 3), (96, 4));
}

#[test]
fn chunked_reconstruction_early_answers() {
    let engine = ReconstructionEngine::new(1024, 10, vec![packet(0, vec![0u8; 1024])]);
    let none = engine.chunked_early_result(&[]).unwrap();
    assert!(none.success);
    assert!(none.error_message.is_none());
    assert!(none.reconstructed_slices.is_empty());
    let too_many = engine.chunked_early_result(&[1, 2]).unwrap();
    assert!(!too_many.success);
    assert_eq!(too_many.error_message.as_deref(), Some("Not enough recovery slices available"));
    assert!(engine.chunked_early_result(&[3]).is_none());
    assert_eq!(effective_chunk_size(0), DEFAULT_CHUNK_SIZE);
    assert_eq!(DEFAULT_CHUNK_SIZE, 64 * 1024);
    assert_eq!(effective_chunk_size(4096), 4096);
}
