use par2rs::builder::{MinimalConfig, ReedSolomon, ReedSolomonBuilder, StandardPar2};
use par2rs::galois::Galois16;
use par2rs::matrix::{AlignedChunkSize, ColIndex, Matrix, NonZeroGalois16, RecoveryConfig, RowIndex, SliceLength};
use par2rs::typestate::{New, ReedSolomon as TypedReedSolomon, TypeSafeReedSolomonBuilder};

#[test]
fn test_builder_required_fields() {
    let _builder = ReedSolomonBuilder::new()
        .with_data_blocks::<10>()
        .with_recovery_blocks::<5>()
        .finalize()
        .build();
    assert_eq!(ReedSolomon::<10, 5>::dimensions(), (5, 10));
}

#[test]
fn test_const_generic_bounds_checking() {
    let mut rs = StandardPar2::new();
    assert!(rs.set_input_present(0, true).is_ok());
    assert!(rs.set_input_present(9, false).is_ok());
    assert!(rs.set_recovery_present(0, true).is_ok());
    assert!(rs.set_recovery_present(4, false).is_ok());
    assert!(rs.set_input_present(10, true).is_err());
    assert!(rs.set_recovery_present(5, true).is_err());
}

#[test]
fn test_aligned_chunk_processing() {
    let mut rs = MinimalConfig::new();
    rs.compute().unwrap();
    let input = [1u8; 64];
    let mut output = [0u8; 64];
    let alignment = AlignedChunkSize::<64>::new();
    let result = rs.process_aligned_chunk(0, &input, 0, &mut output, alignment);
    assert!(result.is_ok());
}

#[test]
fn test_recovery_capability_checking() {
    let mut rs = StandardPar2::new();
    for i in 0..10 {
        rs.set_input_present(i, true).unwrap();
    }
    for i in 0..5 {
        rs.set_recovery_present(i, true).unwrap();
    }
    rs.set_input_present(0, false).unwrap();
    rs.set_input_present(1, false).unwrap();
    assert_eq!(rs.recoverable_missing_count(), 2);
    assert!(rs.can_reconstruct());
    rs.set_input_present(2, false).unwrap();
    rs.set_input_present(3, false).unwrap();
    rs.set_input_present(4, false).unwrap();
    rs.set_input_present(5, false).unwrap();
    assert_eq!(rs.recoverable_missing_count(), 5);
    assert!(!rs.can_reconstruct());
}

#[test]
fn test_matrix_basic_operations() {
    let mut matrix = Matrix::<3, 3>::new();
    matrix.set(0, 0, Galois16::new(1));
    matrix.set(1, 1, Galois16::new(2));
    matrix.set(2, 2, Galois16::new(3));
    assert_eq!(matrix.get(0, 0), Galois16::new(1));
    assert_eq!(matrix.get(1, 1), Galois16::new(2));
    assert_eq!(matrix.get(2, 2), Galois16::new(3));
}

#[test]
fn test_identity_matrix() {
    let identity = Matrix::<4, 4>::identity();
    for i in 0..4 {
        for j in 0..4 {
            if i == j {
                assert_eq!(identity.get(i, j), Galois16::new(1));
            } else {
                assert_eq!(identity.get(i, j), Galois16::new(0));
            }
        }
    }
}

#[test]
fn test_slice_length_validation() {
    let buffer = [1u8, 2, 3, 4];
    let _length_marker = SliceLength::<4>::new();
    let validated = SliceLength::<4>::validate_slice(&buffer);
    assert!(validated.is_ok());
    let wrong_length = SliceLength::<3>::validate_slice(&buffer);
    assert!(wrong_length.is_err());
}

#[test]
fn test_nonzero_galois() {
    let nz = NonZeroGalois16::new(42).unwrap();
    assert_eq!(nz.get(), 42);
    let zero = NonZeroGalois16::new(0);
    assert!(zero.is_none());
}

#[test]
fn test_matrix_indices() {
    let row = RowIndex::<5>::new(3).unwrap();
    let col = ColIndex::<5>::new(2).unwrap();
    assert_eq!(row.get(), 3);
    assert_eq!(col.get(), 2);
    let invalid_row = RowIndex::<5>::new(5);
    assert!(invalid_row.is_none());
}

#[test]
fn test_recovery_config() {
    let _config = RecoveryConfig::<10, 5>::new();
    assert_eq!(RecoveryConfig::<10, 5>::data_blocks(), 10);
    assert_eq!(RecoveryConfig::<10, 5>::recovery_blocks(), 5);
    assert_eq!(RecoveryConfig::<10, 5>::total_blocks(), 15);
    assert!(RecoveryConfig::<10, 5>::can_recover(3));
    assert!(RecoveryConfig::<10, 5>::can_recover(5));
    assert!(!RecoveryConfig::<10, 5>::can_recover(6));
}

#[test]
fn test_aligned_chunk_size() {
    let _chunk32 = AlignedChunkSize::<32>::new();
    let _chunk64 = AlignedChunkSize::<64>::new();
    let _chunk1024 = AlignedChunkSize::<1024>::new();
    assert_eq!(AlignedChunkSize::<32>::size(), 32);
    assert_eq!(AlignedChunkSize::<64>::size(), 64);
}

#[test]
fn type_safety_prevents_invalid_transitions() {
    let rs = TypedReedSolomon::new();
    let rs = rs.set_input(&[true, false]).unwrap();
    let rs = rs.set_output(true, 0).unwrap().compute().unwrap();
    let input = vec![1u8; 4];
    let mut output = vec![0u8; 4];
    let _ = rs.process(0, &input, 0, &mut output);
}

#[test]
fn builder_provides_same_ergonomic_api() {
    let rs = TypeSafeReedSolomonBuilder::new()
        .with_input_status(&[true, true, false])
        .with_recovery_block(true, 0)
        .build()
        .unwrap()
        .compute()
        .unwrap();
    let input = vec![1u8; 8];
    let mut output = vec![0u8; 8];
    let _ = rs.process(0, &input, 0, &mut output);
}

#[test]
fn zero_cost_wrapper_overhead() {
    let original_size = std::mem::size_of::<par2rs::reedsolomon::ReedSolomon>();
    let wrapper_size = std::mem::size_of::<TypedReedSolomon<New>>();
    assert_eq!(wrapper_size, original_size);
}

// ---- additional checks ----

#[test]
fn const_matrix_invert_gives_left_inverse() {
    let mut m = Matrix::<2, 2>::new();
    m.set(0, 0, Galois16::new(3));
    m.set(0, 1, Galois16::new(5));
    m.set(1, 0, Galois16::new(7));
    m.set(1, 1, Galois16::new(11));
    let original = m.clone();
    m.invert().unwrap();
    for i in 0..2 {
        for j in 0..2 {
            let mut s = Galois16::new(0);
            for k in 0..2 {
                s = s + m.get(i, k) * original.get(k, j);
            }
            assert_eq!(s.value(), if i == j { 1 } else { 0 });
        }
    }
}

#[test]
fn const_matrix_invert_singular_is_error() {
    let mut m = Matrix::<2, 2>::new();
    m.set(0, 0, Galois16::new(1));
    m.set(0, 1, Galois16::new(2));
    m.set(1, 0, Galois16::new(1));
    m.set(1, 1, Galois16::new(2));
    assert_eq!(m.invert(), Err("Matrix is singular"));
    assert_eq!(m.get(1, 1), Galois16::new(2));
}

#[test]
fn const_generic_compute_uses_vandermonde_bases() {
    let mut rs = MinimalConfig::new();
    rs.compute().unwrap();
    // Recovery row 0 uses base DATA_BLOCKS + 1 = 3: entries 3^0 and 3^1.
    assert_eq!(rs.generator_matrix.get(0, 0).value(), 1);
    assert_eq!(rs.generator_matrix.get(0, 1).value(), 3);
}

#[test]
fn process_aligned_chunk_before_compute_fails() {
    let rs = MinimalConfig::new();
    let input = [1u8; 32];
    let mut output = [0u8; 32];
    let r = rs.process_aligned_chunk(0, &input, 0, &mut output, AlignedChunkSize::<32>::new());
    assert!(matches!(r, Err(par2rs::reedsolomon::RsError::NotComputed)));
    assert_eq!(output, [0u8; 32]);
}

#[test]
fn nonzero_divide_and_safe_indices() {
    let d = NonZeroGalois16::new(3).unwrap();
    let q = NonZeroGalois16::divide(Galois16::new(6), d);
    assert_eq!(q * d.to_galois16(), Galois16::new(6));
    let mut m = Matrix::<2, 3>::new();
    let r = RowIndex::<2>::new(1).unwrap();
    let c = ColIndex::<3>::new(2).unwrap();
    m.set_safe(r, c, Galois16::new(9));
    assert_eq!(m.get_safe(r, c).value(), 9);
    assert_eq!(m.get(1, 2).value(), 9);
    assert_eq!(Matrix::<2, 3>::dimensions(), (2, 3));
    assert_eq!(m.row(1)[2].value(), 9);
    m.row_mut(0)[0] = Galois16::new(4);
    assert_eq!(m.get(0, 0).value(), 4);
}

#[test]
fn typestate_builder_without_inputs_fails() {
    let r = TypeSafeReedSolomonBuilder::new().with_recovery_block(true, 0).build();
    assert!(matches!(r, Err(par2rs::reedsolomon::RsError::ComputationError)));
}

#[test]
fn aligned_vec_fill_and_resize() {
    let mut v = par2rs::aligned::AlignedVec::new_zeroed(1024);
    assert_eq!(v.len(), 1024);
    assert!(v.as_slice().iter().all(|&b| b == 0));
    v.as_mut_slice()[0] = 9;
    v.fill(3);
    assert!(v.as_slice().iter().all(|&b| b == 3));
    v.resize_zeroed(256);
    assert_eq!(v.len(), 256);
    assert!(v.as_slice().iter().all(|&b| b == 0));
    assert!(!v.is_empty());
    assert!(par2rs::aligned::AlignedVec::new_zeroed(0).is_empty());
    assert!(par2rs::aligned::alloc_aligned_vec(64).iter().all(|&b| b == 0));
}
