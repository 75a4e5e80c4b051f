//! The high-level reconstruction interface: a configuration and the
//! recovery slices available.
use crate::reedsolomon::engine::RecoverySlicePacket;
use crate::types::ReconstructionConfig;
use vstd::prelude::*;

verus! {

/// Reconstruction engine holding the configuration and the recovery slices.
pub struct ReconstructionEngine {
    pub config: ReconstructionConfig,
    pub recovery_slices: Vec<RecoverySlicePacket>,
}

impl ReconstructionEngine {
    /// Create an engine; the configuration counts the recovery slices given.
    pub fn new(slice_size: usize, total_input_slices: usize, recovery_slices: Vec<RecoverySlicePacket>) -> (e: Self)
        ensures
            e.config.slice_size == slice_size,
            e.config.total_input_slices == total_input_slices,
            e.config.recovery_slices_count == recovery_slices@.len(),
            e.config.max_data_shards == vstd::math::min(1000, total_input_slices as int),
            e.config.max_parity_shards == vstd::math::min(100, recovery_slices@.len() as int),
            e.recovery_slices@ == recovery_slices@,
    {
        let config = ReconstructionConfig::new(slice_size, total_input_slices, recovery_slices.len());
        Self { config, recovery_slices }
    }

    /// Whether the configuration allows `missing_slices_count` missing slices.
    pub fn can_reconstruct(&self, missing_slices_count: usize) -> (r: bool)
        ensures
            r == (missing_slices_count <= self.config.max_parity_shards && missing_slices_count <= self.config.recovery_slices_count),
    {
        self.config.is_feasible(missing_slices_count)
    }

    /// The configuration.
    pub fn get_config(&self) -> (c: &ReconstructionConfig)
        ensures
            *c == self.config,
    {
        &self.config
    }
}

} // verus!
