//! Configuration of a reconstruction.
use vstd::prelude::*;

verus! {

/// Configuration for Reed-Solomon reconstruction.
#[derive(Debug, Clone)]
pub struct ReconstructionConfig {
    pub slice_size: usize,
    pub total_input_slices: usize,
    pub recovery_slices_count: usize,
    pub max_data_shards: usize,
    pub max_parity_shards: usize,
}

impl ReconstructionConfig {
    /// A configuration with the shard counts capped at 1000 data and 100
    /// parity shards.
    pub fn new(slice_size: usize, total_input_slices: usize, recovery_slices_count: usize) -> (c: Self)
        ensures
            c.slice_size == slice_size,
            c.total_input_slices == total_input_slices,
            c.recovery_slices_count == recovery_slices_count,
            c.max_data_shards == vstd::math::min(1000, total_input_slices as int),
            c.max_parity_shards == vstd::math::min(100, recovery_slices_count as int),
    {
        let max_data_shards = if total_input_slices < 1000 {
            total_input_slices
        } else {
            1000
        };
        let max_parity_shards = if recovery_slices_count < 100 {
            recovery_slices_count
        } else {
            100
        };
        Self { slice_size, total_input_slices, recovery_slices_count, max_data_shards, max_parity_shards }
    }

    /// Whether `missing_slices_count` missing slices are within both limits.
    pub fn is_feasible(&self, missing_slices_count: usize) -> (r: bool)
        ensures
            r == (missing_slices_count <= self.max_parity_shards && missing_slices_count <= self.recovery_slices_count),
    {
        missing_slices_count <= self.max_parity_shards && missing_slices_count <= self.recovery_slices_count
    }
}

} // verus!
