//! Verified Reed-Solomon arithmetic for PAR2 (GF(2^16)).
pub mod field;
pub mod generator;
pub mod galois;
pub mod linalg;
pub mod elimination;
pub mod reedsolomon;
pub mod bases;
pub mod matrix;
pub mod builder;
pub mod typestate;
pub mod types;
pub mod reconstruction;
pub mod par2_reed_solomon;
pub mod aligned;
pub mod simd;
pub mod xor_jit;
pub mod encoder;
pub mod fxmap;
pub mod recovery_law;
