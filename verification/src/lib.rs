//! Verified host-side logic of the CUDA backend of the stwo prover: field
//! element plumbing, Blake2s Merkle hashing and commitment, column
//! operations and the device memory pool bookkeeping.
pub mod fields;
pub mod hash;
pub mod bindings;
pub mod mem_pool;
pub mod utils;
pub mod column;
mod sort;
pub mod merkle;
pub mod decommit;
pub mod dispatch;
pub mod gkr;
pub mod simd_domain;
pub mod quotient;
pub mod assert_eval;
