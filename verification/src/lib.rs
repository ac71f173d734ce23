//! A sparse matrix-matrix multiplication (SpGEMM) engine for matrices in
//! compressed-row form, with two interchangeable executors: a data-parallel
//! CPU path that emits compressed rows directly, and a batched accelerator
//! path modeled end to end — operands transcoded to the device's narrower
//! words, one kernel lane per row, and a fixed-capacity result buffer filled
//! through an atomically bumped counter and clamped at readback. An
//! output-size estimator bounds the result's entry count ahead of time and
//! sizes that buffer.
//!
//! Scalars are 64-bit machine words under wrapping arithmetic — the ring of
//! integers modulo 2^64 — and the device mirror narrows them to 32 bits.
//! Coordinate lists (`coo`), compressed rows (`csr`) and dense expansion
//! (`dense`) carry the data; `spgemm` holds the product semantics and the
//! shared row kernel; `laws` states and proves the crate-level guarantees.
use vstd::prelude::*;

pub mod coo;
pub mod csr;
pub mod dense;
pub mod estimator;
pub mod gpu;
pub mod laws;
pub mod scalar;
pub mod spgemm;
pub mod sums;

verus! {

/// Why a multiplication request was refused.
#[derive(Clone, Copy, Debug, PartialEq, Eq, Structural)]
pub enum MatMulError {
    /// The inner dimensions of the two operands disagree.
    DimensionMismatch,
    /// A matrix description could not be understood by the ingestion layer.
    ParseError,
    /// The device wrote more triplets than the result buffer can hold.
    CapacityExceeded,
    /// No accelerator context could be created.
    DeviceUnavailable,
}

/// Wall-clock phases of one multiplication, in microseconds.
#[derive(Clone, Copy, Debug)]
pub struct TimingResult {
    pub initialization_us: u128,
    pub h2d_us: u128,
    pub raw_multiply_us: u128,
    pub d2h_us: u128,
    pub cleanup_us: u128,
    pub total_us: u128,
}

impl TimingResult {
    pub fn zero() -> (r: Self)
        ensures
            r.initialization_us == 0,
            r.h2d_us == 0,
            r.raw_multiply_us == 0,
            r.d2h_us == 0,
            r.cleanup_us == 0,
            r.total_us == 0,
    {
        TimingResult {
            initialization_us: 0,
            h2d_us: 0,
            raw_multiply_us: 0,
            d2h_us: 0,
            cleanup_us: 0,
            total_us: 0,
        }
    }

    pub fn max_values() -> (r: Self)
        ensures
            r.initialization_us == u128::MAX,
            r.h2d_us == u128::MAX,
            r.raw_multiply_us == u128::MAX,
            r.d2h_us == u128::MAX,
            r.cleanup_us == u128::MAX,
            r.total_us == u128::MAX,
    {
        TimingResult {
            initialization_us: u128::MAX,
            h2d_us: u128::MAX,
            raw_multiply_us: u128::MAX,
            d2h_us: u128::MAX,
            cleanup_us: u128::MAX,
            total_us: u128::MAX,
        }
    }
}

} // verus!
