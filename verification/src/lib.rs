//! Discrete-time simulator for multi-resource fair allocation.
//!
//! Competing flows ("packets") arrive over discrete ticks, each demanding a
//! fixed quantity of every resource dimension. An allocation policy splits
//! the fixed capacity among the active flows by assigning each a coefficient
//! (the fraction of its demand it is granted), and each flow's completion
//! progress advances by the fraction of its first resource dimension that it
//! was granted.
//!
//! All quantities are exact integers. Fractional values (coefficients,
//! progress) are carried in millionths: a coefficient of `SCALE` means the
//! whole demand was granted.

pub mod algorithms;
pub mod simulator;

use vstd::prelude::*;

verus! {

/// One whole unit, in millionths. Coefficients range over `0 ..= SCALE`.
pub const SCALE: u64 = 1_000_000;

/// One whole unit squared, in millionths of millionths.
pub const SCALE_SQ: u64 = 1_000_000_000_000;

/// Largest admissible capacity or demand entry, chosen so that
/// `SCALE * MAX_UNITS` fits comfortably in `u64`.
pub const MAX_UNITS: u64 = 1_000_000_000_000;

/// Largest admissible completion target, in millionths of a tick of service.
pub const MAX_PROGRESS: u64 = 1_000_000_000_000_000_000;

/// Largest number of flows a single allocation call accepts.
pub const MAX_FLOWS: usize = 1_000_000_000;

/// Everything that can go wrong when building flows or computing allocations.
#[derive(Clone, Copy, Debug, PartialEq, Eq, Structural)]
pub enum SimError {
    /// A flow was created with a completion target of zero.
    InvalidDemand,
    /// An allocation vector's length differs from the flow's demand length.
    DimensionMismatch,
    /// A capacity entry is zero, or a demand vector's length differs from
    /// the capacity vector's length.
    InfeasibleInput,
    /// The progress-tracked demand entry is zero while its allocation is not.
    DivisionByZero,
}

} // verus!
