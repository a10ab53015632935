//! Witness generation and constraint ("AIR") layout for log-derivative
//! lookup arguments and grand-product permutation arguments over the
//! BLS12-377 scalar field.
pub mod field;
pub mod layout;
pub mod witness;
pub mod columns;
pub mod occmap;
pub mod lookup;
pub mod permutation;
pub mod trace;
pub mod air;
pub mod laws;
pub mod range;

use vstd::prelude::*;

verus! {

/// The reasons witness generation or constraint evaluation can fail.
#[derive(Clone, Copy, PartialEq, Eq, Structural, Debug)]
pub enum TraceError {
    /// Raw table columns disagree in length, or a side is empty.
    InconsistentRaw,
    /// The terminal running sum is not zero (lookup) or the terminal
    /// running product is not one (permutation).
    InvariantViolated,
    /// A row combination plus the challenge hit zero, which has no inverse.
    InverseOfZero,
    /// The rows handed to the evaluator do not match the declared width.
    WidthMismatch,
}

} // verus!
