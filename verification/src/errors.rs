//! The reasons for which a proof cannot be made.

use vstd::prelude::*;

verus! {

/// Why synthesis of a proof stopped.
#[derive(Clone, Copy, Debug, PartialEq, Eq, Structural)]
pub enum SynthesisError {
    /// The witness does not satisfy the constraints.
    Unsatisfiable,
    /// A value that the argument needs was not opened.
    AssignmentMissing,
    /// An element without an inverse had to be inverted.
    DivisionByZero,
    /// The field has no evaluation domain of the size that the circuit needs.
    PolynomialDegreeTooLarge,
}

} // verus!
