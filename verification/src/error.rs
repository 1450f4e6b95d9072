use vstd::prelude::*;

verus! {

/// Every failure of the numeric core, reported as a value so that callers
/// (and tests) can recover from it instead of aborting the process.
#[derive(Clone, Copy, Debug, PartialEq, Eq, Structural)]
pub enum MathError {
    /// Two operands' dimensions disagree with the operation's algebraic rule.
    /// The payload carries the two dimension pairs that disagreed.
    ShapeMismatch {
        left_rows: usize,
        left_cols: usize,
        right_rows: usize,
        right_cols: usize,
    },
    /// An intermediate value left the representable fixed-point range.  Real
    /// numbers never overflow; this is the machine-width artifact of the
    /// fixed-width scalar representation.
    Overflow,
    /// A network was set up with fewer than two layer sizes, or training was
    /// handed input and target sequences of different lengths.
    InvalidConfiguration,
}

} // verus!
