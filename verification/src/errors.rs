//! Error taxonomy of the solver.

use vstd::prelude::*;

verus! {

/// Why a call to the solver failed. All variants are terminal: no partial
/// result accompanies them.
#[derive(Clone, Copy, Debug, PartialEq, Eq, Structural)]
pub enum SolveError {
    /// The configured bottle count or level capacity is out of bounds.
    ConfigurationError,
    /// The board lists the wrong number of bottles, or a bottle the wrong
    /// number of cells.
    InputShapeError,
    /// Every strategy of the fallback chain was exhausted.
    NoSolutionFound,
}

} // verus!
