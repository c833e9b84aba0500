//! The error taxonomy shared by the value reader and the solvers: input runs
//! out, a token fails to parse, a solver has no answer, or a cost cannot be
//! represented. Every error names the logical field that was being read.

use vstd::prelude::*;

verus! {

/// The logical field being read when an input error arises.
#[derive(Clone, Copy, PartialEq, Eq, Structural, Debug)]
pub enum Field {
    Height,
    Width,
    Cell,
    PinCount,
    Pin,
}

/// Why a solver run failed. Input errors carry the field being read;
/// the rest describe conditions of the solver itself.
#[derive(Clone, Copy, PartialEq, Eq, Structural, Debug)]
pub enum SolveError {
    /// The token stream was exhausted while this field still needed a token.
    EndOfInput(Field),
    /// A token was present but is not an unsigned base-10 integer in range.
    Malformed(Field),
    /// Fewer than two distinct pins: no linking cost is defined.
    NoSolution,
    /// A grid dimension of zero: there is no path to evaluate.
    ZeroDimension,
    /// An accumulated path cost does not fit in an unsigned 64-bit value.
    CostOverflow,
}

} // verus!
