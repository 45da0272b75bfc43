//! A deductive solver for standard 9x9 number-placement puzzles.
//!
//! A grid holds 81 cells, each `0` (empty) or a value `1..=9`. The solver
//! fills empty cells one at a time using five deduction rules, applied in a
//! fixed priority order, until the grid is solved or no rule can name a next
//! placement. No guessing or backtracking is performed.

use vstd::prelude::*;

pub mod model;
pub mod grid;
pub mod laws;

verus! {

/// Sum of two machine integers; the caller guarantees the sum fits.
pub fn add(left: usize, right: usize) -> (sum: usize)
    requires
        left + right <= usize::MAX,
    ensures
        sum == left + right,
{
    left + right
}

} // verus!
