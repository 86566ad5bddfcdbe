//! Board-wide constants.

use vstd::prelude::*;

verus! {

/// Side length of the board: 9 rows, 9 columns, 9 regions.
pub const LENGTH_DIMENSION: u8 = 9;

/// Total number of cells on the board.
pub const MAX_NB_VALUES: u8 = 81;

/// Marker for a cell whose value is not known yet.
pub const TO_BE_SOLVED: u8 = 0;

/// The minimum number of given cells for a puzzle to have a unique solution.
pub const MINIMUM_PROVIDED: u8 = 17;

} // verus!
