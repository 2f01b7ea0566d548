//! Shape motion. Movers travel across the screen in unfolded coordinates, so
//! they read as objects crossing the pattern rather than as more symmetry.

use vstd::prelude::*;

verus! {

pub const MOVER_COUNT: usize = 4;

/// How a mover behaves when it reaches the edge of the screen.
#[derive(Clone, Copy, Debug, PartialEq, Eq, Structural)]
pub enum Edge {
    Bounce,
    /// Leaves one edge and returns on the opposite one, its shape crossing the
    /// boundary in one piece.
    Wrap,
}

} // verus!
