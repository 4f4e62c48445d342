//! The library's single use of an outside random source: a uniform draw
//! among the four directions used while growing the maze.

use vstd::prelude::*;

verus! {

/// Relies on macroquad's `rand::gen_range` (the quad-rand generator): for an
/// integer type it returns `low + (high - low) * r` truncated toward zero,
/// with `r` drawn in [0, 1), so the result lies below the exclusive upper
/// bound; here it is a draw among the four directions.  Which of the four
/// comes back depends on the generator's hidden state, so nothing more is
/// promised.
#[verifier::external_body]
pub(crate) fn random_direction_draw() -> (r: u32)
    ensures
        r < 4,
{
    macroquad::rand::gen_range(0, 4)
}

} // verus!
