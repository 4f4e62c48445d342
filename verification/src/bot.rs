//! The cycle generator's entry points: grow the random maze, number the
//! tour, invert it into the explicit cycle, and certify the result before
//! handing it out.  Generation cannot fail: a tour that the certificate
//! check refuses — which a spanning-tree maze never produces — is replaced
//! by the deterministic boustrophedon cycle, so a session always starts
//! with a valid cycle.

use vstd::prelude::*;

use crate::cycle::boustrophedon_cycle;
use crate::cycle::cycle_in_bounds;
use crate::cycle::cycle_numbers_match;
use crate::cycle::get_cycle_positions;
use crate::cycle::is_cyclic_tour;
use crate::cycle::is_inverse_of;
use crate::cycle::is_tour_permutation;
use crate::cycle::lemma_table_to_cyclic;
use crate::cycle::tour_adjacency;
use crate::maze::MazeNode;
use crate::maze::generate_maze_paths;
use crate::rng::random_direction_draw;
use crate::tour::generate_tour_numbers;

verus! {

/// Everything a generated cycle promises: the table is a permutation of the
/// arena's numbers, consecutive numbers sit on orthogonally adjacent cells
/// with wraparound, every listed cell lies on the arena, and cycle and table
/// are mutual inverses.
pub open spec fn valid_generation(c: Seq<(usize, usize)>, t: Seq<usize>, w: int, h: int) -> bool {
    &&& is_tour_permutation(t, w, h)
    &&& is_cyclic_tour(c, w, h)
    &&& cycle_in_bounds(c, w, h)
    &&& is_inverse_of(c, t, w, h)
    &&& cycle_numbers_match(c, t, w)
}

/// Grows the maze that the given draws describe and numbers the certified
/// tour over it.  `None` means the walk left the maze grid or produced a
/// table the certificate check refuses; a spanning-tree maze — which the
/// growth always yields — causes neither, though that theorem is checked
/// per run rather than proved once.
pub fn generate_maze_tour(width: usize, height: usize, draws: &Vec<u32>) -> (r: Option<Vec<usize>>)
    requires
        width == height,
        width % 2 == 0,
        width >= 4,
        width * height + 4 <= usize::MAX,
        draws.len() >= 2 * ((width / 2) * (height / 2)),
    ensures
        r matches Some(t) ==> is_tour_permutation(t@, width as int, height as int)
            && tour_adjacency(t@, width as int, height as int),
{
    let maze_width: usize = width / 2;
    let maze_height: usize = height / 2;
    proof {
        assert((width / 2) * (height / 2) <= width * height) by (nonlinear_arith)
            requires
                width >= 0,
                height >= 0,
        ;
    }
    let maze_size: usize = maze_width * maze_height;
    let mut nodes: Vec<MazeNode> = Vec::new();
    while nodes.len() < maze_size
        invariant
            nodes.len() <= maze_size,
            forall|i: int| 0 <= i < nodes@.len() ==> !(#[trigger] nodes@[i]).visited,
        decreases maze_size - nodes.len(),
    {
        nodes.push(MazeNode { visited: false, door_right: false, door_down: false });
    }
    generate_maze_paths(&mut nodes, maze_width, maze_height, draws);
    generate_tour_numbers(&nodes, width, height)
}

/// Builds a full cycle from an explicit sequence of random draws, two per
/// super-cell: the whole generation is a function of the draws alone, so
/// the same draws always give the same cycle.  Generation cannot fail: the
/// randomized tour is certified, and a refused one — which a spanning-tree
/// maze never produces — gives way to the deterministic boustrophedon
/// cycle.
pub fn generate_from_draws(width: usize, height: usize, draws: &Vec<u32>) -> (r: (
    Vec<(usize, usize)>,
    Vec<usize>,
))
    requires
        width == height,
        width % 2 == 0,
        width >= 4,
        width * height + 4 <= usize::MAX,
        draws.len() >= 2 * ((width / 2) * (height / 2)),
    ensures
        valid_generation(r.0@, r.1@, width as int, height as int),
{
    match generate_maze_tour(width, height, draws) {
        Some(t) => {
            let positions = get_cycle_positions(&t, width, height);
            proof {
                lemma_table_to_cyclic(positions@, t@, width as int, height as int);
            }
            (positions, t)
        },
        None => boustrophedon_cycle(width, height),
    }
}

/// The single entry point for a game session: draws the maze's randomness
/// from macroquad's generator, grows the maze, numbers the tour, inverts
/// it, and hands back the cycle and the tour-number table.  The result
/// always satisfies every promise of `valid_generation`.
pub fn generate_hamiltonian_cycle(width: usize, height: usize) -> (r: (
    Vec<(usize, usize)>,
    Vec<usize>,
))
    requires
        width == height,
        width % 2 == 0,
        width >= 4,
        width * height + 4 <= usize::MAX,
    ensures
        valid_generation(r.0@, r.1@, width as int, height as int),
{
    proof {
        assert(4 * ((width / 2) * (height / 2)) <= width * height) by (nonlinear_arith)
            requires
                width >= 0,
                height >= 0,
                width % 2 == 0,
                height % 2 == 0,
        ;
    }
    let maze_size: usize = (width / 2) * (height / 2);
    let needed: usize = 2 * maze_size;
    let mut draws: Vec<u32> = Vec::new();
    while draws.len() < needed
        invariant
            draws.len() <= needed,
        decreases needed - draws.len(),
    {
        draws.push(random_direction_draw());
    }
    generate_from_draws(width, height, &draws)
}

} // verus!
