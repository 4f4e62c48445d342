//! The wall-following walk that turns the maze's spanning tree into tour
//! numbers: a mapping from each full-resolution cell to its position on a
//! closed loop that visits every cell once.  Each super-cell corridor the
//! walk passes through contributes between one and four full-resolution
//! cells, numbered consecutively; a cell is only numbered the first time the
//! walk touches it.

use vstd::prelude::*;

use crate::cycle::check_tour;
use crate::cycle::get_cycle_positions;
use crate::cycle::is_tour_permutation;
use crate::cycle::lemma_cyclic_to_table;
use crate::cycle::tour_adjacency;
use crate::maze::MazeNode;
use crate::maze::node_index;
use crate::maze::lemma_node_index_bound;
use crate::maze::spec_can_go_left;
use crate::maze::spec_can_go_up;

verus! {

/// A facing of the walk, or of the snake, on the grid.
#[derive(PartialEq, Eq, Structural, Clone, Copy, Debug)]
pub enum Direction {
    Up,
    Down,
    Left,
    Right,
}

/// The sentinel that marks a cell whose tour number has not been assigned
/// yet.  It lies outside every possible arena, so it can never collide with a
/// real tour number.
pub const UNASSIGNED: usize = usize::MAX;

/// The flat index of full-resolution cell (x, y) in a row-major table.
pub open spec fn cell_index(x: int, y: int, arena_width: int) -> int {
    x + y * arena_width
}

pub proof fn lemma_cell_index_bound(x: int, y: int, arena_width: int, arena_height: int)
    requires
        0 <= x < arena_width,
        0 <= y < arena_height,
    ensures
        0 <= cell_index(x, y, arena_width) < arena_width * arena_height,
{
    assert(x + y * arena_width < arena_width * arena_height) by (nonlinear_arith)
        requires
            0 <= x < arena_width,
            0 <= y < arena_height,
    ;
}

/// The wall-following priority rule: from the current facing, prefer the
/// relative directions in a fixed 90-degree-rotated order, filtered by the
/// doors that are open at the current super-cell; the reverse direction is
/// the unconditional last resort.
pub open spec fn spec_next_dir(
    nodes: Seq<MazeNode>,
    x: int,
    y: int,
    dir: Direction,
    maze_width: int,
) -> Direction {
    let here = nodes[node_index(x, y, maze_width)];
    match dir {
        Direction::Right => if spec_can_go_up(nodes, x, y, maze_width) {
            Direction::Up
        } else if here.door_right {
            Direction::Right
        } else if here.door_down {
            Direction::Down
        } else {
            Direction::Left
        },
        Direction::Down => if here.door_right {
            Direction::Right
        } else if here.door_down {
            Direction::Down
        } else if spec_can_go_left(nodes, x, y, maze_width) {
            Direction::Left
        } else {
            Direction::Up
        },
        Direction::Left => if here.door_down {
            Direction::Down
        } else if spec_can_go_left(nodes, x, y, maze_width) {
            Direction::Left
        } else if spec_can_go_up(nodes, x, y, maze_width) {
            Direction::Up
        } else {
            Direction::Right
        },
        Direction::Up => if spec_can_go_left(nodes, x, y, maze_width) {
            Direction::Left
        } else if spec_can_go_up(nodes, x, y, maze_width) {
            Direction::Up
        } else if here.door_right {
            Direction::Right
        } else {
            Direction::Down
        },
    }
}

pub fn find_next_dir(
    nodes: &Vec<MazeNode>,
    x: usize,
    y: usize,
    dir: Direction,
    maze_width: usize,
) -> (next: Direction)
    requires
        x < maze_width,
        x + y * maze_width < nodes.len(),
    ensures
        next == spec_next_dir(nodes@, x as int, y as int, dir, maze_width as int),
{
    match dir {
        Direction::Right => {
            if MazeNode::can_go_up(nodes, x, y, maze_width) {
                return Direction::Up;
            }
            if MazeNode::can_go_right(nodes, x, y, maze_width) {
                return Direction::Right;
            }
            if MazeNode::can_go_down(nodes, x, y, maze_width) {
                return Direction::Down;
            }
            Direction::Left
        },
        Direction::Down => {
            if MazeNode::can_go_right(nodes, x, y, maze_width) {
                return Direction::Right;
            }
            if MazeNode::can_go_down(nodes, x, y, maze_width) {
                return Direction::Down;
            }
            if MazeNode::can_go_left(nodes, x, y, maze_width) {
                return Direction::Left;
            }
            Direction::Up
        },
        Direction::Left => {
            if MazeNode::can_go_down(nodes, x, y, maze_width) {
                return Direction::Down;
            }
            if MazeNode::can_go_left(nodes, x, y, maze_width) {
                return Direction::Left;
            }
            if MazeNode::can_go_up(nodes, x, y, maze_width) {
                return Direction::Up;
            }
            Direction::Right
        },
        Direction::Up => {
            if MazeNode::can_go_left(nodes, x, y, maze_width) {
                return Direction::Left;
            }
            if MazeNode::can_go_up(nodes, x, y, maze_width) {
                return Direction::Up;
            }
            if MazeNode::can_go_right(nodes, x, y, maze_width) {
                return Direction::Right;
            }
            Direction::Down
        },
    }
}

/// Assigns a tour number to one cell unless the cell already has one: the
/// first write wins, because corridors shared between adjacent passes of the
/// loop must not renumber an already numbered cell.
pub fn set_tour_number(
    tour_to_number: &mut Vec<usize>,
    x: usize,
    y: usize,
    number: usize,
    arena_width: usize,
)
    requires
        x < arena_width,
        x + y * arena_width < old(tour_to_number).len(),
    ensures
        final(tour_to_number)@ == if old(tour_to_number)@[cell_index(
            x as int,
            y as int,
            arena_width as int,
        )] == UNASSIGNED {
            old(tour_to_number)@.update(cell_index(x as int, y as int, arena_width as int), number)
        } else {
            old(tour_to_number)@
        },
{
    let index: usize = x + y * arena_width;
    if tour_to_number[index] == UNASSIGNED {
        tour_to_number[index] = number;
    }
}

/// Walks the spanning tree with the wall-following rule, numbering the
/// full-resolution cells it passes, until every number up to the arena size
/// has been handed out, and certifies the outcome: a table only comes back
/// once it has passed the permutation and adjacency check.  The walk starts
/// at the top-left super-cell, seeded onto a tree edge.  A walk that would
/// leave the maze grid, or a table the check refuses — neither of which a
/// spanning-tree maze produces — yields `None`.
pub fn generate_tour_numbers(
    nodes: &Vec<MazeNode>,
    arena_width: usize,
    arena_height: usize,
) -> (r: Option<Vec<usize>>)
    requires
        arena_width >= 4,
        arena_height >= 4,
        arena_width % 2 == 0,
        arena_height % 2 == 0,
        nodes.len() == (arena_width / 2) * (arena_height / 2),
        arena_width * arena_height + 4 <= usize::MAX,
    ensures
        r matches Some(t) ==> t@.len() == arena_width * arena_height && is_tour_permutation(
            t@,
            arena_width as int,
            arena_height as int,
        ) && tour_adjacency(t@, arena_width as int, arena_height as int),
{
    let maze_width: usize = arena_width / 2;
    let maze_height: usize = arena_height / 2;
    let arena_size: usize = arena_width * arena_height;

    let mut tour_to_number: Vec<usize> = Vec::new();
    while tour_to_number.len() < arena_size
        invariant
            tour_to_number.len() <= arena_size,
        decreases arena_size - tour_to_number.len(),
    {
        tour_to_number.push(UNASSIGNED);
    }

    proof {
        lemma_node_index_bound(0, 0, maze_width as int, maze_height as int);
        assert(arena_width * arena_height >= 16) by (nonlinear_arith)
            requires
                arena_width >= 4,
                arena_height >= 4,
        ;
    }
    let mut x: usize = 0;
    let mut y: usize = 0;
    let mut dir: Direction = if MazeNode::can_go_down(nodes, 0, 0, maze_width) {
        Direction::Up
    } else {
        Direction::Left
    };
    let mut number: usize = 0;

    loop
        invariant_except_break
            number < arena_size,
        invariant
            x < maze_width,
            y < maze_height,
            maze_width == arena_width / 2,
            maze_height == arena_height / 2,
            arena_width % 2 == 0,
            arena_height % 2 == 0,
            arena_width >= 4,
            arena_height >= 4,
            arena_size == arena_width * arena_height,
            arena_size + 4 <= usize::MAX,
            nodes.len() == maze_width * maze_height,
            tour_to_number.len() == arena_size,
        ensures
            tour_to_number.len() == arena_size,
        decreases arena_size - number,
    {
        proof {
            lemma_node_index_bound(x as int, y as int, maze_width as int, maze_height as int);
            lemma_cell_index_bound(
                2 * x as int,
                2 * y as int,
                arena_width as int,
                arena_height as int,
            );
            lemma_cell_index_bound(
                2 * x + 1,
                2 * y as int,
                arena_width as int,
                arena_height as int,
            );
            lemma_cell_index_bound(
                2 * x as int,
                2 * y + 1,
                arena_width as int,
                arena_height as int,
            );
            lemma_cell_index_bound(2 * x + 1, 2 * y + 1, arena_width as int, arena_height as int);
        }
        let next_dir = find_next_dir(nodes, x, y, dir, maze_width);

        match dir {
            Direction::Right => {
                set_tour_number(&mut tour_to_number, 2 * x, 2 * y, number, arena_width);
                number = number + 1;
                if next_dir == dir || next_dir == Direction::Down || next_dir == Direction::Left {
                    set_tour_number(&mut tour_to_number, 2 * x + 1, 2 * y, number, arena_width);
                    number = number + 1;
                }
                if next_dir == Direction::Down || next_dir == Direction::Left {
                    set_tour_number(&mut tour_to_number, 2 * x + 1, 2 * y + 1, number, arena_width);
                    number = number + 1;
                }
                if next_dir == Direction::Left {
                    set_tour_number(&mut tour_to_number, 2 * x, 2 * y + 1, number, arena_width);
                    number = number + 1;
                }
            },
            Direction::Down => {
                set_tour_number(&mut tour_to_number, 2 * x + 1, 2 * y, number, arena_width);
                number = number + 1;
                if next_dir == dir || next_dir == Direction::Left || next_dir == Direction::Up {
                    set_tour_number(&mut tour_to_number, 2 * x + 1, 2 * y + 1, number, arena_width);
                    number = number + 1;
                }
                if next_dir == Direction::Left || next_dir == Direction::Up {
                    set_tour_number(&mut tour_to_number, 2 * x, 2 * y + 1, number, arena_width);
                    number = number + 1;
                }
                if next_dir == Direction::Up {
                    set_tour_number(&mut tour_to_number, 2 * x, 2 * y, number, arena_width);
                    number = number + 1;
                }
            },
            Direction::Left => {
                set_tour_number(&mut tour_to_number, 2 * x + 1, 2 * y + 1, number, arena_width);
                number = number + 1;
                if next_dir == dir || next_dir == Direction::Up || next_dir == Direction::Right {
                    set_tour_number(&mut tour_to_number, 2 * x, 2 * y + 1, number, arena_width);
                    number = number + 1;
                }
                if next_dir == Direction::Up || next_dir == Direction::Right {
                    set_tour_number(&mut tour_to_number, 2 * x, 2 * y, number, arena_width);
                    number = number + 1;
                }
                if next_dir == Direction::Right {
                    set_tour_number(&mut tour_to_number, 2 * x + 1, 2 * y, number, arena_width);
                    number = number + 1;
                }
            },
            Direction::Up => {
                set_tour_number(&mut tour_to_number, 2 * x, 2 * y + 1, number, arena_width);
                number = number + 1;
                if next_dir == dir || next_dir == Direction::Right || next_dir == Direction::Down {
                    set_tour_number(&mut tour_to_number, 2 * x, 2 * y, number, arena_width);
                    number = number + 1;
                }
                if next_dir == Direction::Right || next_dir == Direction::Down {
                    set_tour_number(&mut tour_to_number, 2 * x + 1, 2 * y, number, arena_width);
                    number = number + 1;
                }
                if next_dir == Direction::Down {
                    set_tour_number(&mut tour_to_number, 2 * x + 1, 2 * y + 1, number, arena_width);
                    number = number + 1;
                }
            },
        }

        dir = next_dir;

        match next_dir {
            Direction::Right => {
                if x + 1 >= maze_width {
                    return None;
                }
                x = x + 1;
            },
            Direction::Left => {
                if x == 0 {
                    return None;
                }
                x = x - 1;
            },
            Direction::Down => {
                if y + 1 >= maze_height {
                    return None;
                }
                y = y + 1;
            },
            Direction::Up => {
                if y == 0 {
                    return None;
                }
                y = y - 1;
            },
        }

        if number >= arena_size {
            break;
        }
    }

    let positions = get_cycle_positions(&tour_to_number, arena_width, arena_height);
    if check_tour(&tour_to_number, &positions, arena_width, arena_height) {
        proof {
            lemma_cyclic_to_table(positions@, tour_to_number@, arena_width as int,
                arena_height as int);
        }
        Some(tour_to_number)
    } else {
        None
    }
}

} // verus!
