//! Growth of a random maze (a spanning tree) over the half-resolution grid of
//! super-cells.  Each super-cell stands for a 2x2 block of the full grid; a
//! door flag records a tree edge toward the right or down neighbour, and the
//! matching left/up queries are derived from the neighbour's flag, never
//! stored on their own.

use vstd::prelude::*;

verus! {

/// One super-cell of the maze grid.  `door_right`/`door_down` record a
/// spanning-tree edge toward that neighbour; doors are never cleared once set.
#[derive(Clone, Copy)]
pub struct MazeNode {
    pub visited: bool,
    pub door_right: bool,
    pub door_down: bool,
}

/// The flat index of super-cell (x, y) in a row-major node table.
pub open spec fn node_index(x: int, y: int, maze_width: int) -> int {
    x + y * maze_width
}

pub proof fn lemma_node_index_bound(x: int, y: int, maze_width: int, maze_height: int)
    requires
        0 <= x < maze_width,
        0 <= y < maze_height,
    ensures
        0 <= node_index(x, y, maze_width) < maze_width * maze_height,
{
    assert(x + y * maze_width < maze_width * maze_height) by (nonlinear_arith)
        requires
            0 <= x < maze_width,
            0 <= y < maze_height,
    ;
}

/// How many super-cells of the table are still unvisited.
pub open spec fn count_unvisited(nodes: Seq<MazeNode>) -> nat
    decreases nodes.len(),
{
    if nodes.len() == 0 {
        0
    } else {
        count_unvisited(nodes.drop_last()) + (if nodes.last().visited {
            0nat
        } else {
            1nat
        })
    }
}

pub proof fn lemma_count_unvisited_le_len(nodes: Seq<MazeNode>)
    ensures
        count_unvisited(nodes) <= nodes.len(),
    decreases nodes.len(),
{
    if nodes.len() > 0 {
        lemma_count_unvisited_le_len(nodes.drop_last());
    }
}

pub proof fn lemma_count_unvisited_all(nodes: Seq<MazeNode>)
    requires
        forall|i: int| 0 <= i < nodes.len() ==> !nodes[i].visited,
    ensures
        count_unvisited(nodes) == nodes.len(),
    decreases nodes.len(),
{
    if nodes.len() > 0 {
        lemma_count_unvisited_all(nodes.drop_last());
    }
}

/// Updating one entry changes the unvisited count exactly by the difference
/// the entry itself contributes.
pub proof fn lemma_count_unvisited_update(nodes: Seq<MazeNode>, i: int, v: MazeNode)
    requires
        0 <= i < nodes.len(),
    ensures
        count_unvisited(nodes.update(i, v)) + (if nodes[i].visited {
            0nat
        } else {
            1nat
        }) == count_unvisited(nodes) + (if v.visited {
            0nat
        } else {
            1nat
        }),
    decreases nodes.len(),
{
    let updated = nodes.update(i, v);
    if i == nodes.len() - 1 {
        assert(updated.drop_last() =~= nodes.drop_last());
    } else {
        assert(updated.drop_last() =~= nodes.drop_last().update(i, v));
        lemma_count_unvisited_update(nodes.drop_last(), i, v);
    }
}

impl MazeNode {
    pub fn is_visited(nodes: &Vec<MazeNode>, x: usize, y: usize, maze_width: usize) -> (r: bool)
        requires
            x < maze_width,
            x + y * maze_width < nodes.len(),
        ensures
            r == nodes@[node_index(x as int, y as int, maze_width as int)].visited,
    {
        nodes[x + y * maze_width].visited
    }

    pub fn mark_visited(nodes: &mut Vec<MazeNode>, x: usize, y: usize, maze_width: usize)
        requires
            x < maze_width,
            x + y * maze_width < old(nodes).len(),
        ensures
            final(nodes)@ == old(nodes)@.update(
                node_index(x as int, y as int, maze_width as int),
                MazeNode {
                    visited: true,
                    ..old(nodes)@[node_index(x as int, y as int, maze_width as int)]
                },
            ),
    {
        let i: usize = x + y * maze_width;
        let node: MazeNode = nodes[i];
        nodes[i] = MazeNode { visited: true, ..node };
    }

    pub fn mark_door_right(nodes: &mut Vec<MazeNode>, x: usize, y: usize, maze_width: usize)
        requires
            x < maze_width,
            x + y * maze_width < old(nodes).len(),
        ensures
            final(nodes)@ == old(nodes)@.update(
                node_index(x as int, y as int, maze_width as int),
                MazeNode {
                    door_right: true,
                    ..old(nodes)@[node_index(x as int, y as int, maze_width as int)]
                },
            ),
    {
        let i: usize = x + y * maze_width;
        let node: MazeNode = nodes[i];
        nodes[i] = MazeNode { door_right: true, ..node };
    }

    pub fn mark_door_down(nodes: &mut Vec<MazeNode>, x: usize, y: usize, maze_width: usize)
        requires
            x < maze_width,
            x + y * maze_width < old(nodes).len(),
        ensures
            final(nodes)@ == old(nodes)@.update(
                node_index(x as int, y as int, maze_width as int),
                MazeNode {
                    door_down: true,
                    ..old(nodes)@[node_index(x as int, y as int, maze_width as int)]
                },
            ),
    {
        let i: usize = x + y * maze_width;
        let node: MazeNode = nodes[i];
        nodes[i] = MazeNode { door_down: true, ..node };
    }

    pub fn can_go_right(nodes: &Vec<MazeNode>, x: usize, y: usize, maze_width: usize) -> (r: bool)
        requires
            x < maze_width,
            x + y * maze_width < nodes.len(),
        ensures
            r == nodes@[node_index(x as int, y as int, maze_width as int)].door_right,
    {
        nodes[x + y * maze_width].door_right
    }

    pub fn can_go_down(nodes: &Vec<MazeNode>, x: usize, y: usize, maze_width: usize) -> (r: bool)
        requires
            x < maze_width,
            x + y * maze_width < nodes.len(),
        ensures
            r == nodes@[node_index(x as int, y as int, maze_width as int)].door_down,
    {
        nodes[x + y * maze_width].door_down
    }

    /// Derived accessor: a corridor to the left exists exactly when the left
    /// neighbour has its right door open.
    pub fn can_go_left(nodes: &Vec<MazeNode>, x: usize, y: usize, maze_width: usize) -> (r: bool)
        requires
            x < maze_width,
            x + y * maze_width < nodes.len(),
        ensures
            r == spec_can_go_left(nodes@, x as int, y as int, maze_width as int),
    {
        if x == 0 {
            false
        } else {
            nodes[(x - 1) + y * maze_width].door_right
        }
    }

    /// Derived accessor: a corridor upward exists exactly when the upper
    /// neighbour has its down door open.
    pub fn can_go_up(nodes: &Vec<MazeNode>, x: usize, y: usize, maze_width: usize) -> (r: bool)
        requires
            x < maze_width,
            x + y * maze_width < nodes.len(),
        ensures
            r == spec_can_go_up(nodes@, x as int, y as int, maze_width as int),
    {
        if y == 0 {
            false
        } else {
            proof {
                assert((y - 1) * maze_width <= y * maze_width) by (nonlinear_arith)
                    requires
                        y >= 1,
                        maze_width >= 0,
                ;
            }
            nodes[x + (y - 1) * maze_width].door_down
        }
    }
}

pub proof fn lemma_count_unvisited_pos(nodes: Seq<MazeNode>, i: int)
    requires
        0 <= i < nodes.len(),
        !nodes[i].visited,
    ensures
        count_unvisited(nodes) >= 1,
    decreases nodes.len(),
{
    if i < nodes.len() - 1 {
        lemma_count_unvisited_pos(nodes.drop_last(), i);
    }
}

/// One pending visit of the depth-first growth: the super-cell to enter and,
/// unless it is the root, the super-cell it was reached from.
pub type PendingVisit = (Option<(usize, usize)>, (usize, usize));

/// Both super-cells of a pending visit lie on the maze grid.
pub open spec fn entry_ok(e: PendingVisit, maze_width: int, maze_height: int) -> bool {
    e.1.0 < maze_width && e.1.1 < maze_height && match e.0 {
        Some(f) => f.0 < maze_width && f.1 < maze_height,
        None => true,
    }
}

/// Whether some pending visit on the stack targets the super-cell (x, y).
pub open spec fn stack_targets(stack: Seq<PendingVisit>, x: int, y: int) -> bool {
    exists|k: int| 0 <= k < stack.len() && (#[trigger] stack[k]).1.0 == x && stack[k].1.1 == y
}

/// The super-cell has been visited already, or a pending visit will still
/// reach it.
pub open spec fn cell_covered(
    nodes: Seq<MazeNode>,
    stack: Seq<PendingVisit>,
    x: int,
    y: int,
    maze_width: int,
) -> bool {
    nodes[node_index(x, y, maze_width)].visited || stack_targets(stack, x, y)
}

/// Every neighbour of a visited super-cell is visited or still pending:
/// the invariant that makes the growth cover the whole grid.
pub open spec fn growth_frontier_ok(
    nodes: Seq<MazeNode>,
    stack: Seq<PendingVisit>,
    maze_width: int,
    maze_height: int,
) -> bool {
    forall|x: int, y: int|
        #![trigger nodes[node_index(x, y, maze_width)]]
        0 <= x < maze_width && 0 <= y < maze_height && nodes[node_index(x, y, maze_width)].visited
            ==> {
            &&& (x == 0 || cell_covered(nodes, stack, x - 1, y, maze_width))
            &&& (x + 1 >= maze_width || cell_covered(nodes, stack, x + 1, y, maze_width))
            &&& (y == 0 || cell_covered(nodes, stack, x, y - 1, maze_width))
            &&& (y + 1 >= maze_height || cell_covered(nodes, stack, x, y + 1, maze_width))
        }
}

/// Every neighbour of a visited super-cell is itself visited.
pub open spec fn neighbours_all_visited(
    nodes: Seq<MazeNode>,
    maze_width: int,
    maze_height: int,
) -> bool {
    forall|x: int, y: int|
        #![trigger nodes[node_index(x, y, maze_width)]]
        0 <= x < maze_width && 0 <= y < maze_height && nodes[node_index(x, y, maze_width)].visited
            ==> {
            &&& (x == 0 || nodes[node_index(x - 1, y, maze_width)].visited)
            &&& (x + 1 >= maze_width || nodes[node_index(x + 1, y, maze_width)].visited)
            &&& (y == 0 || nodes[node_index(x, y - 1, maze_width)].visited)
            &&& (y + 1 >= maze_height || nodes[node_index(x, y + 1, maze_width)].visited)
        }
}

/// On a grid whose visited region is closed under neighbours and holds the
/// top-left corner, every super-cell is visited: walk left and up toward
/// the corner.
pub proof fn lemma_closed_region_covers_grid(
    nodes: Seq<MazeNode>,
    maze_width: int,
    maze_height: int,
    x: int,
    y: int,
)
    requires
        maze_width >= 1,
        maze_height >= 1,
        nodes.len() == maze_width * maze_height,
        nodes[node_index(0, 0, maze_width)].visited,
        neighbours_all_visited(nodes, maze_width, maze_height),
        0 <= x < maze_width,
        0 <= y < maze_height,
    ensures
        nodes[node_index(x, y, maze_width)].visited,
    decreases x + y,
{
    if x > 0 {
        lemma_closed_region_covers_grid(nodes, maze_width, maze_height, x - 1, y);
    } else if y > 0 {
        lemma_closed_region_covers_grid(nodes, maze_width, maze_height, x, y - 1);
    }
}

/// A covered super-cell stays covered when the visited region only grows
/// and the stack only gains entries beyond a common prefix.
pub proof fn lemma_covered_monotone(
    nodes1: Seq<MazeNode>,
    nodes2: Seq<MazeNode>,
    s1: Seq<PendingVisit>,
    s2: Seq<PendingVisit>,
    x: int,
    y: int,
    maze_width: int,
)
    requires
        s2.len() >= s1.len(),
        forall|k: int| 0 <= k < s1.len() ==> s2[k] == s1[k],
        nodes1[node_index(x, y, maze_width)].visited ==> nodes2[node_index(
            x,
            y,
            maze_width,
        )].visited,
        cell_covered(nodes1, s1, x, y, maze_width),
    ensures
        cell_covered(nodes2, s2, x, y, maze_width),
{
    if !nodes1[node_index(x, y, maze_width)].visited {
        let k = choose|k: int|
            0 <= k < s1.len() && (#[trigger] s1[k]).1.0 == x && s1[k].1.1 == y;
        assert(s2[k] == s1[k]);
        assert(stack_targets(s2, x, y));
    }
}

/// A covered super-cell stays covered when the stack's top is popped,
/// provided the popped target is visited.
pub proof fn lemma_covered_after_pop(
    nodes: Seq<MazeNode>,
    stack0: Seq<PendingVisit>,
    x: int,
    y: int,
    maze_width: int,
)
    requires
        stack0.len() >= 1,
        cell_covered(nodes, stack0, x, y, maze_width),
        nodes[node_index(
            stack0.last().1.0 as int,
            stack0.last().1.1 as int,
            maze_width,
        )].visited,
    ensures
        cell_covered(nodes, stack0.subrange(0, stack0.len() - 1), x, y, maze_width),
{
    if !nodes[node_index(x, y, maze_width)].visited {
        let k = choose|k: int|
            0 <= k < stack0.len() && (#[trigger] stack0[k]).1.0 == x && stack0[k].1.1 == y;
        if k < stack0.len() - 1 {
            assert(stack0.subrange(0, stack0.len() - 1)[k] == stack0[k]);
            assert(stack_targets(stack0.subrange(0, stack0.len() - 1), x, y));
        } else {
            assert(stack0.last().1.0 == x && stack0.last().1.1 == y);
            assert(false);
        }
    }
}

/// Pushes the pending visit that one random draw asks for: 0 is left, 1 is
/// right, 2 is up, 3 is down; a draw toward the grid's edge, or any other
/// value, is a no-op.
fn push_draw(
    stack: &mut Vec<(Option<(usize, usize)>, (usize, usize))>,
    x: usize,
    y: usize,
    r: u32,
    maze_width: usize,
    maze_height: usize,
)
    requires
        x < maze_width,
        y < maze_height,
    ensures
        final(stack)@.len() >= old(stack)@.len(),
        final(stack)@.len() <= old(stack)@.len() + 1,
        forall|k: int| 0 <= k < old(stack)@.len() ==> final(stack)@[k] == old(stack)@[k],
        forall|k: int|
            old(stack)@.len() <= k < final(stack)@.len() ==> entry_ok(
                #[trigger] final(stack)@[k],
                maze_width as int,
                maze_height as int,
            ),
{
    if r == 0 {
        if x >= 1 {
            stack.push((Some((x, y)), (x - 1, y)));
        }
    } else if r == 1 {
        if x + 1 < maze_width {
            stack.push((Some((x, y)), (x + 1, y)));
        }
    } else if r == 2 {
        if y >= 1 {
            stack.push((Some((x, y)), (x, y - 1)));
        }
    } else if r == 3 {
        if y + 1 < maze_height {
            stack.push((Some((x, y)), (x, y + 1)));
        }
    }
}

/// Popping a pending visit whose target is already visited keeps the
/// frontier invariant.
proof fn lemma_frontier_after_skip(nodes: Seq<MazeNode>, stack0: Seq<PendingVisit>, w: int, h: int)
    requires
        w >= 1,
        h >= 1,
        nodes.len() == w * h,
        stack0.len() >= 1,
        nodes[node_index(stack0.last().1.0 as int, stack0.last().1.1 as int, w)].visited,
        cell_covered(nodes, stack0, 0, 0, w),
        growth_frontier_ok(nodes, stack0, w, h),
    ensures
        growth_frontier_ok(nodes, stack0.subrange(0, stack0.len() - 1), w, h),
        cell_covered(nodes, stack0.subrange(0, stack0.len() - 1), 0, 0, w),
{
    let spopped = stack0.subrange(0, stack0.len() - 1);
    lemma_covered_after_pop(nodes, stack0, 0, 0, w);
    assert forall|x2: int, y2: int|
        #![trigger nodes[node_index(x2, y2, w)]]
        0 <= x2 < w && 0 <= y2 < h && nodes[node_index(x2, y2, w)].visited implies {
        &&& (x2 == 0 || cell_covered(nodes, spopped, x2 - 1, y2, w))
        &&& (x2 + 1 >= w || cell_covered(nodes, spopped, x2 + 1, y2, w))
        &&& (y2 == 0 || cell_covered(nodes, spopped, x2, y2 - 1, w))
        &&& (y2 + 1 >= h || cell_covered(nodes, spopped, x2, y2 + 1, w))
    } by {
        lemma_node_index_bound(x2, y2, w, h);
        if x2 > 0 {
            lemma_node_index_bound(x2 - 1, y2, w, h);
            lemma_covered_after_pop(nodes, stack0, x2 - 1, y2, w);
        }
        if x2 + 1 < w {
            lemma_node_index_bound(x2 + 1, y2, w, h);
            lemma_covered_after_pop(nodes, stack0, x2 + 1, y2, w);
        }
        if y2 > 0 {
            lemma_node_index_bound(x2, y2 - 1, w, h);
            lemma_covered_after_pop(nodes, stack0, x2, y2 - 1, w);
        }
        if y2 + 1 < h {
            lemma_node_index_bound(x2, y2 + 1, w, h);
            lemma_covered_after_pop(nodes, stack0, x2, y2 + 1, w);
        }
    }
}

/// Visiting the popped super-cell keeps the frontier invariant, provided
/// every in-grid neighbour of the fresh cell is pending again on the new
/// stack and the rest of the stack only lost its popped top.
proof fn lemma_frontier_after_visit(
    nodes0: Seq<MazeNode>,
    nodes1: Seq<MazeNode>,
    stack0: Seq<PendingVisit>,
    s1: Seq<PendingVisit>,
    x: int,
    y: int,
    w: int,
    h: int,
)
    requires
        w >= 1,
        h >= 1,
        nodes0.len() == w * h,
        nodes1.len() == w * h,
        stack0.len() >= 1,
        stack0.last().1.0 == x,
        stack0.last().1.1 == y,
        0 <= x < w,
        0 <= y < h,
        forall|i: int|
            0 <= i < nodes1.len() ==> (#[trigger] nodes1[i]).visited == (i == node_index(x, y, w)
                || nodes0[i].visited),
        growth_frontier_ok(nodes0, stack0, w, h),
        s1.len() >= stack0.len() - 1,
        forall|k: int| 0 <= k < stack0.len() - 1 ==> s1[k] == stack0[k],
        x >= 1 ==> stack_targets(s1, x - 1, y),
        x + 1 < w ==> stack_targets(s1, x + 1, y),
        y >= 1 ==> stack_targets(s1, x, y - 1),
        y + 1 < h ==> stack_targets(s1, x, y + 1),
        cell_covered(nodes0, stack0, 0, 0, w),
    ensures
        growth_frontier_ok(nodes1, s1, w, h),
        cell_covered(nodes1, s1, 0, 0, w),
{
    let spopped = stack0.subrange(0, stack0.len() - 1);
    lemma_node_index_bound(x, y, w, h);
    lemma_node_index_bound(0, 0, w, h);
    lemma_covered_monotone(nodes0, nodes1, stack0, stack0, 0, 0, w);
    lemma_covered_after_pop(nodes1, stack0, 0, 0, w);
    lemma_covered_monotone(nodes1, nodes1, spopped, s1, 0, 0, w);
    assert forall|x2: int, y2: int|
        #![trigger nodes1[node_index(x2, y2, w)]]
        0 <= x2 < w && 0 <= y2 < h && nodes1[node_index(x2, y2, w)].visited implies {
        &&& (x2 == 0 || cell_covered(nodes1, s1, x2 - 1, y2, w))
        &&& (x2 + 1 >= w || cell_covered(nodes1, s1, x2 + 1, y2, w))
        &&& (y2 == 0 || cell_covered(nodes1, s1, x2, y2 - 1, w))
        &&& (y2 + 1 >= h || cell_covered(nodes1, s1, x2, y2 + 1, w))
    } by {
        lemma_node_index_bound(x2, y2, w, h);
        if x2 == x && y2 == y {
            // The four fresh pending visits cover every in-grid neighbour
            // of the freshly visited super-cell.
        } else {
            lemma_node_index_injective(x2, y2, x, y, w);
            assert(nodes0[node_index(x2, y2, w)].visited);
            if x2 > 0 {
                lemma_node_index_bound(x2 - 1, y2, w, h);
                lemma_covered_monotone(nodes0, nodes1, stack0, stack0, x2 - 1, y2, w);
                lemma_covered_after_pop(nodes1, stack0, x2 - 1, y2, w);
                lemma_covered_monotone(nodes1, nodes1, spopped, s1, x2 - 1, y2, w);
            }
            if x2 + 1 < w {
                lemma_node_index_bound(x2 + 1, y2, w, h);
                lemma_covered_monotone(nodes0, nodes1, stack0, stack0, x2 + 1, y2, w);
                lemma_covered_after_pop(nodes1, stack0, x2 + 1, y2, w);
                lemma_covered_monotone(nodes1, nodes1, spopped, s1, x2 + 1, y2, w);
            }
            if y2 > 0 {
                lemma_node_index_bound(x2, y2 - 1, w, h);
                lemma_covered_monotone(nodes0, nodes1, stack0, stack0, x2, y2 - 1, w);
                lemma_covered_after_pop(nodes1, stack0, x2, y2 - 1, w);
                lemma_covered_monotone(nodes1, nodes1, spopped, s1, x2, y2 - 1, w);
            }
            if y2 + 1 < h {
                lemma_node_index_bound(x2, y2 + 1, w, h);
                lemma_covered_monotone(nodes0, nodes1, stack0, stack0, x2, y2 + 1, w);
                lemma_covered_after_pop(nodes1, stack0, x2, y2 + 1, w);
                lemma_covered_monotone(nodes1, nodes1, spopped, s1, x2, y2 + 1, w);
            }
        }
    }
}

/// Records the tree edge between the super-cell just entered and the one
/// it was entered from: the door goes on whichever of the two lies to the
/// left or above.  Door flags are only ever set, and no visited flag moves.
fn record_tree_edge(
    nodes: &mut Vec<MazeNode>,
    fx: usize,
    fy: usize,
    x: usize,
    y: usize,
    maze_width: usize,
    maze_height: usize,
)
    requires
        fx < maze_width,
        fy < maze_height,
        x < maze_width,
        y < maze_height,
        old(nodes).len() == maze_width * maze_height,
    ensures
        final(nodes)@.len() == old(nodes)@.len(),
        forall|i: int|
            0 <= i < final(nodes)@.len() ==> (#[trigger] final(nodes)@[i]).visited == old(
                nodes,
            )@[i].visited,
        forall|i: int|
            0 <= i < final(nodes)@.len() ==> ((#[trigger] old(nodes)@[i]).door_right
                ==> final(nodes)@[i].door_right) && (old(nodes)@[i].door_down
                ==> final(nodes)@[i].door_down),
        count_unvisited(final(nodes)@) == count_unvisited(old(nodes)@),
{
    let ghost w = maze_width as int;
    let ghost h = maze_height as int;
    let ghost pre = nodes@;
    proof {
        lemma_node_index_bound(x as int, y as int, w, h);
        lemma_node_index_bound(fx as int, fy as int, w, h);
    }
    let ghost cur_idx = node_index(x as int, y as int, w);
    let ghost from_idx = node_index(fx as int, fy as int, w);
    if fx < x {
        MazeNode::mark_door_right(nodes, fx, fy, maze_width);
        proof {
            lemma_count_unvisited_update(
                pre,
                from_idx,
                MazeNode { door_right: true, ..pre[from_idx] },
            );
        }
    } else if fx > x {
        MazeNode::mark_door_right(nodes, x, y, maze_width);
        proof {
            lemma_count_unvisited_update(
                pre,
                cur_idx,
                MazeNode { door_right: true, ..pre[cur_idx] },
            );
        }
    } else if fy < y {
        MazeNode::mark_door_down(nodes, fx, fy, maze_width);
        proof {
            lemma_count_unvisited_update(
                pre,
                from_idx,
                MazeNode { door_down: true, ..pre[from_idx] },
            );
        }
    } else if fy > y {
        MazeNode::mark_door_down(nodes, x, y, maze_width);
        proof {
            lemma_count_unvisited_update(
                pre,
                cur_idx,
                MazeNode { door_down: true, ..pre[cur_idx] },
            );
        }
    }
}

/// Grows the random spanning tree over the super-cell grid by a depth-first
/// traversal with an explicit stack of pending visits.  At each super-cell
/// entered for the first time, the tree edge to its predecessor is recorded
/// as a door, then two random directions are attempted (they shape the maze;
/// `draws` supplies them, two per super-cell), and afterwards all four
/// directions in a fixed order, which guarantees that the growth covers
/// every super-cell.  An attempt toward an already visited super-cell is a
/// no-op.
#[verifier::rlimit(100)]
pub fn generate_maze_paths(
    nodes: &mut Vec<MazeNode>,
    maze_width: usize,
    maze_height: usize,
    draws: &Vec<u32>,
)
    requires
        maze_width >= 1,
        maze_height >= 1,
        old(nodes).len() == maze_width * maze_height,
        forall|i: int| 0 <= i < old(nodes)@.len() ==> !old(nodes)@[i].visited,
        draws.len() >= 2 * old(nodes).len(),
    ensures
        final(nodes)@.len() == old(nodes)@.len(),
        forall|i: int| 0 <= i < final(nodes)@.len() ==> (#[trigger] final(nodes)@[i]).visited,
        forall|i: int|
            0 <= i < final(nodes)@.len() ==> ((#[trigger] old(nodes)@[i]).door_right
                ==> final(nodes)@[i].door_right) && (old(nodes)@[i].door_down
                ==> final(nodes)@[i].door_down),
{
    let ghost w = maze_width as int;
    let ghost h = maze_height as int;
    proof {
        lemma_count_unvisited_all(nodes@);
    }
    let mut stack: Vec<PendingVisit> = Vec::new();
    stack.push((None, (0, 0)));
    proof {
        assert(stack@[0].1.0 == 0 && stack@[0].1.1 == 0);
        assert(stack_targets(stack@, 0, 0));
        assert forall|x: int, y: int|
            #![trigger nodes@[node_index(x, y, w)]]
            0 <= x < w && 0 <= y < h implies !nodes@[node_index(x, y, w)].visited by {
            lemma_node_index_bound(x, y, w, h);
        }
    }
    let mut draw_idx: usize = 0;
    while stack.len() > 0
        invariant
            maze_width >= 1,
            maze_height >= 1,
            w == maze_width as int,
            h == maze_height as int,
            nodes@.len() == maze_width * maze_height,
            draws.len() >= 2 * nodes@.len(),
            count_unvisited(nodes@) <= nodes@.len(),
            draw_idx == 2 * (nodes@.len() - count_unvisited(nodes@)),
            forall|k: int| 0 <= k < stack@.len() ==> entry_ok(#[trigger] stack@[k], w, h),
            cell_covered(nodes@, stack@, 0, 0, w),
            growth_frontier_ok(nodes@, stack@, w, h),
            forall|i: int|
                0 <= i < nodes@.len() ==> ((#[trigger] old(nodes)@[i]).door_right
                    ==> nodes@[i].door_right) && (old(nodes)@[i].door_down
                    ==> nodes@[i].door_down),
        decreases 6 * count_unvisited(nodes@) + stack@.len(),
    {
        let ghost nodes0 = nodes@;
        let ghost stack0 = stack@;
        let entry = stack.pop().unwrap();
        let ghost spopped = stack@;
        let from = entry.0;
        let (x, y) = entry.1;
        proof {
            assert(stack0.last() == entry);
            lemma_node_index_bound(x as int, y as int, w, h);
            lemma_count_unvisited_le_len(nodes@);
        }
        if !MazeNode::is_visited(nodes, x, y, maze_width) {
            let ghost cur_idx = node_index(x as int, y as int, w);
            proof {
                lemma_count_unvisited_pos(nodes0, cur_idx);
            }
            MazeNode::mark_visited(nodes, x, y, maze_width);
            proof {
                lemma_count_unvisited_update(
                    nodes0,
                    cur_idx,
                    MazeNode { visited: true, ..nodes0[cur_idx] },
                );
                assert(count_unvisited(nodes@) + 1 == count_unvisited(nodes0));
            }
            match from {
                None => {},
                Some(f) => {
                    let (fx, fy) = f;
                    let ghost mid = nodes@;
                    let ghost from_idx = node_index(fx as int, fy as int, w);
                    proof {
                        lemma_node_index_bound(fx as int, fy as int, w, h);
                    }
                    if fx < x {
                        MazeNode::mark_door_right(nodes, fx, fy, maze_width);
                        proof {
                            lemma_count_unvisited_update(
                                mid,
                                from_idx,
                                MazeNode { door_right: true, ..mid[from_idx] },
                            );
                        }
                    } else if fx > x {
                        MazeNode::mark_door_right(nodes, x, y, maze_width);
                        proof {
                            lemma_count_unvisited_update(
                                mid,
                                cur_idx,
                                MazeNode { door_right: true, ..mid[cur_idx] },
                            );
                        }
                    } else if fy < y {
                        MazeNode::mark_door_down(nodes, fx, fy, maze_width);
                        proof {
                            lemma_count_unvisited_update(
                                mid,
                                from_idx,
                                MazeNode { door_down: true, ..mid[from_idx] },
                            );
                        }
                    } else if fy > y {
                        MazeNode::mark_door_down(nodes, x, y, maze_width);
                        proof {
                            lemma_count_unvisited_update(
                                mid,
                                cur_idx,
                                MazeNode { door_down: true, ..mid[cur_idx] },
                            );
                        }
                    }
                },
            }
            proof {
                // Marking the door flags never clears a visited flag.
                assert(forall|i: int|
                    0 <= i < nodes@.len() ==> (#[trigger] nodes@[i]).visited == (i == cur_idx
                        || nodes0[i].visited));
            }
            let r1 = draws[draw_idx];
            let r2 = draws[draw_idx + 1];
            draw_idx = draw_idx + 2;
            // Pending visits pop in reverse push order, so the two random
            // attempts are pushed last and run first.
            let ghost mut i_up: int = 0;
            let ghost mut i_down: int = 0;
            let ghost mut i_right: int = 0;
            let ghost mut i_left: int = 0;
            if y >= 1 {
                proof {
                    i_up = stack@.len() as int;
                }
                stack.push((Some((x, y)), (x, y - 1)));
            }
            if y + 1 < maze_height {
                proof {
                    i_down = stack@.len() as int;
                }
                stack.push((Some((x, y)), (x, y + 1)));
            }
            if x + 1 < maze_width {
                proof {
                    i_right = stack@.len() as int;
                }
                stack.push((Some((x, y)), (x + 1, y)));
            }
            if x >= 1 {
                proof {
                    i_left = stack@.len() as int;
                }
                stack.push((Some((x, y)), (x - 1, y)));
            }
            push_draw(&mut stack, x, y, r2, maze_width, maze_height);
            push_draw(&mut stack, x, y, r1, maze_width, maze_height);
            proof {
                assert(y >= 1 ==> stack@[i_up].1.0 == x && stack@[i_up].1.1 == y - 1);
                assert(y + 1 < h ==> stack@[i_down].1.0 == x && stack@[i_down].1.1 == y + 1);
                assert(x + 1 < w ==> stack@[i_right].1.0 == x + 1 && stack@[i_right].1.1 == y);
                assert(x >= 1 ==> stack@[i_left].1.0 == x - 1 && stack@[i_left].1.1 == y);
                assert(y >= 1 ==> stack_targets(stack@, x as int, y - 1));
                assert(y + 1 < h ==> stack_targets(stack@, x as int, y + 1));
                assert(x + 1 < w ==> stack_targets(stack@, x + 1, y as int));
                assert(x >= 1 ==> stack_targets(stack@, x - 1, y as int));
                assert(forall|k: int| 0 <= k < spopped.len() ==> stack@[k] == spopped[k]);

                lemma_frontier_after_visit(
                    nodes0,
                    nodes@,
                    stack0,
                    stack@,
                    x as int,
                    y as int,
                    w,
                    h,
                );
            }
        } else {
            proof {
                lemma_frontier_after_skip(nodes@, stack0, w, h);
            }
        }
    }
    proof {
        assert(nodes@[node_index(0, 0, w)].visited);
        assert forall|x2: int, y2: int|
            #![trigger nodes@[node_index(x2, y2, w)]]
            0 <= x2 < w && 0 <= y2 < h && nodes@[node_index(x2, y2, w)].visited implies {
            &&& (x2 == 0 || nodes@[node_index(x2 - 1, y2, w)].visited)
            &&& (x2 + 1 >= w || nodes@[node_index(x2 + 1, y2, w)].visited)
            &&& (y2 == 0 || nodes@[node_index(x2, y2 - 1, w)].visited)
            &&& (y2 + 1 >= h || nodes@[node_index(x2, y2 + 1, w)].visited)
        } by {
            lemma_node_index_bound(x2, y2, w, h);
        }
        assert(neighbours_all_visited(nodes@, w, h));
        assert forall|i: int| 0 <= i < nodes@.len() implies (#[trigger] nodes@[i]).visited by {
            let yy = i / w;
            let xx = i % w;
            vstd::arithmetic::div_mod::lemma_fundamental_div_mod(i, w);
            vstd::arithmetic::div_mod::lemma_mod_bound(i, w);
            assert(yy >= 0) by (nonlinear_arith)
                requires
                    i >= 0,
                    w >= 1,
                    yy == i / w,
            ;
            assert(yy < h) by (nonlinear_arith)
                requires
                    i < w * h,
                    w >= 1,
                    xx >= 0,
                    i == w * yy + xx,
            ;
            lemma_closed_region_covers_grid(nodes@, w, h, xx, yy);
            assert(node_index(xx, yy, w) == i);
        }
    }
}

/// Distinct super-cells have distinct row-major indices.
pub proof fn lemma_node_index_injective(x1: int, y1: int, x2: int, y2: int, maze_width: int)
    requires
        0 <= x1 < maze_width,
        0 <= x2 < maze_width,
        0 <= y1,
        0 <= y2,
        !(x1 == x2 && y1 == y2),
    ensures
        node_index(x1, y1, maze_width) != node_index(x2, y2, maze_width),
{
    assert(x1 + y1 * maze_width != x2 + y2 * maze_width) by (nonlinear_arith)
        requires
            0 <= x1 < maze_width,
            0 <= x2 < maze_width,
            0 <= y1,
            0 <= y2,
            !(x1 == x2 && y1 == y2),
    ;
}

pub open spec fn spec_can_go_left(nodes: Seq<MazeNode>, x: int, y: int, maze_width: int) -> bool {
    x > 0 && nodes[node_index(x - 1, y, maze_width)].door_right
}

pub open spec fn spec_can_go_up(nodes: Seq<MazeNode>, x: int, y: int, maze_width: int) -> bool {
    y > 0 && nodes[node_index(x, y - 1, maze_width)].door_down
}

} // verus!
