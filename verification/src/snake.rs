//! The snake and its per-tick decision engine: given the snake's geometry,
//! the cycle and tour-number table, and the food position, pick the next
//! move.  A shortcut along the cycle is taken when enough slack remains
//! between head and tail; otherwise the snake follows the cycle, which is
//! always collision-free on a valid cycle.

use vstd::prelude::*;

use vstd::arithmetic::div_mod::lemma_fundamental_div_mod_converse;

use crate::tour::cell_index;

verus! {

/// How much cyclic distance between head and tail a shortcut must leave
/// untouched, so the tail keeps room to move away.
pub const GROWTH_BUFFER_FOR_SHORTCUT: usize = 25;

/// One body segment: where it is now and where it was one tick ago (the
/// previous position only drives the renderer's interpolation).
#[derive(Clone, Copy)]
pub struct SnakeSegment {
    pub cur: (usize, usize),
    pub prev: (usize, usize),
}

/// The snake: segments head first, tail last, and the facing of its last
/// move.
pub struct Snake {
    pub segments: Vec<SnakeSegment>,
    pub direction: (i32, i32),
}

/// The four unit directions the decision engine may return.
pub open spec fn is_unit_dir(d: (i32, i32)) -> bool {
    ||| d == (1i32, 0i32)
    ||| d == (-1i32, 0i32)
    ||| d == (0i32, 1i32)
    ||| d == (0i32, -1i32)
}

/// Whether some body segment other than the head sits at (px, py).
pub open spec fn body_hit_at(s: Snake, px: int, py: int) -> bool {
    exists|i: int|
        1 <= i < s.segments@.len() && (#[trigger] s.segments@[i]).cur.0 == px
            && s.segments@[i].cur.1 == py
}

/// Whether moving toward `d` would reverse straight into the segment behind
/// the head.
pub open spec fn reverse_blocked(s: Snake, d: (i32, i32)) -> bool {
    s.segments@.len() > 1 && s.direction != (0i32, 0i32) && d.0 + s.direction.0 == 0 && d.1
        + s.direction.1 == 0
}

/// The cell one step from the head toward `d`, as a pair of mathematical
/// integers (it may lie outside the grid).
pub open spec fn dir_target(s: Snake, d: (i32, i32)) -> (int, int) {
    (s.segments@[0].cur.0 + d.0, s.segments@[0].cur.1 + d.1)
}

/// A move toward `d` is safe: it stays on the grid, lands on no body segment
/// other than the head's own cell, and does not reverse the snake's facing.
pub open spec fn dir_safe(s: Snake, d: (i32, i32), w: int, h: int) -> bool {
    let t = dir_target(s, d);
    &&& 0 <= t.0 < w
    &&& 0 <= t.1 < h
    &&& !body_hit_at(s, t.0, t.1)
    &&& !reverse_blocked(s, d)
}

/// The collision test every decision step shares: a candidate cell is unsafe
/// when it leaves the grid, lands on a body segment behind the head, or the
/// proposed direction reverses the snake's facing.
pub open spec fn spec_collision(s: Snake, p: (usize, usize), d: (i32, i32), w: int, h: int) -> bool {
    ||| p.0 >= w
    ||| p.1 >= h
    ||| body_hit_at(s, p.0 as int, p.1 as int)
    ||| reverse_blocked(s, d)
}

/// What the tour-number lookup answers: the number stored for the cell, or
/// nothing when the cell lies outside the table's grid.
pub open spec fn spec_tour_number(p: (usize, usize), t: Seq<usize>, grid_width: int) -> Option<
    usize,
> {
    if p.0 >= grid_width || p.1 >= t.len() as int / grid_width {
        None
    } else if cell_index(p.0 as int, p.1 as int, grid_width) < t.len() {
        Some(t[cell_index(p.0 as int, p.1 as int, grid_width)])
    } else {
        None
    }
}

/// On a full table, every on-grid cell has a tour number.
pub proof fn lemma_tour_number_on_grid(p: (usize, usize), t: Seq<usize>, w: int, h: int)
    requires
        w >= 1,
        h >= 1,
        t.len() == w * h,
        p.0 < w,
        p.1 < h,
    ensures
        spec_tour_number(p, t, w) == Some(t[cell_index(p.0 as int, p.1 as int, w)]),
{
    assert(w * h == h * w + 0) by (nonlinear_arith);
    lemma_fundamental_div_mod_converse(w * h, w, h, 0);
    crate::tour::lemma_cell_index_bound(p.0 as int, p.1 as int, w, h);
}

/// Finds the first index of the cycle that lists the given position.
pub fn get_position_in_cycle(pos: (usize, usize), cycle: &Vec<(usize, usize)>) -> (r: Option<
    usize,
>)
    ensures
        match r {
            Some(i) => i < cycle@.len() && cycle@[i as int] == pos && forall|j: int|
                0 <= j < i ==> cycle@[j] != pos,
            None => forall|j: int| 0 <= j < cycle@.len() ==> cycle@[j] != pos,
        },
{
    let mut i: usize = 0;
    while i < cycle.len()
        invariant
            i <= cycle@.len(),
            forall|j: int| 0 <= j < i ==> cycle@[j] != pos,
        decreases cycle@.len() - i,
    {
        let c: (usize, usize) = cycle[i];
        if c.0 == pos.0 && c.1 == pos.1 {
            return Some(i);
        }
        i = i + 1;
    }
    None
}

/// Looks up the tour number stored for a position, or nothing when the
/// position lies outside the table's grid.
pub fn get_tour_number(
    position: (usize, usize),
    tour_numbers: &Vec<usize>,
    grid_width: usize,
) -> (r: Option<usize>)
    requires
        grid_width >= 1,
    ensures
        r == spec_tour_number(position, tour_numbers@, grid_width as int),
{
    if position.0 >= grid_width || position.1 >= tour_numbers.len() / grid_width {
        return None;
    }
    proof {
        let len = tour_numbers@.len() as int;
        let q = len / grid_width as int;
        let rem = len % grid_width as int;
        vstd::arithmetic::div_mod::lemma_fundamental_div_mod(len, grid_width as int);
        vstd::arithmetic::div_mod::lemma_mod_bound(len, grid_width as int);
        assert(position.0 + position.1 * grid_width < len) by (nonlinear_arith)
            requires
                grid_width >= 1,
                position.0 < grid_width,
                position.1 < q,
                len == grid_width * q + rem,
                rem >= 0,
        ;
    }
    let index: usize = position.0 + position.1 * grid_width;
    if index < tour_numbers.len() {
        Some(tour_numbers[index])
    } else {
        None
    }
}

/// The snake lies on the cycle: segment i sits on the cell whose tour
/// number trails the head's by i, wrapping around the arena size.
pub open spec fn snake_on_cycle(s: Snake, t: Seq<usize>, w: int, h: int) -> bool {
    forall|i: int|
        0 <= i < s.segments@.len() ==> {
            let cell = (#[trigger] s.segments@[i]).cur;
            &&& cell.0 < w
            &&& cell.1 < h
            &&& t[cell_index(cell.0 as int, cell.1 as int, w)] == (t[cell_index(
                s.segments@[0].cur.0 as int,
                s.segments@[0].cur.1 as int,
                w,
            )] - i) % (w * h)
        }
}

/// Pure cycle following is collision-free: on a valid cycle, a snake that
/// lies on the cycle and is shorter than the arena never finds the
/// successor cell — the one whose tour number follows the head's — occupied
/// by a body segment.
pub proof fn lemma_cycle_follow_safe(
    s: Snake,
    c: Seq<(usize, usize)>,
    t: Seq<usize>,
    w: int,
    h: int,
)
    requires
        crate::bot::valid_generation(c, t, w, h),
        s.segments@.len() >= 1,
        s.segments@.len() < w * h,
        snake_on_cycle(s, t, w, h),
    ensures
        ({
            let head = s.segments@[0].cur;
            let nxt = (t[cell_index(head.0 as int, head.1 as int, w)] + 1) % (w * h);
            !body_hit_at(s, c[nxt].0 as int, c[nxt].1 as int)
        }),
{
    let size = w * h;
    let head = s.segments@[0].cur;
    let head_tour = t[cell_index(head.0 as int, head.1 as int, w)] as int;
    let nxt = (head_tour + 1) % size;
    vstd::arithmetic::div_mod::lemma_mod_bound(head_tour + 1, size);
    let target = c[nxt];
    assert(t[cell_index(target.0 as int, target.1 as int, w)] == nxt);
    if body_hit_at(s, target.0 as int, target.1 as int) {
        let i = choose|i: int|
            1 <= i < s.segments@.len() && (#[trigger] s.segments@[i]).cur.0 == target.0 as int
                && s.segments@[i].cur.1 == target.1 as int;
        let cell = s.segments@[i].cur;
        assert(cell.0 == target.0 && cell.1 == target.1);
        assert(t[cell_index(cell.0 as int, cell.1 as int, w)] == (head_tour - i) % size);
        assert((head_tour - i) % size == nxt);
        vstd::arithmetic::div_mod::lemma_mod_equivalence(head_tour + 1, head_tour - i, size);
        assert(((head_tour + 1) - (head_tour - i)) % size == 0);
        assert((i + 1) % size == 0);
        vstd::arithmetic::div_mod::lemma_small_mod((i + 1) as nat, size as nat);
        assert(false);
    }
}

/// The snake's facing agrees with its body: the head is one step from the
/// segment behind it, toward the facing.
pub open spec fn facing_consistent(s: Snake) -> bool {
    s.segments@.len() > 1 ==> {
        let head = s.segments@[0].cur;
        let neck = s.segments@[1].cur;
        head.0 == neck.0 + s.direction.0 && head.1 == neck.1 + s.direction.1
    }
}

/// Pure cycle following always finds its move: on a valid cycle, a snake
/// that lies on the cycle, is shorter than the arena and faces away from
/// its own neck has a unit direction that is safe and lands on the
/// successor cell.  `next_cycle_direction` therefore never answers `None`
/// for such a snake.
pub proof fn lemma_cycle_follow_possible(
    s: Snake,
    c: Seq<(usize, usize)>,
    t: Seq<usize>,
    w: int,
    h: int,
)
    requires
        crate::bot::valid_generation(c, t, w, h),
        s.segments@.len() >= 1,
        s.segments@.len() < w * h,
        snake_on_cycle(s, t, w, h),
        facing_consistent(s),
    ensures
        exists|d: (i32, i32)|
            is_unit_dir(d) && dir_safe(s, d, w, h) && successor_move(s, d, t, w, h),
{
    let size = w * h;
    let head = s.segments@[0].cur;
    let head_tour = t[cell_index(head.0 as int, head.1 as int, w)] as int;
    crate::tour::lemma_cell_index_bound(head.0 as int, head.1 as int, w, h);
    let nxt = (head_tour + 1) % size;
    vstd::arithmetic::div_mod::lemma_mod_bound(head_tour + 1, size);
    let sc = c[nxt];
    assert(c[head_tour] == head);
    assert(crate::cycle::spec_adjacent(c[head_tour], c[(head_tour + 1) % (c.len() as int)]));
    assert(t[cell_index(sc.0 as int, sc.1 as int, w)] == nxt);
    lemma_cycle_follow_safe(s, c, t, w, h);

    let d: (i32, i32) = if sc.0 == head.0 + 1 {
        (1i32, 0i32)
    } else if sc.0 + 1 == head.0 {
        (-1i32, 0i32)
    } else if sc.1 == head.1 + 1 {
        (0i32, 1i32)
    } else {
        (0i32, -1i32)
    };
    assert(is_unit_dir(d));
    assert(dir_target(s, d).0 == sc.0 && dir_target(s, d).1 == sc.1);
    if reverse_blocked(s, d) {
        // Reversing would land on the neck, which is a body segment — but
        // the successor cell holds no body segment.
        let neck = s.segments@[1].cur;
        assert(head.0 == neck.0 + s.direction.0 && head.1 == neck.1 + s.direction.1);
        assert(dir_target(s, d).0 == neck.0 && dir_target(s, d).1 == neck.1);
        assert(body_hit_at(s, neck.0 as int, neck.1 as int));
        assert(false);
    }
    assert(dir_safe(s, d, w, h));
    assert(successor_move(s, d, t, w, h));
}

/// One pure-cycle step keeps the snake on the cycle: when the head moves to
/// the successor cell and every body segment takes its predecessor's place,
/// the snake again lies on the cycle.  Together with the collision-freedom
/// and coverage of a valid cycle, following the cycle tick after tick stays
/// collision-free for good and tours the whole arena.
pub proof fn lemma_cycle_follow_preserves(
    s1: Snake,
    s2: Snake,
    c: Seq<(usize, usize)>,
    t: Seq<usize>,
    w: int,
    h: int,
)
    requires
        crate::bot::valid_generation(c, t, w, h),
        s1.segments@.len() >= 1,
        s1.segments@.len() <= w * h,
        snake_on_cycle(s1, t, w, h),
        s2.segments@.len() == s1.segments@.len(),
        ({
            let head = s1.segments@[0].cur;
            let nxt = (t[cell_index(head.0 as int, head.1 as int, w)] + 1) % (w * h);
            s2.segments@[0].cur == c[nxt]
        }),
        forall|i: int|
            1 <= i < s2.segments@.len() ==> (#[trigger] s2.segments@[i]).cur == s1.segments@[i
                - 1].cur,
    ensures
        snake_on_cycle(s2, t, w, h),
{
    let size = w * h;
    let head1 = s1.segments@[0].cur;
    let head1_tour = t[cell_index(head1.0 as int, head1.1 as int, w)] as int;
    let nxt = (head1_tour + 1) % size;
    vstd::arithmetic::div_mod::lemma_mod_bound(head1_tour + 1, size);
    let head2 = s2.segments@[0].cur;
    assert(head2 == c[nxt]);
    assert(t[cell_index(head2.0 as int, head2.1 as int, w)] == nxt);
    assert forall|i: int| 0 <= i < s2.segments@.len() implies {
        let cell = (#[trigger] s2.segments@[i]).cur;
        &&& cell.0 < w
        &&& cell.1 < h
        &&& t[cell_index(cell.0 as int, cell.1 as int, w)] == (t[cell_index(
            head2.0 as int,
            head2.1 as int,
            w,
        )] - i) % (w * h)
    } by {
        if i == 0 {
            vstd::arithmetic::div_mod::lemma_small_mod(0nat, size as nat);
            assert((nxt - 0) % size == nxt) by {
                vstd::arithmetic::div_mod::lemma_small_mod(nxt as nat, size as nat);
            }
        } else {
            let cell = s2.segments@[i].cur;
            assert(cell == s1.segments@[i - 1].cur);
            assert(t[cell_index(cell.0 as int, cell.1 as int, w)] == (head1_tour - (i - 1))
                % size);
            vstd::arithmetic::div_mod::lemma_sub_mod_noop(head1_tour + 1, i, size);
            vstd::arithmetic::div_mod::lemma_small_mod(i as nat, size as nat);
            vstd::arithmetic::div_mod::lemma_mod_twice(head1_tour + 1 - i, size);
            assert((nxt - i % size) % size == (head1_tour + 1 - i) % size);
            assert((nxt - i) % size == (head1_tour - (i - 1)) % size);
        }
    }
}

/// The order in which shortcut candidates are scanned: right, left, down,
/// up.
pub open spec fn spec_unit_dir_by_index(k: int) -> (i32, i32) {
    if k == 0 {
        (1i32, 0i32)
    } else if k == 1 {
        (-1i32, 0i32)
    } else if k == 2 {
        (0i32, 1i32)
    } else {
        (0i32, -1i32)
    }
}

fn unit_dir_by_index(k: usize) -> (d: (i32, i32))
    requires
        k < 4,
    ensures
        d == spec_unit_dir_by_index(k as int),
        is_unit_dir(d),
{
    if k == 0 {
        (1, 0)
    } else if k == 1 {
        (-1, 0)
    } else if k == 2 {
        (0, 1)
    } else {
        (0, -1)
    }
}

/// The order in which the last-resort fallback scans: up, left, down, right.
pub open spec fn spec_fallback_dir_by_index(k: int) -> (i32, i32) {
    if k == 0 {
        (0i32, -1i32)
    } else if k == 1 {
        (-1i32, 0i32)
    } else if k == 2 {
        (0i32, 1i32)
    } else {
        (1i32, 0i32)
    }
}

fn fallback_dir_by_index(k: usize) -> (d: (i32, i32))
    requires
        k < 4,
    ensures
        d == spec_fallback_dir_by_index(k as int),
        is_unit_dir(d),
{
    if k == 0 {
        (0, -1)
    } else if k == 1 {
        (-1, 0)
    } else if k == 2 {
        (0, 1)
    } else {
        (1, 0)
    }
}

/// Moving toward `d` lands on the cell whose tour number follows the head's,
/// wrapping around at the arena size.
pub open spec fn successor_move(s: Snake, d: (i32, i32), t: Seq<usize>, w: int, h: int) -> bool {
    let tt = dir_target(s, d);
    let head = s.segments@[0].cur;
    t[cell_index(tt.0, tt.1, w)] == (t[cell_index(head.0 as int, head.1 as int, w)] + 1) % (w * h)
}

/// Forward distance from one tour number to another along the cycle.
pub open spec fn spec_cyclic_distance(from: int, to: int, size: int) -> int {
    if to >= from {
        to - from
    } else {
        size - from + to
    }
}

/// The tour number under the snake's head.
pub open spec fn spec_head_tour(s: Snake, t: Seq<usize>, w: int) -> int {
    t[cell_index(s.segments@[0].cur.0 as int, s.segments@[0].cur.1 as int, w)] as int
}

/// The cutting budget of the shortcut scan: the cyclic slack between head
/// and tail beyond the safety buffer, less the food's growth when the food
/// lies between head and tail, less a further penalty when that gap is
/// large against the board's empty cells, and clamped to the food's own
/// distance — a cut never passes the food.
pub open spec fn cutting_budget(
    s: Snake,
    apple: (usize, usize),
    t: Seq<usize>,
    w: int,
    h: int,
) -> int {
    let size = w * h;
    let ht = spec_head_tour(s, t, w);
    let tail = s.segments@[s.segments@.len() - 1].cur;
    let ft = t[cell_index(apple.0 as int, apple.1 as int, w)] as int;
    let tt = t[cell_index(tail.0 as int, tail.1 as int, w)] as int;
    let dfood = spec_cyclic_distance(ht, ft, size);
    let dtail = spec_cyclic_distance(ht, tt, size);
    let avail0 = if dtail > GROWTH_BUFFER_FOR_SHORTCUT {
        dtail - GROWTH_BUFFER_FOR_SHORTCUT
    } else {
        0
    };
    let occupied = if size > s.segments@.len() {
        size - s.segments@.len()
    } else {
        0
    };
    let empty = if occupied > 1 {
        occupied - 1
    } else {
        0
    };
    let avail1 = if dfood < dtail {
        let reduced = if avail0 > 1 {
            avail0 - 1
        } else {
            0
        };
        if (dtail - dfood) * 4 > empty {
            if reduced > 10 {
                reduced - 10
            } else {
                0
            }
        } else {
            reduced
        }
    } else {
        avail0
    };
    if dfood < avail1 {
        dfood
    } else {
        avail1
    }
}

/// How far along the cycle a move toward `d` jumps, measured forward from
/// the head's tour number.
pub open spec fn shortcut_length(s: Snake, d: (i32, i32), t: Seq<usize>, w: int, h: int) -> int {
    let tt = dir_target(s, d);
    spec_cyclic_distance(spec_head_tour(s, t, w), t[cell_index(tt.0, tt.1, w)] as int, w * h)
}

/// A candidate the shortcut scan accepts: a safe move whose jump along the
/// cycle stays within the cutting budget.
pub open spec fn shortcut_accepted(
    s: Snake,
    d: (i32, i32),
    apple: (usize, usize),
    t: Seq<usize>,
    w: int,
    h: int,
) -> bool {
    dir_safe(s, d, w, h) && shortcut_length(s, d, t, w, h) <= cutting_budget(s, apple, t, w, h)
}

/// The cycle data the shortcut and cycle-following steps need: a nonempty
/// cycle and tour numbers for the food and the tail (the head's own number
/// is always at hand while the head is on the grid).
pub open spec fn decision_inputs_available(
    s: Snake,
    cycle: Seq<(usize, usize)>,
    apple: (usize, usize),
    t: Seq<usize>,
    grid_width: int,
) -> bool {
    &&& cycle.len() > 0
    &&& spec_tour_number(apple, t, grid_width) is Some
    &&& spec_tour_number(s.segments@[s.segments@.len() - 1].cur, t, grid_width) is Some
}

impl Snake {
    /// The cell one step from the head toward `d`, unless that step leaves
    /// the grid on the negative side.
    fn dir_target_cell(&self, d: (i32, i32)) -> (r: Option<(usize, usize)>)
        requires
            self.segments@.len() >= 1,
            is_unit_dir(d),
            self.segments@[0].cur.0 < usize::MAX,
            self.segments@[0].cur.1 < usize::MAX,
        ensures
            match r {
                Some(p) => p.0 == dir_target(*self, d).0 && p.1 == dir_target(*self, d).1,
                None => dir_target(*self, d).0 < 0 || dir_target(*self, d).1 < 0,
            },
    {
        let head: (usize, usize) = self.segments[0].cur;
        if d.0 == 1 {
            Some((head.0 + 1, head.1))
        } else if d.0 == -1 {
            if head.0 >= 1 {
                Some((head.0 - 1, head.1))
            } else {
                None
            }
        } else if d.1 == 1 {
            Some((head.0, head.1 + 1))
        } else {
            if head.1 >= 1 {
                Some((head.0, head.1 - 1))
            } else {
                None
            }
        }
    }

    /// Pure cycle following: the direction toward the orthogonal neighbour
    /// whose tour number follows the head's, when that move is
    /// collision-free; under a valid cycle that neighbour always exists.
    /// Candidates are scanned right, left, down, up.
    pub fn next_cycle_direction(
        &self,
        tour_numbers: &Vec<usize>,
        map_width: usize,
        map_height: usize,
    ) -> (r: Option<(i32, i32)>)
        requires
            self.segments@.len() >= 1,
            map_width >= 1,
            map_height >= 1,
            tour_numbers@.len() == map_width * map_height,
            forall|i: int|
                0 <= i < tour_numbers@.len() ==> (#[trigger] tour_numbers@[i]) < map_width
                    * map_height,
            self.segments@[0].cur.0 < map_width,
            self.segments@[0].cur.1 < map_height,
        ensures
            match r {
                Some(d) => is_unit_dir(d) && dir_safe(
                    *self,
                    d,
                    map_width as int,
                    map_height as int,
                ) && successor_move(*self, d, tour_numbers@, map_width as int, map_height as int),
                None => forall|d: (i32, i32)|
                    is_unit_dir(d) ==> !(dir_safe(*self, d, map_width as int, map_height as int)
                        && successor_move(
                        *self,
                        d,
                        tour_numbers@,
                        map_width as int,
                        map_height as int,
                    )),
            },
    {
        let ghost w = map_width as int;
        let ghost h = map_height as int;
        let head_pos: (usize, usize) = self.segments[0].cur;
        proof {
            lemma_tour_number_on_grid(head_pos, tour_numbers@, w, h);
            crate::tour::lemma_cell_index_bound(head_pos.0 as int, head_pos.1 as int, w, h);
        }
        let head_tour_num: usize = get_tour_number(head_pos, tour_numbers, map_width).unwrap();
        let arena_size: usize = tour_numbers.len();
        let next_tour_num: usize = (head_tour_num + 1) % arena_size;

        let mut k: usize = 0;
        while k < 4
            invariant
                self.segments@.len() >= 1,
                map_width >= 1,
                map_height >= 1,
                w == map_width as int,
                h == map_height as int,
                tour_numbers@.len() == map_width * map_height,
                forall|i: int|
                    0 <= i < tour_numbers@.len() ==> (#[trigger] tour_numbers@[i]) < map_width
                        * map_height,
                head_pos == self.segments@[0].cur,
                head_pos.0 < map_width,
                head_pos.1 < map_height,
                arena_size == tour_numbers@.len(),
                head_tour_num == tour_numbers@[cell_index(head_pos.0 as int, head_pos.1 as int, w)],
                next_tour_num == (head_tour_num + 1) % (w * h),
                forall|j: int|
                    0 <= j < k ==> !(dir_safe(*self, #[trigger] spec_unit_dir_by_index(j), w, h)
                        && successor_move(*self, spec_unit_dir_by_index(j), tour_numbers@, w, h)),
            decreases 4 - k,
        {
            let dir_candidate = unit_dir_by_index(k);
            let target = self.dir_target_cell(dir_candidate);
            match target {
                None => {},
                Some(next_potential_pos) => {
                    if !self.check_collision(
                        next_potential_pos,
                        dir_candidate,
                        map_width,
                        map_height,
                    ) {
                        proof {
                            lemma_tour_number_on_grid(next_potential_pos, tour_numbers@, w, h);
                            crate::tour::lemma_cell_index_bound(
                                next_potential_pos.0 as int,
                                next_potential_pos.1 as int,
                                w,
                                h,
                            );
                        }
                        let tour_num: usize = get_tour_number(
                            next_potential_pos,
                            tour_numbers,
                            map_width,
                        ).unwrap();
                        if tour_num == next_tour_num {
                            return Some(dir_candidate);
                        }
                    }
                },
            }
            k = k + 1;
        }
        proof {
            assert forall|d: (i32, i32)| is_unit_dir(d) implies !(dir_safe(*self, d, w, h)
                && successor_move(*self, d, tour_numbers@, w, h)) by {
                if d == (1i32, 0i32) {
                    assert(d == spec_unit_dir_by_index(0));
                } else if d == (-1i32, 0i32) {
                    assert(d == spec_unit_dir_by_index(1));
                } else if d == (0i32, 1i32) {
                    assert(d == spec_unit_dir_by_index(2));
                } else {
                    assert(d == spec_unit_dir_by_index(3));
                }
            }
        }
        None
    }

    /// Places a fresh snake of the given length, head at (x, y), body
    /// stretched to the left, facing right.
    pub fn spawn_on_map(x: usize, y: usize, length: usize) -> (s: Snake)
        requires
            length >= 1,
            x + 1 >= length,
        ensures
            s.segments@.len() == length,
            forall|i: int|
                0 <= i < length ==> (#[trigger] s.segments@[i]).cur.0 == x - i
                    && s.segments@[i].cur.1 == y && s.segments@[i].prev == s.segments@[i].cur,
            s.direction == (1i32, 0i32),
    {
        let mut segments: Vec<SnakeSegment> = Vec::new();
        let mut i: usize = 0;
        while i < length
            invariant
                i <= length,
                x + 1 >= length,
                segments@.len() == i,
                forall|j: int|
                    0 <= j < i ==> (#[trigger] segments@[j]).cur.0 == x - j && segments@[j].cur.1
                        == y && segments@[j].prev == segments@[j].cur,
            decreases length - i,
        {
            segments.push(SnakeSegment { cur: (x - i, y), prev: (x - i, y) });
            i = i + 1;
        }
        Snake { segments, direction: (1, 0) }
    }

    /// Whether the head sits on the apple.
    pub fn is_eating(&self, apple: (usize, usize)) -> (r: bool)
        requires
            self.segments@.len() >= 1,
        ensures
            r == (self.segments@[0].cur == apple),
    {
        let head: (usize, usize) = self.segments[0].cur;
        head.0 == apple.0 && head.1 == apple.1
    }

    /// Appends a duplicate of the tail segment; every other segment stays as
    /// it is.
    pub fn grow(&mut self)
        requires
            old(self).segments@.len() >= 1,
        ensures
            final(self).segments@.len() == old(self).segments@.len() + 1,
            forall|i: int|
                0 <= i < old(self).segments@.len() ==> final(self).segments@[i] == old(
                    self,
                ).segments@[i],
            final(self).segments@.last().cur == old(self).segments@.last().cur,
            final(self).segments@.last().prev == old(self).segments@.last().cur,
            final(self).direction == old(self).direction,
    {
        let last_cur: (usize, usize) = self.segments[self.segments.len() - 1].cur;
        self.segments.push(SnakeSegment { cur: last_cur, prev: last_cur });
    }

    /// The shared collision test (see `spec_collision`).
    pub fn check_collision(
        &self,
        pos_to_check: (usize, usize),
        proposed_dir: (i32, i32),
        map_width: usize,
        map_height: usize,
    ) -> (r: bool)
        ensures
            r == spec_collision(
                *self,
                pos_to_check,
                proposed_dir,
                map_width as int,
                map_height as int,
            ),
    {
        if pos_to_check.0 >= map_width || pos_to_check.1 >= map_height {
            return true;
        }
        let mut i: usize = 1;
        while i < self.segments.len()
            invariant
                1 <= i,
                forall|j: int| 1 <= j < i ==> (#[trigger] self.segments@[j]).cur != pos_to_check,
            decreases self.segments@.len() - i,
        {
            let c: (usize, usize) = self.segments[i].cur;
            if c.0 == pos_to_check.0 && c.1 == pos_to_check.1 {
                return true;
            }
            i = i + 1;
        }
        if self.segments.len() > 1 && !(self.direction.0 == 0 && self.direction.1 == 0) {
            if (proposed_dir.0 as i64) + (self.direction.0 as i64) == 0 && (proposed_dir.1 as i64)
                + (self.direction.1 as i64) == 0 {
                return true;
            }
        }
        false
    }

    /// The per-tick decision, in priority order: a cycle-cutting shortcut
    /// toward the food when enough slack remains between head and tail on
    /// the cycle; otherwise pure cycle following; otherwise the first safe
    /// direction of a fixed scan; and, with every direction blocked, right —
    /// a deliberate predictable failure the caller detects as death.  When
    /// any safe direction exists, the returned direction is safe.
    pub fn get_next_direction(
        &self,
        cycle: &Vec<(usize, usize)>,
        apple_pos: (usize, usize),
        tour_numbers: &Vec<usize>,
        map_width: usize,
        map_height: usize,
    ) -> (d: (i32, i32))
        requires
            self.segments@.len() >= 1,
            map_width >= 1,
            map_height >= 1,
            tour_numbers@.len() == map_width * map_height,
            forall|i: int|
                0 <= i < tour_numbers@.len() ==> (#[trigger] tour_numbers@[i]) < map_width
                    * map_height,
            4 * (map_width * map_height) <= usize::MAX,
            self.segments@[0].cur.0 < map_width,
            self.segments@[0].cur.1 < map_height,
        ensures
            is_unit_dir(d),
            (exists|c: (i32, i32)|
                is_unit_dir(c) && dir_safe(*self, c, map_width as int, map_height as int))
                ==> dir_safe(*self, d, map_width as int, map_height as int),
            (forall|c: (i32, i32)|
                is_unit_dir(c) ==> !dir_safe(*self, c, map_width as int, map_height as int)) ==> d
                == (1i32, 0i32),
            (decision_inputs_available(*self, cycle@, apple_pos, tour_numbers@, map_width as int)
                && exists|c: (i32, i32)|
                is_unit_dir(c) && shortcut_accepted(
                    *self,
                    c,
                    apple_pos,
                    tour_numbers@,
                    map_width as int,
                    map_height as int,
                )) ==> shortcut_accepted(
                *self,
                d,
                apple_pos,
                tour_numbers@,
                map_width as int,
                map_height as int,
            ) && (forall|c: (i32, i32)|
                is_unit_dir(c) && shortcut_accepted(
                    *self,
                    c,
                    apple_pos,
                    tour_numbers@,
                    map_width as int,
                    map_height as int,
                ) ==> shortcut_length(*self, c, tour_numbers@, map_width as int, map_height as int)
                    <= shortcut_length(
                    *self,
                    d,
                    tour_numbers@,
                    map_width as int,
                    map_height as int,
                )),
            (decision_inputs_available(*self, cycle@, apple_pos, tour_numbers@, map_width as int)
                && !(exists|c: (i32, i32)|
                is_unit_dir(c) && shortcut_accepted(
                    *self,
                    c,
                    apple_pos,
                    tour_numbers@,
                    map_width as int,
                    map_height as int,
                )) && (exists|c: (i32, i32)|
                is_unit_dir(c) && dir_safe(*self, c, map_width as int, map_height as int)
                    && successor_move(
                    *self,
                    c,
                    tour_numbers@,
                    map_width as int,
                    map_height as int,
                ))) ==> dir_safe(*self, d, map_width as int, map_height as int) && successor_move(
                *self,
                d,
                tour_numbers@,
                map_width as int,
                map_height as int,
            ),
    {
        let ghost w = map_width as int;
        let ghost h = map_height as int;
        let head_pos: (usize, usize) = self.segments[0].cur;
        let head_tour = get_tour_number(head_pos, tour_numbers, map_width);
        let food_tour = get_tour_number(apple_pos, tour_numbers, map_width);
        let tail_pos: (usize, usize) = self.segments[self.segments.len() - 1].cur;
        let tail_tour = get_tour_number(tail_pos, tour_numbers, map_width);
        proof {
            lemma_tour_number_on_grid(head_pos, tour_numbers@, w, h);
        }

        if cycle.len() > 0 && head_tour.is_some() && food_tour.is_some() && tail_tour.is_some() {
            let head_tour_num: usize = head_tour.unwrap();
            let food_tour_num: usize = food_tour.unwrap();
            let tail_tour_num: usize = tail_tour.unwrap();
            let arena_size: usize = tour_numbers.len();

            let distance_to_food: usize = if food_tour_num >= head_tour_num {
                food_tour_num - head_tour_num
            } else {
                arena_size - head_tour_num + food_tour_num
            };
            let distance_to_tail: usize = if tail_tour_num >= head_tour_num {
                tail_tour_num - head_tour_num
            } else {
                arena_size - head_tour_num + tail_tour_num
            };

            let food_value: usize = 1;  // growth from one apple
            let mut cutting_amount_available: usize = if distance_to_tail
                > GROWTH_BUFFER_FOR_SHORTCUT {
                distance_to_tail - GROWTH_BUFFER_FOR_SHORTCUT
            } else {
                0
            };

            let snake_drawn_length: usize = self.segments.len();
            let occupied: usize = if arena_size > snake_drawn_length {
                arena_size - snake_drawn_length
            } else {
                0
            };
            let num_empty_squares_on_board: usize = if occupied > food_value {
                occupied - food_value
            } else {
                0
            };

            if distance_to_food < distance_to_tail {
                // The food lies between head and tail on the cycle.
                cutting_amount_available = if cutting_amount_available > food_value {
                    cutting_amount_available - food_value
                } else {
                    0
                };
                if (distance_to_tail - distance_to_food) * 4 > num_empty_squares_on_board {
                    let future_food_penalty: usize = 10;
                    cutting_amount_available = if cutting_amount_available > future_food_penalty {
                        cutting_amount_available - future_food_penalty
                    } else {
                        0
                    };
                }
            }

            let cutting_amount_desired: usize = distance_to_food;
            if cutting_amount_desired < cutting_amount_available {
                cutting_amount_available = cutting_amount_desired;
            }

            proof {
                assert(head_tour_num == spec_head_tour(*self, tour_numbers@, w));
                assert(decision_inputs_available(*self, cycle@, apple_pos, tour_numbers@, w));
                assert(cutting_amount_available == cutting_budget(
                    *self,
                    apple_pos,
                    tour_numbers@,
                    w,
                    h,
                ));
            }
            let mut best_dir_candidate: Option<(i32, i32)> = None;
            let mut best_dist_cut: usize = 0;

            let mut k: usize = 0;
            while k < 4
                invariant
                    self.segments@.len() >= 1,
                    map_width >= 1,
                    map_height >= 1,
                    w == map_width as int,
                    h == map_height as int,
                    tour_numbers@.len() == map_width * map_height,
                    forall|i: int|
                        0 <= i < tour_numbers@.len() ==> (#[trigger] tour_numbers@[i]) < map_width
                            * map_height,
                    head_pos == self.segments@[0].cur,
                    head_pos.0 < map_width,
                    head_pos.1 < map_height,
                    arena_size == tour_numbers@.len(),
                    head_tour_num < arena_size,
                    head_tour_num == spec_head_tour(*self, tour_numbers@, w),
                    cutting_amount_available == cutting_budget(*self, apple_pos, tour_numbers@, w, h),
                    match best_dir_candidate {
                        Some(b) => {
                            &&& is_unit_dir(b)
                            &&& dir_safe(*self, b, w, h)
                            &&& shortcut_accepted(*self, b, apple_pos, tour_numbers@, w, h)
                            &&& best_dist_cut == shortcut_length(*self, b, tour_numbers@, w, h)
                            &&& forall|j: int|
                                0 <= j < k ==> (shortcut_accepted(
                                    *self,
                                    #[trigger] spec_unit_dir_by_index(j),
                                    apple_pos,
                                    tour_numbers@,
                                    w,
                                    h,
                                ) ==> shortcut_length(
                                    *self,
                                    spec_unit_dir_by_index(j),
                                    tour_numbers@,
                                    w,
                                    h,
                                ) <= best_dist_cut)
                        },
                        None => forall|j: int|
                            0 <= j < k ==> !shortcut_accepted(
                                *self,
                                #[trigger] spec_unit_dir_by_index(j),
                                apple_pos,
                                tour_numbers@,
                                w,
                                h,
                            ),
                    },
                decreases 4 - k,
            {
                let dir_candidate = unit_dir_by_index(k);
                let target = self.dir_target_cell(dir_candidate);
                match target {
                    None => {},
                    Some(next_potential_pos) => {
                        if !self.check_collision(
                            next_potential_pos,
                            dir_candidate,
                            map_width,
                            map_height,
                        ) {
                            proof {
                                lemma_tour_number_on_grid(next_potential_pos, tour_numbers@, w, h);
                                crate::tour::lemma_cell_index_bound(
                                    next_potential_pos.0 as int,
                                    next_potential_pos.1 as int,
                                    w,
                                    h,
                                );
                            }
                            let next_pos_tour_num: usize = get_tour_number(
                                next_potential_pos,
                                tour_numbers,
                                map_width,
                            ).unwrap();
                            let dist_on_cycle_to_next: usize = if next_pos_tour_num
                                >= head_tour_num {
                                next_pos_tour_num - head_tour_num
                            } else {
                                arena_size - head_tour_num + next_pos_tour_num
                            };
                            proof {
                                assert(shortcut_length(*self, dir_candidate, tour_numbers@, w, h)
                                    == dist_on_cycle_to_next as int);
                            }
                            if dist_on_cycle_to_next <= cutting_amount_available && (
                            best_dir_candidate.is_none() || dist_on_cycle_to_next > best_dist_cut) {
                                best_dist_cut = dist_on_cycle_to_next;
                                best_dir_candidate = Some(dir_candidate);
                            }
                        }
                    },
                }
                k = k + 1;
            }

            proof {
                match best_dir_candidate {
                    Some(b) => {
                        assert forall|c: (i32, i32)|
                            is_unit_dir(c) && shortcut_accepted(
                                *self,
                                c,
                                apple_pos,
                                tour_numbers@,
                                w,
                                h,
                            ) implies shortcut_length(*self, c, tour_numbers@, w, h)
                            <= best_dist_cut by {
                            if c == (1i32, 0i32) {
                                assert(c == spec_unit_dir_by_index(0));
                            } else if c == (-1i32, 0i32) {
                                assert(c == spec_unit_dir_by_index(1));
                            } else if c == (0i32, 1i32) {
                                assert(c == spec_unit_dir_by_index(2));
                            } else {
                                assert(c == spec_unit_dir_by_index(3));
                            }
                        }
                    },
                    None => {
                        assert forall|c: (i32, i32)| is_unit_dir(c) implies !shortcut_accepted(
                            *self,
                            c,
                            apple_pos,
                            tour_numbers@,
                            w,
                            h,
                        ) by {
                            if c == (1i32, 0i32) {
                                assert(c == spec_unit_dir_by_index(0));
                            } else if c == (-1i32, 0i32) {
                                assert(c == spec_unit_dir_by_index(1));
                            } else if c == (0i32, 1i32) {
                                assert(c == spec_unit_dir_by_index(2));
                            } else {
                                assert(c == spec_unit_dir_by_index(3));
                            }
                        }
                    },
                }
            }
            match best_dir_candidate {
                Some(dir) => {
                    return dir;
                },
                None => {},
            }

            // Fallback: follow the Hamiltonian cycle to the next tour number.
            match self.next_cycle_direction(tour_numbers, map_width, map_height) {
                Some(dir) => {
                    return dir;
                },
                None => {},
            }
        }

        proof {
            assert(decision_inputs_available(*self, cycle@, apple_pos, tour_numbers@, w) ==> (
            forall|c: (i32, i32)|
                is_unit_dir(c) ==> !shortcut_accepted(*self, c, apple_pos, tour_numbers@, w, h)));
            assert(decision_inputs_available(*self, cycle@, apple_pos, tour_numbers@, w) ==> (
            forall|c: (i32, i32)|
                is_unit_dir(c) ==> !(dir_safe(*self, c, w, h) && successor_move(
                    *self,
                    c,
                    tour_numbers@,
                    w,
                    h,
                ))));
        }

        // Fallback: follow the cycle by position when the head is on it.
        if cycle.len() > 0 {
            match get_position_in_cycle(head_pos, cycle) {
                None => {},
                Some(head_idx) => {
                    let next_target_idx: usize = if head_idx + 1 < cycle.len() {
                        head_idx + 1
                    } else {
                        0
                    };
                    let next_target_pos: (usize, usize) = cycle[next_target_idx];
                    let default_cycle_dir: Option<(i32, i32)> = if next_target_pos.1 == head_pos.1 {
                        if next_target_pos.0 == head_pos.0 + 1 {
                            Some((1, 0))
                        } else if head_pos.0 >= 1 && next_target_pos.0 == head_pos.0 - 1 {
                            Some((-1, 0))
                        } else {
                            None
                        }
                    } else if next_target_pos.0 == head_pos.0 {
                        if next_target_pos.1 == head_pos.1 + 1 {
                            Some((0, 1))
                        } else if head_pos.1 >= 1 && next_target_pos.1 == head_pos.1 - 1 {
                            Some((0, -1))
                        } else {
                            None
                        }
                    } else {
                        None
                    };
                    match default_cycle_dir {
                        None => {},
                        Some(d3) => {
                            if !self.check_collision(next_target_pos, d3, map_width, map_height) {
                                proof {
                                    assert(dir_target(*self, d3).0 == next_target_pos.0
                                        && dir_target(*self, d3).1 == next_target_pos.1);
                                    assert(is_unit_dir(d3));
                                    assert(dir_safe(*self, d3, w, h));
                                    assert(!(forall|c: (i32, i32)|
                                        is_unit_dir(c) ==> !dir_safe(*self, c, w, h)));
                                }
                                return d3;
                            }
                        },
                    }
                },
            }
        }

        // Last resort: the first collision-free direction of a fixed scan,
        // or right with every direction blocked.
        let mut k: usize = 0;
        while k < 4
            invariant
                self.segments@.len() >= 1,
                map_width >= 1,
                map_height >= 1,
                w == map_width as int,
                h == map_height as int,
                head_pos == self.segments@[0].cur,
                head_pos.0 < map_width,
                head_pos.1 < map_height,
                forall|j: int|
                    0 <= j < k ==> !dir_safe(*self, #[trigger] spec_fallback_dir_by_index(j), w, h),
                decision_inputs_available(*self, cycle@, apple_pos, tour_numbers@, w) ==> (forall|
                    c: (i32, i32),
                |
                    is_unit_dir(c) ==> !shortcut_accepted(
                        *self,
                        c,
                        apple_pos,
                        tour_numbers@,
                        w,
                        h,
                    )),
                decision_inputs_available(*self, cycle@, apple_pos, tour_numbers@, w) ==> (forall|
                    c: (i32, i32),
                |
                    is_unit_dir(c) ==> !(dir_safe(*self, c, w, h) && successor_move(
                        *self,
                        c,
                        tour_numbers@,
                        w,
                        h,
                    ))),
            decreases 4 - k,
        {
            let fallback_dir = fallback_dir_by_index(k);
            let target = self.dir_target_cell(fallback_dir);
            match target {
                None => {},
                Some(next_potential_pos) => {
                    if !self.check_collision(next_potential_pos, fallback_dir, map_width, map_height
                    ) {
                        return fallback_dir;
                    }
                },
            }
            k = k + 1;
        }

        proof {
            assert forall|c: (i32, i32)| is_unit_dir(c) implies !dir_safe(*self, c, w, h) by {
                if c == (0i32, -1i32) {
                    assert(c == spec_fallback_dir_by_index(0));
                } else if c == (-1i32, 0i32) {
                    assert(c == spec_fallback_dir_by_index(1));
                } else if c == (0i32, 1i32) {
                    assert(c == spec_fallback_dir_by_index(2));
                } else {
                    assert(c == spec_fallback_dir_by_index(3));
                }
            }
        }
        (1, 0)
    }

    /// Advances the snake one tick: picks a direction, remembers every
    /// segment's previous position, moves the head one cell that way and
    /// shifts every body segment to its predecessor's previous position.
    /// Returns the new head position and the vacated tail position.
    pub fn step(
        &mut self,
        cycle: &Vec<(usize, usize)>,
        apple_pos: (usize, usize),
        tour_numbers: &Vec<usize>,
        map_width: usize,
        map_height: usize,
    ) -> (r: ((usize, usize), (usize, usize)))
        requires
            old(self).segments@.len() >= 1,
            map_width >= 1,
            map_height >= 1,
            tour_numbers@.len() == map_width * map_height,
            forall|i: int|
                0 <= i < tour_numbers@.len() ==> (#[trigger] tour_numbers@[i]) < map_width
                    * map_height,
            4 * (map_width * map_height) <= usize::MAX,
            map_width < usize::MAX,
            old(self).segments@[0].cur.0 < map_width,
            old(self).segments@[0].cur.1 < map_height,
        ensures
            final(self).segments@.len() == old(self).segments@.len(),
            is_unit_dir(final(self).direction),
            final(self).segments@[0].cur.0 == old(self).segments@[0].cur.0
                + final(self).direction.0,
            final(self).segments@[0].cur.1 == old(self).segments@[0].cur.1
                + final(self).direction.1,
            forall|i: int|
                1 <= i < final(self).segments@.len() ==> (#[trigger] final(self).segments@[i]).cur
                    == old(self).segments@[i - 1].cur,
            forall|i: int|
                0 <= i < final(self).segments@.len() ==> (#[trigger] final(self).segments@[i]).prev
                    == old(self).segments@[i].cur,
            (exists|c: (i32, i32)|
                is_unit_dir(c) && dir_safe(*old(self), c, map_width as int, map_height as int))
                ==> dir_safe(*old(self), final(self).direction, map_width as int, map_height as int),
            r.0 == final(self).segments@[0].cur,
            r.1 == old(self).segments@[old(self).segments@.len() - 1].cur,
    {
        let ghost w = map_width as int;
        let ghost h = map_height as int;
        let ghost orig = *self;
        let future_direction: (i32, i32) = self.get_next_direction(
            cycle,
            apple_pos,
            tour_numbers,
            map_width,
            map_height,
        );
        self.direction = future_direction;

        // Save every segment's current position before moving.
        let mut i: usize = 0;
        while i < self.segments.len()
            invariant
                self.segments@.len() == orig.segments@.len(),
                i <= self.segments@.len(),
                self.direction == future_direction,
                forall|j: int|
                    0 <= j < self.segments@.len() ==> (#[trigger] self.segments@[j]).cur
                        == orig.segments@[j].cur,
                forall|j: int|
                    0 <= j < i ==> (#[trigger] self.segments@[j]).prev == orig.segments@[j].cur,
                forall|j: int|
                    i <= j < self.segments@.len() ==> (#[trigger] self.segments@[j]).prev
                        == orig.segments@[j].prev,
            decreases self.segments@.len() - i,
        {
            let seg: SnakeSegment = self.segments[i];
            self.segments[i] = SnakeSegment { cur: seg.cur, prev: seg.cur };
            i = i + 1;
        }

        // Move the head.
        let d: (i32, i32) = self.direction;
        let head: (usize, usize) = self.segments[0].cur;
        proof {
            if d != (1i32, 0i32) {
                assert(dir_safe(orig, d, w, h));
            }
        }
        let nx: usize = if d.0 == 1 {
            head.0 + 1
        } else if d.0 == -1 {
            head.0 - 1
        } else {
            head.0
        };
        let ny: usize = if d.1 == 1 {
            head.1 + 1
        } else if d.1 == -1 {
            head.1 - 1
        } else {
            head.1
        };
        let head_prev: (usize, usize) = self.segments[0].prev;
        self.segments[0] = SnakeSegment { cur: (nx, ny), prev: head_prev };

        // Shift the body segments.
        let mut i: usize = 1;
        while i < self.segments.len()
            invariant
                self.segments@.len() == orig.segments@.len(),
                self.segments@.len() >= 1,
                1 <= i,
                self.direction == future_direction,
                self.segments@[0].cur == ((nx, ny)),
                forall|j: int|
                    0 <= j < self.segments@.len() ==> (#[trigger] self.segments@[j]).prev
                        == orig.segments@[j].cur,
                forall|j: int|
                    1 <= j < i ==> (#[trigger] self.segments@[j]).cur == orig.segments@[j - 1].cur,
                forall|j: int|
                    i <= j < self.segments@.len() ==> (#[trigger] self.segments@[j]).cur
                        == orig.segments@[j].cur,
            decreases self.segments@.len() - i,
        {
            let p: (usize, usize) = self.segments[i - 1].prev;
            let seg: SnakeSegment = self.segments[i];
            self.segments[i] = SnakeSegment { cur: p, prev: seg.prev };
            i = i + 1;
        }

        let head_pos: (usize, usize) = self.segments[0].cur;
        let tail_pos: (usize, usize) = self.segments[self.segments.len() - 1].prev;
        (head_pos, tail_pos)
    }

    /// Whether the snake has died: the head has left the grid or sits on its
    /// own body.
    pub fn is_dead(&self, map_width: usize, map_height: usize) -> (r: bool)
        requires
            self.segments@.len() >= 1,
        ensures
            r == (self.segments@[0].cur.0 >= map_width || self.segments@[0].cur.1 >= map_height
                || body_hit_at(
                *self,
                self.segments@[0].cur.0 as int,
                self.segments@[0].cur.1 as int,
            )),
    {
        let head: (usize, usize) = self.segments[0].cur;
        if head.0 >= map_width || head.1 >= map_height {
            return true;
        }
        let mut i: usize = 1;
        while i < self.segments.len()
            invariant
                1 <= i,
                head == self.segments@[0].cur,
                forall|j: int| 1 <= j < i ==> (#[trigger] self.segments@[j]).cur != head,
            decreases self.segments@.len() - i,
        {
            let c: (usize, usize) = self.segments[i].cur;
            if c.0 == head.0 && c.1 == head.1 {
                return true;
            }
            i = i + 1;
        }
        false
    }
}

} // verus!
