//! The explicit Hamiltonian cycle: the tour-number table inverted into an
//! ordered list of coordinates, together with the validity notions the rest
//! of the library reasons with — the table is a permutation of the arena's
//! numbers, consecutive numbers sit on adjacent cells, and table and cycle
//! are mutual inverses — and a complete runtime check of them.

use vstd::prelude::*;

use vstd::arithmetic::div_mod::lemma_fundamental_div_mod;
use vstd::arithmetic::div_mod::lemma_fundamental_div_mod_converse;
use vstd::arithmetic::div_mod::lemma_mod_bound;

use crate::tour::cell_index;

verus! {

/// Whether some cell of the table carries the tour number `n`.
pub open spec fn tour_has(t: Seq<usize>, n: int) -> bool {
    exists|i: int| 0 <= i < t.len() && t[i] == n
}

/// The table assigns every cell a tour number below the arena size, no
/// number twice, and every number somewhere: it is a permutation of the
/// numbers 0 up to the arena size.
pub open spec fn is_tour_permutation(t: Seq<usize>, w: int, h: int) -> bool {
    &&& t.len() == w * h
    &&& forall|i: int| 0 <= i < t.len() ==> (#[trigger] t[i]) < w * h
    &&& forall|i: int, j: int|
        #![trigger t[i], t[j]]
        0 <= i < t.len() && 0 <= j < t.len() && i != j ==> t[i] != t[j]
    &&& forall|n: int| 0 <= n < w * h ==> #[trigger] tour_has(t, n)
}

/// Orthogonal adjacency of two cells: they differ by one in exactly one
/// coordinate.
pub open spec fn spec_adjacent(a: (usize, usize), b: (usize, usize)) -> bool {
    ||| (a.0 == b.0 && (a.1 + 1 == b.1 || b.1 + 1 == a.1))
    ||| (a.1 == b.1 && (a.0 + 1 == b.0 || b.0 + 1 == a.0))
}

/// Every consecutive pair of cells on the cycle is orthogonally adjacent,
/// the last cell wrapping around to the first.
pub open spec fn is_cyclic_tour(c: Seq<(usize, usize)>, w: int, h: int) -> bool {
    c.len() == w * h && forall|n: int|
        0 <= n < c.len() ==> spec_adjacent(#[trigger] c[n], c[(n + 1) % (c.len() as int)])
}

/// Every cell the cycle lists lies on the arena.
pub open spec fn cycle_in_bounds(c: Seq<(usize, usize)>, w: int, h: int) -> bool {
    forall|n: int| 0 <= n < c.len() ==> (#[trigger] c[n]).0 < w && c[n].1 < h
}

/// The cycle lists each cell at the cell's own tour number.
pub open spec fn is_inverse_of(c: Seq<(usize, usize)>, t: Seq<usize>, w: int, h: int) -> bool {
    &&& c.len() == w * h
    &&& t.len() == w * h
    &&& forall|x: int, y: int|
        0 <= x < w && 0 <= y < h && t[cell_index(x, y, w)] < c.len() ==> (
        #[trigger] c[t[cell_index(x, y, w)] as int]) == ((x as usize, y as usize))
}

/// Each tour number leads back to itself: the cell the cycle lists at `n`
/// has tour number `n`.
pub open spec fn cycle_numbers_match(c: Seq<(usize, usize)>, t: Seq<usize>, w: int) -> bool {
    forall|n: int|
        0 <= n < c.len() ==> #[trigger] t[cell_index(c[n].0 as int, c[n].1 as int, w)] == n
}

/// Whether the cycle lists the cell (x, y) somewhere.
pub open spec fn cycle_lists(c: Seq<(usize, usize)>, x: int, y: int) -> bool {
    exists|n: int| 0 <= n < c.len() && (#[trigger] c[n]) == ((x as usize, y as usize))
}

/// Following the cycle visits every cell of the arena exactly once: the
/// cycle lists each cell, and at one single position.  Hence a walk that
/// steps from each cycle position to the next, started anywhere, returns to
/// its start after exactly the arena's number of steps and has visited every
/// cell of the arena once on the way.
pub proof fn lemma_cycle_covers_all(c: Seq<(usize, usize)>, t: Seq<usize>, w: int, h: int)
    requires
        is_tour_permutation(t, w, h),
        is_inverse_of(c, t, w, h),
        cycle_numbers_match(c, t, w),
    ensures
        forall|x: int, y: int| 0 <= x < w && 0 <= y < h ==> #[trigger] cycle_lists(c, x, y),
        forall|n1: int, n2: int|
            #![trigger c[n1], c[n2]]
            0 <= n1 < c.len() && 0 <= n2 < c.len() && n1 != n2 ==> c[n1] != c[n2],
{
    assert forall|x: int, y: int| 0 <= x < w && 0 <= y < h implies #[trigger] cycle_lists(
        c,
        x,
        y,
    ) by {
        crate::tour::lemma_cell_index_bound(x, y, w, h);
        let n = t[cell_index(x, y, w)] as int;
        assert(c[n] == ((x as usize, y as usize)));
    }
    assert forall|n1: int, n2: int|
        #![trigger c[n1], c[n2]]
        0 <= n1 < c.len() && 0 <= n2 < c.len() && n1 != n2 implies c[n1] != c[n2] by {
        if c[n1] == c[n2] {
            assert(t[cell_index(c[n1].0 as int, c[n1].1 as int, w)] == n1);
            assert(t[cell_index(c[n2].0 as int, c[n2].1 as int, w)] == n2);
        }
    }
}

/// Consecutive tour numbers stated over the table itself: any two cells
/// whose numbers follow one another, wrapping around the arena size, are
/// orthogonally adjacent.
pub open spec fn tour_adjacency(t: Seq<usize>, w: int, h: int) -> bool {
    forall|x1: int, y1: int, x2: int, y2: int|
        #![trigger t[cell_index(x1, y1, w)], t[cell_index(x2, y2, w)]]
        0 <= x1 < w && 0 <= y1 < h && 0 <= x2 < w && 0 <= y2 < h && t[cell_index(x2, y2, w)] == (
        t[cell_index(x1, y1, w)] + 1) % (w * h) ==> spec_adjacent(
            (x1 as usize, y1 as usize),
            (x2 as usize, y2 as usize),
        )
}

/// On a permutation table, cyclic adjacency of the inverse cycle says the
/// same as consecutive-number adjacency on the table itself.
pub proof fn lemma_cyclic_to_table(c: Seq<(usize, usize)>, t: Seq<usize>, w: int, h: int)
    requires
        is_tour_permutation(t, w, h),
        is_inverse_of(c, t, w, h),
        is_cyclic_tour(c, w, h),
    ensures
        tour_adjacency(t, w, h),
{
    assert forall|x1: int, y1: int, x2: int, y2: int|
        #![trigger t[cell_index(x1, y1, w)], t[cell_index(x2, y2, w)]]
        0 <= x1 < w && 0 <= y1 < h && 0 <= x2 < w && 0 <= y2 < h && t[cell_index(x2, y2, w)] == (
    t[cell_index(x1, y1, w)] + 1) % (w * h) implies spec_adjacent(
        (x1 as usize, y1 as usize),
        (x2 as usize, y2 as usize),
    ) by {
        crate::tour::lemma_cell_index_bound(x1, y1, w, h);
        crate::tour::lemma_cell_index_bound(x2, y2, w, h);
        let n1 = t[cell_index(x1, y1, w)] as int;
        lemma_mod_bound(n1 + 1, w * h);
        assert(c[n1] == ((x1 as usize, y1 as usize)));
        assert(c[(n1 + 1) % (w * h)] == ((x2 as usize, y2 as usize)));
        assert(spec_adjacent(c[n1], c[(n1 + 1) % (c.len() as int)]));
    }
}

/// The converse: a cycle that matches the table's numbers inherits its
/// cyclic adjacency from consecutive-number adjacency on the table.
pub proof fn lemma_table_to_cyclic(c: Seq<(usize, usize)>, t: Seq<usize>, w: int, h: int)
    requires
        t.len() == w * h,
        c.len() == w * h,
        tour_adjacency(t, w, h),
        cycle_in_bounds(c, w, h),
        cycle_numbers_match(c, t, w),
    ensures
        is_cyclic_tour(c, w, h),
{
    assert forall|n: int| 0 <= n < c.len() implies spec_adjacent(
        #[trigger] c[n],
        c[(n + 1) % (c.len() as int)],
    ) by {
        lemma_mod_bound(n + 1, w * h);
        let m = (n + 1) % (w * h);
        assert(t[cell_index(c[n].0 as int, c[n].1 as int, w)] == n);
        assert(t[cell_index(c[m].0 as int, c[m].1 as int, w)] == m);
    }
}

/// The cell at position n of the deterministic boustrophedon tour: along
/// the top row to the right, serpentine back and forth through the rows
/// below while staying right of the first column, and up the first column
/// back to the start.
pub open spec fn zigzag_cell(n: int, w: int, h: int) -> (int, int) {
    if n < w {
        (n, 0)
    } else if n < w + (w - 1) * (h - 1) {
        let m = n - w;
        let r = m / (w - 1);
        let k = m % (w - 1);
        if r % 2 == 0 {
            (w - 1 - k, 1 + r)
        } else {
            (1 + k, 1 + r)
        }
    } else {
        let m = n - w - (w - 1) * (h - 1);
        (0, h - 1 - m)
    }
}

/// Where the boustrophedon tour lists the cell (x, y).
pub open spec fn zigzag_index(x: int, y: int, w: int, h: int) -> int {
    if y == 0 {
        x
    } else if x >= 1 {
        let r = y - 1;
        let k = if r % 2 == 0 {
            w - 1 - x
        } else {
            x - 1
        };
        w + r * (w - 1) + k
    } else {
        w + (w - 1) * (h - 1) + (h - 1 - y)
    }
}

/// The boustrophedon tour's three parts exactly fill the arena.
pub proof fn lemma_zigzag_parts(w: int, h: int)
    requires
        w >= 2,
        h >= 2,
    ensures
        w + (w - 1) * (h - 1) + (h - 1) == w * h,
        w < w + (w - 1) * (h - 1),
{
    assert(w + (w - 1) * (h - 1) + (h - 1) == w * h) by (nonlinear_arith);
    assert((w - 1) * (h - 1) >= 1) by (nonlinear_arith)
        requires
            w >= 2,
            h >= 2,
    ;
}

/// `zigzag_index` is the tour's left inverse: the cell at position n lies
/// on the arena and is listed exactly at n.
pub proof fn lemma_zigzag_inverse(n: int, w: int, h: int)
    requires
        w >= 2,
        h >= 2,
        0 <= n < w * h,
    ensures
        ({
            let c = zigzag_cell(n, w, h);
            0 <= c.0 < w && 0 <= c.1 < h && zigzag_index(c.0, c.1, w, h) == n
        }),
{
    lemma_zigzag_parts(w, h);
    if n < w {
    } else if n < w + (w - 1) * (h - 1) {
        let m = n - w;
        let r = m / (w - 1);
        let k = m % (w - 1);
        lemma_fundamental_div_mod(m, w - 1);
        lemma_mod_bound(m, w - 1);
        assert(r >= 0) by (nonlinear_arith)
            requires
                m >= 0,
                w - 1 >= 1,
                k < w - 1,
                0 <= k,
                m == (w - 1) * r + k,
        ;
        assert(r <= h - 2) by (nonlinear_arith)
            requires
                m < (w - 1) * (h - 1),
                w - 1 >= 1,
                0 <= k,
                m == (w - 1) * r + k,
        ;
        assert(w + r * (w - 1) + k == n) by (nonlinear_arith)
            requires
                m == (w - 1) * r + k,
                m == n - w,
        ;
    } else {
        let m = n - w - (w - 1) * (h - 1);
        assert(0 <= m < h - 1);
    }
}

/// `zigzag_index` is the tour's right inverse: every cell of the arena is
/// listed, at the position the index gives.
pub proof fn lemma_zigzag_covers(x: int, y: int, w: int, h: int)
    requires
        w >= 2,
        h >= 2,
        0 <= x < w,
        0 <= y < h,
    ensures
        ({
            let n = zigzag_index(x, y, w, h);
            0 <= n < w * h && zigzag_cell(n, w, h) == ((x, y))
        }),
{
    lemma_zigzag_parts(w, h);
    if y == 0 {
    } else if x >= 1 {
        let r = y - 1;
        let k = if r % 2 == 0 {
            w - 1 - x
        } else {
            x - 1
        };
        let n = w + r * (w - 1) + k;
        assert(0 <= k < w - 1);
        assert(r * (w - 1) + k < (h - 1) * (w - 1)) by (nonlinear_arith)
            requires
                0 <= r <= h - 2,
                0 <= k < w - 1,
        ;
        assert(r * (w - 1) >= 0) by (nonlinear_arith)
            requires
                r >= 0,
                w >= 2,
        ;
        assert((h - 1) * (w - 1) == (w - 1) * (h - 1)) by (nonlinear_arith);
        lemma_fundamental_div_mod_converse(n - w, w - 1, r, k);
        assert(n - w == r * (w - 1) + k == (w - 1) * r + k) by (nonlinear_arith)
            requires
                n == w + r * (w - 1) + k,
        ;
    } else {
        assert(0 <= h - 1 - y <= h - 2);
    }
}

/// Consecutive positions of the boustrophedon tour, the last wrapping to
/// the first, hold orthogonally adjacent cells.
pub proof fn lemma_zigzag_adjacent(n: int, w: int, h: int)
    requires
        w >= 2,
        h >= 2,
        h % 2 == 0,
        0 <= n < w * h,
    ensures
        ({
            let a = zigzag_cell(n, w, h);
            let b = zigzag_cell((n + 1) % (w * h), w, h);
            (a.0 == b.0 && (a.1 + 1 == b.1 || b.1 + 1 == a.1)) || (a.1 == b.1 && (a.0 + 1 == b.0
                || b.0 + 1 == a.0))
        }),
{
    lemma_zigzag_parts(w, h);
    let size = w * h;
    if n == size - 1 {
        // The last cell of the first column, (0, 1), wraps to the start.
        assert((n + 1) % size == 0) by {
            assert(size % size == 0) by (nonlinear_arith)
                requires
                    size >= 1,
            ;
        }
        assert(n - w - (w - 1) * (h - 1) == h - 2);
    } else {
        vstd::arithmetic::div_mod::lemma_small_mod((n + 1) as nat, size as nat);
        if n + 1 < w {
        } else if n + 1 == w {
            // Top-right corner down into the serpentine.
            lemma_fundamental_div_mod_converse(0, w - 1, 0, 0);
        } else if n + 1 < w + (w - 1) * (h - 1) {
            // Within the serpentine: the same row, or the turn onto the next row.
            let m = n - w;
            let r = m / (w - 1);
            let k = m % (w - 1);
            lemma_fundamental_div_mod(m, w - 1);
            lemma_mod_bound(m, w - 1);
            assert(r >= 0) by (nonlinear_arith)
                requires
                    m >= 0,
                    w - 1 >= 1,
                    0 <= k < w - 1,
                    m == (w - 1) * r + k,
            ;
            if k < w - 2 {
                lemma_fundamental_div_mod_converse(m + 1, w - 1, r, k + 1);
            } else {
                assert(m + 1 == (r + 1) * (w - 1) + 0) by (nonlinear_arith)
                    requires
                        m == (w - 1) * r + k,
                        k == w - 2,
                ;
                lemma_fundamental_div_mod_converse(m + 1, w - 1, r + 1, 0);
            }
        } else if n + 1 == w + (w - 1) * (h - 1) {
            // The serpentine's last cell, (1, h-1), steps to (0, h-1).
            let m = n - w;
            assert(m == (w - 1) * (h - 2) + (w - 2)) by (nonlinear_arith)
                requires
                    m == (w - 1) * (h - 1) - 1,
                    w >= 2,
                    h >= 2,
            ;
            lemma_fundamental_div_mod_converse(m, w - 1, h - 2, w - 2);
            assert((h - 2) % 2 == 0);
        } else {
            // Climbing the first column.
            assert(n + 1 - w - (w - 1) * (h - 1) <= h - 2);
        }
    }
}

/// Recovers a cell from its row-major index.
pub proof fn lemma_recover_cell(i: int, w: int, h: int)
    requires
        w >= 1,
        h >= 1,
        0 <= i < w * h,
    ensures
        ({
            let xx = i % w;
            let yy = i / w;
            0 <= xx < w && 0 <= yy < h && cell_index(xx, yy, w) == i
        }),
{
    let xx = i % w;
    let yy = i / w;
    lemma_fundamental_div_mod(i, w);
    lemma_mod_bound(i, w);
    assert(yy >= 0) by (nonlinear_arith)
        requires
            i >= 0,
            w >= 1,
            0 <= xx < w,
            i == w * yy + xx,
    ;
    assert(yy < h) by (nonlinear_arith)
        requires
            i < w * h,
            w >= 1,
            xx >= 0,
            i == w * yy + xx,
    ;
    assert(xx + yy * w == i) by (nonlinear_arith)
        requires
            i == w * yy + xx,
    ;
}

/// Builds the deterministic boustrophedon cycle over the arena, with its
/// tour-number table: a closed tour over every cell that is always
/// available, whatever the maze looks like.
pub fn boustrophedon_cycle(arena_width: usize, arena_height: usize) -> (r: (
    Vec<(usize, usize)>,
    Vec<usize>,
))
    requires
        arena_width >= 2,
        arena_height >= 2,
        arena_height % 2 == 0,
        arena_width * arena_height <= usize::MAX,
    ensures
        is_tour_permutation(r.1@, arena_width as int, arena_height as int),
        is_cyclic_tour(r.0@, arena_width as int, arena_height as int),
        cycle_in_bounds(r.0@, arena_width as int, arena_height as int),
        is_inverse_of(r.0@, r.1@, arena_width as int, arena_height as int),
        cycle_numbers_match(r.0@, r.1@, arena_width as int),
{
    let ghost w = arena_width as int;
    let ghost h = arena_height as int;
    proof {
        lemma_zigzag_parts(w, h);
    }
    let mut positions: Vec<(usize, usize)> = Vec::new();

    // The top row, left to right.
    let mut x: usize = 0;
    while x < arena_width
        invariant
            x <= arena_width,
            positions@.len() == x,
            w == arena_width as int,
            h == arena_height as int,
            arena_width >= 2,
            arena_height >= 2,
            forall|n: int|
                0 <= n < positions@.len() ==> (#[trigger] positions@[n]).0 == zigzag_cell(
                    n,
                    w,
                    h,
                ).0 && positions@[n].1 == zigzag_cell(n, w, h).1,
        decreases arena_width - x,
    {
        positions.push((x, 0));
        x = x + 1;
    }

    // The serpentine through the rows below, right of the first column.
    let mut row: usize = 0;
    while row < arena_height - 1
        invariant
            row <= arena_height - 1,
            positions@.len() == w + row * (w - 1),
            w == arena_width as int,
            h == arena_height as int,
            arena_width >= 2,
            arena_height >= 2,
            forall|n: int|
                0 <= n < positions@.len() ==> (#[trigger] positions@[n]).0 == zigzag_cell(
                    n,
                    w,
                    h,
                ).0 && positions@[n].1 == zigzag_cell(n, w, h).1,
        decreases arena_height - 1 - row,
    {
        let mut k: usize = 0;
        while k < arena_width - 1
            invariant
                k <= arena_width - 1,
                row < arena_height - 1,
                positions@.len() == w + row * (w - 1) + k,
                w == arena_width as int,
                h == arena_height as int,
                arena_width >= 2,
                arena_height >= 2,
                forall|n: int|
                    0 <= n < positions@.len() ==> (#[trigger] positions@[n]).0 == zigzag_cell(
                        n,
                        w,
                        h,
                    ).0 && positions@[n].1 == zigzag_cell(n, w, h).1,
            decreases arena_width - 1 - k,
        {
            let cx: usize = if row % 2 == 0 {
                arena_width - 1 - k
            } else {
                1 + k
            };
            proof {
                let m = row * (w - 1) + k;
                assert(m < (h - 1) * (w - 1)) by (nonlinear_arith)
                    requires
                        m == row * (w - 1) + k,
                        row as int <= h - 2,
                        k as int <= w - 2,
                        row as int >= 0,
                        k as int >= 0,
                ;
                assert((h - 1) * (w - 1) == (w - 1) * (h - 1)) by (nonlinear_arith);
                assert(m >= 0 && m == (row as int) * (w - 1) + k) by (nonlinear_arith)
                    requires
                        m == row * (w - 1) + k,
                        row as int >= 0,
                        w >= 2,
                        k as int >= 0,
                ;
                lemma_fundamental_div_mod_converse(m, w - 1, row as int, k as int);
            }
            positions.push((cx, 1 + row));
            k = k + 1;
        }
        proof {
            assert(w + row * (w - 1) + (w - 1) == w + (row + 1) * (w - 1)) by (nonlinear_arith);
        }
        row = row + 1;
    }
    proof {
        assert(w + (h - 1) * (w - 1) == w + (w - 1) * (h - 1)) by (nonlinear_arith);
    }

    // The first column, bottom to top, closing the loop.
    let mut up: usize = 0;
    while up < arena_height - 1
        invariant
            up <= arena_height - 1,
            positions@.len() == w + (w - 1) * (h - 1) + up,
            w == arena_width as int,
            h == arena_height as int,
            arena_width >= 2,
            arena_height >= 2,
            forall|n: int|
                0 <= n < positions@.len() ==> (#[trigger] positions@[n]).0 == zigzag_cell(
                    n,
                    w,
                    h,
                ).0 && positions@[n].1 == zigzag_cell(n, w, h).1,
        decreases arena_height - 1 - up,
    {
        proof {
            lemma_zigzag_parts(w, h);
        }
        positions.push((0, arena_height - 1 - up));
        up = up + 1;
    }
    proof {
        lemma_zigzag_parts(w, h);
        assert(positions@.len() == w * h);
    }

    // The table: each listed cell gets its position as tour number.
    let arena_size: usize = arena_width * arena_height;
    let mut table: Vec<usize> = Vec::new();
    while table.len() < arena_size
        invariant
            table@.len() <= arena_size,
        decreases arena_size - table.len(),
    {
        table.push(0);
    }

    let mut n: usize = 0;
    while n < arena_size
        invariant
            n <= arena_size,
            table@.len() == arena_size,
            positions@.len() == arena_size,
            arena_size == arena_width * arena_height,
            w == arena_width as int,
            h == arena_height as int,
            arena_width >= 2,
            arena_height >= 2,
            forall|n2: int|
                0 <= n2 < positions@.len() ==> (#[trigger] positions@[n2]).0 == zigzag_cell(
                    n2,
                    w,
                    h,
                ).0 && positions@[n2].1 == zigzag_cell(n2, w, h).1,
            forall|n2: int|
                0 <= n2 < n ==> #[trigger] table@[cell_index(
                    positions@[n2].0 as int,
                    positions@[n2].1 as int,
                    w,
                )] == n2,
        decreases arena_size - n,
    {
        let cell: (usize, usize) = positions[n];
        let ghost t0 = table@;
        proof {
            lemma_zigzag_inverse(n as int, w, h);
            crate::tour::lemma_cell_index_bound(cell.0 as int, cell.1 as int, w, h);
        }
        table[cell.0 + cell.1 * arena_width] = n;
        proof {
            assert forall|n2: int|
                0 <= n2 < n + 1 implies #[trigger] table@[cell_index(
                positions@[n2].0 as int,
                positions@[n2].1 as int,
                w,
            )] == n2 by {
                lemma_zigzag_inverse(n2, w, h);
                crate::tour::lemma_cell_index_bound(
                    positions@[n2].0 as int,
                    positions@[n2].1 as int,
                    w,
                    h,
                );
                if n2 < n {
                    assert(t0[cell_index(positions@[n2].0 as int, positions@[n2].1 as int, w)]
                        == n2);
                    if positions@[n2].0 == cell.0 && positions@[n2].1 == cell.1 {
                        assert(zigzag_index(cell.0 as int, cell.1 as int, w, h) == n2);
                        assert(zigzag_index(cell.0 as int, cell.1 as int, w, h) == n as int);
                        assert(false);
                    }
                    lemma_cell_index_injective(
                        positions@[n2].0 as int,
                        positions@[n2].1 as int,
                        cell.0 as int,
                        cell.1 as int,
                        w,
                    );
                } else {
                    assert(positions@[n2].0 == cell.0 && positions@[n2].1 == cell.1);
                }
            }
        }
        n = n + 1;
    }

    proof {
        let t = table@;
        let c = positions@;
        assert forall|n2: int| 0 <= n2 < c.len() implies (#[trigger] c[n2]).0 < w && c[n2].1
            < h by {
            lemma_zigzag_inverse(n2, w, h);
        }
        assert forall|n2: int| 0 <= n2 < c.len() implies spec_adjacent(
            #[trigger] c[n2],
            c[(n2 + 1) % (c.len() as int)],
        ) by {
            lemma_zigzag_adjacent(n2, w, h);
            lemma_mod_bound(n2 + 1, w * h);
            lemma_zigzag_inverse(n2, w, h);
            lemma_zigzag_inverse((n2 + 1) % (w * h), w, h);
        }
        assert forall|i: int| 0 <= i < t.len() implies (#[trigger] t[i]) < w * h by {
            lemma_recover_cell(i, w, h);
            let xx = i % w;
            let yy = i / w;
            lemma_zigzag_covers(xx, yy, w, h);
            let n2 = zigzag_index(xx, yy, w, h);
            assert(c[n2].0 == xx && c[n2].1 == yy);
            assert(t[cell_index(c[n2].0 as int, c[n2].1 as int, w)] == n2);
        }
        assert forall|i1: int, i2: int|
            #![trigger t[i1], t[i2]]
            0 <= i1 < t.len() && 0 <= i2 < t.len() && i1 != i2 implies t[i1] != t[i2] by {
            lemma_recover_cell(i1, w, h);
            lemma_recover_cell(i2, w, h);
            let x1 = i1 % w;
            let y1 = i1 / w;
            let x2 = i2 % w;
            let y2 = i2 / w;
            lemma_zigzag_covers(x1, y1, w, h);
            lemma_zigzag_covers(x2, y2, w, h);
            let n1 = zigzag_index(x1, y1, w, h);
            let n2 = zigzag_index(x2, y2, w, h);
            assert(c[n1].0 == x1 && c[n1].1 == y1);
            assert(c[n2].0 == x2 && c[n2].1 == y2);
            assert(t[cell_index(c[n1].0 as int, c[n1].1 as int, w)] == n1);
            assert(t[cell_index(c[n2].0 as int, c[n2].1 as int, w)] == n2);
            if t[i1] == t[i2] {
                assert(n1 == n2);
                assert(zigzag_cell(n1, w, h) == ((x1, y1)));
                assert(zigzag_cell(n2, w, h) == ((x2, y2)));
                lemma_cell_index_injective(x1, y1, x2, y2, w);
            }
        }
        assert forall|n2: int| 0 <= n2 < w * h implies #[trigger] tour_has(t, n2) by {
            lemma_zigzag_inverse(n2, w, h);
            crate::tour::lemma_cell_index_bound(c[n2].0 as int, c[n2].1 as int, w, h);
            let idx = cell_index(c[n2].0 as int, c[n2].1 as int, w);
            assert(t[idx] == n2);
        }
        assert forall|x2: int, y2: int|
            0 <= x2 < w && 0 <= y2 < h && t[cell_index(x2, y2, w)] < c.len() implies (
        #[trigger] c[t[cell_index(x2, y2, w)] as int]) == ((x2 as usize, y2 as usize)) by {
            crate::tour::lemma_cell_index_bound(x2, y2, w, h);
            lemma_zigzag_covers(x2, y2, w, h);
            let n2 = zigzag_index(x2, y2, w, h);
            assert(c[n2].0 == x2 && c[n2].1 == y2);
            assert(t[cell_index(c[n2].0 as int, c[n2].1 as int, w)] == n2);
            assert(t[cell_index(x2, y2, w)] == n2);
            assert(c[n2] == ((x2 as usize, y2 as usize)));
        }
    }

    (positions, table)
}

/// Distinct cells have distinct row-major indices.
pub proof fn lemma_cell_index_injective(x1: int, y1: int, x2: int, y2: int, w: int)
    requires
        0 <= x1 < w,
        0 <= x2 < w,
        0 <= y1,
        0 <= y2,
        !(x1 == x2 && y1 == y2),
    ensures
        cell_index(x1, y1, w) != cell_index(x2, y2, w),
{
    assert(x1 + y1 * w != x2 + y2 * w) by (nonlinear_arith)
        requires
            0 <= x1 < w,
            0 <= x2 < w,
            0 <= y1,
            0 <= y2,
            !(x1 == x2 && y1 == y2),
    ;
}

fn adjacent_cells(a: (usize, usize), b: (usize, usize)) -> (r: bool)
    ensures
        r == spec_adjacent(a, b),
{
    (a.0 == b.0 && ((a.1 < b.1 && b.1 - a.1 == 1) || (b.1 < a.1 && a.1 - b.1 == 1))) || (a.1 == b.1
        && ((a.0 < b.0 && b.0 - a.0 == 1) || (b.0 < a.0 && a.0 - b.0 == 1)))
}

/// Inverts the tour-number table into the ordered cycle: position `n` of the
/// result is the cell whose tour number is `n`.  A tour number at or above
/// the arena size leaves its slot untouched; when the table is a
/// permutation, that never happens and the result is the table's exact
/// inverse.
pub fn get_cycle_positions(
    tour_to_number: &Vec<usize>,
    arena_width: usize,
    arena_height: usize,
) -> (positions: Vec<(usize, usize)>)
    requires
        arena_width >= 1,
        arena_height >= 1,
        tour_to_number.len() == arena_width * arena_height,
    ensures
        positions@.len() == arena_width * arena_height,
        cycle_in_bounds(positions@, arena_width as int, arena_height as int),
        is_tour_permutation(tour_to_number@, arena_width as int, arena_height as int) ==> {
            &&& is_inverse_of(
                positions@,
                tour_to_number@,
                arena_width as int,
                arena_height as int,
            )
            &&& cycle_numbers_match(positions@, tour_to_number@, arena_width as int)
        },
{
    let arena_size: usize = arena_width * arena_height;
    let ghost w = arena_width as int;
    let ghost h = arena_height as int;
    let ghost t = tour_to_number@;

    let mut positions: Vec<(usize, usize)> = Vec::new();
    while positions.len() < arena_size
        invariant
            positions.len() <= arena_size,
            cycle_in_bounds(positions@, w, h),
            arena_width >= 1,
            arena_height >= 1,
            w == arena_width as int,
            h == arena_height as int,
        decreases arena_size - positions.len(),
    {
        positions.push((0, 0));
    }

    let mut x: usize = 0;
    while x < arena_width
        invariant
            x <= arena_width,
            arena_width >= 1,
            arena_height >= 1,
            arena_size == arena_width * arena_height,
            tour_to_number.len() == arena_size,
            t == tour_to_number@,
            w == arena_width as int,
            h == arena_height as int,
            positions.len() == arena_size,
            cycle_in_bounds(positions@, w, h),
            is_tour_permutation(t, w, h) ==> forall|xx: int, yy: int|
                0 <= xx < w && 0 <= yy < h && xx < x ==> (#[trigger] positions@[t[cell_index(
                    xx,
                    yy,
                    w,
                )] as int]) == ((xx as usize, yy as usize)),
        decreases arena_width - x,
    {
        let mut y: usize = 0;
        while y < arena_height
            invariant
                x < arena_width,
                y <= arena_height,
                arena_width >= 1,
                arena_height >= 1,
                arena_size == arena_width * arena_height,
                tour_to_number.len() == arena_size,
                t == tour_to_number@,
                w == arena_width as int,
                h == arena_height as int,
                positions.len() == arena_size,
                cycle_in_bounds(positions@, w, h),
                is_tour_permutation(t, w, h) ==> forall|xx: int, yy: int|
                    0 <= xx < w && 0 <= yy < h && (xx < x || (xx == x && yy < y)) ==> (
                    #[trigger] positions@[t[cell_index(xx, yy, w)] as int]) == ((
                    xx as usize,
                    yy as usize,
                    )),
            decreases arena_height - y,
        {
            proof {
                crate::tour::lemma_cell_index_bound(x as int, y as int, w, h);
            }
            let tour_number: usize = tour_to_number[x + y * arena_width];
            if tour_number < arena_size {
                let ghost pre = positions@;
                positions[tour_number] = (x, y);
                proof {
                    if is_tour_permutation(t, w, h) {
                        assert forall|xx: int, yy: int|
                            0 <= xx < w && 0 <= yy < h && (xx < x || (xx == x && yy <= y)) implies (
                        #[trigger] positions@[t[cell_index(xx, yy, w)] as int]) == ((
                        xx as usize,
                        yy as usize,
                        )) by {
                            crate::tour::lemma_cell_index_bound(xx, yy, w, h);
                            if !(xx == x && yy == y) {
                                lemma_cell_index_injective(xx, yy, x as int, y as int, w);
                            }
                        }
                    }
                }
            } else {
                proof {
                    if is_tour_permutation(t, w, h) {
                        assert(t[cell_index(x as int, y as int, w)] < w * h);
                        assert(false);
                    }
                }
            }
            y = y + 1;
        }
        x = x + 1;
    }

    proof {
        if is_tour_permutation(t, w, h) {
            assert forall|n: int| 0 <= n < positions@.len() implies #[trigger] t[cell_index(
                positions@[n].0 as int,
                positions@[n].1 as int,
                w,
            )] == n by {
                assert(tour_has(t, n));
                let i = choose|i: int| 0 <= i < t.len() && t[i] == n;
                let xx = i % w;
                let yy = i / w;
                lemma_fundamental_div_mod(i, w);
                lemma_mod_bound(i, w);
                assert(cell_index(xx, yy, w) == i);
                assert(yy >= 0) by (nonlinear_arith)
                    requires
                        i >= 0,
                        w >= 1,
                        yy == i / w,
                ;
                assert(yy < h) by (nonlinear_arith)
                    requires
                        i < w * h,
                        w >= 1,
                        xx >= 0,
                        i == w * yy + xx,
                ;
                assert(positions@[t[cell_index(xx, yy, w)] as int] == ((xx as usize, yy as usize)));
                assert(positions@[n] == ((xx as usize, yy as usize)));
            }
        }
    }

    positions
}

/// Checks, completely, that the tour-number table is a permutation of the
/// arena's numbers and that the cycle's consecutive cells are orthogonally
/// adjacent with wraparound: the answer is true exactly when both hold.
pub fn check_tour(
    tour: &Vec<usize>,
    positions: &Vec<(usize, usize)>,
    arena_width: usize,
    arena_height: usize,
) -> (ok: bool)
    requires
        arena_width >= 1,
        arena_height >= 1,
        tour.len() == arena_width * arena_height,
        positions.len() == arena_width * arena_height,
    ensures
        ok == (is_tour_permutation(tour@, arena_width as int, arena_height as int)
            && is_cyclic_tour(positions@, arena_width as int, arena_height as int)),
{
    let arena_size: usize = arena_width * arena_height;
    let ghost w = arena_width as int;
    let ghost h = arena_height as int;
    let ghost t = tour@;

    let mut i: usize = 0;
    while i < arena_size
        invariant
            i <= arena_size,
            arena_size == arena_width * arena_height,
            tour.len() == arena_size,
            t == tour@,
            w == arena_width as int,
            h == arena_height as int,
            forall|j: int| 0 <= j < i ==> (#[trigger] t[j]) < arena_size,
        decreases arena_size - i,
    {
        if tour[i] >= arena_size {
            return false;
        }
        i = i + 1;
    }

    let mut seen: Vec<bool> = Vec::new();
    while seen.len() < arena_size
        invariant
            seen.len() <= arena_size,
            forall|n: int| 0 <= n < seen@.len() ==> !(#[trigger] seen@[n]),
        decreases arena_size - seen.len(),
    {
        seen.push(false);
    }

    let mut i: usize = 0;
    while i < arena_size
        invariant
            i <= arena_size,
            arena_size == arena_width * arena_height,
            tour.len() == arena_size,
            seen.len() == arena_size,
            t == tour@,
            w == arena_width as int,
            h == arena_height as int,
            forall|j: int| 0 <= j < t.len() ==> (#[trigger] t[j]) < arena_size,
            forall|n: int|
                0 <= n < arena_size ==> ((#[trigger] seen@[n]) <==> exists|j: int|
                    0 <= j < i && t[j] == n),
            forall|j1: int, j2: int|
                #![trigger t[j1], t[j2]]
                0 <= j1 < i && 0 <= j2 < i && j1 != j2 ==> t[j1] != t[j2],
        decreases arena_size - i,
    {
        let n: usize = tour[i];
        if seen[n] {
            proof {
                let j = choose|j: int| 0 <= j < i && t[j] == n;
                assert(t[j] == t[i as int] && j != i);
            }
            return false;
        }
        seen[n] = true;
        proof {
            assert forall|m: int| 0 <= m < arena_size implies ((#[trigger] seen@[m]) <==> exists|
                j: int,
            |
                0 <= j < i + 1 && t[j] == m) by {
                if m == n {
                    assert(t[i as int] == m);
                } else {
                    if exists|j: int| 0 <= j < i + 1 && t[j] == m {
                        let j = choose|j: int| 0 <= j < i + 1 && t[j] == m;
                        assert(j != i);
                        assert(exists|j2: int| 0 <= j2 < i && t[j2] == m);
                    }
                }
            }
        }
        i = i + 1;
    }

    let mut n: usize = 0;
    while n < arena_size
        invariant
            n <= arena_size,
            arena_size == arena_width * arena_height,
            seen.len() == arena_size,
            t == tour@,
            tour.len() == arena_size,
            w == arena_width as int,
            h == arena_height as int,
            forall|m: int|
                0 <= m < arena_size ==> ((#[trigger] seen@[m]) <==> exists|j: int|
                    0 <= j < arena_size && t[j] == m),
            forall|m: int| 0 <= m < n ==> #[trigger] tour_has(t, m),
        decreases arena_size - n,
    {
        if !seen[n] {
            proof {
                assert(!tour_has(t, n as int));
            }
            return false;
        }
        proof {
            assert(tour_has(t, n as int));
        }
        n = n + 1;
    }

    let ghost c = positions@;
    let mut n: usize = 0;
    while n < arena_size
        invariant
            n <= arena_size,
            arena_size == arena_width * arena_height,
            positions.len() == arena_size,
            c == positions@,
            w == arena_width as int,
            h == arena_height as int,
            forall|m: int|
                0 <= m < n ==> spec_adjacent(#[trigger] c[m], c[(m + 1) % (c.len() as int)]),
        decreases arena_size - n,
    {
        let next: usize = if n + 1 < arena_size {
            n + 1
        } else {
            0
        };
        proof {
            assert((n + 1) % (c.len() as int) == next as int) by {
                if n + 1 < arena_size {
                    lemma_mod_bound(n as int + 1, c.len() as int);
                    vstd::arithmetic::div_mod::lemma_small_mod((n + 1) as nat, c.len() as nat);
                } else {
                    assert((c.len() as int) % (c.len() as int) == 0) by (nonlinear_arith)
                        requires
                            c.len() >= 1,
                    ;
                }
            }
        }
        if !adjacent_cells(positions[n], positions[next]) {
            return false;
        }
        n = n + 1;
    }

    true
}

} // verus!
