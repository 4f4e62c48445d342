use snake_bot::bot::generate_hamiltonian_cycle;
use snake_bot::snake::get_position_in_cycle;
use snake_bot::snake::get_tour_number;
use snake_bot::snake::Snake;
use snake_bot::snake::SnakeSegment;

fn make_snake(cells: &[(usize, usize)], direction: (i32, i32)) -> Snake {
    let segments: Vec<SnakeSegment> =
        cells.iter().map(|&c| SnakeSegment { cur: c, prev: c }).collect();
    Snake { segments, direction }
}

fn apply_dir(p: (usize, usize), d: (i32, i32)) -> (usize, usize) {
    (
        (p.0 as i64 + d.0 as i64) as usize,
        (p.1 as i64 + d.1 as i64) as usize,
    )
}

/// The decision engine's own safety rule, written independently: on the
/// grid, not on a body segment behind the head, not the exact reverse of the
/// snake's facing.
fn dir_is_safe(snake: &Snake, d: (i32, i32), w: usize, h: usize) -> bool {
    let head = snake.segments[0].cur;
    let tx: i64 = head.0 as i64 + d.0 as i64;
    let ty: i64 = head.1 as i64 + d.1 as i64;
    if tx < 0 || ty < 0 || tx >= w as i64 || ty >= h as i64 {
        return false;
    }
    let target = (tx as usize, ty as usize);
    for seg in &snake.segments[1..] {
        if seg.cur == target {
            return false;
        }
    }
    if snake.segments.len() > 1
        && snake.direction != (0, 0)
        && d.0 == -snake.direction.0
        && d.1 == -snake.direction.1
    {
        return false;
    }
    true
}

fn cyclic_distance(from: usize, to: usize, size: usize) -> usize {
    if to >= from {
        to - from
    } else {
        size - from + to
    }
}

#[test]
fn decide_is_safe_across_fuzzed_snakes() {
    macroquad::rand::srand(17);
    let (cycle, table) = generate_hamiltonian_cycle(10, 10);

    // A small deterministic generator drives the fuzzing.
    let mut state: u64 = 0xfeed_beef;
    let mut next = |bound: usize| -> usize {
        state = state
            .wrapping_mul(6364136223846793005)
            .wrapping_add(1442695040888963407);
        ((state >> 33) as usize) % bound
    };

    let dirs: [(i32, i32); 4] = [(1, 0), (-1, 0), (0, 1), (0, -1)];
    let mut checked: usize = 0;
    for _ in 0..300 {
        // Grow a random self-avoiding walk as the snake's body, head first.
        let mut cells: Vec<(usize, usize)> = vec![(next(10), next(10))];
        let length: usize = 1 + next(8);
        while cells.len() < length {
            let tail = *cells.last().unwrap();
            let d = dirs[next(4)];
            let cand = apply_dir(tail, d);
            if cand.0 < 10 && cand.1 < 10 && !cells.contains(&cand) {
                cells.push(cand);
            } else {
                break;
            }
        }
        let direction = if cells.len() > 1 {
            (
                cells[0].0 as i32 - cells[1].0 as i32,
                cells[0].1 as i32 - cells[1].1 as i32,
            )
        } else {
            dirs[next(4)]
        };
        let snake = make_snake(&cells, direction);
        let food = (next(10), next(10));

        let d = snake.get_next_direction(&cycle, food, &table, 10, 10);
        assert!(dirs.contains(&d));
        let any_safe = dirs.iter().any(|&c| dir_is_safe(&snake, c, 10, 10));
        if any_safe {
            assert!(
                dir_is_safe(&snake, d, 10, 10),
                "unsafe direction {:?} for snake {:?}",
                d,
                cells
            );
        } else {
            assert_eq!(d, (1, 0));
        }
        checked += 1;
    }
    assert_eq!(checked, 300);
}

#[test]
fn pure_cycle_following_tours_the_whole_board() {
    macroquad::rand::srand(19);
    let (_, table) = generate_hamiltonian_cycle(10, 10);

    let start: (usize, usize) = (3, 7);
    let mut snake = make_snake(&[start], (1, 0));
    let mut visits: Vec<usize> = vec![0; 100];
    for _ in 0..100 {
        let d = snake
            .next_cycle_direction(&table, 10, 10)
            .expect("the successor cell must be reachable");
        let head = snake.segments[0].cur;
        let new_head = apply_dir(head, d);
        assert!(new_head.0 < 10 && new_head.1 < 10);
        visits[new_head.0 + new_head.1 * 10] += 1;
        snake.segments[0] = SnakeSegment {
            cur: new_head,
            prev: head,
        };
        snake.direction = d;
    }
    // One full tour: every cell visited exactly once, ending at the start.
    assert!(visits.iter().all(|&v| v == 1));
    assert_eq!(snake.segments[0].cur, start);
}

#[test]
fn near_food_move_reduces_cycle_distance() {
    // Food two cells ahead on the cycle, ample empty board: the decision
    // must reduce the forward cyclic distance to the food.  A neighbour two
    // cycle steps ahead can never be orthogonally adjacent (each cycle step
    // flips the cell's parity), so the best in-budget move is the successor
    // cell, taking the distance from two down to one.
    let size: usize = 400;
    let cells = [(5usize, 5usize), (4, 5), (3, 5), (2, 5)];

    let mut found = false;
    for seed in 0..200u64 {
        macroquad::rand::srand(seed);
        let (cycle, table) = generate_hamiltonian_cycle(20, 20);
        let snake = make_snake(&cells, (1, 0));
        let head_tour: usize = table[5 + 5 * 20];
        let tail_tour: usize = table[2 + 5 * 20];
        // Ample slack between head and tail, so the cutting budget clamps
        // to the food distance rather than to zero; and the successor cell
        // must not sit inside the snake's own body.
        if cyclic_distance(head_tour, tail_tour, size) <= 40 {
            continue;
        }
        let successor = cycle[(head_tour + 1) % size];
        if cells[1..].contains(&successor) {
            continue;
        }
        found = true;

        let food = cycle[(head_tour + 2) % size];
        let d = snake.get_next_direction(&cycle, food, &table, 20, 20);
        assert!(dir_is_safe(&snake, d, 20, 20));
        let target = apply_dir((5, 5), d);
        let target_tour = table[target.0 + target.1 * 20];
        // Forward distance to the food drops from 2 to 1.
        assert_eq!(cyclic_distance(head_tour, target_tour, size), 1);
        assert_eq!(target, cycle[(head_tour + 1) % size]);
        assert_eq!(
            cyclic_distance(target_tour, table[food.0 + food.1 * 20], size),
            1
        );
        break;
    }
    assert!(found, "no seed below 200 gave ample head-tail slack");
}

#[test]
fn shortcut_cuts_ahead_when_a_shorter_safe_path_exists() {
    // Food far ahead on the cycle: whenever some safe neighbour jumps
    // several cells ahead within the cutting budget, the decision takes the
    // largest such jump instead of the single pure-cycle step.
    let size: usize = 400;
    let cells = [(5usize, 5usize), (4, 5), (3, 5), (2, 5)];
    let dirs: [(i32, i32); 4] = [(1, 0), (-1, 0), (0, 1), (0, -1)];

    let mut exercised = false;
    for seed in 0..200u64 {
        macroquad::rand::srand(seed);
        let (cycle, table) = generate_hamiltonian_cycle(20, 20);
        let snake = make_snake(&cells, (1, 0));
        let head_tour: usize = table[5 + 5 * 20];
        let tail_tour: usize = table[2 + 5 * 20];
        let dtail = cyclic_distance(head_tour, tail_tour, size);
        if dtail <= 40 {
            continue;
        }
        // The budget the heuristic grants here: the food lies beyond the
        // tail, so no food or future-food deduction applies.
        let budget = (dtail - 25).min(dtail + 5);
        let food = cycle[(head_tour + dtail + 5) % size];

        // The furthest safe in-budget jump among the four neighbours.
        let mut best: usize = 0;
        for &c in &dirs {
            if dir_is_safe(&snake, c, 20, 20) {
                let t = apply_dir((5, 5), c);
                let dist = cyclic_distance(head_tour, table[t.0 + t.1 * 20], size);
                if dist <= budget && dist > best {
                    best = dist;
                }
            }
        }
        if best <= 1 {
            continue;  // no strictly shorter safe path this time
        }
        exercised = true;

        let d = snake.get_next_direction(&cycle, food, &table, 20, 20);
        assert!(dir_is_safe(&snake, d, 20, 20));
        let target = apply_dir((5, 5), d);
        let chosen = cyclic_distance(head_tour, table[target.0 + target.1 * 20], size);
        assert_eq!(chosen, best);
        assert!(chosen > 1, "the shortcut must beat the pure-cycle step");
        break;
    }
    assert!(exercised, "no seed below 200 offered a shortcut");
}

#[test]
fn trapped_snake_returns_right() {
    // The head is walled in by body cells on all four sides.
    let cells = [
        (1usize, 1usize),
        (2, 1),
        (2, 2),
        (1, 2),
        (0, 2),
        (0, 1),
        (0, 0),
        (1, 0),
        (2, 0),
    ];
    let snake = make_snake(&cells, (0, 1));
    let table: Vec<usize> = (0..16).collect();
    let cycle: Vec<(usize, usize)> = Vec::new();
    let d = snake.get_next_direction(&cycle, (3, 3), &table, 4, 4);
    assert_eq!(d, (1, 0));
}

#[test]
fn spawn_places_segments_to_the_left() {
    let snake = Snake::spawn_on_map(5, 5, 4);
    assert_eq!(snake.segments.len(), 4);
    let cells: Vec<(usize, usize)> = snake.segments.iter().map(|s| s.cur).collect();
    assert_eq!(cells, vec![(5, 5), (4, 5), (3, 5), (2, 5)]);
    assert_eq!(snake.direction, (1, 0));
}

#[test]
fn grow_duplicates_the_tail() {
    let mut snake = Snake::spawn_on_map(5, 5, 4);
    snake.grow();
    assert_eq!(snake.segments.len(), 5);
    assert_eq!(snake.segments[4].cur, (2, 5));
    assert_eq!(snake.segments[4].prev, (2, 5));
}

#[test]
fn eating_is_head_on_apple() {
    let snake = Snake::spawn_on_map(5, 5, 4);
    assert!(snake.is_eating((5, 5)));
    assert!(!snake.is_eating((4, 5)));
}

#[test]
fn dead_when_out_of_bounds_or_on_body() {
    let out = make_snake(&[(10, 3), (9, 3)], (1, 0));
    assert!(out.is_dead(10, 10));
    let bitten = make_snake(&[(4, 4), (5, 4), (5, 5), (4, 5), (4, 4)], (0, -1));
    assert!(bitten.is_dead(10, 10));
    let alive = make_snake(&[(4, 4), (5, 4), (5, 5)], (-1, 0));
    assert!(!alive.is_dead(10, 10));
}

#[test]
fn step_shifts_the_body_and_reports_head_and_tail() {
    macroquad::rand::srand(23);
    let (cycle, table) = generate_hamiltonian_cycle(10, 10);
    let mut snake = Snake::spawn_on_map(5, 5, 4);
    let before: Vec<(usize, usize)> = snake.segments.iter().map(|s| s.cur).collect();
    let food = cycle[(table[5 + 5 * 10] + 50) % 100];
    let (head, tail) = snake.step(&cycle, food, &table, 10, 10);
    assert_eq!(head, snake.segments[0].cur);
    assert_eq!(tail, before[3]);
    for i in 1..4 {
        assert_eq!(snake.segments[i].cur, before[i - 1]);
        assert_eq!(snake.segments[i].prev, before[i]);
    }
    let d = snake.direction;
    assert_eq!(
        head,
        apply_dir(before[0], d)
    );
    assert!(dir_is_safe(&make_snake(&before, (1, 0)), d, 10, 10));
}

#[test]
fn controller_survives_a_long_game() {
    macroquad::rand::srand(37);
    let (cycle, table) = generate_hamiltonian_cycle(10, 10);
    let mut snake = Snake::spawn_on_map(5, 5, 4);

    // The first free cell in row-major order serves as the food, mirroring
    // the game loop's job of placing it on an open cell.
    let place_food = |snake: &Snake| -> Option<(usize, usize)> {
        for y in 0..10usize {
            for x in 0..10usize {
                if !snake.segments.iter().any(|s| s.cur == (x, y)) {
                    return Some((x, y));
                }
            }
        }
        None
    };

    let mut food = place_food(&snake).unwrap();
    for _ in 0..500 {
        snake.step(&cycle, food, &table, 10, 10);
        assert!(!snake.is_dead(10, 10), "the controller must keep the snake alive");
        if snake.is_eating(food) {
            snake.grow();
            match place_food(&snake) {
                Some(f) => food = f,
                None => break,  // the board is full: the game is won
            }
        }
    }
}

#[test]
fn tour_number_lookup_mirrors_the_table() {
    let table: Vec<usize> = (0..100).collect();
    assert_eq!(get_tour_number((3, 7), &table, 10), Some(3 + 7 * 10));
    assert_eq!(get_tour_number((10, 0), &table, 10), None);
    assert_eq!(get_tour_number((0, 10), &table, 10), None);
}

#[test]
fn position_lookup_finds_the_first_match() {
    let cycle: Vec<(usize, usize)> = vec![(0, 0), (1, 0), (1, 1), (0, 1)];
    assert_eq!(get_position_in_cycle((1, 1), &cycle), Some(2));
    assert_eq!(get_position_in_cycle((2, 2), &cycle), None);
}
