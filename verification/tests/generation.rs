use snake_bot::bot::generate_from_draws;
use snake_bot::bot::generate_hamiltonian_cycle;
use snake_bot::bot::generate_maze_tour;
use snake_bot::maze::MazeNode;
use snake_bot::tour::find_next_dir;
use snake_bot::tour::generate_tour_numbers;
use snake_bot::tour::set_tour_number;
use snake_bot::tour::Direction;
use snake_bot::tour::UNASSIGNED;

fn blank_maze(n: usize) -> Vec<MazeNode> {
    (0..n)
        .map(|_| MazeNode {
            visited: true,
            door_right: false,
            door_down: false,
        })
        .collect()
}

fn is_adjacent(a: (usize, usize), b: (usize, usize)) -> bool {
    (a.0 == b.0 && (a.1 + 1 == b.1 || b.1 + 1 == a.1))
        || (a.1 == b.1 && (a.0 + 1 == b.0 || b.0 + 1 == a.0))
}

fn assert_valid_generation(cycle: &[(usize, usize)], table: &[usize], w: usize, h: usize) {
    let size: usize = w * h;
    assert_eq!(table.len(), size);
    assert_eq!(cycle.len(), size);
    // The table is a permutation of 0..size.
    let mut counts: Vec<usize> = vec![0; size];
    for &n in table {
        assert!(n < size);
        counts[n] += 1;
    }
    for &c in &counts {
        assert_eq!(c, 1);
    }
    // Consecutive tour numbers sit on adjacent cells, wrapping around.
    for n in 0..size {
        assert!(is_adjacent(cycle[n], cycle[(n + 1) % size]));
    }
    // Cycle and table are mutual inverses.
    for x in 0..w {
        for y in 0..h {
            let n: usize = table[x + y * w];
            assert_eq!(cycle[n], (x, y));
        }
    }
    for n in 0..size {
        let (x, y) = cycle[n];
        assert!(x < w && y < h);
        assert_eq!(table[x + y * w], n);
    }
}

#[test]
fn generate_4x4_is_single_super_cell_loop() {
    macroquad::rand::srand(7);
    let (cycle, table) = generate_hamiltonian_cycle(4, 4);
    // Exactly the sixteen values 0..16, each once.
    let mut seen: Vec<bool> = vec![false; 16];
    for &n in &table {
        assert!(n < 16);
        assert!(!seen[n]);
        seen[n] = true;
    }
    assert!(seen.iter().all(|&s| s));
    // The loop closes: the last cell is adjacent to the first.
    assert!(is_adjacent(cycle[0], cycle[15]));
    assert_valid_generation(&cycle, &table, 4, 4);
}

#[test]
fn generated_tables_are_permutations() {
    for (seed, side) in [(1u64, 4usize), (2, 6), (3, 10), (4, 20), (5, 30)] {
        macroquad::rand::srand(seed);
        let (cycle, table) =
            generate_hamiltonian_cycle(side, side);
        assert_valid_generation(&cycle, &table, side, side);
    }
}

#[test]
fn consecutive_numbers_are_adjacent_with_wraparound() {
    macroquad::rand::srand(11);
    let (cycle, table) = generate_hamiltonian_cycle(10, 10);
    for n in 0..100usize {
        let here = cycle[n];
        let next = cycle[(n + 1) % 100];
        assert!(is_adjacent(here, next));
        assert_eq!(table[here.0 + here.1 * 10], n);
    }
}

#[test]
fn cycle_and_table_are_mutual_inverses() {
    macroquad::rand::srand(13);
    let (cycle, table) = generate_hamiltonian_cycle(20, 20);
    for x in 0..20usize {
        for y in 0..20usize {
            assert_eq!(cycle[table[x + y * 20]], (x, y));
        }
    }
}

#[test]
fn same_seed_gives_identical_generation() {
    macroquad::rand::srand(42);
    let (cycle_a, table_a) = generate_hamiltonian_cycle(20, 20);
    macroquad::rand::srand(42);
    let (cycle_b, table_b) = generate_hamiltonian_cycle(20, 20);
    assert_eq!(table_a, table_b);
    assert_eq!(cycle_a, cycle_b);
}

#[test]
fn different_seeds_give_different_cycles() {
    macroquad::rand::srand(1);
    let (_, table_a) = generate_hamiltonian_cycle(20, 20);
    macroquad::rand::srand(987654321);
    let (_, table_b) = generate_hamiltonian_cycle(20, 20);
    assert_ne!(table_a, table_b);
}

#[test]
fn same_draws_give_identical_generation() {
    let mut draws: Vec<u32> = Vec::new();
    let mut state: u64 = 99;
    for _ in 0..2 * 25 {
        state = state.wrapping_mul(6364136223846793005).wrapping_add(1442695040888963407);
        draws.push((state >> 60) as u32 % 4);
    }
    let first = generate_from_draws(10, 10, &draws);
    let second = generate_from_draws(10, 10, &draws);
    assert_eq!(first.0, second.0);
    assert_eq!(first.1, second.1);
    assert_valid_generation(&first.0, &first.1, 10, 10);
}

#[test]
fn all_zero_draws_still_give_a_valid_cycle() {
    // The deterministic sweep alone must cover the maze.
    let draws: Vec<u32> = vec![0; 2 * 9];
    let (cycle, table) = generate_from_draws(6, 6, &draws);
    assert_valid_generation(&cycle, &table, 6, 6);
}

#[test]
fn draws_out_of_range_are_ignored_attempts() {
    // A draw of 4 or more attempts no direction; the sweep still covers.
    let draws: Vec<u32> = vec![7; 2 * 4];
    let (cycle, table) = generate_from_draws(4, 4, &draws);
    assert_valid_generation(&cycle, &table, 4, 4);
}

#[test]
fn wall_follower_prefers_rotated_directions() {
    // Facing right, the rule prefers up, then right, then down, then left,
    // each gated on the corresponding door.
    let mut nodes = blank_maze(4);
    nodes[0].door_down = true; // door from (0,0) down to (0,1)
    assert_eq!(find_next_dir(&nodes, 0, 1, Direction::Right, 2), Direction::Up);

    let mut nodes = blank_maze(4);
    nodes[0].door_right = true;
    assert_eq!(find_next_dir(&nodes, 0, 0, Direction::Right, 2), Direction::Right);

    let mut nodes = blank_maze(4);
    nodes[0].door_down = true;
    assert_eq!(find_next_dir(&nodes, 0, 0, Direction::Right, 2), Direction::Down);

    let nodes = blank_maze(4);
    assert_eq!(find_next_dir(&nodes, 0, 0, Direction::Right, 2), Direction::Left);

    // Facing up, the rule prefers left, then up, then right, then down.
    let mut nodes = blank_maze(4);
    nodes[0].door_right = true; // door from (0,0) right to (1,0)
    assert_eq!(find_next_dir(&nodes, 1, 0, Direction::Up, 2), Direction::Left);
    assert_eq!(find_next_dir(&nodes, 0, 0, Direction::Up, 2), Direction::Right);
    let nodes = blank_maze(4);
    assert_eq!(find_next_dir(&nodes, 0, 0, Direction::Up, 2), Direction::Down);
}

#[test]
fn tour_numbering_keeps_the_first_write() {
    let mut table: Vec<usize> = vec![UNASSIGNED; 16];
    set_tour_number(&mut table, 1, 1, 3, 4);
    set_tour_number(&mut table, 1, 1, 9, 4);
    assert_eq!(table[1 + 1 * 4], 3);
}

#[test]
fn walk_abandons_a_maze_with_an_outward_door() {
    // A door pointing off the grid is nothing a spanning tree produces; the
    // walk refuses to leave the maze and gives nothing back.
    let mut nodes = blank_maze(4);
    nodes[1].door_right = true; // (1,0) claims a door off the right edge
    assert_eq!(generate_tour_numbers(&nodes, 4, 4), None);
}

#[test]
fn maze_tour_table_has_arena_size() {
    let draws: Vec<u32> = vec![1; 2 * 25];
    let table = generate_maze_tour(10, 10, &draws).expect("the walk must close");
    assert_eq!(table.len(), 100);
}
