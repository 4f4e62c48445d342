use snake_bot::bot::generate_hamiltonian_cycle;
use snake_bot::cycle::boustrophedon_cycle;
use snake_bot::cycle::check_tour;
use snake_bot::cycle::get_cycle_positions;

#[test]
fn checker_accepts_a_generated_cycle() {
    macroquad::rand::srand(21);
    let (cycle, table) = generate_hamiltonian_cycle(10, 10);
    assert!(check_tour(&table, &cycle, 10, 10));
}

#[test]
fn checker_rejects_a_duplicated_number() {
    macroquad::rand::srand(22);
    let (_, mut table) = generate_hamiltonian_cycle(6, 6);
    table[5] = table[4];
    let positions = get_cycle_positions(&table, 6, 6);
    assert!(!check_tour(&table, &positions, 6, 6));
}

#[test]
fn checker_rejects_an_out_of_range_number() {
    macroquad::rand::srand(23);
    let (_, mut table) = generate_hamiltonian_cycle(6, 6);
    table[0] = 36;
    let positions = get_cycle_positions(&table, 6, 6);
    assert!(!check_tour(&table, &positions, 6, 6));
}

#[test]
fn checker_rejects_a_torn_cycle() {
    macroquad::rand::srand(24);
    let (cycle, table) = generate_hamiltonian_cycle(6, 6);
    // Swapping two distant cells keeps the permutation but tears adjacency.
    let mut torn = table.clone();
    let a: usize = cycle[0].0 + cycle[0].1 * 6;
    let b: usize = cycle[17].0 + cycle[17].1 * 6;
    torn.swap(a, b);
    let positions = get_cycle_positions(&torn, 6, 6);
    assert!(!check_tour(&torn, &positions, 6, 6));
}

#[test]
fn cycle_positions_invert_the_table() {
    macroquad::rand::srand(25);
    let (_, table) = generate_hamiltonian_cycle(10, 10);
    let positions = get_cycle_positions(&table, 10, 10);
    for x in 0..10usize {
        for y in 0..10usize {
            assert_eq!(positions[table[x + y * 10]], (x, y));
        }
    }
}

#[test]
fn boustrophedon_cycle_is_a_valid_tour() {
    let (cycle, table) = boustrophedon_cycle(6, 6);
    assert!(check_tour(&table, &cycle, 6, 6));
    // The deterministic tour starts along the top row and closes through
    // the first column.
    assert_eq!(cycle[0], (0, 0));
    assert_eq!(cycle[5], (5, 0));
    assert_eq!(cycle[6], (5, 1));
    assert_eq!(cycle[35], (0, 1));
    for x in 0..6usize {
        for y in 0..6usize {
            assert_eq!(cycle[table[x + y * 6]], (x, y));
        }
    }
}
