use hobogo::hobogo::{Board, Coord};
use rand::SeedableRng;

fn coord(x: i32, y: i32) -> Coord {
    Coord { x, y }
}

#[test]
fn no_move_on_a_trivial_board() {
    // A 1x1 board with a single player is over from the start: with nobody
    // to contest it, nothing is volatile even while the cell is empty, so
    // the search returns no move at once.
    let board = Board::new(1, 1);
    let mut rng = rand::rngs::SmallRng::seed_from_u64(1);
    assert!(board.is_game_over(1));
    assert_eq!(board.ai_move(0, 1, 10, &mut rng), None);
}

#[test]
fn no_move_on_a_trivial_finished_board() {
    // A 1x1 board whose only cell is already occupied: no legal actions, so
    // the search returns no move at once.
    let board = Board::from_js(&[0]).unwrap();
    let mut rng = rand::rngs::SmallRng::seed_from_u64(1);
    assert_eq!(board.ai_move(0, 1, 10, &mut rng), None);
}

#[test]
fn no_move_without_any_iteration() {
    let board = Board::new(3, 3);
    let mut rng = rand::rngs::SmallRng::seed_from_u64(1);
    assert_eq!(board.ai_move(0, 2, 0, &mut rng), None);
}

#[test]
fn chosen_move_is_legal() {
    let board = Board::new(3, 3);
    let mut rng = rand::rngs::SmallRng::seed_from_u64(5);
    let chosen = board.ai_move(0, 2, 100, &mut rng).unwrap();
    assert!(board.is_valid_move(chosen, 0, 2));
}

#[test]
fn fixed_seed_reproduces_the_same_move() {
    // Same board, same seed, same iteration count: the whole search is
    // deterministic, so the chosen action must be identical across runs.
    let board = Board::new(3, 3);
    let mut rng_a = rand::rngs::SmallRng::seed_from_u64(42);
    let first = board.ai_move(0, 2, 200, &mut rng_a);
    let mut rng_b = rand::rngs::SmallRng::seed_from_u64(42);
    let second = board.ai_move(0, 2, 200, &mut rng_b);
    assert!(first.is_some());
    assert_eq!(first, second);
}

#[test]
fn search_avoids_the_hopeless_cell() {
    // The center is ruled by player 1 and the cells around the ring are
    // dominated by it, so none of them is even a legal move for player 0;
    // whatever the search returns must be outside that region and legal.
    let board = Board::from_js(&[
        -1, -1, -1, -1, -1, -1, -1, //
        -1, -1, -1, -1, -1, -1, -1, //
        -1, -1, 1, 1, 1, -1, -1, //
        -1, -1, 1, -1, 1, -1, -1, //
        -1, -1, 1, 1, 1, -1, -1, //
        -1, -1, -1, -1, -1, -1, -1, //
        -1, -1, -1, -1, -1, -1, -1,
    ])
    .unwrap();
    let mut rng = rand::rngs::SmallRng::seed_from_u64(9);
    let chosen = board.ai_move(0, 2, 60, &mut rng).unwrap();
    assert_ne!(chosen, coord(3, 3));
    assert!(board.is_valid_move(chosen, 0, 2));
}

#[test]
fn shuffling_actually_permutes() {
    // With a single iteration the chosen move is the first entry of the
    // shuffled action list. If shuffling left the list in its row-major
    // order, every seed would pick the top-left corner; some seed must not.
    let board = Board::new(3, 3);
    let mut saw_other = false;
    for seed in 0..20u64 {
        let mut rng = rand::rngs::SmallRng::seed_from_u64(seed);
        if board.ai_move(0, 2, 1, &mut rng) != Some(coord(0, 0)) {
            saw_other = true;
        }
    }
    assert!(saw_other);
}
