use hobogo::hobogo::{Board, Coord};
use hobogo::mcts::{Action, GameState, Mcts};
use rand::SeedableRng;

fn coord(x: i32, y: i32) -> Coord {
    Coord { x, y }
}

fn state_on(entries: &[i8], next_player: u8, num_players: usize) -> GameState {
    GameState { next_player, num_players, board: Board::from_js(entries).unwrap() }
}

#[test]
fn all_cells_open_on_an_empty_board() {
    let state =
        GameState { next_player: 0, num_players: 2, board: Board::new(2, 2) };
    let moves = state.available_moves_for(0);
    assert_eq!(moves.len(), 4);
    let actions = state.available_actions();
    assert_eq!(actions.len(), 4);
    assert!(actions.iter().all(|a| matches!(a, Action::Move(_))));
}

#[test]
fn no_actions_on_a_finished_board() {
    let state = state_on(&[0, 1, 1, 0], 0, 2);
    assert!(state.available_moves_for(0).is_empty());
    assert!(state.available_actions().is_empty());
}

#[test]
fn blocked_player_passes_while_others_fight() {
    // Player 1 claims the left empties, player 2 the right ones; player 0
    // has no legal placement, but the middle is still contested, so the
    // game is not over and player 0 must pass.
    let state = state_on(
        &[
            1, -1, -1, 2, //
            1, -1, -1, 2, //
            1, -1, -1, 2, //
            1, -1, -1, 2,
        ],
        0,
        3,
    );
    assert!(state.available_moves_for(0).is_empty());
    assert!(!state.board.is_game_over(3));
    let actions = state.available_actions();
    assert_eq!(actions.len(), 1);
    assert!(matches!(actions[0], Action::Pass));
}

#[test]
fn take_action_places_and_advances() {
    let mut state =
        GameState { next_player: 0, num_players: 3, board: Board::new(3, 3) };
    state.take_action(&Action::Move(coord(1, 1)));
    assert_eq!(state.board.at(coord(1, 1)), Some(0));
    assert_eq!(state.next_player, 1);
    state.take_action(&Action::Pass);
    assert_eq!(state.next_player, 2);
    assert_eq!(state.board.at(coord(1, 1)), Some(0));
    state.take_action(&Action::Pass);
    assert_eq!(state.next_player, 0);
}

#[test]
fn sole_winner_earns_margin() {
    // Player 0 holds three stones and rules the last empty corner: 4 points
    // against 0. The winner earns 1.0 plus a tenth per point of margin, the
    // loser drops a tenth per point behind; rewards are kept in tenths.
    let state = state_on(&[0, 0, 0, -1], 0, 2);
    let score = state.score();
    assert_eq!(score, vec![14, -4]);
}

#[test]
fn tied_winners_share_half_a_point() {
    let state = state_on(&[0, 1, -1, -1], 0, 2);
    let score = state.score();
    assert_eq!(score, vec![5, 5]);
}

#[test]
fn winner_reward_strictly_exceeds_losers() {
    let state = state_on(
        &[
            0, 0, 1, //
            0, 0, 1, //
            0, 0, -1,
        ],
        0,
        2,
    );
    let score = state.score();
    assert!(score[0] > score[1]);
}

#[test]
fn fresh_engine_has_no_answer() {
    let state =
        GameState { next_player: 0, num_players: 2, board: Board::new(2, 2) };
    let mcts = Mcts::new(state);
    assert_eq!(mcts.num_iterations(), 0);
    assert!(mcts.best_action().is_none());
}

#[test]
fn iterations_are_counted_and_produce_an_answer() {
    let state =
        GameState { next_player: 0, num_players: 2, board: Board::new(2, 2) };
    let mut mcts = Mcts::new(state);
    let mut rng = rand::rngs::SmallRng::seed_from_u64(11);
    for _ in 0..20 {
        mcts.iterate(&mut rng);
    }
    assert_eq!(mcts.num_iterations(), 20);
    let best = mcts.best_action();
    assert!(matches!(best, Some(Action::Move(_))));
}

#[test]
fn terminal_start_has_no_best_action() {
    let state = state_on(&[0, 1, 1, 0], 0, 2);
    let mut mcts = Mcts::new(state);
    let mut rng = rand::rngs::SmallRng::seed_from_u64(3);
    for _ in 0..5 {
        mcts.iterate(&mut rng);
    }
    assert_eq!(mcts.num_iterations(), 5);
    assert!(mcts.best_action().is_none());
}

#[test]
fn one_iteration_already_yields_an_answer() {
    // The engine must produce a valid best action after any non-zero number
    // of completed iterations.
    let state =
        GameState { next_player: 1, num_players: 2, board: Board::new(3, 3) };
    let mut mcts = Mcts::new(state);
    let mut rng = rand::rngs::SmallRng::seed_from_u64(8);
    mcts.iterate(&mut rng);
    assert_eq!(mcts.num_iterations(), 1);
    assert!(matches!(mcts.best_action(), Some(Action::Move(_))));
}
