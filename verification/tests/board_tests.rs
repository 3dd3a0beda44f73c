use hobogo::hobogo::{Board, Coord, Influence};

fn coord(x: i32, y: i32) -> Coord {
    Coord { x, y }
}

#[test]
fn from_js_builds_square_board() {
    let board = Board::from_js(&[0, 1, -1, -1, 2, -1, -1, -1, 7]).unwrap();
    assert_eq!(board.width, 3);
    assert_eq!(board.height, 3);
    assert_eq!(board.at(coord(0, 0)), Some(0));
    assert_eq!(board.at(coord(1, 0)), Some(1));
    assert_eq!(board.at(coord(2, 0)), None);
    assert_eq!(board.at(coord(1, 1)), Some(2));
    assert_eq!(board.at(coord(2, 2)), Some(7));
    assert!(!board.is_empty());
}

#[test]
fn from_js_rejects_non_square_length() {
    assert!(Board::from_js(&[0, 1, -1]).is_none());
    assert!(Board::from_js(&[0, 1, -1, -1, 2, -1, -1, -1]).is_none());
}

#[test]
fn from_js_rejects_owner_out_of_range() {
    assert!(Board::from_js(&[8]).is_none());
    assert!(Board::from_js(&[0, 1, -1, 9]).is_none());
}

#[test]
fn from_js_accepts_empty_input() {
    let board = Board::from_js(&[]).unwrap();
    assert_eq!(board.width, 0);
    assert_eq!(board.height, 0);
}

#[test]
fn new_board_is_empty() {
    let board = Board::new(4, 3);
    assert_eq!(board.width, 4);
    assert_eq!(board.height, 3);
    assert!(board.is_empty());
    assert_eq!(board.at(coord(2, 1)), None);
}

#[test]
fn contains_and_index() {
    let board = Board::new(3, 2);
    assert!(board.contains(coord(0, 0)));
    assert!(board.contains(coord(2, 1)));
    assert!(!board.contains(coord(3, 0)));
    assert!(!board.contains(coord(0, 2)));
    assert!(!board.contains(coord(-1, 0)));
    assert_eq!(board.index(coord(0, 0)), Some(0));
    assert_eq!(board.index(coord(2, 1)), Some(5));
    assert_eq!(board.index(coord(3, 0)), None);
}

#[test]
fn at_out_of_range_is_none() {
    let board = Board::from_js(&[0, 0, 0, 0]).unwrap();
    assert_eq!(board.at(coord(-1, 0)), None);
    assert_eq!(board.at(coord(0, 2)), None);
}

#[test]
fn set_writes_a_stone() {
    let mut board = Board::new(2, 2);
    board.set(coord(1, 0), 3);
    assert_eq!(board.at(coord(1, 0)), Some(3));
    assert_eq!(board.at(coord(0, 0)), None);
}

#[test]
fn coords_row_major() {
    let board = Board::new(2, 3);
    let cs = board.coords();
    assert_eq!(cs.len(), 6);
    assert_eq!(cs[0], coord(0, 0));
    assert_eq!(cs[1], coord(1, 0));
    assert_eq!(cs[2], coord(0, 1));
    assert_eq!(cs[5], coord(1, 2));
}

#[test]
fn clone_copies_the_grid() {
    let board = Board::from_js(&[0, -1, -1, 1]).unwrap();
    let copy = board.clone();
    assert_eq!(copy.width, 2);
    assert_eq!(copy.at(coord(0, 0)), Some(0));
    assert_eq!(copy.at(coord(1, 1)), Some(1));
    assert_eq!(copy.at(coord(1, 0)), None);
}

#[test]
fn tally_counts_neighbors() {
    let board = Board::from_js(&[0, 1, -1, -1, 1, -1, -1, -1, -1]).unwrap();
    let (influences, empty_neighbors) = board.tally_neighbors(coord(1, 1));
    assert_eq!(influences[0], 1);
    assert_eq!(influences[1], 1);
    assert_eq!(influences[2], 0);
    assert_eq!(empty_neighbors, 6);
}

#[test]
fn tally_clips_at_the_edge() {
    let board = Board::new(2, 2);
    let (influences, empty_neighbors) = board.tally_neighbors(coord(0, 0));
    assert_eq!(influences[0], 0);
    assert_eq!(empty_neighbors, 3);
}

#[test]
fn influence_player_and_is_occupied() {
    assert_eq!(Influence::Occupied(2).player(), Some(2));
    assert_eq!(Influence::Ruled(1).player(), Some(1));
    assert_eq!(Influence::Claimed(0).player(), Some(0));
    assert_eq!(Influence::Tied.player(), None);
    assert!(Influence::Occupied(2).is_occupied());
    assert!(!Influence::Ruled(1).is_occupied());
    assert!(!Influence::Claimed(0).is_occupied());
    assert!(!Influence::Tied.is_occupied());
}

#[test]
fn empty_board_cells_are_tied() {
    // Scenario: empty 5x5 board, 2 players, player 0 to move.
    let board = Board::new(5, 5);
    for c in board.coords() {
        assert_eq!(board.influence(c), Influence::Tied);
        assert!(board.is_valid_move(c, 0, 2));
    }
}

#[test]
fn surrounded_cell_is_ruled_by_surrounder() {
    // Board fully occupied by player 0 except one empty cell entirely
    // surrounded by player-1 stones.
    let board = Board::from_js(&[
        0, 0, 0, 0, 0, //
        0, 1, 1, 1, 0, //
        0, 1, -1, 1, 0, //
        0, 1, 1, 1, 0, //
        0, 0, 0, 0, 0,
    ])
    .unwrap();
    assert_eq!(board.influence(coord(2, 2)), Influence::Ruled(1));
    assert!(!board.is_valid_move(coord(2, 2), 0, 2));
}

#[test]
fn lone_stone_claims_its_neighborhood() {
    let board = Board::from_js(&[0, -1, -1, -1, -1, -1, -1, -1, -1]).unwrap();
    assert_eq!(board.influence(coord(0, 0)), Influence::Occupied(0));
    assert_eq!(board.influence(coord(1, 1)), Influence::Claimed(0));
    // A cell out of reach of the stone stays tied.
    assert_eq!(board.influence(coord(2, 2)), Influence::Tied);
}

#[test]
fn symmetric_center_is_tied_and_volatile() {
    // 3x3 with the four edge-adjacent cells occupied 2-by-player-0 and
    // 2-by-player-1 symmetrically around the center.
    let board = Board::from_js(&[
        -1, 0, -1, //
        1, -1, 1, //
        -1, 0, -1,
    ])
    .unwrap();
    assert_eq!(board.influence(coord(1, 1)), Influence::Tied);
    let volatiles = board.volatile_cells(2);
    assert!(volatiles[4]);
}

#[test]
fn volatile_cells_is_idempotent() {
    let board = Board::from_js(&[
        -1, 0, -1, //
        1, -1, 1, //
        -1, 0, -1,
    ])
    .unwrap();
    let first = board.volatile_cells(2);
    let second = board.volatile_cells(2);
    assert_eq!(first, second);
    assert_eq!(first.len(), 9);
}

#[test]
fn occupied_cells_are_never_volatile() {
    let board = Board::from_js(&[
        -1, 0, -1, //
        1, -1, 1, //
        -1, 0, -1,
    ])
    .unwrap();
    let volatiles = board.volatile_cells(2);
    assert!(!volatiles[1]);
    assert!(!volatiles[3]);
    assert!(!volatiles[5]);
    assert!(!volatiles[7]);
}

#[test]
fn full_board_is_game_over() {
    let board = Board::from_js(&[0, 1, 1, 0]).unwrap();
    assert!(board.is_game_over(2));
}

#[test]
fn empty_board_is_not_over_for_two() {
    let board = Board::new(5, 5);
    assert!(!board.is_game_over(2));
}

#[test]
fn one_player_game_settles_immediately() {
    // With a single player nothing is contestable, so even an empty board
    // has fully settled.
    let board = Board::new(1, 1);
    assert!(board.is_game_over(1));
}

#[test]
fn points_count_occupied_and_settled_cells() {
    let board = Board::from_js(&[0, 0, 0, -1]).unwrap();
    let points = board.points();
    // Three stones plus the empty corner ruled by player 0.
    assert_eq!(points[0], 4);
    assert_eq!(points[1], 0);
}

#[test]
fn points_sum_matches_settled_cells() {
    let board = Board::from_js(&[
        0, -1, -1, //
        -1, -1, -1, //
        -1, -1, 1,
    ])
    .unwrap();
    let points = board.points();
    let total: usize = points.iter().sum();
    let settled = board
        .coords()
        .into_iter()
        .filter(|c| board.influence(*c).player().is_some())
        .count();
    assert_eq!(total, settled);
}

#[test]
fn try_make_move_places_on_a_copy() {
    let board = Board::new(2, 2);
    let after = board.try_make_move(coord(0, 1), 1, 2).unwrap();
    assert_eq!(after.at(coord(0, 1)), Some(1));
    assert_eq!(board.at(coord(0, 1)), None);
    assert!(after.try_make_move(coord(0, 1), 0, 2).is_none());
}

#[test]
fn try_make_move_rejects_dominated_cell() {
    let board = Board::from_js(&[
        0, 0, 0, 0, 0, //
        0, 1, 1, 1, 0, //
        0, 1, -1, 1, 0, //
        0, 1, 1, 1, 0, //
        0, 0, 0, 0, 0,
    ])
    .unwrap();
    assert!(board.try_make_move(coord(2, 2), 0, 2).is_none());
}

#[test]
fn ruling_survives_other_players_moves() {
    // Once the center is ruled by player 1, a legal move by player 0
    // elsewhere leaves the rule (and the center's unavailability) intact.
    let mut board = Board::from_js(&[
        -1, -1, -1, -1, -1, -1, -1, //
        -1, -1, -1, -1, -1, -1, -1, //
        -1, -1, 1, 1, 1, -1, -1, //
        -1, -1, 1, -1, 1, -1, -1, //
        -1, -1, 1, 1, 1, -1, -1, //
        -1, -1, -1, -1, -1, -1, -1, //
        -1, -1, -1, -1, -1, -1, -1,
    ])
    .unwrap();
    assert_eq!(board.influence(coord(3, 3)), Influence::Ruled(1));
    assert!(!board.is_valid_move(coord(3, 3), 0, 2));
    assert!(board.is_valid_move(coord(0, 0), 0, 2));
    board.set(coord(0, 0), 0);
    assert_eq!(board.influence(coord(3, 3)), Influence::Ruled(1));
    assert!(!board.is_valid_move(coord(3, 3), 0, 2));
}
