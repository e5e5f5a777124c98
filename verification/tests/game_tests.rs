use pente::game::GameState;
use pente::game::PlayError;
use pente::game::BLACK;
use pente::game::EMPTY;
use pente::game::WHITE;

fn play_all(game: &mut GameState, moves: &[(isize, isize)]) {
    for &coord in moves {
        game.make_play(coord).expect("move in test sequence was rejected");
    }
}

fn stones_on_board(game: &GameState) -> usize {
    game.board.iter().filter(|&&c| c != EMPTY).count()
}

#[test]
fn new_game_is_empty() {
    let game = GameState::new();
    assert_eq!(stones_on_board(&game), 0);
    assert_eq!(game.black_captures, 0);
    assert_eq!(game.white_captures, 0);
    assert_eq!(game.next_player, WHITE);
    assert_eq!(game.finished, 0);
    assert_eq!(game.top_left, (255, 255));
    assert_eq!(game.bottom_right, (0, 0));
}

#[test]
fn out_of_board_moves_rejected_without_state_change() {
    let mut game = GameState::new();
    for coord in [
        (19isize, 0isize),
        (0, 19),
        (-1, 5),
        (5, -2),
        (100, 100),
        (-1, -1),
        (19, 19),
    ] {
        assert_eq!(game.make_play(coord), Err(PlayError::InvalidMove));
        assert_eq!(stones_on_board(&game), 0);
        assert_eq!(game.next_player, WHITE);
        assert_eq!(game.finished, 0);
    }
}

#[test]
fn occupied_cell_rejected_without_state_change() {
    let mut game = GameState::new();
    assert_eq!(game.make_play((9, 9)), Ok(false));
    assert_eq!(game.next_player, BLACK);
    assert_eq!(game.make_play((9, 9)), Err(PlayError::InvalidMove));
    assert_eq!(game.next_player, BLACK);
    assert_eq!(stones_on_board(&game), 1);
}

#[test]
fn center_opening_scenario() {
    // Empty board, white to move; white plays the centre, black answers.
    let mut game = GameState::new();
    assert_eq!(game.next_player, WHITE);
    assert_eq!(game.make_play((9, 9)), Ok(false));
    assert_eq!(game.next_player, BLACK);
    assert_eq!(game.make_play((10, 9)), Ok(false));
    assert_eq!(game.next_player, WHITE);
    assert_eq!(game.black_captures, 0);
    assert_eq!(game.white_captures, 0);
    assert_eq!(game.finished, 0);
    assert_eq!(stones_on_board(&game), 2);
    assert_eq!(game.get_piece((9, 9)), Ok(WHITE));
    assert_eq!(game.get_piece((10, 9)), Ok(BLACK));
}

#[test]
fn next_player_alternates_only_on_successful_moves() {
    let mut game = GameState::new();
    assert_eq!(game.next_player, WHITE);
    game.make_play((3, 3)).unwrap();
    assert_eq!(game.next_player, BLACK);
    // A rejected move must not flip the turn.
    assert_eq!(game.make_play((3, 3)), Err(PlayError::InvalidMove));
    assert_eq!(game.next_player, BLACK);
    assert_eq!(game.make_play((-4, 0)), Err(PlayError::InvalidMove));
    assert_eq!(game.next_player, BLACK);
    game.make_play((4, 4)).unwrap();
    assert_eq!(game.next_player, WHITE);
}

#[test]
fn horizontal_line_of_five_wins() {
    let mut game = GameState::new();
    play_all(
        &mut game,
        &[(0, 0), (10, 10), (1, 0), (12, 12), (2, 0), (14, 14), (3, 0), (16, 16)],
    );
    assert_eq!(game.finished, 0);
    // White completes five in a row; the win resolves immediately.
    assert_eq!(game.make_play((4, 0)), Ok(true));
    assert_eq!(game.finished, WHITE);
}

#[test]
fn diagonal_line_of_five_wins() {
    let mut game = GameState::new();
    play_all(
        &mut game,
        &[(0, 0), (18, 0), (1, 1), (18, 2), (2, 2), (18, 4), (3, 3), (18, 6)],
    );
    assert_eq!(game.make_play((4, 4)), Ok(true));
    assert_eq!(game.finished, WHITE);
}

#[test]
fn vertical_line_of_five_wins_for_black() {
    let mut game = GameState::new();
    play_all(
        &mut game,
        &[
            (18, 0),
            (5, 5),
            (18, 2),
            (5, 6),
            (18, 4),
            (5, 7),
            (18, 6),
            (5, 8),
            (18, 8),
        ],
    );
    // Black completes five in a column.
    assert_eq!(game.make_play((5, 9)), Ok(true));
    assert_eq!(game.finished, BLACK);
}

#[test]
fn moves_after_game_over_rejected() {
    let mut game = GameState::new();
    play_all(
        &mut game,
        &[(0, 0), (10, 10), (1, 0), (12, 12), (2, 0), (14, 14), (3, 0), (16, 16), (4, 0)],
    );
    assert_eq!(game.finished, WHITE);
    let stones = stones_on_board(&game);
    assert_eq!(game.make_play((8, 8)), Err(PlayError::GameOver));
    assert_eq!(stones_on_board(&game), stones);
    assert_eq!(game.finished, WHITE);
}

#[test]
fn flank_capture_removes_pair_and_counts_once() {
    // White at (1,0) and (2,0); black already at (3,0); black plays (0,0).
    let mut game = GameState::new();
    play_all(&mut game, &[(1, 0), (3, 0), (2, 0)]);
    assert_eq!(game.next_player, BLACK);
    assert_eq!(game.make_play((0, 0)), Ok(false));
    assert_eq!(game.black_captures, 1);
    assert_eq!(game.white_captures, 0);
    assert_eq!(game.get_piece((1, 0)), Ok(0));
    assert_eq!(game.get_piece((2, 0)), Ok(0));
    assert_eq!(game.get_piece((0, 0)), Ok(BLACK));
    assert_eq!(game.get_piece((3, 0)), Ok(BLACK));
}

#[test]
fn three_flanked_stones_are_not_captured() {
    // Black at (0,0),(1,0),(2,0); white brackets with (3,0): the flank
    // pattern needs exactly two opposite stones, so nothing is removed.
    let mut game = GameState::new();
    play_all(
        &mut game,
        &[(10, 10), (0, 0), (11, 11), (1, 0), (12, 12), (2, 0)],
    );
    assert_eq!(game.next_player, WHITE);
    assert_eq!(game.make_play((3, 0)), Ok(false));
    assert_eq!(game.white_captures, 0);
    assert_eq!(game.black_captures, 0);
    assert_eq!(game.get_piece((0, 0)), Ok(BLACK));
    assert_eq!(game.get_piece((1, 0)), Ok(BLACK));
    assert_eq!(game.get_piece((2, 0)), Ok(BLACK));
    assert_eq!(game.get_piece((3, 0)), Ok(WHITE));
}

#[test]
fn simultaneous_captures_count_independently() {
    // Black plays (5,5) and captures eastward and southward at once.
    let mut game = GameState::new();
    play_all(
        &mut game,
        &[(6, 5), (8, 5), (7, 5), (5, 8), (5, 6), (15, 15), (5, 7)],
    );
    assert_eq!(game.next_player, BLACK);
    assert_eq!(game.make_play((5, 5)), Ok(false));
    assert_eq!(game.black_captures, 2);
    assert_eq!(game.get_piece((6, 5)), Ok(0));
    assert_eq!(game.get_piece((7, 5)), Ok(0));
    assert_eq!(game.get_piece((5, 6)), Ok(0));
    assert_eq!(game.get_piece((5, 7)), Ok(0));
    assert_eq!(game.get_piece((8, 5)), Ok(BLACK));
    assert_eq!(game.get_piece((5, 8)), Ok(BLACK));
    assert_eq!(game.get_piece((5, 5)), Ok(BLACK));
}

#[test]
fn five_captures_win_the_game() {
    let mut game = GameState::new();
    for round in 0..5isize {
        let r = 2 * round;
        assert_eq!(game.finished, 0);
        game.make_play((1, r)).unwrap();
        game.make_play((3, r)).unwrap();
        game.make_play((2, r)).unwrap();
        let ended = game.make_play((0, r)).unwrap();
        assert_eq!(game.black_captures as isize, round + 1);
        assert_eq!(ended, round == 4);
    }
    assert_eq!(game.black_captures, 5);
    assert_eq!(game.finished, BLACK);
    assert_eq!(game.make_play((9, 9)), Err(PlayError::GameOver));
}

#[test]
fn clone_and_replay_end_in_identical_states() {
    let mut original = GameState::new();
    play_all(&mut original, &[(9, 9), (10, 9), (8, 9)]);
    let mut copy = original.clone();
    let sequence = [
        (10isize, 10isize),
        (7, 9),
        (11, 11),
        (0, 0),
        (19, 3),  // rejected: off the board
        (0, 0),   // rejected: occupied
        (1, 0),
        (5, 5),
    ];
    for &coord in &sequence {
        let a = original.make_play(coord);
        let b = copy.make_play(coord);
        assert_eq!(a, b);
    }
    assert_eq!(original.board, copy.board);
    assert_eq!(original.black_captures, copy.black_captures);
    assert_eq!(original.white_captures, copy.white_captures);
    assert_eq!(original.finished, copy.finished);
    assert_eq!(original.next_player, copy.next_player);
    assert_eq!(original.top_left, copy.top_left);
    assert_eq!(original.bottom_right, copy.bottom_right);
}

#[test]
fn coordinate_index_mapping_round_trips() {
    assert_eq!(GameState::coord_to_index((0, 0)), Ok(0));
    assert_eq!(GameState::coord_to_index((18, 18)), Ok(360));
    assert_eq!(GameState::coord_to_index((3, 2)), Ok(41));
    assert_eq!(GameState::coord_to_index((19, 0)), Err(()));
    assert_eq!(GameState::coord_to_index((0, -1)), Err(()));
    assert_eq!(GameState::index_to_coord(0), Ok((0, 0)));
    assert_eq!(GameState::index_to_coord(41), Ok((3, 2)));
    assert_eq!(GameState::index_to_coord(360), Ok((18, 18)));
    assert_eq!(GameState::index_to_coord(361), Err(()));
    for i in 0..361usize {
        let coord = GameState::index_to_coord(i).unwrap();
        assert_eq!(GameState::coord_to_index(coord), Ok(i));
    }
}

#[test]
fn off_board_reads_yield_the_empty_sentinel() {
    let mut game = GameState::new();
    game.make_play((0, 0)).unwrap();
    assert_eq!(game.get_piece_safe((-1, 0)), 0);
    assert_eq!(game.get_piece_safe((0, -1)), 0);
    assert_eq!(game.get_piece_safe((19, 5)), 0);
    assert_eq!(game.get_piece_safe((5, 19)), 0);
    assert_eq!(game.get_piece_safe((0, 0)), WHITE);
    assert_eq!(game.get_piece((-1, 0)), Err(()));
}

#[test]
fn dirty_region_grows_with_margin_and_clamps() {
    let mut game = GameState::new();
    game.make_play((9, 9)).unwrap();
    assert_eq!(game.top_left, (8, 8));
    assert_eq!(game.bottom_right, (10, 10));
    game.make_play((0, 0)).unwrap();
    assert_eq!(game.top_left, (0, 0));
    assert_eq!(game.bottom_right, (10, 10));
    game.make_play((18, 18)).unwrap();
    assert_eq!(game.top_left, (0, 0));
    assert_eq!(game.bottom_right, (18, 18));
}
