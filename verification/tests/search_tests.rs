use pente::game::GameState;
use pente::game::BLACK;
use pente::game::WHITE;
use pente::search::alpha_beta;
use pente::search::is_relevant;
use pente::search::min_max_huristic_v2;
use pente::search::min_max_tree;
use pente::search::relevant_coords;

fn play_all(game: &mut GameState, moves: &[(isize, isize)]) {
    for &coord in moves {
        game.make_play(coord).expect("move in test sequence was rejected");
    }
}

#[test]
fn heuristic_of_empty_board_is_zero() {
    let game = GameState::new();
    assert_eq!(min_max_huristic_v2(&game, WHITE), 0);
    assert_eq!(min_max_huristic_v2(&game, BLACK), 0);
}

#[test]
fn heuristic_of_single_stone() {
    // One white stone: each of its eight neighbours is relevant and sees one
    // run of length one, so the score is 8 for white and -8 for black.
    let mut game = GameState::new();
    game.make_play((9, 9)).unwrap();
    assert_eq!(min_max_huristic_v2(&game, WHITE), 8);
    assert_eq!(min_max_huristic_v2(&game, BLACK), -8);
}

#[test]
fn heuristic_squares_run_lengths() {
    // Two adjacent white stones and one lone black stone.  The cells at the
    // two open ends of the white pair each see a run of two (worth 4); the
    // cells beside the pair see twelve white runs of one; the eight
    // neighbours of the black stone count one against white each:
    // 4 + 4 + 12 - 8 = 12.
    let mut game = GameState::new();
    play_all(&mut game, &[(9, 9), (15, 15), (10, 9)]);
    assert_eq!(min_max_huristic_v2(&game, WHITE), 12);
    assert_eq!(min_max_huristic_v2(&game, BLACK), -12);
}

#[test]
fn heuristic_is_antisymmetric_in_the_perspective() {
    let mut game = GameState::new();
    play_all(&mut game, &[(9, 9), (10, 9), (8, 8), (11, 9), (5, 5)]);
    assert_eq!(
        min_max_huristic_v2(&game, WHITE),
        -min_max_huristic_v2(&game, BLACK)
    );
}

#[test]
fn heuristic_of_decided_game_is_extreme() {
    let mut game = GameState::new();
    play_all(
        &mut game,
        &[(0, 0), (10, 10), (1, 0), (12, 12), (2, 0), (14, 14), (3, 0), (16, 16), (4, 0)],
    );
    assert_eq!(game.finished, WHITE);
    assert_eq!(min_max_huristic_v2(&game, WHITE), i128::MAX);
    assert_eq!(min_max_huristic_v2(&game, BLACK), i128::MIN);
}

#[test]
fn empty_board_has_no_relevant_cells() {
    let game = GameState::new();
    assert_eq!(relevant_coords(&game).len(), 0);
}

#[test]
fn relevant_cells_are_the_neighbours_of_a_lone_stone() {
    let mut game = GameState::new();
    game.make_play((9, 9)).unwrap();
    let coords = relevant_coords(&game);
    assert_eq!(
        coords,
        vec![(8, 8), (8, 9), (8, 10), (9, 8), (9, 10), (10, 8), (10, 9), (10, 10)]
    );
}

#[test]
fn relevance_needs_an_occupied_neighbour() {
    let mut game = GameState::new();
    game.make_play((9, 9)).unwrap();
    assert!(is_relevant(&game, (8, 8)));
    assert!(is_relevant(&game, (10, 9)));
    assert!(!is_relevant(&game, (0, 0)));
    assert!(!is_relevant(&game, (12, 9)));
}

#[test]
fn alpha_beta_scores_decided_games_with_extremes() {
    let mut game = GameState::new();
    play_all(
        &mut game,
        &[(0, 0), (10, 10), (1, 0), (12, 12), (2, 0), (14, 14), (3, 0), (16, 16), (4, 0)],
    );
    assert_eq!(game.finished, WHITE);
    assert_eq!(alpha_beta(&game, 3, i128::MIN, i128::MAX, WHITE), i128::MAX);
    assert_eq!(alpha_beta(&game, 3, i128::MIN, i128::MAX, BLACK), i128::MIN);
}

#[test]
fn alpha_beta_at_depth_zero_is_the_heuristic() {
    let mut game = GameState::new();
    play_all(&mut game, &[(9, 9), (10, 9), (8, 8)]);
    assert_eq!(
        alpha_beta(&game, 0, i128::MIN, i128::MAX, BLACK),
        min_max_huristic_v2(&game, BLACK)
    );
    assert_eq!(
        alpha_beta(&game, 0, i128::MIN, i128::MAX, WHITE),
        min_max_huristic_v2(&game, WHITE)
    );
}

#[test]
fn root_search_finds_the_winning_move() {
    // White has four in a row; the search at depth one must complete it.
    let mut game = GameState::new();
    play_all(
        &mut game,
        &[(0, 0), (10, 10), (1, 0), (12, 12), (2, 0), (14, 14), (3, 0), (16, 16)],
    );
    assert_eq!(game.next_player, WHITE);
    assert_eq!(min_max_tree(&game, 1, WHITE), (4, 0));
}

#[test]
fn root_search_at_depth_two_returns_a_legal_relevant_move() {
    let mut game = GameState::new();
    play_all(
        &mut game,
        &[(5, 5), (10, 10), (6, 5), (12, 12), (7, 5), (14, 14)],
    );
    assert_eq!(game.next_player, WHITE);
    let mv = min_max_tree(&game, 2, WHITE);
    // Whatever the deeper evaluation prefers, the chosen move is an empty
    // cell adjacent to a stone.
    assert_eq!(game.get_piece(mv), Ok(0));
    assert!(is_relevant(&game, mv));
}
