//! Proved statements about the rules engine and the evaluator, over the
//! mathematical model that the executable contracts use.

use vstd::prelude::*;
use crate::game::GameModel;
use crate::game::board_after_captures;
use crate::game::capture_count;
use crate::game::capture_count_upto;
use crate::game::capture_removes;
use crate::game::captures_in_dir;
use crate::game::cell_at;
use crate::game::dir_x;
use crate::game::dir_y;
use crate::game::idx_of;
use crate::game::in_bounds;
use crate::game::lemma_capture_count_upto_bounds;
use crate::game::lemma_idx_injective;
use crate::game::lemma_idx_range;
use crate::game::line_in_dir;
use crate::game::line_win;
use crate::game::opponent;
use crate::game::step;
use crate::search::heur_sum;
use crate::search::heuristic_value;
use crate::search::is_relevant_at;
use crate::search::relevant_col;
use crate::search::relevant_rows;
use crate::search::relevant_seq;

verus! {

/// The turn alternates strictly: every accepted move flips the player to
/// move to the opponent, and `GameState::make_play` ensures that a rejected
/// move changes nothing, so the alternation runs over successful moves only.
pub proof fn lemma_next_player_alternates(g: GameModel, x: int, y: int)
    requires
        g.wf(),
        g.can_play(x, y),
    ensures
        step(g, x, y).next_player == opponent(g.next_player),
        step(g, x, y).next_player != g.next_player,
{
}

/// Five same-colour stones in an unbroken line in any of the eight
/// directions end the game with that colour as winner, immediately upon the
/// completing placement: the placed stone anchors the line, the capture scan
/// removes only opponent stones and so cannot break it, and the win resolves
/// before the turn flips.
pub proof fn lemma_line_win_ends_game(g: GameModel, x: int, y: int)
    requires
        g.wf(),
        g.can_play(x, y),
        line_win(g.board.update(idx_of(x, y), g.next_player), x, y, g.next_player),
    ensures
        step(g, x, y).finished == g.next_player,
        step(g, x, y).finished != 0i8,
{
    let p = g.next_player;
    let placed = g.board.update(idx_of(x, y), p);
    let after = board_after_captures(placed, x, y, p);
    let k = choose|k: int| 0 <= k < 8 && #[trigger] line_in_dir(placed, x, y, k, p);
    assert forall|m: int| 1 <= m <= 4 implies #[trigger] cell_at(
        after,
        x + dir_x(k) * m,
        y + dir_y(k) * m,
    ) == p by {
        let cx = x + dir_x(k) * m;
        let cy = y + dir_y(k) * m;
        if m == 1 {
            assert(dir_x(k) * 1 == dir_x(k) && dir_y(k) * 1 == dir_y(k));
        }
        assert(cell_at(placed, cx, cy) == p);
        assert(in_bounds(cx, cy));
        let i = idx_of(cx, cy);
        lemma_idx_range(cx, cy);
        if capture_removes(placed, x, y, p, i) {
            let k2 = choose|k2: int|
                0 <= k2 < 8 && #[trigger] captures_in_dir(placed, x, y, k2, p) && (i == idx_of(
                    x + dir_x(k2),
                    y + dir_y(k2),
                ) || i == idx_of(x + 2 * dir_x(k2), y + 2 * dir_y(k2)));
            if i == idx_of(x + dir_x(k2), y + dir_y(k2)) {
                assert(cell_at(placed, x + dir_x(k2), y + dir_y(k2)) == opponent(p));
                assert(in_bounds(x + dir_x(k2), y + dir_y(k2)));
                lemma_idx_injective(cx, cy, x + dir_x(k2), y + dir_y(k2));
                assert(cell_at(placed, cx, cy) == opponent(p));
            } else {
                assert(cell_at(placed, x + 2 * dir_x(k2), y + 2 * dir_y(k2)) == opponent(p));
                assert(in_bounds(x + 2 * dir_x(k2), y + 2 * dir_y(k2)));
                lemma_idx_injective(cx, cy, x + 2 * dir_x(k2), y + 2 * dir_y(k2));
                assert(cell_at(placed, cx, cy) == opponent(p));
            }
            assert(false);
        }
        assert(after[i] == placed[i]);
    }
    assert(line_in_dir(after, x, y, k, p));
    assert(line_win(after, x, y, p));
}

/// A counted capturing direction contributes one to the capture count.
proof fn lemma_capture_count_includes(b: Seq<i8>, x: int, y: int, p: i8, k: int, m: int)
    requires
        0 <= k < m,
        captures_in_dir(b, x, y, k, p),
    ensures
        capture_count_upto(b, x, y, p, m) >= 1,
    decreases m,
{
    if k == m - 1 {
        lemma_capture_count_upto_bounds(b, x, y, p, m - 1);
    } else {
        lemma_capture_count_includes(b, x, y, p, k, m - 1);
    }
}

/// A flank `opponent, opponent, mover` along direction k from the placed
/// stone removes exactly those two opponent stones — every cell outside the
/// removed flanks keeps what the placement left there — and each capturing
/// direction raises the mover's counter by exactly one, so simultaneous
/// multi-direction captures count independently.
pub proof fn lemma_flank_captures(g: GameModel, x: int, y: int, k: int)
    requires
        g.wf(),
        g.can_play(x, y),
        0 <= k < 8,
        captures_in_dir(g.board.update(idx_of(x, y), g.next_player), x, y, k, g.next_player),
    ensures
        step(g, x, y).board[idx_of(x + dir_x(k), y + dir_y(k))] == 0i8,
        step(g, x, y).board[idx_of(x + 2 * dir_x(k), y + 2 * dir_y(k))] == 0i8,
        forall|i: int|
            0 <= i < 361 && !capture_removes(
                g.board.update(idx_of(x, y), g.next_player),
                x,
                y,
                g.next_player,
                i,
            ) ==> step(g, x, y).board[i] == g.board.update(idx_of(x, y), g.next_player)[i],
        capture_count(g.board.update(idx_of(x, y), g.next_player), x, y, g.next_player) >= 1,
        g.next_player == 1i8 ==> step(g, x, y).black_captures == g.black_captures + capture_count(
            g.board.update(idx_of(x, y), g.next_player),
            x,
            y,
            g.next_player,
        ),
        g.next_player == -1i8 ==> step(g, x, y).white_captures == g.white_captures + capture_count(
            g.board.update(idx_of(x, y), g.next_player),
            x,
            y,
            g.next_player,
        ),
    {
        let p = g.next_player;
        let placed = g.board.update(idx_of(x, y), p);
        lemma_capture_count_includes(placed, x, y, p, k, 8);
        assert(cell_at(placed, x + dir_x(k), y + dir_y(k)) == opponent(p));
        assert(opponent(p) != 0i8);
        assert(in_bounds(x + dir_x(k), y + dir_y(k)));
        assert(in_bounds(x + 2 * dir_x(k), y + 2 * dir_y(k)));
        lemma_idx_range(x + dir_x(k), y + dir_y(k));
        lemma_idx_range(x + 2 * dir_x(k), y + 2 * dir_y(k));
        assert(capture_removes(placed, x, y, p, idx_of(x + dir_x(k), y + dir_y(k))));
        assert(capture_removes(placed, x, y, p, idx_of(x + 2 * dir_x(k), y + 2 * dir_y(k))));
    }

/// Reaching five captures for black ends the game in black's favour: only
/// the mover's counter can grow, and a running game holds both counters
/// under five, so the counter that crosses the threshold is the mover's.
pub proof fn lemma_capture_win_black(g: GameModel, x: int, y: int)
    requires
        g.wf(),
        g.can_play(x, y),
        step(g, x, y).black_captures >= 5,
    ensures
        step(g, x, y).finished == 1i8,
{
}

/// Reaching five captures for white ends the game in white's favour.
pub proof fn lemma_capture_win_white(g: GameModel, x: int, y: int)
    requires
        g.wf(),
        g.can_play(x, y),
        step(g, x, y).white_captures >= 5,
    ensures
        step(g, x, y).finished == -1i8,
{
}

/// On a board with no stones, no column holds a relevant cell.
proof fn lemma_relevant_col_empty(b: Seq<i8>, x: int, y: int, yhi: int)
    requires
        b.len() == 361,
        forall|i: int| 0 <= i < 361 ==> #[trigger] b[i] == 0i8,
    ensures
        relevant_col(b, x, y, yhi).len() == 0,
    decreases yhi - y + 1,
{
    if !(y > yhi || yhi - y + 1 < 0) {
        lemma_relevant_col_empty(b, x, y + 1, yhi);
        assert(!is_relevant_at(b, x, y)) by {
            assert forall|k: int| 0 <= k < 8 implies #[trigger] cell_at(
                b,
                x + dir_x(k),
                y + dir_y(k),
            ) == 0i8 by {
                if in_bounds(x + dir_x(k), y + dir_y(k)) {
                    lemma_idx_range(x + dir_x(k), y + dir_y(k));
                }
            }
        }
    }
}

/// On a board with no stones, no cell is relevant.
proof fn lemma_relevant_rows_empty(b: Seq<i8>, x: int, xhi: int, ylo: int, yhi: int)
    requires
        b.len() == 361,
        forall|i: int| 0 <= i < 361 ==> #[trigger] b[i] == 0i8,
    ensures
        relevant_rows(b, x, xhi, ylo, yhi).len() == 0,
    decreases xhi - x + 1,
{
    if !(x > xhi || xhi - x + 1 < 0) {
        lemma_relevant_col_empty(b, x, ylo, yhi);
        lemma_relevant_rows_empty(b, x + 1, xhi, ylo, yhi);
    }
}

/// Heuristic evaluation of a running position with zero stones on the board
/// is zero: an empty board has no relevant cell, whatever the dirty region.
pub proof fn lemma_empty_board_heuristic_zero(g: GameModel, colour: i8)
    requires
        g.wf(),
        g.finished == 0i8,
        colour == 1i8 || colour == -1i8,
        forall|i: int| 0 <= i < 361 ==> #[trigger] g.board[i] == 0i8,
    ensures
        heuristic_value(g, colour) == 0,
{
    lemma_relevant_rows_empty(
        g.board,
        g.top_left.0,
        g.bottom_right.0,
        g.top_left.1,
        g.bottom_right.1,
    );
    assert(heur_sum(g.board, relevant_seq(g), 0, colour) == 0);
}

/// A move sequence applied to a state, each move taken as `make_play` takes
/// it: an accepted move advances the state, a rejected one leaves it as it
/// stood.
pub open spec fn apply_moves(g: GameModel, moves: Seq<(int, int)>) -> GameModel
    decreases moves.len(),
{
    if moves.len() == 0 {
        g
    } else {
        let g2 = if g.can_play(moves[0].0, moves[0].1) {
            step(g, moves[0].0, moves[0].1)
        } else {
            g
        };
        apply_moves(g2, moves.drop_first())
    }
}

/// Replaying a move sequence is a function of the starting state alone: a
/// deep copy and its original, fed the same sequence, end with the same
/// board, capture counts and finished status.
pub proof fn lemma_replay_deterministic(g1: GameModel, g2: GameModel, moves: Seq<(int, int)>)
    requires
        g1 == g2,
    ensures
        apply_moves(g1, moves) == apply_moves(g2, moves),
{
}

} // verus!
