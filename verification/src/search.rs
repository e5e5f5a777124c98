//! The search engine: relevance filter, heuristic evaluator, alpha-beta
//! search and the root driver that picks the computer's move.
//!
//! The search frontier is restricted to empty cells adjacent to an existing
//! stone, bounded by the dirty-region box of the game state.

use vstd::prelude::*;
use crate::game::GameState;
use crate::game::GameModel;
use crate::game::cell_at;
use crate::game::dir_x;
use crate::game::dir_y;
use crate::game::direction;
use crate::game::in_bounds;
use crate::game::idx_of;
use crate::game::step;
use crate::game::lemma_idx_range;

verus! {

/// A cell is relevant when at least one of its eight neighbours holds a
/// stone.
pub open spec fn is_relevant_at(b: Seq<i8>, x: int, y: int) -> bool {
    exists|k: int| 0 <= k < 8 && #[trigger] cell_at(b, x + dir_x(k), y + dir_y(k)) != 0i8
}

/// The empty, relevant cells of column x with rows y..=yhi, in row order.
pub open spec fn relevant_col(b: Seq<i8>, x: int, y: int, yhi: int) -> Seq<(isize, isize)>
    decreases yhi - y + 1,
{
    if y > yhi || yhi - y + 1 < 0 {
        Seq::empty()
    } else {
        (if cell_at(b, x, y) == 0i8 && is_relevant_at(b, x, y) {
            seq![(x as isize, y as isize)]
        } else {
            Seq::empty()
        }) + relevant_col(b, x, y + 1, yhi)
    }
}

/// The empty, relevant cells of columns x..=xhi with rows ylo..=yhi, in scan
/// order (column-major, as the filter iterates).
pub open spec fn relevant_rows(b: Seq<i8>, x: int, xhi: int, ylo: int, yhi: int) -> Seq<
    (isize, isize),
>
    decreases xhi - x + 1,
{
    if x > xhi || xhi - x + 1 < 0 {
        Seq::empty()
    } else {
        relevant_col(b, x, ylo, yhi) + relevant_rows(b, x + 1, xhi, ylo, yhi)
    }
}

/// The search frontier of a state: the empty, relevant cells inside the
/// dirty-region box, in scan order.
pub open spec fn relevant_seq(g: GameModel) -> Seq<(isize, isize)> {
    relevant_rows(g.board, g.top_left.0, g.bottom_right.0, g.top_left.1, g.bottom_right.1)
}

/// A column contributes at most one cell per row.
pub proof fn lemma_relevant_col_len(b: Seq<i8>, x: int, y: int, yhi: int)
    ensures
        relevant_col(b, x, y, yhi).len() <= max_len_col(y, yhi),
    decreases yhi - y + 1,
{
    if !(y > yhi || yhi - y + 1 < 0) {
        lemma_relevant_col_len(b, x, y + 1, yhi);
    }
}

/// Row count of a column scan, never negative.
pub open spec fn max_len_col(y: int, yhi: int) -> int {
    if yhi - y + 1 >= 0 {
        yhi - y + 1
    } else {
        0
    }
}

/// The frontier of a well-formed state holds at most one cell per board
/// cell.
pub proof fn lemma_relevant_rows_len(b: Seq<i8>, x: int, xhi: int, ylo: int, yhi: int)
    requires
        yhi - ylo + 1 <= 19,
    ensures
        relevant_rows(b, x, xhi, ylo, yhi).len() <= max_len_rows(x, xhi) * 19,
    decreases xhi - x + 1,
{
    if !(x > xhi || xhi - x + 1 < 0) {
        lemma_relevant_col_len(b, x, ylo, yhi);
        lemma_relevant_rows_len(b, x + 1, xhi, ylo, yhi);
    }
}

/// Column count of a row scan, never negative.
pub open spec fn max_len_rows(x: int, xhi: int) -> int {
    if xhi - x + 1 >= 0 {
        xhi - x + 1
    } else {
        0
    }
}

/// The frontier of a well-formed state fits on the board.
pub proof fn lemma_relevant_seq_len(g: GameModel)
    requires
        g.wf(),
    ensures
        relevant_seq(g).len() <= 361,
{
    lemma_relevant_rows_len(g.board, g.top_left.0, g.bottom_right.0, g.top_left.1, g.bottom_right.1);
}

/// Every cell of the frontier is an on-board, empty, relevant cell.
pub proof fn lemma_relevant_col_elems(b: Seq<i8>, x: int, y: int, yhi: int)
    requires
        0 <= x <= 18,
        0 <= y,
        yhi <= 18,
    ensures
        forall|n: int|
            0 <= n < relevant_col(b, x, y, yhi).len() ==> {
                let c = #[trigger] relevant_col(b, x, y, yhi)[n];
                &&& in_bounds(c.0 as int, c.1 as int)
                &&& cell_at(b, c.0 as int, c.1 as int) == 0i8
                &&& is_relevant_at(b, c.0 as int, c.1 as int)
            },
    decreases yhi - y + 1,
{
    if !(y > yhi || yhi - y + 1 < 0) {
        lemma_relevant_col_elems(b, x, y + 1, yhi);
        let s = relevant_col(b, x, y, yhi);
        let head: Seq<(isize, isize)> = if cell_at(b, x, y) == 0i8 && is_relevant_at(b, x, y) {
            seq![(x as isize, y as isize)]
        } else {
            Seq::empty()
        };
        let tail = relevant_col(b, x, y + 1, yhi);
        assert forall|n: int| 0 <= n < s.len() implies {
            let c = #[trigger] s[n];
            &&& in_bounds(c.0 as int, c.1 as int)
            &&& cell_at(b, c.0 as int, c.1 as int) == 0i8
            &&& is_relevant_at(b, c.0 as int, c.1 as int)
        } by {
            if n < head.len() {
                assert(s[n] == head[0]);
                assert(head[0] == (x as isize, y as isize));
            } else {
                assert(s[n] == tail[n - head.len()]);
            }
        }
    }
}

/// Every cell of the frontier is an on-board, empty, relevant cell.
pub proof fn lemma_relevant_rows_elems(b: Seq<i8>, x: int, xhi: int, ylo: int, yhi: int)
    requires
        0 <= x,
        xhi <= 18,
        0 <= ylo,
        yhi <= 18,
    ensures
        forall|n: int|
            0 <= n < relevant_rows(b, x, xhi, ylo, yhi).len() ==> {
                let c = #[trigger] relevant_rows(b, x, xhi, ylo, yhi)[n];
                &&& in_bounds(c.0 as int, c.1 as int)
                &&& cell_at(b, c.0 as int, c.1 as int) == 0i8
                &&& is_relevant_at(b, c.0 as int, c.1 as int)
            },
    decreases xhi - x + 1,
{
    if !(x > xhi || xhi - x + 1 < 0) {
        lemma_relevant_col_elems(b, x, ylo, yhi);
        lemma_relevant_rows_elems(b, x + 1, xhi, ylo, yhi);
        let s = relevant_rows(b, x, xhi, ylo, yhi);
        let head = relevant_col(b, x, ylo, yhi);
        let tail = relevant_rows(b, x + 1, xhi, ylo, yhi);
        assert forall|n: int| 0 <= n < s.len() implies {
            let c = #[trigger] s[n];
            &&& in_bounds(c.0 as int, c.1 as int)
            &&& cell_at(b, c.0 as int, c.1 as int) == 0i8
            &&& is_relevant_at(b, c.0 as int, c.1 as int)
        } by {
            if n < head.len() {
                assert(s[n] == head[n]);
            } else {
                assert(s[n] == tail[n - head.len()]);
            }
        }
    }
}

/// Whether some neighbour of `coord` holds a stone.
pub fn is_relevant(game: &GameState, coord: (isize, isize)) -> (r: bool)
    requires
        game@.board.len() == 361,
        in_bounds(coord.0 as int, coord.1 as int),
    ensures
        r == is_relevant_at(game@.board, coord.0 as int, coord.1 as int),
{
    let (x, y) = coord;
    let mut relevant = false;
    let mut k: usize = 0;
    while k < 8
        invariant
            game@.board.len() == 361,
            in_bounds(x as int, y as int),
            x == coord.0,
            y == coord.1,
            k <= 8,
            relevant == exists|j: int|
                0 <= j < k && #[trigger] cell_at(game@.board, x as int + dir_x(j), y as int + dir_y(
                    j,
                )) != 0i8,
        decreases 8 - k,
    {
        let (dx, dy) = direction(k);
        let c = game.get_piece_safe((x + dx, y + dy));
        proof {
            if c != 0i8 {
                assert(cell_at(game@.board, x as int + dir_x(k as int), y as int + dir_y(k as int))
                    != 0i8);
            }
        }
        relevant = relevant || c != 0;
        k += 1;
    }
    relevant
}

/// The search frontier of a state as a vector, in scan order.
pub fn relevant_coords(game: &GameState) -> (out: Vec<(isize, isize)>)
    requires
        game@.wf(),
    ensures
        out@ == relevant_seq(game@),
{
    let mut out: Vec<(isize, isize)> = Vec::new();
    let ghost b = game@.board;
    let ghost tlx = game@.top_left.0;
    let ghost tly = game@.top_left.1;
    let ghost brx = game@.bottom_right.0;
    let ghost bry = game@.bottom_right.1;
    let mut x: isize = game.top_left.0;
    while x <= game.bottom_right.0
        invariant
            game@.wf(),
            b == game@.board,
            tlx == game@.top_left.0,
            tly == game@.top_left.1,
            brx == game@.bottom_right.0,
            bry == game@.bottom_right.1,
            0 <= x as int,
            x as int <= 256,
            relevant_seq(game@) == out@ + relevant_rows(b, x as int, brx, tly, bry),
        decreases brx + 1 - x as int,
    {
        let mut y: isize = game.top_left.1;
        while y <= game.bottom_right.1
            invariant
                game@.wf(),
                b == game@.board,
                tly == game@.top_left.1,
                bry == game@.bottom_right.1,
                0 <= x as int <= 18,
                0 <= y as int,
                y as int <= 256,
                relevant_seq(game@) == out@ + relevant_col(b, x as int, y as int, bry)
                    + relevant_rows(b, x as int + 1, brx, tly, bry),
            decreases bry + 1 - y as int,
        {
            let here_empty = game.get_piece_safe((x, y)) == 0;
            if here_empty && is_relevant(game, (x, y)) {
                out.push((x, y));
            }
            proof {
                assert(relevant_col(b, x as int, y as int, bry) == (
                if cell_at(b, x as int, y as int) == 0i8 && is_relevant_at(b, x as int, y as int) {
                    seq![(x, y)]
                } else {
                    Seq::<(isize, isize)>::empty()
                }) + relevant_col(b, x as int, y as int + 1, bry));
                assert(relevant_seq(game@) == out@ + relevant_col(b, x as int, y as int + 1, bry)
                    + relevant_rows(b, x as int + 1, brx, tly, bry));
            }
            y += 1;
        }
        proof {
            assert(relevant_col(b, x as int, y as int, bry) == Seq::<(isize, isize)>::empty());
            assert(out@ + relevant_col(b, x as int, y as int, bry) == out@);
            assert(relevant_seq(game@) == out@ + relevant_rows(b, x as int + 1, brx, tly, bry));
        }
        x += 1;
    }
    proof {
        assert(relevant_rows(b, x as int, brx, tly, bry) == Seq::<(isize, isize)>::empty());
        assert(out@ =~= relevant_seq(game@));
    }
    out
}

/// A directional walk of at least 19 steps has left the board.
proof fn lemma_walk_leaves_board(x: int, y: int, k: int, d: int)
    requires
        in_bounds(x, y),
        0 <= k < 8,
        d >= 19,
    ensures
        !in_bounds(x + dir_x(k) * d, y + dir_y(k) * d),
{
    let dx = dir_x(k);
    let dy = dir_y(k);
    assert(dx != 0 || dy != 0);
    if dx == 1 {
        assert(dx * d == d) by (nonlinear_arith)
            requires
                dx == 1,
        ;
    } else if dx == -1 {
        assert(dx * d == -d) by (nonlinear_arith)
            requires
                dx == -1,
        ;
    } else if dy == 1 {
        assert(dy * d == d) by (nonlinear_arith)
            requires
                dy == 1,
        ;
    } else {
        assert(dy == -1);
        assert(dy * d == -d) by (nonlinear_arith)
            requires
                dy == -1,
        ;
    }
}

/// Length of the run of colour c that starts at distance d from (x, y) in
/// direction k.  Runs cannot reach length 19, so the walk is cut off there.
pub open spec fn run_len_from(b: Seq<i8>, x: int, y: int, k: int, c: i8, d: int) -> int
    decreases 20 - d,
{
    if d < 1 || d >= 20 {
        0
    } else if cell_at(b, x + dir_x(k) * d, y + dir_y(k) * d) == c {
        1 + run_len_from(b, x, y, k, c, d + 1)
    } else {
        0
    }
}

/// A run is never longer than the walk that remains.
pub proof fn lemma_run_len_bounds(b: Seq<i8>, x: int, y: int, k: int, c: i8, d: int)
    requires
        1 <= d <= 20,
    ensures
        0 <= run_len_from(b, x, y, k, c, d) <= 20 - d,
    decreases 20 - d,
{
    if d < 20 {
        lemma_run_len_bounds(b, x, y, k, c, d + 1);
    }
}

/// Contribution of direction k to the score of the empty cell (x, y): the
/// squared length of the adjacent run, positive when the run's colour is the
/// perspective colour, negative otherwise.
pub open spec fn dir_score(b: Seq<i8>, x: int, y: int, k: int, colour: i8) -> int {
    let c0 = cell_at(b, x + dir_x(k), y + dir_y(k));
    if c0 == 0i8 {
        0
    } else {
        let n = run_len_from(b, x, y, k, c0, 1);
        if c0 == colour {
            n * n
        } else {
            -(n * n)
        }
    }
}

/// Sum of the direction scores of (x, y) for directions k..8.
pub open spec fn cell_score_from(b: Seq<i8>, x: int, y: int, colour: i8, k: int) -> int
    decreases 8 - k,
{
    if k < 0 || k >= 8 {
        0
    } else {
        dir_score(b, x, y, k, colour) + cell_score_from(b, x, y, colour, k + 1)
    }
}

/// Score of one relevant empty cell: sum over all eight directions.
pub open spec fn cell_score(b: Seq<i8>, x: int, y: int, colour: i8) -> int {
    cell_score_from(b, x, y, colour, 0)
}

/// Sum of the cell scores of the frontier cells from position i on.
pub open spec fn heur_sum(b: Seq<i8>, coords: Seq<(isize, isize)>, i: int, colour: i8) -> int
    decreases coords.len() - i,
{
    if i < 0 || i >= coords.len() {
        0
    } else {
        cell_score(b, coords[i].0 as int, coords[i].1 as int, colour) + heur_sum(
            b,
            coords,
            i + 1,
            colour,
        )
    }
}

/// A direction score is at most 19 squared in magnitude.
pub proof fn lemma_dir_score_bound(b: Seq<i8>, x: int, y: int, k: int, colour: i8)
    ensures
        -361 <= dir_score(b, x, y, k, colour) <= 361,
{
    let c0 = cell_at(b, x + dir_x(k), y + dir_y(k));
    if c0 != 0i8 {
        let n = run_len_from(b, x, y, k, c0, 1);
        lemma_run_len_bounds(b, x, y, k, c0, 1);
        assert(n * n <= 361) by (nonlinear_arith)
            requires
                0 <= n <= 19,
        ;
    }
}

/// A cell score is bounded by the direction scores that remain.
pub proof fn lemma_cell_score_bound(b: Seq<i8>, x: int, y: int, colour: i8, k: int)
    requires
        0 <= k <= 8,
    ensures
        -(8 - k) * 361 <= cell_score_from(b, x, y, colour, k) <= (8 - k) * 361,
    decreases 8 - k,
{
    if k < 8 {
        lemma_dir_score_bound(b, x, y, k, colour);
        lemma_cell_score_bound(b, x, y, colour, k + 1);
    }
}

/// The heuristic sum is bounded by the cells that remain.
pub proof fn lemma_heur_sum_bound(b: Seq<i8>, coords: Seq<(isize, isize)>, i: int, colour: i8)
    requires
        0 <= i <= coords.len(),
    ensures
        -(coords.len() - i) * 2888 <= heur_sum(b, coords, i, colour) <= (coords.len() - i) * 2888,
    decreases coords.len() - i,
{
    if i < coords.len() {
        lemma_cell_score_bound(b, coords[i].0 as int, coords[i].1 as int, colour, 0);
        lemma_heur_sum_bound(b, coords, i + 1, colour);
    }
}

/// Heuristic evaluation of a state from the perspective of `colour`: the
/// extreme values for decided games, else the sum of the frontier cell
/// scores.
pub open spec fn heuristic_value(g: GameModel, colour: i8) -> int {
    if g.finished == colour {
        i128::MAX as int
    } else if g.finished != 0i8 {
        i128::MIN as int
    } else {
        heur_sum(g.board, relevant_seq(g), 0, colour)
    }
}

/// Length of the run of colour c adjacent to (x, y) in direction k.
fn scan_run(game: &GameState, x: isize, y: isize, k: usize, c: i8) -> (n: usize)
    requires
        game@.wf(),
        in_bounds(x as int, y as int),
        k < 8,
        c == 1i8 || c == -1i8,
        cell_at(game@.board, x as int + dir_x(k as int), y as int + dir_y(k as int)) == c,
    ensures
        n as int == run_len_from(game@.board, x as int, y as int, k as int, c, 1),
        n <= 19,
{
    let (dx, dy) = direction(k);
    let ghost b = game@.board;
    let mut n: usize = 0;
    let mut next = game.get_piece_safe((x + dx, y + dy));
    while next == c
        invariant
            game@.wf(),
            b == game@.board,
            in_bounds(x as int, y as int),
            k < 8,
            c == 1i8 || c == -1i8,
            dx as int == dir_x(k as int),
            dy as int == dir_y(k as int),
            n <= 18,
            next == cell_at(b, x as int + dir_x(k as int) * (n + 1), y as int + dir_y(k as int) * (
            n + 1)),
            run_len_from(b, x as int, y as int, k as int, c, 1) == n + run_len_from(
                b,
                x as int,
                y as int,
                k as int,
                c,
                n + 1,
            ),
        decreases 19 - n,
    {
        proof {
            if n as int + 1 >= 19 {
                lemma_walk_leaves_board(x as int, y as int, k as int, n as int + 1);
                assert(cell_at(b, x as int + dir_x(k as int) * (n + 1), y as int + dir_y(
                    k as int,
                ) * (n + 1)) == 0i8);
                assert(false);
            }
        }
        n += 1;
        next = game.get_piece_safe((x + dx * (n as isize + 1), y + dy * (n as isize + 1)));
    }
    proof {
        assert(run_len_from(b, x as int, y as int, k as int, c, n as int + 1) == 0);
    }
    n
}

/// Score of one relevant empty cell for the perspective colour.
fn score_cell(game: &GameState, x: isize, y: isize, colour: i8) -> (cs: i128)
    requires
        game@.wf(),
        in_bounds(x as int, y as int),
        colour == 1i8 || colour == -1i8,
    ensures
        cs as int == cell_score(game@.board, x as int, y as int, colour),
        -2888 <= cs as int <= 2888,
{
    let ghost b = game@.board;
    let mut cs: i128 = 0;
    let mut k: usize = 0;
    while k < 8
        invariant
            game@.wf(),
            b == game@.board,
            in_bounds(x as int, y as int),
            colour == 1i8 || colour == -1i8,
            k <= 8,
            cs as int == cell_score_from(b, x as int, y as int, colour, 0) - cell_score_from(
                b,
                x as int,
                y as int,
                colour,
                k as int,
            ),
            -(k as int) * 361 <= cs as int <= (k as int) * 361,
        decreases 8 - k,
    {
        let (dx, dy) = direction(k);
        let c0 = game.get_piece_safe((x + dx, y + dy));
        let ghost cs0 = cs as int;
        if c0 != 0 {
            proof {
                assert(c0 == 1i8 || c0 == -1i8);
            }
            let n = scan_run(game, x, y, k, c0);
            proof {
                assert((n as i128 as int) * (n as i128 as int) <= 361) by (nonlinear_arith)
                    requires
                        0 <= n as i128 as int <= 19,
                ;
            }
            let t = (n as i128) * (n as i128);
            if c0 == colour {
                cs = cs + t;
            } else {
                cs = cs - t;
            }
        }
        proof {
            assert(cell_score_from(b, x as int, y as int, colour, k as int) == dir_score(
                b,
                x as int,
                y as int,
                k as int,
                colour,
            ) + cell_score_from(b, x as int, y as int, colour, k as int + 1));
            assert(cs as int == cs0 + dir_score(b, x as int, y as int, k as int, colour));
            lemma_dir_score_bound(b, x as int, y as int, k as int, colour);
        }
        k += 1;
    }
    proof {
        lemma_cell_score_bound(b, x as int, y as int, colour, 0);
    }
    cs
}

/// Heuristic evaluation of a position from the perspective of `colour`:
/// decided games score the extreme values; otherwise, for every relevant
/// empty cell and direction, the squared length of the adjacent same-colour
/// run counts for or against the perspective colour.
pub fn min_max_huristic_v2(game: &GameState, colour: i8) -> (r: i128)
    requires
        game@.wf(),
        colour == 1i8 || colour == -1i8,
    ensures
        r as int == heuristic_value(game@, colour),
{
    if game.finished != 0 {
        if game.finished == colour {
            return i128::MAX;
        } else {
            return i128::MIN;
        }
    }
    let coords = relevant_coords(game);
    let ghost b = game@.board;
    proof {
        lemma_relevant_seq_len(game@);
        lemma_relevant_rows_elems(
            b,
            game@.top_left.0,
            game@.bottom_right.0,
            game@.top_left.1,
            game@.bottom_right.1,
        );
    }
    let mut score: i128 = 0;
    let mut i: usize = 0;
    while i < coords.len()
        invariant
            game@.wf(),
            colour == 1i8 || colour == -1i8,
            b == game@.board,
            coords@ == relevant_seq(game@),
            coords@.len() <= 361,
            i <= coords@.len(),
            forall|n: int|
                0 <= n < coords@.len() ==> in_bounds(
                    #[trigger] coords@[n].0 as int,
                    coords@[n].1 as int,
                ),
            score as int == heur_sum(b, coords@, 0, colour) - heur_sum(b, coords@, i as int, colour),
        decreases coords@.len() - i,
    {
        let (cx, cy) = coords[i];
        let cs = score_cell(game, cx, cy, colour);
        proof {
            assert(heur_sum(b, coords@, i as int, colour) == cell_score(
                b,
                coords@[i as int].0 as int,
                coords@[i as int].1 as int,
                colour,
            ) + heur_sum(b, coords@, i as int + 1, colour));
            lemma_heur_sum_bound(b, coords@, 0, colour);
            lemma_heur_sum_bound(b, coords@, i as int, colour);
            lemma_heur_sum_bound(b, coords@, i as int + 1, colour);
        }
        score = score + cs;
        i += 1;
    }
    score
}

/// Minimax value with alpha-beta pruning of a state from the perspective of
/// `colour`: decided games score the extreme values, exhausted depth falls
/// back to the heuristic, and otherwise the frontier moves are searched with
/// the mover maximising when it is the perspective colour and minimising
/// otherwise.
pub open spec fn ab_value(g: GameModel, depth: int, alpha: int, beta: int, colour: i8) -> int
    decreases depth, 1int, 0int,
{
    if g.finished == colour {
        i128::MAX as int
    } else if g.finished != 0i8 {
        i128::MIN as int
    } else if depth <= 0 {
        heur_sum(g.board, relevant_seq(g), 0, colour)
    } else if g.next_player == colour {
        ab_max_from(g, relevant_seq(g), 0, depth, alpha, beta, i128::MIN as int, colour)
    } else {
        ab_min_from(g, relevant_seq(g), 0, depth, alpha, beta, i128::MAX as int, colour)
    }
}

/// The maximising scan over frontier moves from position i on, with running
/// best `value`: moves that do not apply are skipped, the alpha bound grows
/// with the best value, and the scan stops at a beta cutoff.
pub open spec fn ab_max_from(
    g: GameModel,
    coords: Seq<(isize, isize)>,
    i: int,
    depth: int,
    alpha: int,
    beta: int,
    value: int,
    colour: i8,
) -> int
    decreases depth, 0int, coords.len() - i,
{
    if depth < 1 || i < 0 || i >= coords.len() {
        value
    } else {
        let x = coords[i].0 as int;
        let y = coords[i].1 as int;
        if !g.can_play(x, y) {
            ab_max_from(g, coords, i + 1, depth, alpha, beta, value, colour)
        } else {
            let v = ab_value(step(g, x, y), depth - 1, alpha, beta, colour);
            let value2 = if v > value {
                v
            } else {
                value
            };
            if value2 >= beta {
                value2
            } else {
                let alpha2 = if value2 > alpha {
                    value2
                } else {
                    alpha
                };
                ab_max_from(g, coords, i + 1, depth, alpha2, beta, value2, colour)
            }
        }
    }
}

/// The minimising scan over frontier moves from position i on, with running
/// best `value`: the beta bound shrinks with the best value, and the scan
/// stops at an alpha cutoff.
pub open spec fn ab_min_from(
    g: GameModel,
    coords: Seq<(isize, isize)>,
    i: int,
    depth: int,
    alpha: int,
    beta: int,
    value: int,
    colour: i8,
) -> int
    decreases depth, 0int, coords.len() - i,
{
    if depth < 1 || i < 0 || i >= coords.len() {
        value
    } else {
        let x = coords[i].0 as int;
        let y = coords[i].1 as int;
        if !g.can_play(x, y) {
            ab_min_from(g, coords, i + 1, depth, alpha, beta, value, colour)
        } else {
            let v = ab_value(step(g, x, y), depth - 1, alpha, beta, colour);
            let value2 = if v < value {
                v
            } else {
                value
            };
            if value2 <= alpha {
                value2
            } else {
                let beta2 = if value2 < beta {
                    value2
                } else {
                    beta
                };
                ab_min_from(g, coords, i + 1, depth, alpha, beta2, value2, colour)
            }
        }
    }
}

/// Depth-limited minimax search with alpha-beta pruning from the fixed
/// perspective of `colour` (not the side to move).  Single-threaded below
/// the root.
pub fn alpha_beta(game: &GameState, depth: isize, alpha: i128, beta: i128, colour: i8) -> (r: i128)
    requires
        game@.wf(),
        colour == 1i8 || colour == -1i8,
    ensures
        r as int == ab_value(game@, depth as int, alpha as int, beta as int, colour),
    decreases depth,
{
    if game.finished != 0 {
        if game.finished == colour {
            return i128::MAX;
        } else {
            return i128::MIN;
        }
    }
    if depth <= 0 {
        return min_max_huristic_v2(game, colour);
    }
    let coords = relevant_coords(game);
    if game.next_player == colour {
        let mut value = i128::MIN;
        let mut a = alpha;
        let mut i: usize = 0;
        while i < coords.len()
            invariant_except_break
                game@.wf(),
                game@.finished == 0i8,
                game@.next_player == colour,
                colour == 1i8 || colour == -1i8,
                1 <= depth as int,
                coords@ == relevant_seq(game@),
                i <= coords@.len(),
                ab_max_from(
                    game@,
                    coords@,
                    0,
                    depth as int,
                    alpha as int,
                    beta as int,
                    i128::MIN as int,
                    colour,
                ) == ab_max_from(
                    game@,
                    coords@,
                    i as int,
                    depth as int,
                    a as int,
                    beta as int,
                    value as int,
                    colour,
                ),
            ensures
                value as int == ab_max_from(
                    game@,
                    coords@,
                    0,
                    depth as int,
                    alpha as int,
                    beta as int,
                    i128::MIN as int,
                    colour,
                ),
            decreases coords@.len() - i,
        {
            let coord = coords[i];
            let ghost x = coord.0 as int;
            let ghost y = coord.1 as int;
            let ghost a0 = a as int;
            let ghost value0 = value as int;
            let mut future = game.clone();
            let played = future.make_play(coord);
            if played.is_err() {
                proof {
                    assert(!game@.can_play(x, y));
                }
                i += 1;
                continue;
            }
            proof {
                assert(game@.can_play(x, y));
                assert(future@ == step(game@, x, y));
            }
            let v2 = alpha_beta(&future, depth - 1, a, beta, colour);
            if v2 > value {
                value = v2;
            }
            if value >= beta {
                proof {
                    assert(ab_max_from(
                        game@,
                        coords@,
                        i as int,
                        depth as int,
                        a0,
                        beta as int,
                        value0,
                        colour,
                    ) == value as int);
                }
                break;
            }
            if value > a {
                a = value;
            }
            proof {
                assert(ab_max_from(
                    game@,
                    coords@,
                    i as int,
                    depth as int,
                    a0,
                    beta as int,
                    value0,
                    colour,
                ) == ab_max_from(
                    game@,
                    coords@,
                    i as int + 1,
                    depth as int,
                    a as int,
                    beta as int,
                    value as int,
                    colour,
                ));
            }
            i += 1;
        }
        value
    } else {
        let mut value = i128::MAX;
        let mut b = beta;
        let mut i: usize = 0;
        while i < coords.len()
            invariant_except_break
                game@.wf(),
                game@.finished == 0i8,
                game@.next_player != colour,
                colour == 1i8 || colour == -1i8,
                1 <= depth as int,
                coords@ == relevant_seq(game@),
                i <= coords@.len(),
                ab_min_from(
                    game@,
                    coords@,
                    0,
                    depth as int,
                    alpha as int,
                    beta as int,
                    i128::MAX as int,
                    colour,
                ) == ab_min_from(
                    game@,
                    coords@,
                    i as int,
                    depth as int,
                    alpha as int,
                    b as int,
                    value as int,
                    colour,
                ),
            ensures
                value as int == ab_min_from(
                    game@,
                    coords@,
                    0,
                    depth as int,
                    alpha as int,
                    beta as int,
                    i128::MAX as int,
                    colour,
                ),
            decreases coords@.len() - i,
        {
            let coord = coords[i];
            let ghost x = coord.0 as int;
            let ghost y = coord.1 as int;
            let ghost b0 = b as int;
            let ghost value0 = value as int;
            let mut future = game.clone();
            let played = future.make_play(coord);
            if played.is_err() {
                proof {
                    assert(!game@.can_play(x, y));
                }
                i += 1;
                continue;
            }
            proof {
                assert(game@.can_play(x, y));
                assert(future@ == step(game@, x, y));
            }
            let v2 = alpha_beta(&future, depth - 1, alpha, b, colour);
            if v2 < value {
                value = v2;
            }
            if value <= alpha {
                proof {
                    assert(ab_min_from(
                        game@,
                        coords@,
                        i as int,
                        depth as int,
                        alpha as int,
                        b0,
                        value0,
                        colour,
                    ) == value as int);
                }
                break;
            }
            if value < b {
                b = value;
            }
            proof {
                assert(ab_min_from(
                    game@,
                    coords@,
                    i as int,
                    depth as int,
                    alpha as int,
                    b0,
                    value0,
                    colour,
                ) == ab_min_from(
                    game@,
                    coords@,
                    i as int + 1,
                    depth as int,
                    alpha as int,
                    b as int,
                    value as int,
                    colour,
                ));
            }
            i += 1;
        }
        value
    }
}

/// Board index i holds an empty, relevant cell: a candidate first move.
pub open spec fn root_candidate(g: GameModel, i: int) -> bool {
    g.board[i] == 0i8 && is_relevant_at(g.board, i % 19, i / 19)
}

/// The root scan from board index i on, carrying the best-scoring candidate
/// seen so far.  Every candidate cell of the whole board is searched at
/// depth - 1, and the first candidate reaching the maximum wins ties.
pub open spec fn root_best_from(
    g: GameModel,
    i: int,
    depth: int,
    colour: i8,
    best: (isize, isize),
    best_score: int,
    found: bool,
) -> (isize, isize)
    decreases 361 - i,
{
    if i < 0 || i >= 361 {
        best
    } else if root_candidate(g, i) {
        let s = ab_value(
            step(g, i % 19, i / 19),
            depth - 1,
            i128::MIN as int,
            i128::MAX as int,
            colour,
        );
        if !found || s > best_score {
            root_best_from(g, i + 1, depth, colour, ((i % 19) as isize, (i / 19) as isize), s, true)
        } else {
            root_best_from(g, i + 1, depth, colour, best, best_score, found)
        }
    } else {
        root_best_from(g, i + 1, depth, colour, best, best_score, found)
    }
}

/// The move the root driver picks: the candidate with the maximum search
/// value, ties broken towards the first in scan order.
pub open spec fn root_best(g: GameModel, depth: int, colour: i8) -> (isize, isize) {
    root_best_from(g, 0, depth, colour, (0isize, 0isize), 0, false)
}

/// The root driver: enumerates every empty, relevant board cell, applies
/// each candidate to its own clone of the state, evaluates the resulting
/// subtree at depth - 1, and returns the best candidate.  The scan order
/// makes repeated runs reproducible; at least one candidate must exist (the
/// board may not be empty).
pub fn min_max_tree(game: &GameState, depth: isize, colour: i8) -> (r: (isize, isize))
    requires
        game@.wf(),
        game@.finished == 0i8,
        colour == 1i8 || colour == -1i8,
        1 <= depth,
        exists|i: int| 0 <= i < 361 && #[trigger] root_candidate(game@, i),
    ensures
        r == root_best(game@, depth as int, colour),
{
    let mut best: (isize, isize) = (0, 0);
    let mut best_score: i128 = 0;
    let mut found = false;
    let mut i: usize = 0;
    while i < 361
        invariant
            game@.wf(),
            game@.finished == 0i8,
            colour == 1i8 || colour == -1i8,
            1 <= depth as int,
            i <= 361,
            root_best(game@, depth as int, colour) == root_best_from(
                game@,
                i as int,
                depth as int,
                colour,
                best,
                best_score as int,
                found,
            ),
        decreases 361 - i,
    {
        let coord = match GameState::index_to_coord(i) {
            Ok(c) => c,
            Err(()) => {
                proof {
                    assert(false);
                }
                (0, 0)
            },
        };
        let piece = game.board[i];
        if piece == 0 && is_relevant(game, coord) {
            proof {
                assert(root_candidate(game@, i as int));
                assert(game@.can_play(coord.0 as int, coord.1 as int));
            }
            let mut possibility = game.clone();
            let _played = possibility.make_play(coord);
            proof {
                assert(possibility@ == step(game@, i as int % 19, i as int / 19));
            }
            let s = alpha_beta(&possibility, depth - 1, i128::MIN, i128::MAX, colour);
            if !found || s > best_score {
                best = coord;
                best_score = s;
                found = true;
            }
        } else {
            proof {
                assert(!root_candidate(game@, i as int));
            }
        }
        i += 1;
    }
    best
}

/// The computer opponent: the root search at the fixed depth of six plies.
pub fn automated_opponent(game: &GameState, colour: i8) -> (r: (isize, isize))
    requires
        game@.wf(),
        game@.finished == 0i8,
        colour == 1i8 || colour == -1i8,
        exists|i: int| 0 <= i < 361 && #[trigger] root_candidate(game@, i),
    ensures
        r == root_best(game@, 6, colour),
{
    min_max_tree(game, 6, colour)
}

} // verus!
