//! Game state and rules for a Pente-style five-in-a-row game with captures,
//! played on a fixed 19 x 19 board.
//!
//! Cells hold `BLACK` (1), `WHITE` (-1) or `EMPTY` (0).  A move places the
//! next player's stone, removes flanked opponent pairs in all eight compass
//! directions, and ends the game when the mover completes a line of five or
//! when a capture counter reaches five.

use vstd::prelude::*;

verus! {

/// Side length of the square board.
pub const BOARD_USIZE: usize = 19;

/// Side length of the square board, for signed coordinate arithmetic.
pub const BOARD_ISIZE: isize = 19;

/// Cell value for a black stone.
pub const BLACK: i8 = 1;

/// Cell value for a white stone.
pub const WHITE: i8 = -1;

/// Cell value for an empty cell.
pub const EMPTY: i8 = 0;

/// Reasons a move can be rejected.  A rejected move leaves the state unchanged.
#[derive(Clone, Copy, Debug, PartialEq, Eq, Structural)]
pub enum PlayError {
    /// The game has already been decided; no further moves are accepted.
    GameOver,
    /// The coordinate is off the board or the cell is occupied.
    InvalidMove,
}

/// True when (x, y) is a cell of the 19 x 19 board.
pub open spec fn in_bounds(x: int, y: int) -> bool {
    0 <= x < 19 && 0 <= y < 19
}

/// Row-major index of an on-board coordinate.
pub open spec fn idx_of(x: int, y: int) -> int {
    x + y * 19
}

/// The cell at (x, y), with the empty value as the sentinel for
/// off-board reads: directional scans may walk past the edge.
pub open spec fn cell_at(b: Seq<i8>, x: int, y: int) -> i8 {
    if in_bounds(x, y) {
        b[x + y * 19]
    } else {
        0i8
    }
}

/// x component of compass direction k (0 <= k < 8).
pub open spec fn dir_x(k: int) -> int {
    if k == 0 {
        -1
    } else if k == 1 {
        0
    } else if k == 2 {
        1
    } else if k == 3 {
        -1
    } else if k == 4 {
        1
    } else if k == 5 {
        -1
    } else if k == 6 {
        0
    } else {
        1
    }
}

/// y component of compass direction k (0 <= k < 8).
pub open spec fn dir_y(k: int) -> int {
    if 0 <= k < 3 {
        -1
    } else if k == 3 || k == 4 {
        0
    } else {
        1
    }
}

/// The colour opposing p (for p a stone colour).
pub open spec fn opponent(p: i8) -> i8 {
    if p == 1i8 {
        -1i8
    } else {
        1i8
    }
}

/// The eight compass directions, in scan order.
pub fn direction(k: usize) -> (r: (isize, isize))
    requires
        k < 8,
    ensures
        r.0 as int == dir_x(k as int),
        r.1 as int == dir_y(k as int),
{
    if k == 0 {
        (-1, -1)
    } else if k == 1 {
        (0, -1)
    } else if k == 2 {
        (1, -1)
    } else if k == 3 {
        (-1, 0)
    } else if k == 4 {
        (1, 0)
    } else if k == 5 {
        (-1, 1)
    } else if k == 6 {
        (0, 1)
    } else {
        (1, 1)
    }
}

/// A flank in direction k from (x, y): two opponent stones at distances 1
/// and 2, then a stone of the mover's colour p at distance 3.
pub open spec fn captures_in_dir(b: Seq<i8>, x: int, y: int, k: int, p: i8) -> bool {
    &&& cell_at(b, x + dir_x(k), y + dir_y(k)) == opponent(p)
    &&& cell_at(b, x + 2 * dir_x(k), y + 2 * dir_y(k)) == opponent(p)
    &&& cell_at(b, x + 3 * dir_x(k), y + 3 * dir_y(k)) == p
}

/// Cell index i is removed by a capturing direction below kmax.
pub open spec fn capture_removes_upto(b: Seq<i8>, x: int, y: int, p: i8, i: int, kmax: int) -> bool {
    exists|k: int|
        0 <= k < kmax && #[trigger] captures_in_dir(b, x, y, k, p) && (i == idx_of(
            x + dir_x(k),
            y + dir_y(k),
        ) || i == idx_of(x + 2 * dir_x(k), y + 2 * dir_y(k)))
}

/// Cell index i is removed by some capturing direction.
pub open spec fn capture_removes(b: Seq<i8>, x: int, y: int, p: i8, i: int) -> bool {
    capture_removes_upto(b, x, y, p, i, 8)
}

/// The board after the capture scan anchored at (x, y) for mover p: every
/// flanked opponent pair is removed; all eight directions act independently
/// on the board as it stood when the stone was placed.
pub open spec fn board_after_captures(b: Seq<i8>, x: int, y: int, p: i8) -> Seq<i8> {
    Seq::new(
        b.len(),
        |i: int|
            if capture_removes(b, x, y, p, i) {
                0i8
            } else {
                b[i]
            },
    )
}

/// Number of capturing directions below kmax.
pub open spec fn capture_count_upto(b: Seq<i8>, x: int, y: int, p: i8, kmax: int) -> int
    decreases kmax,
{
    if kmax <= 0 {
        0
    } else {
        capture_count_upto(b, x, y, p, kmax - 1) + (if captures_in_dir(b, x, y, kmax - 1, p) {
            1int
        } else {
            0int
        })
    }
}

/// Number of captures (flanked pairs) the move at (x, y) makes for mover p.
pub open spec fn capture_count(b: Seq<i8>, x: int, y: int, p: i8) -> int {
    capture_count_upto(b, x, y, p, 8)
}

/// Four stones of colour p at distances 1..4 in direction k from (x, y):
/// with the anchor stone, five in a row.
pub open spec fn line_in_dir(b: Seq<i8>, x: int, y: int, k: int, p: i8) -> bool {
    &&& cell_at(b, x + dir_x(k), y + dir_y(k)) == p
    &&& cell_at(b, x + 2 * dir_x(k), y + 2 * dir_y(k)) == p
    &&& cell_at(b, x + 3 * dir_x(k), y + 3 * dir_y(k)) == p
    &&& cell_at(b, x + 4 * dir_x(k), y + 4 * dir_y(k)) == p
}

/// The stone just placed at (x, y) completes a line of five for colour p.
pub open spec fn line_win(b: Seq<i8>, x: int, y: int, p: i8) -> bool {
    exists|k: int| 0 <= k < 8 && #[trigger] line_in_dir(b, x, y, k, p)
}

/// The smaller of two values.
pub open spec fn min_int(a: int, b: int) -> int {
    if a <= b {
        a
    } else {
        b
    }
}

/// The larger of two values.
pub open spec fn max_int(a: int, b: int) -> int {
    if a >= b {
        a
    } else {
        b
    }
}

/// On-board coordinates have indices on the board.
pub proof fn lemma_idx_range(x: int, y: int)
    requires
        in_bounds(x, y),
    ensures
        0 <= idx_of(x, y) < 361,
{
}

/// Distinct on-board coordinates have distinct indices.
pub proof fn lemma_idx_injective(x1: int, y1: int, x2: int, y2: int)
    requires
        in_bounds(x1, y1),
        in_bounds(x2, y2),
        idx_of(x1, y1) == idx_of(x2, y2),
    ensures
        x1 == x2 && y1 == y2,
{
}

/// No direction has both components zero.
proof fn lemma_dir_nonzero(k: int)
    requires
        0 <= k < 8,
    ensures
        dir_x(k) != 0 || dir_y(k) != 0,
{
}

/// The rays out of one anchor are disjoint: a point at distance j along one
/// direction equals a point at distance m along another only when the
/// directions coincide.  This is what makes the eight capture scans
/// independent of the order they run in.
proof fn lemma_rays_disjoint(k1: int, k2: int, j: int, m: int)
    requires
        0 <= k1 < 8,
        0 <= k2 < 8,
        1 <= j <= 2,
        1 <= m <= 3,
        dir_x(k1) * j == dir_x(k2) * m,
        dir_y(k1) * j == dir_y(k2) * m,
    ensures
        k1 == k2,
{
    lemma_dir_nonzero(k1);
    lemma_dir_nonzero(k2);
    if j == 1 {
        assert(dir_x(k1) * 1 == dir_x(k1));
        assert(dir_y(k1) * 1 == dir_y(k1));
        if m == 1 {
            assert(dir_x(k2) * 1 == dir_x(k2));
            assert(dir_y(k2) * 1 == dir_y(k2));
            assert(k1 == k2);
        } else if m == 2 {
            assert(dir_x(k1) == 2 * dir_x(k2));
            assert(dir_y(k1) == 2 * dir_y(k2));
            assert(dir_x(k2) == 0 && dir_y(k2) == 0);
            assert(false);
        } else {
            assert(dir_x(k1) == 3 * dir_x(k2));
            assert(dir_y(k1) == 3 * dir_y(k2));
            assert(dir_x(k2) == 0 && dir_y(k2) == 0);
            assert(false);
        }
    } else {
        assert(dir_x(k1) * 2 == 2 * dir_x(k1));
        assert(dir_y(k1) * 2 == 2 * dir_y(k1));
        if m == 1 {
            assert(2 * dir_x(k1) == dir_x(k2));
            assert(2 * dir_y(k1) == dir_y(k2));
            assert(dir_x(k1) == 0 && dir_y(k1) == 0);
            assert(false);
        } else if m == 2 {
            assert(2 * dir_x(k1) == 2 * dir_x(k2));
            assert(2 * dir_y(k1) == 2 * dir_y(k2));
            assert(dir_x(k1) == dir_x(k2));
            assert(dir_y(k1) == dir_y(k2));
            assert(k1 == k2);
        } else {
            assert(2 * dir_x(k1) == 3 * dir_x(k2));
            assert(2 * dir_y(k1) == 3 * dir_y(k2));
            assert(dir_x(k2) == 0 && dir_y(k2) == 0);
            assert(false);
        }
    }
}

/// The count of capturing directions is non-negative and at most kmax.
pub proof fn lemma_capture_count_upto_bounds(b: Seq<i8>, x: int, y: int, p: i8, kmax: int)
    requires
        0 <= kmax,
    ensures
        0 <= capture_count_upto(b, x, y, p, kmax) <= kmax,
    decreases kmax,
{
    if kmax > 0 {
        lemma_capture_count_upto_bounds(b, x, y, p, kmax - 1);
    }
}

/// While the capture scan has only run directions below k, the three pattern
/// cells of direction k still hold what they held when the stone was placed.
proof fn lemma_pattern_cells_preserved(b0: Seq<i8>, cur: Seq<i8>, x: int, y: int, p: i8, k: int)
    requires
        b0.len() == 361,
        cur.len() == 361,
        in_bounds(x, y),
        0 <= k < 8,
        p == 1i8 || p == -1i8,
        forall|i: int|
            0 <= i < 361 ==> #[trigger] cur[i] == (if capture_removes_upto(b0, x, y, p, i, k) {
                0i8
            } else {
                b0[i]
            }),
    ensures
        forall|m: int|
            1 <= m <= 3 ==> #[trigger] cell_at(cur, x + dir_x(k) * m, y + dir_y(k) * m) == cell_at(
                b0,
                x + dir_x(k) * m,
                y + dir_y(k) * m,
            ),
{
    assert forall|m: int|
        1 <= m <= 3 implies #[trigger] cell_at(cur, x + dir_x(k) * m, y + dir_y(k) * m) == cell_at(
        b0,
        x + dir_x(k) * m,
        y + dir_y(k) * m,
    ) by {
        let cx = x + dir_x(k) * m;
        let cy = y + dir_y(k) * m;
        if in_bounds(cx, cy) {
            let i = idx_of(cx, cy);
            lemma_idx_range(cx, cy);
            if capture_removes_upto(b0, x, y, p, i, k) {
                let k2 = choose|k2: int|
                    0 <= k2 < k && #[trigger] captures_in_dir(b0, x, y, k2, p) && (i == idx_of(
                        x + dir_x(k2),
                        y + dir_y(k2),
                    ) || i == idx_of(x + 2 * dir_x(k2), y + 2 * dir_y(k2)));
                assert(opponent(p) != 0i8);
                if i == idx_of(x + dir_x(k2), y + dir_y(k2)) {
                    assert(cell_at(b0, x + dir_x(k2), y + dir_y(k2)) == opponent(p));
                    assert(in_bounds(x + dir_x(k2), y + dir_y(k2)));
                    lemma_idx_injective(cx, cy, x + dir_x(k2), y + dir_y(k2));
                    assert(dir_x(k2) * 1 == dir_x(k) * m);
                    assert(dir_y(k2) * 1 == dir_y(k) * m);
                    lemma_rays_disjoint(k2, k, 1, m);
                    assert(false);
                } else {
                    assert(cell_at(b0, x + 2 * dir_x(k2), y + 2 * dir_y(k2)) == opponent(p));
                    assert(in_bounds(x + 2 * dir_x(k2), y + 2 * dir_y(k2)));
                    lemma_idx_injective(cx, cy, x + 2 * dir_x(k2), y + 2 * dir_y(k2));
                    assert(dir_x(k2) * 2 == dir_x(k) * m);
                    assert(dir_y(k2) * 2 == dir_y(k) * m);
                    lemma_rays_disjoint(k2, k, 2, m);
                    assert(false);
                }
            }
        }
    }
}

/// Mathematical model of a game state.
pub ghost struct GameModel {
    /// Row-major 19 x 19 grid of cell values.
    pub board: Seq<i8>,
    /// Flanked pairs taken by black so far.
    pub black_captures: int,
    /// Flanked pairs taken by white so far.
    pub white_captures: int,
    /// Colour that moves next.
    pub next_player: i8,
    /// 0 while the game runs, else the winning colour.
    pub finished: i8,
    /// Upper-left corner of the dirty region (degenerate (255, 255) at start).
    pub top_left: (int, int),
    /// Lower-right corner of the dirty region (degenerate (0, 0) at start).
    pub bottom_right: (int, int),
}

impl GameModel {
    /// Well-formedness: every state reachable through `GameState::new` and
    /// `GameState::make_play` satisfies this.
    pub open spec fn wf(self) -> bool {
        &&& self.board.len() == 361
        &&& forall|i: int|
            0 <= i < 361 ==> #[trigger] self.board[i] == 0i8 || self.board[i] == 1i8
                || self.board[i] == -1i8
        &&& (self.next_player == 1i8 || self.next_player == -1i8)
        &&& (self.finished == 0i8 || self.finished == 1i8 || self.finished == -1i8)
        &&& 0 <= self.black_captures <= 12
        &&& 0 <= self.white_captures <= 12
        &&& (self.finished == 0i8 ==> self.black_captures < 5 && self.white_captures < 5)
        &&& 0 <= self.top_left.0 <= 255
        &&& 0 <= self.top_left.1 <= 255
        &&& 0 <= self.bottom_right.0 <= 18
        &&& 0 <= self.bottom_right.1 <= 18
    }

    /// A move at (x, y) is accepted: the game still runs and the cell is an
    /// empty cell of the board.
    pub open spec fn can_play(self, x: int, y: int) -> bool {
        &&& self.finished == 0i8
        &&& in_bounds(x, y)
        &&& cell_at(self.board, x, y) == 0i8
    }
}

/// The state of a fresh game: empty board, no captures, white to move,
/// degenerate (inverted) dirty region.
pub open spec fn initial_model() -> GameModel {
    GameModel {
        board: Seq::new(361, |i: int| 0i8),
        black_captures: 0,
        white_captures: 0,
        next_player: -1i8,
        finished: 0i8,
        top_left: (255, 255),
        bottom_right: (0, 0),
    }
}

/// The state after an accepted move at (x, y): the mover's stone is placed,
/// flanked pairs are removed and counted, the win checks run for the mover,
/// the dirty region grows by one clamped cell of margin, and the turn flips.
pub open spec fn step(g: GameModel, x: int, y: int) -> GameModel {
    let p = g.next_player;
    let placed = g.board.update(idx_of(x, y), p);
    let after = board_after_captures(placed, x, y, p);
    let gained = capture_count(placed, x, y, p);
    let black2 = if p == 1i8 {
        g.black_captures + gained
    } else {
        g.black_captures
    };
    let white2 = if p == -1i8 {
        g.white_captures + gained
    } else {
        g.white_captures
    };
    let won = black2 >= 5 || white2 >= 5 || line_win(after, x, y, p);
    GameModel {
        board: after,
        black_captures: black2,
        white_captures: white2,
        next_player: opponent(p),
        finished: if won {
            p
        } else {
            0i8
        },
        top_left: (min_int(g.top_left.0, max_int(x - 1, 0)), min_int(
            g.top_left.1,
            max_int(y - 1, 0),
        )),
        bottom_right: (max_int(g.bottom_right.0, min_int(x + 1, 18)), max_int(
            g.bottom_right.1,
            min_int(y + 1, 18),
        )),
    }
}

/// A full game state: the grid, capture counters, turn, terminal flag and
/// the dirty-region bounding box over played coordinates.
pub struct GameState {
    /// Row-major 19 x 19 grid of cell values.
    pub board: Vec<i8>,
    /// Flanked pairs taken by black so far.
    pub black_captures: usize,
    /// Flanked pairs taken by white so far.
    pub white_captures: usize,
    /// Colour that moves next.
    pub next_player: i8,
    /// 0 while the game runs, else the winning colour.
    pub finished: i8,
    /// Upper-left corner of the dirty region.
    pub top_left: (isize, isize),
    /// Lower-right corner of the dirty region.
    pub bottom_right: (isize, isize),
}

impl View for GameState {
    type V = GameModel;

    open spec fn view(&self) -> GameModel {
        GameModel {
            board: self.board@,
            black_captures: self.black_captures as int,
            white_captures: self.white_captures as int,
            next_player: self.next_player,
            finished: self.finished,
            top_left: (self.top_left.0 as int, self.top_left.1 as int),
            bottom_right: (self.bottom_right.0 as int, self.bottom_right.1 as int),
        }
    }
}

impl Clone for GameState {
    /// A clone is an independent deep copy of the whole state.
    fn clone(&self) -> (res: Self)
        ensures
            res@ == self@,
    {
        let res = GameState {
            board: self.board.clone(),
            black_captures: self.black_captures,
            white_captures: self.white_captures,
            next_player: self.next_player,
            finished: self.finished,
            top_left: self.top_left,
            bottom_right: self.bottom_right,
        };
        proof {
            assert forall|i: int| 0 <= i < self.board@.len() implies res.board@[i]
                == self.board@[i] by {
                assert(cloned::<i8>(self.board@[i], res.board@[i]));
            }
            assert(res.board@ =~= self.board@);
        }
        res
    }
}

impl GameState {
    /// A fresh game.
    pub fn new() -> (g: GameState)
        ensures
            g@ == initial_model(),
            g@.wf(),
    {
        let mut board: Vec<i8> = Vec::new();
        let mut i: usize = 0;
        while i < 361
            invariant
                i <= 361,
                board@ =~= Seq::new(i as nat, |j: int| 0i8),
            decreases 361 - i,
        {
            board.push(0);
            i += 1;
        }
        let g = GameState {
            board,
            black_captures: 0,
            white_captures: 0,
            next_player: WHITE,
            finished: 0,
            top_left: (255, 255),
            bottom_right: (0, 0),
        };
        proof {
            assert(g@.board =~= initial_model().board);
            assert(g@ == initial_model());
        }
        g
    }

    /// The coordinate a row-major board index names.
    pub fn index_to_coord(i: usize) -> (r: Result<(isize, isize), ()>)
        ensures
            i < 361 ==> (r matches Ok(c) && c.0 as int == i as int % 19 && c.1 as int == i as int
                / 19 && in_bounds(c.0 as int, c.1 as int) && idx_of(c.0 as int, c.1 as int)
                == i as int),
            i >= 361 ==> r == Err::<(isize, isize), ()>(()),
    {
        if i < 361 {
            let x = (i % 19) as isize;
            let y = (i / 19) as isize;
            Ok((x, y))
        } else {
            Err(())
        }
    }

    /// The row-major board index of an on-board coordinate; off-board
    /// coordinates are rejected.
    pub fn coord_to_index(coord: (isize, isize)) -> (r: Result<usize, ()>)
        ensures
            in_bounds(coord.0 as int, coord.1 as int) ==> (r matches Ok(i) && i as int == idx_of(
                coord.0 as int,
                coord.1 as int,
            ) && i < 361),
            !in_bounds(coord.0 as int, coord.1 as int) ==> r == Err::<usize, ()>(()),
    {
        let (x, y) = coord;
        if x >= 0 && x < BOARD_ISIZE && y >= 0 && y < BOARD_ISIZE {
            Ok((x + y * BOARD_ISIZE) as usize)
        } else {
            Err(())
        }
    }

    /// The cell at an on-board coordinate; off-board coordinates are rejected.
    pub fn get_piece(&self, coord: (isize, isize)) -> (r: Result<i8, ()>)
        requires
            self@.board.len() == 361,
        ensures
            in_bounds(coord.0 as int, coord.1 as int) ==> r == Ok::<i8, ()>(
                cell_at(self@.board, coord.0 as int, coord.1 as int),
            ),
            !in_bounds(coord.0 as int, coord.1 as int) ==> r == Err::<i8, ()>(()),
    {
        let index = match GameState::coord_to_index(coord) {
            Ok(index) => index,
            Err(()) => {
                return Err(());
            },
        };
        Ok(self.board[index])
    }

    /// The cell at a coordinate, with the empty value for off-board reads:
    /// directional scans walk past the edge as a matter of course.
    pub fn get_piece_safe(&self, coord: (isize, isize)) -> (r: i8)
        requires
            self@.board.len() == 361,
        ensures
            r == cell_at(self@.board, coord.0 as int, coord.1 as int),
    {
        let index = match GameState::coord_to_index(coord) {
            Ok(index) => index,
            Err(()) => {
                return 0;
            },
        };
        self.board[index]
    }

    /// Places the next player's stone on an empty on-board cell and reports
    /// whether it did; anything else leaves the state unchanged.
    pub fn place_piece(&mut self, coord: (isize, isize)) -> (r: bool)
        requires
            old(self)@.board.len() == 361,
        ensures
            r == (in_bounds(coord.0 as int, coord.1 as int) && cell_at(
                old(self)@.board,
                coord.0 as int,
                coord.1 as int,
            ) == 0i8),
            r ==> final(self)@.board == old(self)@.board.update(
                idx_of(coord.0 as int, coord.1 as int),
                old(self)@.next_player,
            ),
            !r ==> final(self)@.board == old(self)@.board,
            final(self).black_captures == old(self).black_captures,
            final(self).white_captures == old(self).white_captures,
            final(self).next_player == old(self).next_player,
            final(self).finished == old(self).finished,
            final(self).top_left == old(self).top_left,
            final(self).bottom_right == old(self).bottom_right,
    {
        let index = match GameState::coord_to_index(coord) {
            Ok(index) => index,
            Err(()) => {
                return false;
            },
        };
        if self.board[index] != 0 {
            false
        } else {
            self.board.set(index, self.next_player);
            true
        }
    }

    /// Empties an on-board cell; off-board coordinates are rejected and
    /// change nothing.
    pub fn remove_piece(&mut self, coord: (isize, isize)) -> (r: Result<(), ()>)
        requires
            old(self)@.board.len() == 361,
        ensures
            in_bounds(coord.0 as int, coord.1 as int) ==> (r == Ok::<(), ()>(())
                && final(self)@.board == old(self)@.board.update(
                idx_of(coord.0 as int, coord.1 as int),
                0i8,
            )),
            !in_bounds(coord.0 as int, coord.1 as int) ==> (r == Err::<(), ()>(())
                && final(self)@.board == old(self)@.board),
            final(self).black_captures == old(self).black_captures,
            final(self).white_captures == old(self).white_captures,
            final(self).next_player == old(self).next_player,
            final(self).finished == old(self).finished,
            final(self).top_left == old(self).top_left,
            final(self).bottom_right == old(self).bottom_right,
    {
        let index = match GameState::coord_to_index(coord) {
            Ok(index) => index,
            Err(()) => {
                return Err(());
            },
        };
        self.board.set(index, 0);
        Ok(())
    }

    /// Either capture counter has reached five pairs.
    pub fn check_capture_win(&self) -> (r: bool)
        ensures
            r == (self@.black_captures >= 5 || self@.white_captures >= 5),
    {
        self.black_captures >= 5 || self.white_captures >= 5
    }

    /// The stone just placed at `coord` completes a line of five for the
    /// player about to be flipped away from (the mover).
    pub fn check_line(&self, coord: (isize, isize)) -> (r: bool)
        requires
            self@.board.len() == 361,
            in_bounds(coord.0 as int, coord.1 as int),
        ensures
            r == line_win(self@.board, coord.0 as int, coord.1 as int, self@.next_player),
    {
        let (x, y) = coord;
        let p = self.next_player;
        let mut k: usize = 0;
        while k < 8
            invariant
                self@.board.len() == 361,
                in_bounds(x as int, y as int),
                x == coord.0,
                y == coord.1,
                p == self@.next_player,
                k <= 8,
                forall|j: int|
                    0 <= j < k ==> !#[trigger] line_in_dir(
                        self@.board,
                        x as int,
                        y as int,
                        j,
                        self@.next_player,
                    ),
            decreases 8 - k,
        {
            let (dx, dy) = direction(k);
            if self.get_piece_safe((x + dx, y + dy)) == p && self.get_piece_safe(
                (x + 2 * dx, y + 2 * dy),
            ) == p && self.get_piece_safe((x + 3 * dx, y + 3 * dy)) == p && self.get_piece_safe(
                (x + 4 * dx, y + 4 * dy),
            ) == p {
                proof {
                    assert(line_in_dir(self@.board, x as int, y as int, k as int, self@.next_player));
                    assert(line_win(self@.board, x as int, y as int, self@.next_player));
                }
                return true;
            }
            k += 1;
        }
        false
    }

    /// Runs the capture scan anchored at `coord` for the player to move: in
    /// every direction holding a flank `opponent, opponent, mover`, the two
    /// opponent stones are removed and the mover's counter grows by one.
    #[verifier::rlimit(100)]
    pub fn check_captures(&mut self, coord: (isize, isize))
        requires
            old(self)@.board.len() == 361,
            in_bounds(coord.0 as int, coord.1 as int),
            old(self)@.next_player == 1i8 || old(self)@.next_player == -1i8,
            old(self)@.black_captures <= 4,
            old(self)@.white_captures <= 4,
        ensures
            final(self)@.board == board_after_captures(
                old(self)@.board,
                coord.0 as int,
                coord.1 as int,
                old(self)@.next_player,
            ),
            old(self)@.next_player == 1i8 ==> final(self)@.black_captures == old(
                self,
            )@.black_captures + capture_count(
                old(self)@.board,
                coord.0 as int,
                coord.1 as int,
                old(self)@.next_player,
            ) && final(self)@.white_captures == old(self)@.white_captures,
            old(self)@.next_player == -1i8 ==> final(self)@.white_captures == old(
                self,
            )@.white_captures + capture_count(
                old(self)@.board,
                coord.0 as int,
                coord.1 as int,
                old(self)@.next_player,
            ) && final(self)@.black_captures == old(self)@.black_captures,
            final(self).next_player == old(self).next_player,
            final(self).finished == old(self).finished,
            final(self).top_left == old(self).top_left,
            final(self).bottom_right == old(self).bottom_right,
    {
        let (x, y) = coord;
        let p = self.next_player;
        let opp = if p == BLACK {
            WHITE
        } else {
            BLACK
        };
        let ghost b0 = self.board@;
        let ghost bc0 = self.black_captures as int;
        let ghost wc0 = self.white_captures as int;
        let ghost xi = x as int;
        let ghost yi = y as int;
        proof {
            assert(opp == opponent(p));
        }
        let mut k: usize = 0;
        while k < 8
            invariant
                k <= 8,
                self.board@.len() == 361,
                b0.len() == 361,
                in_bounds(xi, yi),
                x as int == xi,
                y as int == yi,
                self.next_player == p,
                p == 1i8 || p == -1i8,
                opp == opponent(p),
                self.finished == old(self).finished,
                self.top_left == old(self).top_left,
                self.bottom_right == old(self).bottom_right,
                bc0 <= 4,
                wc0 <= 4,
                forall|i: int|
                    0 <= i < 361 ==> #[trigger] self.board@[i] == (if capture_removes_upto(
                        b0,
                        xi,
                        yi,
                        p,
                        i,
                        k as int,
                    ) {
                        0i8
                    } else {
                        b0[i]
                    }),
                p == 1i8 ==> self.black_captures as int == bc0 + capture_count_upto(
                    b0,
                    xi,
                    yi,
                    p,
                    k as int,
                ) && self.white_captures as int == wc0,
                p == -1i8 ==> self.white_captures as int == wc0 + capture_count_upto(
                    b0,
                    xi,
                    yi,
                    p,
                    k as int,
                ) && self.black_captures as int == bc0,
            decreases 8 - k,
        {
            proof {
                lemma_pattern_cells_preserved(b0, self.board@, xi, yi, p, k as int);
                lemma_capture_count_upto_bounds(b0, xi, yi, p, k as int);
            }
            let (dx, dy) = direction(k);
            let first_piece = self.get_piece_safe((x + dx, y + dy)) == opp;
            let second_piece = self.get_piece_safe((x + 2 * dx, y + 2 * dy)) == opp;
            let third_piece = self.get_piece_safe((x + 3 * dx, y + 3 * dy)) == p;
            let ghost cur = self.board@;
            if first_piece && second_piece && third_piece {
                proof {
                    assert(captures_in_dir(b0, xi, yi, k as int, p));
                    assert(cell_at(b0, xi + dir_x(k as int), yi + dir_y(k as int)) == opponent(p));
                    assert(in_bounds(xi + dir_x(k as int), yi + dir_y(k as int)));
                    assert(in_bounds(xi + 2 * dir_x(k as int), yi + 2 * dir_y(k as int)));
                }
                let r1 = self.remove_piece((x + dx, y + dy));
                let r2 = self.remove_piece((x + 2 * dx, y + 2 * dy));
                if p == WHITE {
                    self.white_captures += 1;
                } else {
                    self.black_captures += 1;
                }
                proof {
                    let ki = k as int;
                    let i1 = idx_of(xi + dir_x(ki), yi + dir_y(ki));
                    let i2 = idx_of(xi + 2 * dir_x(ki), yi + 2 * dir_y(ki));
                    lemma_idx_range(xi + dir_x(ki), yi + dir_y(ki));
                    lemma_idx_range(xi + 2 * dir_x(ki), yi + 2 * dir_y(ki));
                    assert(self.board@ == cur.update(i1, 0i8).update(i2, 0i8));
                    assert forall|i: int| 0 <= i < 361 implies #[trigger] self.board@[i] == (
                    if capture_removes_upto(b0, xi, yi, p, i, ki + 1) {
                        0i8
                    } else {
                        b0[i]
                    }) by {
                        if i == i1 || i == i2 {
                            assert(capture_removes_upto(b0, xi, yi, p, i, ki + 1));
                        } else {
                            assert(self.board@[i] == cur[i]);
                            if capture_removes_upto(b0, xi, yi, p, i, ki + 1) {
                                let k2 = choose|k2: int|
                                    0 <= k2 < ki + 1 && #[trigger] captures_in_dir(
                                        b0,
                                        xi,
                                        yi,
                                        k2,
                                        p,
                                    ) && (i == idx_of(xi + dir_x(k2), yi + dir_y(k2)) || i
                                        == idx_of(xi + 2 * dir_x(k2), yi + 2 * dir_y(k2)));
                                assert(k2 < ki);
                                assert(capture_removes_upto(b0, xi, yi, p, i, ki));
                            } else {
                                assert(!capture_removes_upto(b0, xi, yi, p, i, ki));
                            }
                        }
                    }
                }
            } else {
                proof {
                    let ki = k as int;
                    assert(!captures_in_dir(b0, xi, yi, ki, p));
                    assert forall|i: int| 0 <= i < 361 implies #[trigger] self.board@[i] == (
                    if capture_removes_upto(b0, xi, yi, p, i, ki + 1) {
                        0i8
                    } else {
                        b0[i]
                    }) by {
                        if capture_removes_upto(b0, xi, yi, p, i, ki + 1) {
                            let k2 = choose|k2: int|
                                0 <= k2 < ki + 1 && #[trigger] captures_in_dir(b0, xi, yi, k2, p)
                                    && (i == idx_of(xi + dir_x(k2), yi + dir_y(k2)) || i == idx_of(
                                    xi + 2 * dir_x(k2),
                                    yi + 2 * dir_y(k2),
                                ));
                            assert(k2 < ki);
                            assert(capture_removes_upto(b0, xi, yi, p, i, ki));
                        } else {
                            assert(!capture_removes_upto(b0, xi, yi, p, i, ki));
                        }
                    }
                }
            }
            k += 1;
        }
        proof {
            assert(self.board@ =~= board_after_captures(b0, xi, yi, p));
        }
    }

    /// Applies one move for the player to move, with full rule enforcement:
    /// rejected with `GameOver` after the game has been decided and with
    /// `InvalidMove` off the board or on an occupied cell (both without state
    /// change); otherwise the stone is placed, the dirty region grows by one
    /// clamped cell of margin, flanked pairs are captured, the win checks run
    /// for the mover, and the turn flips.  Returns whether the game just
    /// ended.
    pub fn make_play(&mut self, coord: (isize, isize)) -> (r: Result<bool, PlayError>)
        requires
            old(self)@.wf(),
        ensures
            final(self)@.wf(),
            old(self)@.finished != 0i8 ==> r == Err::<bool, PlayError>(PlayError::GameOver)
                && final(self)@ == old(self)@,
            old(self)@.finished == 0i8 && !old(self)@.can_play(coord.0 as int, coord.1 as int)
                ==> r == Err::<bool, PlayError>(PlayError::InvalidMove) && final(self)@ == old(
                self,
            )@,
            old(self)@.can_play(coord.0 as int, coord.1 as int) ==> final(self)@ == step(
                old(self)@,
                coord.0 as int,
                coord.1 as int,
            ) && r == Ok::<bool, PlayError>(
                step(old(self)@, coord.0 as int, coord.1 as int).finished != 0i8,
            ),
    {
        if self.finished != 0 {
            return Err(PlayError::GameOver);
        }
        if !self.place_piece(coord) {
            return Err(PlayError::InvalidMove);
        }
        let (x, y) = coord;
        let ghost g0 = old(self)@;
        let ghost xi = x as int;
        let ghost yi = y as int;
        let ghost p = self.next_player;
        let ghost placed = self.board@;
        let mx = if x - 1 > 0 {
            x - 1
        } else {
            0
        };
        let my = if y - 1 > 0 {
            y - 1
        } else {
            0
        };
        let nx = if x + 1 < 18 {
            x + 1
        } else {
            18
        };
        let ny = if y + 1 < 18 {
            y + 1
        } else {
            18
        };
        let tlx = if self.top_left.0 <= mx {
            self.top_left.0
        } else {
            mx
        };
        let tly = if self.top_left.1 <= my {
            self.top_left.1
        } else {
            my
        };
        let brx = if self.bottom_right.0 >= nx {
            self.bottom_right.0
        } else {
            nx
        };
        let bry = if self.bottom_right.1 >= ny {
            self.bottom_right.1
        } else {
            ny
        };
        self.top_left = (tlx, tly);
        self.bottom_right = (brx, bry);
        self.check_captures(coord);
        if self.check_capture_win() || self.check_line(coord) {
            self.finished = self.next_player;
        }
        self.next_player = -self.next_player;
        proof {
            let s = step(g0, xi, yi);
            lemma_capture_count_upto_bounds(placed, xi, yi, p, 8);
            assert(self@.board == s.board);
            assert(self@.black_captures == s.black_captures);
            assert(self@.white_captures == s.white_captures);
            assert(self@.next_player == s.next_player);
            assert(self@.finished == s.finished);
            assert(self@.top_left == s.top_left);
            assert(self@.bottom_right == s.bottom_right);
            assert(self@ == s);
            assert forall|i: int| 0 <= i < 361 implies #[trigger] self@.board[i] == 0i8
                || self@.board[i] == 1i8 || self@.board[i] == -1i8 by {
                assert(placed[i] == 0i8 || placed[i] == 1i8 || placed[i] == -1i8);
            }
            assert(self@.wf());
        }
        Ok(self.finished != 0)
    }
}

} // verus!
