//! The board: a fixed-size grid of tiles plus the live ball collection.

use vstd::prelude::*;

verus! {

use crate::ball::{Ball, BallColor};
use crate::fp::{DT_LIMIT, FP_SCALE};
use crate::physics::{
    bounds_sp, integrate_sp, lemma_degrade_trans, lemma_tile_collision_degrades,
    tile_collision_sp, tiles_degrade_sp, Physics, FRICTION_DEN, FRICTION_NUM, GRAVITY_FP,
};
use crate::tile::{BoardColor, BoardTile, TileType};
use vstd::arithmetic::div_mod::lemma_div_is_ordered;
use vstd::arithmetic::mul::{lemma_mul_inequality, lemma_mul_upper_bound};

/// Rows of the default board.
pub const BOARD_ROWS: usize = 17;

/// Columns of the default board.
pub const BOARD_COLS: usize = 17;

/// Side of one square tile, in pixels.
pub const TILE_SIZE: i64 = 48;

/// Side of one square tile, in fixed-point units.
pub const TILE_FP: i64 = TILE_SIZE * FP_SCALE;

/// Largest accepted row or column count of a board.
pub const MAX_DIM: usize = 1000;

/// The game board: the dense row-major tile grid, the live balls, the entry
/// cell where balls are auto-spawned and the goal cell holding the drain.
pub struct GameBoard {
    pub rows: usize,
    pub cols: usize,
    /// Row-major: the tile of cell `(r, c)` is at index `r * cols + c`.
    /// An absent tile means an empty cell; construction fills every cell.
    pub tiles: Vec<Option<BoardTile>>,
    pub balls: Vec<Ball>,
    pub entry_pos: (usize, usize),
    pub goal_pos: (usize, usize),
    /// Whether a captured ball has been consumed and removed from `balls`.
    pub captured_seen: bool,
}

impl GameBoard {
    /// Well-formedness: the grid is dense row-major with coherent tile
    /// coordinates, every ball is well-formed, and the entry and goal cells
    /// are distinct non-border cells.
    pub open spec fn wf(self) -> bool {
        &&& 3 <= self.rows <= MAX_DIM
        &&& 3 <= self.cols <= MAX_DIM
        &&& self.tiles.len() == self.rows * self.cols
        &&& forall|i: int|
            0 <= i < self.tiles.len() ==> (#[trigger] self.tiles[i] matches Some(t) ==> t.row
                == i / (self.cols as int) && t.col == i % (self.cols as int))
        &&& forall|i: int| 0 <= i < self.balls.len() ==> (#[trigger] self.balls[i]).wf()
        &&& 1 <= self.entry_pos.0 < self.rows - 1
        &&& 1 <= self.entry_pos.1 < self.cols - 1
        &&& 1 <= self.goal_pos.0 < self.rows - 1
        &&& 1 <= self.goal_pos.1 < self.cols - 1
        &&& self.entry_pos != self.goal_pos
    }

    /// The outermost ring of the grid is all `Wall`.
    pub open spec fn border_walled(self) -> bool {
        forall|r: int, c: int|
            0 <= r < self.rows && 0 <= c < self.cols && (r == 0 || r == self.rows - 1 || c == 0
                || c == self.cols - 1) ==> ((#[trigger] self.tile_at(r, c)) matches Some(t)
                && t.tile_type == TileType::Wall)
    }

    /// The tile of cell `(row, col)`, or `None` outside the grid.
    pub open spec fn tile_at(self, row: int, col: int) -> Option<BoardTile> {
        if 0 <= row < self.rows && 0 <= col < self.cols {
            self.tiles[row * (self.cols as int) + col]
        } else {
            None
        }
    }

    /// Whether any ball has been captured by a drain: either one still in
    /// the collection carries the flag, or a captured ball has already been
    /// pruned and recorded.
    pub open spec fn win_sp(self) -> bool {
        self.captured_seen || exists|i: int| 0 <= i < self.balls.len() && self.balls[i].captured
    }

    /// True iff a ball has entered a drain.
    pub fn is_win(&self) -> (r: bool)
        ensures
            r == self.win_sp(),
    {
        if self.captured_seen {
            return true;
        }
        let mut i: usize = 0;
        while i < self.balls.len()
            invariant
                i <= self.balls.len(),
                forall|j: int| 0 <= j < i ==> !self.balls[j].captured,
            decreases self.balls.len() - i,
        {
            if self.balls[i].captured {
                return true;
            }
            i += 1;
        }
        false
    }

    /// Read-only tile lookup; `None` outside the grid.
    pub fn get_tile(&self, row: usize, col: usize) -> (r: Option<BoardTile>)
        requires
            self.wf(),
        ensures
            r == self.tile_at(row as int, col as int),
    {
        if row < self.rows && col < self.cols {
            proof {
                lemma_rc_index(row as int, col as int, self.rows as int, self.cols as int);
            }
            self.tiles[row * self.cols + col]
        } else {
            None
        }
    }

    /// Append a fresh ball at rest at the pixel centre of `(row, col)`;
    /// out-of-range cells are rejected silently.
    pub fn add_ball(&mut self, row: usize, col: usize, color: BallColor)
        requires
            old(self).wf(),
        ensures
            final(self).wf(),
            final(self).rows == old(self).rows,
            final(self).cols == old(self).cols,
            final(self).tiles == old(self).tiles,
            final(self).entry_pos == old(self).entry_pos,
            final(self).goal_pos == old(self).goal_pos,
            final(self).captured_seen == old(self).captured_seen,
            row < old(self).rows && col < old(self).cols ==> final(self).balls@ == old(
                self,
            ).balls@.push(spawn_sp(row as int, col as int, color)),
            !(row < old(self).rows && col < old(self).cols) ==> final(self).balls@ == old(
                self,
            ).balls@,
    {
        if row < self.rows && col < self.cols {
            proof {
                lemma_mul_upper_bound(col as int, MAX_DIM as int, TILE_FP as int, TILE_FP as int);
                lemma_mul_upper_bound(row as int, MAX_DIM as int, TILE_FP as int, TILE_FP as int);
            }
            let x = (col as i64) * TILE_FP + TILE_FP / 2;
            let y = (row as i64) * TILE_FP + TILE_FP / 2;
            let ball = Ball {
                row,
                col,
                color,
                x,
                y,
                vx: 0,
                vy: 0,
                radius: TILE_FP * 2 / 5,
                alive: true,
                captured: false,
            };
            proof {
                assert(0 <= (col as int) * (TILE_FP as int)) by (nonlinear_arith)
                    requires
                        0 <= col,
                ;
                assert(0 <= (row as int) * (TILE_FP as int)) by (nonlinear_arith)
                    requires
                        0 <= row,
                ;
            }
            self.balls.push(ball);
        }
    }

    /// Turn a `Floor` tile at a non-border cell into a fresh `BreakWall`;
    /// a no-op on any other tile kind, on border cells and outside the grid.
    pub fn draw_wall(&mut self, row: usize, col: usize)
        requires
            old(self).wf(),
        ensures
            final(self).wf(),
            final(self).rows == old(self).rows,
            final(self).cols == old(self).cols,
            final(self).balls == old(self).balls,
            final(self).entry_pos == old(self).entry_pos,
            final(self).goal_pos == old(self).goal_pos,
            final(self).captured_seen == old(self).captured_seen,
            final(self).tiles@ == draw_wall_sp(*old(self), row as int, col as int),
            old(self).border_walled() ==> final(self).border_walled(),
    {
        if 0 < row && row < self.rows - 1 && 0 < col && col < self.cols - 1 {
            proof {
                lemma_rc_index(row as int, col as int, self.rows as int, self.cols as int);
            }
            let idx = row * self.cols + col;
            match self.tiles[idx] {
                Some(t) => {
                    match t.tile_type {
                        TileType::Floor => {
                            self.tiles[idx] = Some(
                                BoardTile { tile_type: TileType::BreakWall, hit_count: 0, ..t },
                            );
                        },
                        _ => {},
                    }
                },
                None => {},
            }
            proof {
                if old(self).border_walled() {
                    assert forall|r: int, c: int|
                        0 <= r < self.rows && 0 <= c < self.cols && (r == 0 || r == self.rows - 1
                            || c == 0 || c == self.cols - 1) implies ((#[trigger] self.tile_at(r, c))
                        matches Some(t)
                        && t.tile_type == TileType::Wall) by {
                        assert(old(self).tile_at(r, c) matches Some(t)
                            && t.tile_type == TileType::Wall);
                        lemma_rc_index(r, c, self.rows as int, self.cols as int);
                        if r * (self.cols as int) + c == row * (self.cols as int) + col {
                            lemma_cell_of_index(r, c, self.cols as int);
                            lemma_cell_of_index(row as int, col as int, self.cols as int);
                        }
                    }
                }
            }
        }
    }

    /// Store a tile at `(row, col)`, with its coordinates normalised to the
    /// cell it is stored in; out-of-range cells are rejected silently.
    pub fn set_tile(&mut self, row: usize, col: usize, tile: BoardTile)
        requires
            old(self).wf(),
        ensures
            final(self).wf(),
            final(self).rows == old(self).rows,
            final(self).cols == old(self).cols,
            final(self).balls == old(self).balls,
            final(self).entry_pos == old(self).entry_pos,
            final(self).goal_pos == old(self).goal_pos,
            final(self).captured_seen == old(self).captured_seen,
            row < old(self).rows && col < old(self).cols ==> final(self).tiles@ == old(
                self,
            ).tiles@.update(
                row * (old(self).cols as int) + col,
                Some(BoardTile { row, col, ..tile }),
            ),
            !(row < old(self).rows && col < old(self).cols) ==> final(self).tiles@ == old(
                self,
            ).tiles@,
    {
        if row < self.rows && col < self.cols {
            proof {
                lemma_rc_index(row as int, col as int, self.rows as int, self.cols as int);
            }
            let idx = row * self.cols + col;
            self.tiles[idx] = Some(BoardTile { row, col, ..tile });
            proof {
                lemma_cell_of_index(row as int, col as int, self.cols as int);
            }
        }
    }
}

/// One ball's whole step of a tick: a live, uncaptured ball is integrated
/// under the engine constants, clamped to the board bounds, and resolved
/// against the overlapping tiles; a dead or captured ball leaves everything
/// unchanged.
pub open spec fn step_ball_sp(
    b: Ball,
    tiles: Seq<Option<BoardTile>>,
    rows: int,
    cols: int,
    dt: nat,
) -> (Ball, Seq<Option<BoardTile>>) {
    if b.alive && !b.captured {
        let b1 = integrate_sp(
            b,
            dt,
            GRAVITY_FP as int,
            FRICTION_NUM as int,
            FRICTION_DEN as int,
        );
        let b2 = bounds_sp(b1, cols * (TILE_FP as int), rows * (TILE_FP as int));
        let res = tile_collision_sp(b2, tiles, rows, cols);
        (res.0, res.1)
    } else {
        (b, tiles)
    }
}

/// The first `k` balls stepped in order, each against the tile grid the
/// previous one left behind.
pub open spec fn tick_balls_sp(
    balls: Seq<Ball>,
    tiles: Seq<Option<BoardTile>>,
    rows: int,
    cols: int,
    dt: nat,
    k: nat,
) -> (Seq<Ball>, Seq<Option<BoardTile>>)
    decreases k,
{
    if k == 0 {
        (balls, tiles)
    } else {
        let prev = tick_balls_sp(balls, tiles, rows, cols, dt, (k - 1) as nat);
        if k - 1 < prev.0.len() {
            let s = step_ball_sp(prev.0[k - 1], prev.1, rows, cols, dt);
            (prev.0.update(k - 1, s.0), s.1)
        } else {
            prev
        }
    }
}

/// The live collection after the prune step: exactly the balls still alive,
/// in order.
pub open spec fn prune_sp(balls: Seq<Ball>) -> Seq<Ball>
    decreases balls.len(),
{
    if balls.len() == 0 {
        Seq::empty()
    } else {
        let rest = prune_sp(balls.drop_last());
        if balls.last().alive {
            rest.push(balls.last())
        } else {
            rest
        }
    }
}

/// Whether any ball of the collection carries the captured flag.
pub open spec fn saw_captured_sp(balls: Seq<Ball>) -> bool
    decreases balls.len(),
{
    if balls.len() == 0 {
        false
    } else {
        saw_captured_sp(balls.drop_last()) || balls.last().captured
    }
}

/// How one tick relates the board after to the board before: the grid and
/// the ball collection are what stepping every ball in order and then
/// pruning the dead ones leaves, the dimensions and the entry and goal cells
/// are untouched, and a pruned captured ball is recorded.
pub open spec fn ticked_sp(pre: GameBoard, post: GameBoard, dt: nat) -> bool {
    let t = tick_balls_sp(
        pre.balls@,
        pre.tiles@,
        pre.rows as int,
        pre.cols as int,
        dt,
        pre.balls@.len() as nat,
    );
    &&& post.rows == pre.rows
    &&& post.cols == pre.cols
    &&& post.entry_pos == pre.entry_pos
    &&& post.goal_pos == pre.goal_pos
    &&& post.tiles@ == t.1
    &&& post.balls@ == prune_sp(t.0)
    &&& post.captured_seen == (pre.captured_seen || saw_captured_sp(t.0))
}

/// `saw_captured_sp` says exactly that some ball is captured.
pub proof fn lemma_saw_captured_exists(balls: Seq<Ball>)
    ensures
        saw_captured_sp(balls) <==> exists|i: int| 0 <= i < balls.len() && balls[i].captured,
    decreases balls.len(),
{
    if balls.len() > 0 {
        lemma_saw_captured_exists(balls.drop_last());
        if saw_captured_sp(balls.drop_last()) {
            let i = choose|i: int|
                0 <= i < balls.drop_last().len() && balls.drop_last()[i].captured;
            assert(balls[i].captured);
        }
        if balls.last().captured {
            assert(balls[balls.len() - 1].captured);
        }
        if exists|i: int| 0 <= i < balls.len() && balls[i].captured {
            let i = choose|i: int| 0 <= i < balls.len() && balls[i].captured;
            if i < balls.len() - 1 {
                assert(balls.drop_last()[i].captured);
            }
        }
    }
}

/// Stepping never changes the number of balls.
pub proof fn lemma_tick_len(
    balls: Seq<Ball>,
    tiles: Seq<Option<BoardTile>>,
    rows: int,
    cols: int,
    dt: nat,
    k: nat,
)
    ensures
        tick_balls_sp(balls, tiles, rows, cols, dt, k).0.len() == balls.len(),
    decreases k,
{
    if k > 0 {
        lemma_tick_len(balls, tiles, rows, cols, dt, (k - 1) as nat);
    }
}

/// Balls at or past the cursor have not been stepped yet.
pub proof fn lemma_tick_untouched(
    balls: Seq<Ball>,
    tiles: Seq<Option<BoardTile>>,
    rows: int,
    cols: int,
    dt: nat,
    k: nat,
)
    ensures
        forall|j: int|
            k <= j < balls.len() ==> tick_balls_sp(balls, tiles, rows, cols, dt, k).0[j]
                == balls[j],
    decreases k,
{
    if k > 0 {
        lemma_tick_untouched(balls, tiles, rows, cols, dt, (k - 1) as nat);
        lemma_tick_len(balls, tiles, rows, cols, dt, (k - 1) as nat);
    }
}

/// A captured ball is never stepped: the tick leaves it exactly as it was.
pub proof fn lemma_tick_keeps_captured(
    balls: Seq<Ball>,
    tiles: Seq<Option<BoardTile>>,
    rows: int,
    cols: int,
    dt: nat,
    k: nat,
)
    ensures
        forall|j: int|
            0 <= j < balls.len() && balls[j].captured ==> tick_balls_sp(
                balls,
                tiles,
                rows,
                cols,
                dt,
                k,
            ).0[j] == balls[j],
    decreases k,
{
    if k > 0 {
        lemma_tick_keeps_captured(balls, tiles, rows, cols, dt, (k - 1) as nat);
        lemma_tick_len(balls, tiles, rows, cols, dt, (k - 1) as nat);
        lemma_tick_untouched(balls, tiles, rows, cols, dt, (k - 1) as nat);
    }
}

/// Whether `(row, col)` lies on the outermost ring of a `rows x cols` grid.
pub open spec fn on_border_sp(row: int, col: int, rows: int, cols: int) -> bool {
    row == 0 || row == rows - 1 || col == 0 || col == cols - 1
}

/// What construction leaves behind: every border cell is a fresh `Wall`,
/// every inner cell but the goal a fresh `Floor`, the goal a fresh gray
/// `Drain`, the entry and goal are distinct inner cells, and exactly one
/// gray ball rests at the entry.
pub open spec fn fresh_board_sp(b: GameBoard, rows: int, cols: int) -> bool {
    &&& b.wf()
    &&& b.rows == rows
    &&& b.cols == cols
    &&& b.border_walled()
    &&& !b.captured_seen
    &&& !b.win_sp()
    &&& b.tile_at(b.goal_pos.0 as int, b.goal_pos.1 as int) == Some(
        BoardTile {
            row: b.goal_pos.0,
            col: b.goal_pos.1,
            tile_type: TileType::Drain(BoardColor::Gray),
            hit_count: 0,
            shadowed: false,
            closest_side: 0,
        },
    )
    &&& forall|rr: int, cc: int|
        0 <= rr < rows && 0 <= cc < cols && !(rr == b.goal_pos.0 && cc == b.goal_pos.1)
            ==> #[trigger] b.tile_at(rr, cc) == Some(
            BoardTile {
                row: rr as usize,
                col: cc as usize,
                tile_type: if on_border_sp(rr, cc, rows, cols) {
                    TileType::Wall
                } else {
                    TileType::Floor
                },
                hit_count: 0,
                shadowed: false,
                closest_side: 0,
            },
        )
    &&& b.balls@ == seq![
        spawn_sp(b.entry_pos.0 as int, b.entry_pos.1 as int, BallColor::Gray),
    ]
}

/// Relies on rand's `thread_rng` and `Rng::gen_range`: a sample from the
/// non-empty range `0..n` is strictly below `n`.
#[verifier::external_body]
fn random_below(n: usize) -> (r: usize)
    requires
        1 <= n,
    ensures
        r < n,
{
    rand::Rng::gen_range(&mut rand::thread_rng(), 0..n)
}

impl GameBoard {
    /// Build a `rows x cols` board: all `Floor`, the outermost ring `Wall`,
    /// a random inner entry cell, a distinct random inner goal cell turned
    /// into a gray `Drain`, and one gray ball spawned at the entry. Rejected
    /// when the grid is too small or too large to hold two distinct inner
    /// cells within the working range.
    pub fn with_size(rows: usize, cols: usize) -> (r: Option<GameBoard>)
        ensures
            r is Some <==> (3 <= rows <= MAX_DIM && 3 <= cols <= MAX_DIM && (rows - 2) * (cols - 2)
                >= 2),
            r matches Some(b) ==> fresh_board_sp(b, rows as int, cols as int),
    {
        if rows < 3 || rows > MAX_DIM || cols < 3 || cols > MAX_DIM {
            return None;
        }
        let inner_rows = rows - 2;
        let inner_cols = cols - 2;
        proof {
            lemma_mul_upper_bound(inner_rows as int, MAX_DIM as int, inner_cols as int,
                MAX_DIM as int);
            assert((inner_rows as int) * (inner_cols as int) >= 1 * 1) by (nonlinear_arith)
                requires
                    1 <= inner_rows,
                    1 <= inner_cols,
            ;
        }
        let n_inner = inner_rows * inner_cols;
        if n_inner < 2 {
            return None;
        }
        proof {
            lemma_mul_upper_bound(rows as int, MAX_DIM as int, cols as int, MAX_DIM as int);
            assert((rows as int) * (cols as int) >= (inner_rows as int) * (inner_cols as int))
                by (nonlinear_arith)
                requires
                    inner_rows < rows,
                    inner_cols < cols,
                    0 <= inner_rows,
                    0 <= inner_cols,
            ;
        }
        let n = rows * cols;
        let mut tiles: Vec<Option<BoardTile>> = Vec::new();
        let mut idx: usize = 0;
        while idx < n
            invariant
                idx <= n,
                n == rows * cols,
                3 <= rows <= MAX_DIM,
                3 <= cols <= MAX_DIM,
                tiles@.len() == idx,
                forall|i: int|
                    0 <= i < idx ==> #[trigger] tiles@[i] == Some(
                        BoardTile {
                            row: (i / (cols as int)) as usize,
                            col: (i % (cols as int)) as usize,
                            tile_type: if on_border_sp(
                                i / (cols as int),
                                i % (cols as int),
                                rows as int,
                                cols as int,
                            ) {
                                TileType::Wall
                            } else {
                                TileType::Floor
                            },
                            hit_count: 0,
                            shadowed: false,
                            closest_side: 0,
                        },
                    ),
            decreases n - idx,
        {
            proof {
                lemma_div_is_ordered(idx as int, n as int - 1, cols as int);
                crate::physics::lemma_rect_last_row(rows as int, cols as int);
                vstd::arithmetic::div_mod::lemma_mod_bound(idx as int, cols as int);
                vstd::arithmetic::div_mod::lemma_div_pos_is_pos(idx as int, cols as int);
            }
            let row = idx / cols;
            let col = idx % cols;
            let kind = if row == 0 || row == rows - 1 || col == 0 || col == cols - 1 {
                TileType::Wall
            } else {
                TileType::Floor
            };
            tiles.push(Some(BoardTile::new(row, col, kind)));
            idx += 1;
        }
        let e = random_below(n_inner);
        proof {
            lemma_div_is_ordered(e as int, n_inner as int - 1, inner_cols as int);
            crate::physics::lemma_rect_last_row(inner_rows as int, inner_cols as int);
            vstd::arithmetic::div_mod::lemma_mod_bound(e as int, inner_cols as int);
            vstd::arithmetic::div_mod::lemma_div_pos_is_pos(e as int, inner_cols as int);
        }
        let entry = (1 + e / inner_cols, 1 + e % inner_cols);
        let g0 = random_below(n_inner - 1);
        let g = if g0 >= e {
            g0 + 1
        } else {
            g0
        };
        proof {
            lemma_div_is_ordered(g as int, n_inner as int - 1, inner_cols as int);
            crate::physics::lemma_rect_last_row(inner_rows as int, inner_cols as int);
            vstd::arithmetic::div_mod::lemma_mod_bound(g as int, inner_cols as int);
            vstd::arithmetic::div_mod::lemma_div_pos_is_pos(g as int, inner_cols as int);
        }
        let goal = (1 + g / inner_cols, 1 + g % inner_cols);
        proof {
            if entry == goal {
                vstd::arithmetic::div_mod::lemma_fundamental_div_mod(e as int, inner_cols as int);
                vstd::arithmetic::div_mod::lemma_fundamental_div_mod(g as int, inner_cols as int);
            }
            lemma_rc_index(goal.0 as int, goal.1 as int, rows as int, cols as int);
        }
        let goal_idx = goal.0 * cols + goal.1;
        tiles[goal_idx] = Some(BoardTile::new(goal.0, goal.1, TileType::Drain(BoardColor::Gray)));
        proof {
            lemma_cell_of_index(goal.0 as int, goal.1 as int, cols as int);
        }
        let mut board = GameBoard {
            rows,
            cols,
            tiles,
            balls: Vec::new(),
            entry_pos: entry,
            goal_pos: goal,
            captured_seen: false,
        };
        proof {
            assert forall|i: int|
                0 <= i < board.tiles.len() implies (#[trigger] board.tiles[i] matches Some(t)
                ==> t.row == i / (board.cols as int) && t.col == i % (board.cols as int)) by {
                lemma_cell_of_index(goal.0 as int, goal.1 as int, cols as int);
            }
        }
        board.add_ball(entry.0, entry.1, BallColor::Gray);
        proof {
            lemma_rc_index(goal.0 as int, goal.1 as int, rows as int, cols as int);
            assert(board.tile_at(goal.0 as int, goal.1 as int) == Some(
                BoardTile {
                    row: goal.0,
                    col: goal.1,
                    tile_type: TileType::Drain(BoardColor::Gray),
                    hit_count: 0,
                    shadowed: false,
                    closest_side: 0,
                },
            ));
            assert forall|rr: int, cc: int|
                0 <= rr < rows && 0 <= cc < cols && !(rr == board.goal_pos.0 && cc
                    == board.goal_pos.1) implies #[trigger] board.tile_at(rr, cc) == Some(
                BoardTile {
                    row: rr as usize,
                    col: cc as usize,
                    tile_type: if on_border_sp(rr, cc, rows as int, cols as int) {
                        TileType::Wall
                    } else {
                        TileType::Floor
                    },
                    hit_count: 0,
                    shadowed: false,
                    closest_side: 0,
                },
            ) by {
                lemma_rc_index(rr, cc, rows as int, cols as int);
                lemma_cell_of_index(rr, cc, cols as int);
                lemma_cell_of_index(goal.0 as int, goal.1 as int, cols as int);
            }
            assert(board.border_walled());
            assert(board.balls@ =~= seq![
                spawn_sp(board.entry_pos.0 as int, board.entry_pos.1 as int, BallColor::Gray),
            ]);
            assert(!board.win_sp());
        }
        Some(board)
    }

    /// Build the default board: `BOARD_ROWS x BOARD_COLS` tiles.
    pub fn new() -> (b: GameBoard)
        ensures
            fresh_board_sp(b, BOARD_ROWS as int, BOARD_COLS as int),
    {
        let r = Self::with_size(BOARD_ROWS, BOARD_COLS);
        proof {
            assert((BOARD_ROWS - 2) * (BOARD_COLS - 2) >= 2) by (nonlinear_arith)
                requires
                    BOARD_ROWS == 17usize && BOARD_COLS == 17usize,
            ;
        }
        r.unwrap()
    }

    /// One tick: every live, uncaptured ball is advanced by the physics
    /// engine and resolved against the bounds and the tiles, in collection
    /// order; then every ball no longer alive is removed, and a removed
    /// captured ball is recorded for the win condition.
    pub fn update_balls(&mut self, dt: u32)
        requires
            old(self).wf(),
            dt <= DT_LIMIT,
        ensures
            final(self).wf(),
            ticked_sp(*old(self), *final(self), dt as nat),
            forall|i: int|
                0 <= i < final(self).balls@.len() ==> (#[trigger] final(self).balls@[i]).alive
                    && !final(self).balls@[i].captured,
            old(self).win_sp() ==> final(self).win_sp(),
            old(self).border_walled() ==> final(self).border_walled(),
    {
        let ghost balls0 = self.balls@;
        let ghost tiles0 = self.tiles@;
        let ghost rows_g = self.rows as int;
        let ghost cols_g = self.cols as int;
        let mut i: usize = 0;
        while i < self.balls.len()
            invariant
                i <= self.balls.len(),
                dt <= DT_LIMIT,
                self.wf(),
                self.balls.len() == balls0.len(),
                self.rows == old(self).rows,
                self.cols == old(self).cols,
                self.entry_pos == old(self).entry_pos,
                self.goal_pos == old(self).goal_pos,
                self.captured_seen == old(self).captured_seen,
                rows_g == self.rows as int,
                cols_g == self.cols as int,
                ({
                    let t = tick_balls_sp(balls0, tiles0, rows_g, cols_g, dt as nat, i as nat);
                    self.balls@ == t.0 && self.tiles@ == t.1
                }),
            decreases self.balls.len() - i,
        {
            proof {
                lemma_tick_untouched(balls0, tiles0, rows_g, cols_g, dt as nat, i as nat);
            }
            let mut b = self.balls[i];
            if b.alive && !b.captured {
                Physics::update_ball_position(&mut b, dt);
                Physics::check_board_bounds(&mut b, self);
                Physics::check_tile_collision(&mut b, self);
                self.balls[i] = b;
            }
            i += 1;
        }
        let ghost stepped = self.balls@;
        let mut kept: Vec<Ball> = Vec::new();
        let mut seen = self.captured_seen;
        let mut j: usize = 0;
        while j < self.balls.len()
            invariant
                j <= self.balls.len(),
                self.wf(),
                self.balls@ == stepped,
                kept@ == prune_sp(stepped.take(j as int)),
                seen == (old(self).captured_seen || saw_captured_sp(stepped.take(j as int))),
                forall|m: int|
                    0 <= m < kept@.len() ==> (#[trigger] kept@[m]).alive && !kept@[m].captured
                        && kept@[m].wf(),
            decreases self.balls.len() - j,
        {
            let b = self.balls[j];
            proof {
                assert(stepped.take(j as int + 1).drop_last() =~= stepped.take(j as int));
                assert(stepped.take(j as int + 1).last() == stepped[j as int]);
            }
            if b.alive {
                kept.push(b);
            } else if b.captured {
                seen = true;
            }
            j += 1;
        }
        proof {
            assert(stepped.take(stepped.len() as int) =~= stepped);
        }
        self.balls = kept;
        self.captured_seen = seen;
        proof {
            if old(self).border_walled() {
                lemma_ticked_border_walled(*old(self), *self, dt as nat);
            }
            if old(self).win_sp() {
                if !old(self).captured_seen {
                    let w = choose|m: int|
                        0 <= m < balls0.len() && balls0[m].captured;
                    lemma_tick_keeps_captured(
                        balls0,
                        tiles0,
                        rows_g,
                        cols_g,
                        dt as nat,
                        balls0.len() as nat,
                    );
                    lemma_tick_len(balls0, tiles0, rows_g, cols_g, dt as nat, balls0.len() as nat);
                    lemma_saw_captured_exists(stepped);
                }
            }
        }
    }
}

/// On a well-formed board a captured ball is never alive; `update_balls`
/// re-establishes well-formedness, so this holds after every tick.
pub proof fn lemma_captured_not_alive(b: GameBoard)
    requires
        b.wf(),
    ensures
        forall|i: int|
            0 <= i < b.balls@.len() ==> ((#[trigger] b.balls@[i]).captured ==> !b.balls@[i].alive),
{
}

/// A ball with the captured flag set makes the board a win, immediately.
pub proof fn lemma_capture_implies_win(b: GameBoard, i: int)
    requires
        0 <= i < b.balls@.len(),
        b.balls@[i].captured,
    ensures
        b.win_sp(),
{
}

/// A whole tick only degrades tiles: each tile is unchanged, or was a
/// `BreakWall` and is now a fresh `Floor`. No tick ever turns a tile back
/// into a `BreakWall`.
pub proof fn lemma_tick_tiles_degrade(
    balls: Seq<Ball>,
    tiles: Seq<Option<BoardTile>>,
    rows: int,
    cols: int,
    dt: nat,
    k: nat,
)
    ensures
        tiles_degrade_sp(tiles, tick_balls_sp(balls, tiles, rows, cols, dt, k).1),
    decreases k,
{
    if k == 0 {
        assert(tiles_degrade_sp(tiles, tiles));
    } else {
        lemma_tick_tiles_degrade(balls, tiles, rows, cols, dt, (k - 1) as nat);
        let prev = tick_balls_sp(balls, tiles, rows, cols, dt, (k - 1) as nat);
        if k - 1 < prev.0.len() {
            let b = prev.0[k - 1];
            if b.alive && !b.captured {
                let b1 = integrate_sp(
                    b,
                    dt,
                    GRAVITY_FP as int,
                    FRICTION_NUM as int,
                    FRICTION_DEN as int,
                );
                let b2 = bounds_sp(b1, cols * (TILE_FP as int), rows * (TILE_FP as int));
                lemma_tile_collision_degrades(b2, prev.1, rows, cols);
                lemma_degrade_trans(tiles, prev.1, tile_collision_sp(b2, prev.1, rows, cols).1);
            }
        }
    }
}

/// Over one tick of a board, the grid only degrades: a `BreakWall` may
/// become a fresh `Floor`, nothing else changes and nothing ever reverts.
pub proof fn lemma_ticked_tiles_degrade(pre: GameBoard, post: GameBoard, dt: nat)
    requires
        ticked_sp(pre, post, dt),
    ensures
        tiles_degrade_sp(pre.tiles@, post.tiles@),
{
    lemma_tick_tiles_degrade(
        pre.balls@,
        pre.tiles@,
        pre.rows as int,
        pre.cols as int,
        dt,
        pre.balls@.len() as nat,
    );
}

/// The border ring stays all `Wall` across a tick: a `Wall` never degrades.
pub proof fn lemma_ticked_border_walled(pre: GameBoard, post: GameBoard, dt: nat)
    requires
        ticked_sp(pre, post, dt),
        pre.wf(),
        pre.border_walled(),
    ensures
        post.border_walled(),
{
    lemma_ticked_tiles_degrade(pre, post, dt);
    assert forall|r: int, c: int|
        0 <= r < post.rows && 0 <= c < post.cols && (r == 0 || r == post.rows - 1 || c == 0 || c
            == post.cols - 1) implies ((#[trigger] post.tile_at(r, c)) matches Some(t)
        && t.tile_type == TileType::Wall) by {
        lemma_rc_index(r, c, pre.rows as int, pre.cols as int);
        let idx = r * (pre.cols as int) + c;
        assert(pre.tile_at(r, c) matches Some(t) && t.tile_type == TileType::Wall);
        assert(post.tiles@[idx] == pre.tiles@[idx] || (pre.tiles@[idx] matches Some(ta)
            && ta.tile_type == TileType::BreakWall && post.tiles@[idx] == Some(
            BoardTile { tile_type: TileType::Floor, hit_count: 0, ..ta },
        )));
    }
}

/// The ball that spawning at cell `(row, col)` creates: at rest at the pixel
/// centre of the cell, with radius `TILE_SIZE / 2.5` in fixed-point.
pub open spec fn spawn_sp(row: int, col: int, color: BallColor) -> Ball {
    Ball {
        row: row as usize,
        col: col as usize,
        color,
        x: (col * TILE_FP + TILE_FP / 2) as i64,
        y: (row * TILE_FP + TILE_FP / 2) as i64,
        vx: 0,
        vy: 0,
        radius: (TILE_FP * 2 / 5) as i64,
        alive: true,
        captured: false,
    }
}

/// The tile grid after drawing a wall at `(row, col)`: a `Floor` tile at a
/// non-border cell becomes a fresh `BreakWall`; anything else is unchanged.
pub open spec fn draw_wall_sp(b: GameBoard, row: int, col: int) -> Seq<Option<BoardTile>> {
    if 0 < row && row < b.rows - 1 && 0 < col && col < b.cols - 1 {
        match b.tile_at(row, col) {
            Some(t) => if t.tile_type == TileType::Floor {
                b.tiles@.update(
                    row * (b.cols as int) + col,
                    Some(BoardTile { tile_type: TileType::BreakWall, hit_count: 0, ..t }),
                )
            } else {
                b.tiles@
            },
            None => b.tiles@,
        }
    } else {
        b.tiles@
    }
}

/// A cell inside the grid has its row-major index inside the flat tile
/// vector.
pub proof fn lemma_rc_index(row: int, col: int, rows: int, cols: int)
    requires
        0 <= row < rows,
        0 <= col < cols,
    ensures
        0 <= row * cols + col < rows * cols,
{
    lemma_mul_inequality(row + 1, rows, cols);
    assert((row + 1) * cols == row * cols + cols) by (nonlinear_arith);
    assert(0 <= row * cols) by (nonlinear_arith)
        requires
            0 <= row,
            0 <= cols,
    ;
}

/// The row-major index maps back to its row and column.
pub proof fn lemma_cell_of_index(row: int, col: int, cols: int)
    requires
        0 <= row,
        0 <= col < cols,
    ensures
        (row * cols + col) / cols == row,
        (row * cols + col) % cols == col,
{
    vstd::arithmetic::div_mod::lemma_fundamental_div_mod_converse(
        row * cols + col,
        cols,
        row,
        col,
    );
}

} // verus!
