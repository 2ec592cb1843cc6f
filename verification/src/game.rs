//! The game session: one board plus auxiliary scalar state, driven once per
//! external tick, with a pause flag that gates the ticks.

use vstd::prelude::*;

verus! {

use crate::ball::{Ball, BallColor};
use crate::board::{
    fresh_board_sp, spawn_sp, ticked_sp, GameBoard, BOARD_COLS, BOARD_ROWS,
};
use crate::fp::{DT_LIMIT, FP_SCALE};

/// One play session: the board, the score bookkeeping and the pause flag.
pub struct Game {
    pub board: GameBoard,
    pub score: u32,
    pub time_remaining: u32,
    pub level: u32,
    pub paused: bool,
}

/// The deterministic colour a click on cell `(row, col)` spawns, cycling
/// through the six colours.
pub open spec fn click_color_sp(row: int, col: int) -> BallColor {
    let m = (row + col) % 6;
    if m == 0 {
        BallColor::Red
    } else if m == 1 {
        BallColor::Blue
    } else if m == 2 {
        BallColor::Green
    } else if m == 3 {
        BallColor::Yellow
    } else if m == 4 {
        BallColor::Cyan
    } else {
        BallColor::Gray
    }
}

/// The ball a click on cell `(row, col)` spawns: at the cell centre, with a
/// small deterministic horizontal velocity and a fixed upward one.
pub open spec fn clicked_ball_sp(row: int, col: int) -> Ball {
    Ball {
        vx: (((row + col) % 5 - 2) * 2 * FP_SCALE) as i64,
        vy: (-3 * FP_SCALE) as i64,
        ..spawn_sp(row, col, click_color_sp(row, col))
    }
}

impl Game {
    /// A fresh session over a default board: five minutes on the clock,
    /// level one, not paused.
    pub fn new() -> (g: Game)
        ensures
            fresh_board_sp(g.board, BOARD_ROWS as int, BOARD_COLS as int),
            g.score == 0,
            g.time_remaining == 300,
            g.level == 1,
            !g.paused,
    {
        Game { board: GameBoard::new(), score: 0, time_remaining: 300, level: 1, paused: false }
    }

    /// Map a pixel click to a grid cell and spawn a ball there with the
    /// deterministic colour and initial velocity; clicks outside the grid
    /// spawn nothing.
    pub fn handle_click(&mut self, x: i32, y: i32, tile_size: i32)
        requires
            old(self).board.wf(),
            0 <= x,
            0 <= y,
            1 <= tile_size,
        ensures
            final(self).board.wf(),
            final(self).score == old(self).score,
            final(self).time_remaining == old(self).time_remaining,
            final(self).level == old(self).level,
            final(self).paused == old(self).paused,
            final(self).board.rows == old(self).board.rows,
            final(self).board.cols == old(self).board.cols,
            final(self).board.tiles == old(self).board.tiles,
            final(self).board.entry_pos == old(self).board.entry_pos,
            final(self).board.goal_pos == old(self).board.goal_pos,
            final(self).board.captured_seen == old(self).board.captured_seen,
            ({
                let row = (y as int) / (tile_size as int);
                let col = (x as int) / (tile_size as int);
                if row < old(self).board.rows && col < old(self).board.cols {
                    final(self).board.balls@ == old(self).board.balls@.push(
                        clicked_ball_sp(row, col),
                    )
                } else {
                    final(self).board.balls@ == old(self).board.balls@
                }
            }),
    {
        let row = (y / tile_size) as usize;
        let col = (x / tile_size) as usize;
        if row < self.board.rows && col < self.board.cols {
            let color_sel = (row + col) % 6;
            let color = if color_sel == 0 {
                BallColor::Red
            } else if color_sel == 1 {
                BallColor::Blue
            } else if color_sel == 2 {
                BallColor::Green
            } else if color_sel == 3 {
                BallColor::Yellow
            } else if color_sel == 4 {
                BallColor::Cyan
            } else {
                BallColor::Gray
            };
            let ghost balls0 = self.board.balls@;
            self.board.add_ball(row, col, color);
            let idx = self.board.balls.len() - 1;
            let mut b = self.board.balls[idx];
            let m5 = ((row + col) % 5) as i64;
            b.vx = (m5 - 2) * 2 * FP_SCALE;
            b.vy = -3 * FP_SCALE;
            self.board.balls[idx] = b;
            proof {
                assert(self.board.balls@ =~= balls0.push(
                    clicked_ball_sp(row as int, col as int),
                ));
            }
        }
    }

    /// One tick of `dt` frames: a no-op while paused, otherwise the board is
    /// advanced and pruned.
    pub fn update(&mut self, dt: u32)
        requires
            old(self).board.wf(),
            dt <= DT_LIMIT,
        ensures
            final(self).board.wf(),
            final(self).score == old(self).score,
            final(self).time_remaining == old(self).time_remaining,
            final(self).level == old(self).level,
            final(self).paused == old(self).paused,
            old(self).paused ==> *final(self) == *old(self),
            !old(self).paused ==> ticked_sp(old(self).board, final(self).board, dt as nat),
            !old(self).paused ==> (forall|i: int|
                0 <= i < final(self).board.balls@.len() ==> (#[trigger] final(self).board.balls@[i]).alive
                    && !final(self).board.balls@[i].captured),
            old(self).board.win_sp() ==> final(self).board.win_sp(),
            old(self).board.border_walled() ==> final(self).board.border_walled(),
    {
        if self.paused {
            return ;
        }
        self.board.update_balls(dt);
    }

    /// Flip the pause flag; nothing else changes.
    pub fn toggle_pause(&mut self)
        ensures
            final(self).paused == !old(self).paused,
            final(self).board == old(self).board,
            final(self).score == old(self).score,
            final(self).time_remaining == old(self).time_remaining,
            final(self).level == old(self).level,
    {
        self.paused = !self.paused;
    }
}

} // verus!
