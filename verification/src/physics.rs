//! The physics engine: stateless transformations of a ball against the
//! board. Integration applies gravity, exponential friction decay and the
//! position advance; the collision functions clamp the ball to the board and
//! resolve contacts tile kind by tile kind.

use vstd::prelude::*;

verus! {

use crate::ball::{colors_match, colors_match_sp, Ball};
use crate::board::{lemma_cell_of_index, lemma_rc_index, GameBoard, MAX_DIM, TILE_FP};
use vstd::arithmetic::div_mod::lemma_div_is_ordered;
use crate::fp::{
    abs_fp, cell_fp, cell_sp, clamp_fp, clamp_sp, clamp_to, clamp_to_sp, isqrt64, isqrt_sp,
    lemma_root_dominates, lemma_scale_identity, lemma_scale_shrinks, muldiv_fp, scale_fp, scale_sp,
    DT_LIMIT, FRAC_LIMIT, POS_LIMIT, RADIUS_LIMIT, VEL_LIMIT,
};
use crate::tile::{BoardColor, BoardTile, Direction, TileType};
use vstd::arithmetic::mul::lemma_mul_upper_bound;
use vstd::math::abs;

/// Gravity acceleration, in fixed-point pixels per frame squared (0.15).
pub const GRAVITY_FP: i64 = 150;

/// Friction keeps this fraction of the velocity each frame (0.99).
pub const FRICTION_NUM: i64 = 990;

/// Denominator of the friction fraction.
pub const FRICTION_DEN: i64 = 1000;

/// A bounce keeps this fraction of the speed on the reflected axis (0.8).
pub const BOUNCE_NUM: i64 = 800;

/// Denominator of the bounce fraction.
pub const BOUNCE_DEN: i64 = 1000;

/// A bumper boosts the speed by this fraction (1.2).
pub const BUMPER_NUM: i64 = 1200;

/// Denominator of the bumper fraction.
pub const BUMPER_DEN: i64 = 1000;

/// Largest gravity value `integrate` accepts, in fixed-point units.
pub const GRAVITY_LIMIT: i64 = 2_000;

/// Stateless physics operations on balls.
pub struct Physics;

/// `v` after `k` frames of friction: the fraction `num / den` applied `k`
/// times in sign-magnitude fixed-point.
pub open spec fn fric_pow(v: int, num: int, den: int, k: nat) -> int
    decreases k,
{
    if k == 0 {
        v
    } else {
        scale_sp(fric_pow(v, num, den, (k - 1) as nat), num, den)
    }
}

/// Friction with a fraction equal to one leaves the velocity unchanged.
pub proof fn lemma_fric_pow_identity(v: int, den: int, k: nat)
    requires
        1 <= den,
    ensures
        fric_pow(v, den, den, k) == v,
    decreases k,
{
    if k > 0 {
        lemma_fric_pow_identity(v, den, (k - 1) as nat);
        lemma_scale_identity(v, den);
    }
}

/// Friction with a fraction at most one never grows the magnitude.
pub proof fn lemma_fric_pow_shrinks(v: int, num: int, den: int, k: nat)
    requires
        1 <= den,
        0 <= num <= den,
    ensures
        v >= 0 ==> 0 <= fric_pow(v, num, den, k) <= v,
        v < 0 ==> v <= fric_pow(v, num, den, k) <= 0,
    decreases k,
{
    if k > 0 {
        lemma_fric_pow_shrinks(v, num, den, (k - 1) as nat);
        lemma_scale_shrinks(fric_pow(v, num, den, (k - 1) as nat), num, den);
    }
}

/// One integration step of size `dt` frames: gravity is added to the
/// vertical velocity, friction decays both components exponentially, the
/// position advances by `velocity * dt`, and the grid cell is recomputed
/// from the new position. Velocity and position saturate at the fixed-point
/// working range.
pub open spec fn integrate_sp(b: Ball, dt: nat, g: int, fnum: int, fden: int) -> Ball {
    let vy1 = clamp_sp(b.vy + g * dt, VEL_LIMIT as int);
    let vx2 = fric_pow(b.vx as int, fnum, fden, dt);
    let vy2 = fric_pow(vy1, fnum, fden, dt);
    let x2 = clamp_sp(b.x + vx2 * dt, POS_LIMIT as int);
    let y2 = clamp_sp(b.y + vy2 * dt, POS_LIMIT as int);
    Ball {
        row: cell_sp(y2, TILE_FP as int) as usize,
        col: cell_sp(x2, TILE_FP as int) as usize,
        x: x2 as i64,
        y: y2 as i64,
        vx: vx2 as i64,
        vy: vy2 as i64,
        ..b
    }
}

/// `b` after `n` integration steps of size `dt`.
pub open spec fn integrate_n_sp(b: Ball, n: nat, dt: nat, g: int, fnum: int, fden: int) -> Ball
    decreases n,
{
    if n == 0 {
        b
    } else {
        integrate_sp(integrate_n_sp(b, (n - 1) as nat, dt, g, fnum, fden), dt, g, fnum, fden)
    }
}

impl Physics {
    /// Advance a live, uncaptured ball by one step of `dt` frames with the
    /// given gravity and friction fraction; a no-op for a dead or captured
    /// ball.
    pub fn integrate(ball: &mut Ball, dt: u32, gravity: i64, fric_num: i64, fric_den: i64)
        requires
            old(ball).wf(),
            dt <= DT_LIMIT,
            0 <= gravity <= GRAVITY_LIMIT,
            1 <= fric_den <= FRAC_LIMIT,
            0 <= fric_num <= fric_den,
        ensures
            old(ball).alive && !old(ball).captured ==> *final(ball) == integrate_sp(
                *old(ball),
                dt as nat,
                gravity as int,
                fric_num as int,
                fric_den as int,
            ),
            !(old(ball).alive && !old(ball).captured) ==> *final(ball) == *old(ball),
            final(ball).wf(),
    {
        if !ball.alive || ball.captured {
            return ;
        }
        let b = *ball;
        proof {
            lemma_mul_upper_bound(gravity as int, GRAVITY_LIMIT as int, dt as int, DT_LIMIT as int);
            assert(0 <= (gravity as int) * (dt as int)) by (nonlinear_arith)
                requires
                    0 <= gravity,
                    0 <= dt,
            ;
        }
        let vy1 = clamp_fp(b.vy + gravity * (dt as i64), VEL_LIMIT);
        let mut vx: i64 = b.vx;
        let mut vy: i64 = vy1;
        let mut i: u32 = 0;
        while i < dt
            invariant
                i <= dt,
                1 <= fric_den <= FRAC_LIMIT,
                0 <= fric_num <= fric_den,
                -VEL_LIMIT <= b.vx <= VEL_LIMIT,
                -VEL_LIMIT <= vy1 <= VEL_LIMIT,
                vx == fric_pow(b.vx as int, fric_num as int, fric_den as int, i as nat),
                vy == fric_pow(vy1 as int, fric_num as int, fric_den as int, i as nat),
                -VEL_LIMIT <= vx <= VEL_LIMIT,
                -VEL_LIMIT <= vy <= VEL_LIMIT,
            decreases dt - i,
        {
            vx = scale_fp(vx, fric_num, fric_den);
            vy = scale_fp(vy, fric_num, fric_den);
            i = i + 1;
        }
        proof {
            lemma_vel_times_dt(vx as int, dt as int);
            lemma_vel_times_dt(vy as int, dt as int);
        }
        let x2 = clamp_fp(b.x + vx * (dt as i64), POS_LIMIT);
        let y2 = clamp_fp(b.y + vy * (dt as i64), POS_LIMIT);
        let row = cell_fp(y2, TILE_FP);
        let col = cell_fp(x2, TILE_FP);
        *ball = Ball { row, col, x: x2, y: y2, vx, vy, ..b };
    }

    /// Advance a ball by `dt` frames under the engine's gravity and
    /// friction constants; a no-op for a dead or captured ball.
    pub fn update_ball_position(ball: &mut Ball, dt: u32)
        requires
            old(ball).wf(),
            dt <= DT_LIMIT,
        ensures
            old(ball).alive && !old(ball).captured ==> *final(ball) == integrate_sp(
                *old(ball),
                dt as nat,
                GRAVITY_FP as int,
                FRICTION_NUM as int,
                FRICTION_DEN as int,
            ),
            !(old(ball).alive && !old(ball).captured) ==> *final(ball) == *old(ball),
            final(ball).wf(),
    {
        Self::integrate(ball, dt, GRAVITY_FP, FRICTION_NUM, FRICTION_DEN)
    }
}

/// A reflected velocity: the sign is flipped and the bounce fraction keeps
/// only part of the speed.
pub open spec fn bounce_sp(v: int) -> int {
    scale_sp(-v, BOUNCE_NUM as int, BOUNCE_DEN as int)
}

/// Whether the ball's whole extent lies inside `[0, w] x [0, h]`.
pub open spec fn in_bounds_sp(b: Ball, w: int, h: int) -> bool {
    &&& b.x - b.radius >= 0
    &&& b.x + b.radius <= w
    &&& b.y - b.radius >= 0
    &&& b.y + b.radius <= h
}

/// The ball after the bounds check: each axis whose extent leaves
/// `[0, w] x [0, h]` is clamped flush to the border and its velocity is
/// reflected with the bounce loss.
pub open spec fn bounds_sp(b: Ball, w: int, h: int) -> Ball {
    let x2 = if b.x - b.radius < 0 {
        b.radius as int
    } else if b.x + b.radius > w {
        w - b.radius
    } else {
        b.x as int
    };
    let vx2 = if b.x - b.radius < 0 || b.x + b.radius > w {
        bounce_sp(b.vx as int)
    } else {
        b.vx as int
    };
    let y2 = if b.y - b.radius < 0 {
        b.radius as int
    } else if b.y + b.radius > h {
        h - b.radius
    } else {
        b.y as int
    };
    let vy2 = if b.y - b.radius < 0 || b.y + b.radius > h {
        bounce_sp(b.vy as int)
    } else {
        b.vy as int
    };
    Ball { x: x2 as i64, y: y2 as i64, vx: vx2 as i64, vy: vy2 as i64, ..b }
}

/// Width of a board in fixed-point units.
pub open spec fn board_w_sp(board: GameBoard) -> int {
    (board.cols as int) * (TILE_FP as int)
}

/// Height of a board in fixed-point units.
pub open spec fn board_h_sp(board: GameBoard) -> int {
    (board.rows as int) * (TILE_FP as int)
}

impl Physics {
    /// Clamp the ball's extent into the board and reflect the velocity on
    /// each clamped axis; reports whether any clamp occurred.
    pub fn check_board_bounds(ball: &mut Ball, board: &GameBoard) -> (collided: bool)
        requires
            old(ball).wf(),
            board.wf(),
        ensures
            *final(ball) == bounds_sp(*old(ball), board_w_sp(*board), board_h_sp(*board)),
            collided == !in_bounds_sp(*old(ball), board_w_sp(*board), board_h_sp(*board)),
            final(ball).wf(),
    {
        proof {
            lemma_mul_upper_bound(
                board.cols as int,
                crate::board::MAX_DIM as int,
                TILE_FP as int,
                TILE_FP as int,
            );
            lemma_mul_upper_bound(
                board.rows as int,
                crate::board::MAX_DIM as int,
                TILE_FP as int,
                TILE_FP as int,
            );
            assert(3 * (TILE_FP as int) <= (board.cols as int) * (TILE_FP as int))
                by (nonlinear_arith)
                requires
                    3 <= board.cols,
            ;
            assert(3 * (TILE_FP as int) <= (board.rows as int) * (TILE_FP as int))
                by (nonlinear_arith)
                requires
                    3 <= board.rows,
            ;
        }
        let board_width = (board.cols as i64) * TILE_FP;
        let board_height = (board.rows as i64) * TILE_FP;
        let mut collided = false;
        if ball.x - ball.radius < 0 {
            ball.x = ball.radius;
            ball.vx = scale_fp(-ball.vx, BOUNCE_NUM, BOUNCE_DEN);
            collided = true;
        } else if ball.x + ball.radius > board_width {
            ball.x = board_width - ball.radius;
            ball.vx = scale_fp(-ball.vx, BOUNCE_NUM, BOUNCE_DEN);
            collided = true;
        }
        if ball.y - ball.radius < 0 {
            ball.y = ball.radius;
            ball.vy = scale_fp(-ball.vy, BOUNCE_NUM, BOUNCE_DEN);
            collided = true;
        } else if ball.y + ball.radius > board_height {
            ball.y = board_height - ball.radius;
            ball.vy = scale_fp(-ball.vy, BOUNCE_NUM, BOUNCE_DEN);
            collided = true;
        }
        collided
    }
}

/// Whether the ball's disc overlaps the square tile of cell `(row, col)`:
/// the distance from the ball centre to the closest point of the square is
/// below the radius.
pub open spec fn wall_overlap_sp(b: Ball, row: int, col: int) -> bool {
    let tx = col * (TILE_FP as int);
    let ty = row * (TILE_FP as int);
    let px = clamp_to_sp(b.x as int, tx, tx + TILE_FP);
    let py = clamp_to_sp(b.y as int, ty, ty + TILE_FP);
    let dx = b.x - px;
    let dy = b.y - py;
    dx * dx + dy * dy < b.radius * b.radius
}

/// Whether a wall contact at cell `(row, col)` resolves on the horizontal
/// axis: the ball centre is farther from the tile centre horizontally than
/// vertically.
pub open spec fn wall_horizontal_sp(b: Ball, row: int, col: int) -> bool {
    let cx = col * (TILE_FP as int) + TILE_FP / 2;
    let cy = row * (TILE_FP as int) + TILE_FP / 2;
    abs(b.x - cx) > abs(b.y - cy)
}

/// The ball after a wall-style contact with the tile of cell `(row, col)`,
/// and whether contact happened. On overlap, the velocity on the dominant
/// penetration axis is reflected with the bounce loss and the ball is
/// repositioned flush against the tile edge on that axis.
pub open spec fn wall_deflect_sp(b: Ball, row: int, col: int) -> (Ball, bool) {
    let tx = col * (TILE_FP as int);
    let ty = row * (TILE_FP as int);
    let cx = tx + TILE_FP / 2;
    let cy = ty + TILE_FP / 2;
    if wall_overlap_sp(b, row, col) {
        if wall_horizontal_sp(b, row, col) {
            let x2 = if b.x < cx {
                tx - b.radius
            } else {
                tx + TILE_FP + b.radius
            };
            (Ball { x: x2 as i64, vx: bounce_sp(b.vx as int) as i64, ..b }, true)
        } else {
            let y2 = if b.y < cy {
                ty - b.radius
            } else {
                ty + TILE_FP + b.radius
            };
            (Ball { y: y2 as i64, vy: bounce_sp(b.vy as int) as i64, ..b }, true)
        }
    } else {
        (b, false)
    }
}

/// The ball after a chevron contact: a wall-style deflection whose outgoing
/// velocity sign on the chevron's axis is forced to the chevron's direction.
/// Diagonal directions deflect like a plain wall.
pub open spec fn chevron_sp(b: Ball, row: int, col: int, dir: Direction) -> (Ball, bool) {
    let (b1, hit) = wall_deflect_sp(b, row, col);
    if hit {
        let b2 = match dir {
            Direction::Up => Ball { vy: -abs(b1.vy as int) as i64, ..b1 },
            Direction::Down => Ball { vy: abs(b1.vy as int) as i64, ..b1 },
            Direction::Left => Ball { vx: -abs(b1.vx as int) as i64, ..b1 },
            Direction::Right => Ball { vx: abs(b1.vx as int) as i64, ..b1 },
            _ => b1,
        };
        (b2, true)
    } else {
        (b, false)
    }
}

/// The ball after a bumper contact at cell `(row, col)`, and whether contact
/// happened. Within reach, the velocity is redirected outward along the
/// vector from the bumper centre to the ball, boosted by the bumper
/// fraction and saturated at the working range, and the ball is repositioned
/// just outside the bumper's reach along the same vector. A ball exactly at
/// the centre leaves to the right.
pub open spec fn bumper_sp(b: Ball, row: int, col: int) -> (Ball, bool) {
    let cx = col * (TILE_FP as int) + TILE_FP / 2;
    let cy = row * (TILE_FP as int) + TILE_FP / 2;
    let dx = b.x - cx;
    let dy = b.y - cy;
    let reach = b.radius + TILE_FP / 2;
    if dx * dx + dy * dy < reach * reach {
        let dist = isqrt_sp((dx * dx + dy * dy) as nat) as int;
        let speed0 = isqrt_sp((b.vx * b.vx + b.vy * b.vy) as nat) as int;
        let speed = clamp_sp(
            scale_sp(speed0, BUMPER_NUM as int, BUMPER_DEN as int),
            VEL_LIMIT as int,
        );
        if dist == 0 {
            (Ball { x: (cx + reach) as i64, vx: speed as i64, vy: 0, ..b }, true)
        } else {
            (
                Ball {
                    x: (cx + scale_sp(dx, reach, dist)) as i64,
                    y: (cy + scale_sp(dy, reach, dist)) as i64,
                    vx: scale_sp(dx, speed, dist) as i64,
                    vy: scale_sp(dy, speed, dist) as i64,
                    ..b
                },
                true,
            )
        }
    } else {
        (b, false)
    }
}

/// The ball after a drain check at cell `(row, col)`, and whether it was
/// captured. A drain captures the ball iff the ball centre is within a
/// quarter tile of the drain centre and the colours match; otherwise the
/// ball is untouched.
pub open spec fn drain_sp(b: Ball, row: int, col: int, color: BoardColor) -> (Ball, bool) {
    let cx = col * (TILE_FP as int) + TILE_FP / 2;
    let cy = row * (TILE_FP as int) + TILE_FP / 2;
    let dx = b.x - cx;
    let dy = b.y - cy;
    let cap = TILE_FP / 4;
    if dx * dx + dy * dy < cap * cap && colors_match_sp(b.color, color) {
        (Ball { captured: true, alive: false, ..b }, true)
    } else {
        (b, false)
    }
}

/// Whether a one-way force field pointing in `dir` blocks a ball moving
/// with velocity `(vx, vy)`: it blocks exactly the balls moving against its
/// direction. Diagonal directions never block.
pub open spec fn owf_blocks_sp(dir: Direction, vx: int, vy: int) -> bool {
    match dir {
        Direction::Up => vy > 0,
        Direction::Down => vy < 0,
        Direction::Left => vx > 0,
        Direction::Right => vx < 0,
        _ => false,
    }
}

/// The ball after a one-way force field at cell `(row, col)`: a wall-style
/// deflection when the field blocks it, untouched otherwise.
pub open spec fn owf_sp(b: Ball, row: int, col: int, dir: Direction) -> (Ball, bool) {
    if owf_blocks_sp(dir, b.vx as int, b.vy as int) {
        wall_deflect_sp(b, row, col)
    } else {
        (b, false)
    }
}

/// One candidate cell processed against the ball: the new ball, the new
/// tile of that cell, and whether a collision happened. Only a `BreakWall`
/// mutates: one deflecting contact reverts it to `Floor`.
pub open spec fn collide_cell_sp(b: Ball, t: Option<BoardTile>) -> (Ball, Option<BoardTile>, bool) {
    match t {
        None => (b, t, false),
        Some(tile) => {
            let r = tile.row as int;
            let c = tile.col as int;
            match tile.tile_type {
                TileType::Floor => (b, t, false),
                TileType::Wall => {
                    let (b2, hit) = wall_deflect_sp(b, r, c);
                    (b2, t, hit)
                },
                TileType::BreakWall => {
                    let (b2, hit) = wall_deflect_sp(b, r, c);
                    if hit {
                        (
                            b2,
                            Some(BoardTile { tile_type: TileType::Floor, hit_count: 0, ..tile }),
                            true,
                        )
                    } else {
                        (b2, t, false)
                    }
                },
                TileType::Bumper => {
                    let (b2, hit) = bumper_sp(b, r, c);
                    (b2, t, hit)
                },
                TileType::Chevron(d) => {
                    let (b2, hit) = chevron_sp(b, r, c, d);
                    (b2, t, hit)
                },
                TileType::Drain(color) => {
                    let (b2, hit) = drain_sp(b, r, c, color);
                    (b2, t, hit)
                },
                TileType::RLColored(_) => {
                    let (b2, hit) = wall_deflect_sp(b, r, c);
                    (b2, t, hit)
                },
                TileType::RLGray => {
                    let (b2, hit) = wall_deflect_sp(b, r, c);
                    (b2, t, hit)
                },
                TileType::OneWayForce(d) => {
                    let (b2, hit) = owf_sp(b, r, c, d);
                    (b2, t, hit)
                },
            }
        },
    }
}

impl Physics {
    /// Wall-style contact of the ball with the square tile of `(row, col)`.
    fn deflect_from_wall(ball: &mut Ball, row: usize, col: usize) -> (hit: bool)
        requires
            old(ball).wf(),
            row < MAX_DIM,
            col < MAX_DIM,
        ensures
            *final(ball) == wall_deflect_sp(*old(ball), row as int, col as int).0,
            hit == wall_deflect_sp(*old(ball), row as int, col as int).1,
            final(ball).wf(),
    {
        proof {
            lemma_mul_upper_bound(col as int, MAX_DIM as int, TILE_FP as int, TILE_FP as int);
            lemma_mul_upper_bound(row as int, MAX_DIM as int, TILE_FP as int, TILE_FP as int);
            assert(0 <= (col as int) * (TILE_FP as int)) by (nonlinear_arith)
                requires
                    0 <= col,
            ;
            assert(0 <= (row as int) * (TILE_FP as int)) by (nonlinear_arith)
                requires
                    0 <= row,
            ;
        }
        let tx = (col as i64) * TILE_FP;
        let ty = (row as i64) * TILE_FP;
        let px = clamp_to(ball.x, tx, tx + TILE_FP);
        let py = clamp_to(ball.y, ty, ty + TILE_FP);
        let dx = ball.x - px;
        let dy = ball.y - py;
        let r = ball.radius;
        if dx <= -r || dx >= r || dy <= -r || dy >= r {
            proof {
                lemma_far_axis_no_overlap(dx as int, dy as int, r as int);
            }
            return false;
        }
        proof {
            lemma_square_bound(dx as int, RADIUS_LIMIT as int);
            lemma_square_bound(dy as int, RADIUS_LIMIT as int);
            lemma_square_bound(r as int, RADIUS_LIMIT as int);
        }
        if dx * dx + dy * dy < r * r {
            let cx = tx + TILE_FP / 2;
            let cy = ty + TILE_FP / 2;
            let dxa = abs_fp(ball.x - cx);
            let dya = abs_fp(ball.y - cy);
            if dxa > dya {
                ball.vx = scale_fp(-ball.vx, BOUNCE_NUM, BOUNCE_DEN);
                if ball.x < cx {
                    ball.x = tx - r;
                } else {
                    ball.x = tx + TILE_FP + r;
                }
            } else {
                ball.vy = scale_fp(-ball.vy, BOUNCE_NUM, BOUNCE_DEN);
                if ball.y < cy {
                    ball.y = ty - r;
                } else {
                    ball.y = ty + TILE_FP + r;
                }
            }
            true
        } else {
            false
        }
    }

    /// Chevron contact: a wall-style deflection, then the velocity sign on
    /// the chevron's axis is forced to its direction.
    fn deflect_from_chevron(ball: &mut Ball, row: usize, col: usize, dir: Direction) -> (hit: bool)
        requires
            old(ball).wf(),
            row < MAX_DIM,
            col < MAX_DIM,
        ensures
            *final(ball) == chevron_sp(*old(ball), row as int, col as int, dir).0,
            hit == chevron_sp(*old(ball), row as int, col as int, dir).1,
            final(ball).wf(),
    {
        let hit = Self::deflect_from_wall(ball, row, col);
        if hit {
            match dir {
                Direction::Up => {
                    let a = abs_fp(ball.vy);
                    ball.vy = -a;
                },
                Direction::Down => {
                    ball.vy = abs_fp(ball.vy);
                },
                Direction::Left => {
                    let a = abs_fp(ball.vx);
                    ball.vx = -a;
                },
                Direction::Right => {
                    ball.vx = abs_fp(ball.vx);
                },
                _ => {},
            }
            true
        } else {
            false
        }
    }

    /// Bumper contact: within reach, redirect the velocity outward from the
    /// bumper centre with a speed boost and reposition the ball just outside
    /// the reach.
    fn deflect_from_bumper(ball: &mut Ball, row: usize, col: usize) -> (hit: bool)
        requires
            old(ball).wf(),
            row < MAX_DIM,
            col < MAX_DIM,
        ensures
            *final(ball) == bumper_sp(*old(ball), row as int, col as int).0,
            hit == bumper_sp(*old(ball), row as int, col as int).1,
            final(ball).wf(),
    {
        proof {
            lemma_mul_upper_bound(col as int, MAX_DIM as int, TILE_FP as int, TILE_FP as int);
            lemma_mul_upper_bound(row as int, MAX_DIM as int, TILE_FP as int, TILE_FP as int);
            assert(0 <= (col as int) * (TILE_FP as int)) by (nonlinear_arith)
                requires
                    0 <= col,
            ;
            assert(0 <= (row as int) * (TILE_FP as int)) by (nonlinear_arith)
                requires
                    0 <= row,
            ;
        }
        let cx = (col as i64) * TILE_FP + TILE_FP / 2;
        let cy = (row as i64) * TILE_FP + TILE_FP / 2;
        let dx = ball.x - cx;
        let dy = ball.y - cy;
        let reach = ball.radius + TILE_FP / 2;
        if dx <= -reach || dx >= reach || dy <= -reach || dy >= reach {
            proof {
                lemma_far_axis_no_overlap(dx as int, dy as int, reach as int);
            }
            return false;
        }
        proof {
            lemma_square_bound(dx as int, 2_000_000);
            lemma_square_bound(dy as int, 2_000_000);
            lemma_square_bound(reach as int, 2_000_000);
        }
        let d2 = dx * dx + dy * dy;
        if d2 < reach * reach {
            proof {
                lemma_square_bound(ball.vx as int, VEL_LIMIT as int);
                lemma_square_bound(ball.vy as int, VEL_LIMIT as int);
            }
            let sp2 = ball.vx * ball.vx + ball.vy * ball.vy;
            let speed0 = isqrt64(sp2 as u64);
            proof {
                assert((sp2 as int) < (2_000_000_001int) * (2_000_000_001int)) by (nonlinear_arith)
                    requires
                        sp2 <= 2_000_000_000_000_000_000i64,
                ;
                lemma_root_dominates(speed0 as int, 2_000_000_000int, sp2 as int);
            }
            let speed = clamp_fp(scale_fp(speed0 as i64, BUMPER_NUM, BUMPER_DEN), VEL_LIMIT);
            let dist = isqrt64(d2 as u64);
            proof {
                assert((d2 as int) < (3_000_001int) * (3_000_001int)) by (nonlinear_arith)
                    requires
                        d2 <= 8_000_000_000_000i64,
                ;
                lemma_root_dominates(dist as int, 3_000_000int, d2 as int);
            }
            if dist == 0 {
                ball.x = cx + reach;
                ball.vx = speed;
                ball.vy = 0;
                true
            } else {
                proof {
                    assert(abs(dx as int) * abs(dx as int) <= d2 as int) by (nonlinear_arith)
                        requires
                            d2 == dx * dx + dy * dy,
                    ;
                    assert(abs(dy as int) * abs(dy as int) <= d2 as int) by (nonlinear_arith)
                        requires
                            d2 == dx * dx + dy * dy,
                    ;
                    lemma_root_dominates(abs(dx as int) as int, dist as int, d2 as int);
                    lemma_root_dominates(abs(dy as int) as int, dist as int, d2 as int);
                }
                let di = dist as i64;
                let vx2 = muldiv_fp(dx, speed, di);
                let vy2 = muldiv_fp(dy, speed, di);
                let px = muldiv_fp(dx, reach, di);
                let py = muldiv_fp(dy, reach, di);
                ball.x = cx + px;
                ball.y = cy + py;
                ball.vx = vx2;
                ball.vy = vy2;
                true
            }
        } else {
            false
        }
    }

    /// Drain check: capture the ball iff it is within a quarter tile of the
    /// drain centre and the colours match.
    fn check_drain_capture(ball: &mut Ball, row: usize, col: usize, color: BoardColor) -> (hit:
        bool)
        requires
            old(ball).wf(),
            row < MAX_DIM,
            col < MAX_DIM,
        ensures
            *final(ball) == drain_sp(*old(ball), row as int, col as int, color).0,
            hit == drain_sp(*old(ball), row as int, col as int, color).1,
            final(ball).wf(),
    {
        proof {
            lemma_mul_upper_bound(col as int, MAX_DIM as int, TILE_FP as int, TILE_FP as int);
            lemma_mul_upper_bound(row as int, MAX_DIM as int, TILE_FP as int, TILE_FP as int);
            assert(0 <= (col as int) * (TILE_FP as int)) by (nonlinear_arith)
                requires
                    0 <= col,
            ;
            assert(0 <= (row as int) * (TILE_FP as int)) by (nonlinear_arith)
                requires
                    0 <= row,
            ;
        }
        let cx = (col as i64) * TILE_FP + TILE_FP / 2;
        let cy = (row as i64) * TILE_FP + TILE_FP / 2;
        let dx = ball.x - cx;
        let dy = ball.y - cy;
        let cap = TILE_FP / 4;
        if dx <= -cap || dx >= cap || dy <= -cap || dy >= cap {
            proof {
                lemma_far_axis_no_overlap(dx as int, dy as int, cap as int);
            }
            return false;
        }
        proof {
            lemma_square_bound(dx as int, TILE_FP as int);
            lemma_square_bound(dy as int, TILE_FP as int);
            lemma_square_bound(cap as int, TILE_FP as int);
        }
        if dx * dx + dy * dy < cap * cap {
            if colors_match(ball.color, color) {
                ball.captured = true;
                ball.alive = false;
                true
            } else {
                false
            }
        } else {
            false
        }
    }

    /// One-way force field: a wall-style deflection for a ball moving
    /// against the field's direction, a pass-through otherwise.
    fn deflect_from_owf(ball: &mut Ball, row: usize, col: usize, dir: Direction) -> (hit: bool)
        requires
            old(ball).wf(),
            row < MAX_DIM,
            col < MAX_DIM,
        ensures
            *final(ball) == owf_sp(*old(ball), row as int, col as int, dir).0,
            hit == owf_sp(*old(ball), row as int, col as int, dir).1,
            final(ball).wf(),
    {
        let block = match dir {
            Direction::Up => ball.vy > 0,
            Direction::Down => ball.vy < 0,
            Direction::Left => ball.vx > 0,
            Direction::Right => ball.vx < 0,
            _ => false,
        };
        if block {
            Self::deflect_from_wall(ball, row, col)
        } else {
            false
        }
    }

    /// Process one candidate cell against the ball: dispatch on the tile
    /// kind, and return the cell's new tile and whether a collision
    /// happened.
    fn collide_cell(ball: &mut Ball, t: Option<BoardTile>) -> (res: (Option<BoardTile>, bool))
        requires
            old(ball).wf(),
            (t matches Some(tile) ==> tile.row < MAX_DIM && tile.col < MAX_DIM),
        ensures
            *final(ball) == collide_cell_sp(*old(ball), t).0,
            res.0 == collide_cell_sp(*old(ball), t).1,
            res.1 == collide_cell_sp(*old(ball), t).2,
            final(ball).wf(),
    {
        match t {
            None => (None, false),
            Some(tile) => {
                match tile.tile_type {
                    TileType::Floor => (Some(tile), false),
                    TileType::Wall => {
                        let h = Self::deflect_from_wall(ball, tile.row, tile.col);
                        (Some(tile), h)
                    },
                    TileType::BreakWall => {
                        let h = Self::deflect_from_wall(ball, tile.row, tile.col);
                        if h {
                            (
                                Some(
                                    BoardTile {
                                        tile_type: TileType::Floor,
                                        hit_count: 0,
                                        ..tile
                                    },
                                ),
                                true,
                            )
                        } else {
                            (Some(tile), false)
                        }
                    },
                    TileType::Bumper => {
                        let h = Self::deflect_from_bumper(ball, tile.row, tile.col);
                        (Some(tile), h)
                    },
                    TileType::Chevron(d) => {
                        let h = Self::deflect_from_chevron(ball, tile.row, tile.col, d);
                        (Some(tile), h)
                    },
                    TileType::Drain(c) => {
                        let h = Self::check_drain_capture(ball, tile.row, tile.col, c);
                        (Some(tile), h)
                    },
                    TileType::RLColored(_) => {
                        let h = Self::deflect_from_wall(ball, tile.row, tile.col);
                        (Some(tile), h)
                    },
                    TileType::RLGray => {
                        let h = Self::deflect_from_wall(ball, tile.row, tile.col);
                        (Some(tile), h)
                    },
                    TileType::OneWayForce(d) => {
                        let h = Self::deflect_from_owf(ball, tile.row, tile.col, d);
                        (Some(tile), h)
                    },
                }
            },
        }
    }
}

/// First row of the candidate cell rectangle of a ball: the cell of the top
/// of its bounding box.
pub open spec fn rect_min_row_sp(b: Ball) -> int {
    cell_sp(b.y - b.radius, TILE_FP as int)
}

/// Last row of the candidate cell rectangle: the cell of the bottom of the
/// bounding box, capped at the last row of the board.
pub open spec fn rect_max_row_sp(b: Ball, rows: int) -> int {
    let c = cell_sp(b.y + b.radius, TILE_FP as int);
    if c > rows - 1 {
        rows - 1
    } else {
        c
    }
}

/// First column of the candidate cell rectangle.
pub open spec fn rect_min_col_sp(b: Ball) -> int {
    cell_sp(b.x - b.radius, TILE_FP as int)
}

/// Last column of the candidate cell rectangle, capped at the last column.
pub open spec fn rect_max_col_sp(b: Ball, cols: int) -> int {
    let c = cell_sp(b.x + b.radius, TILE_FP as int);
    if c > cols - 1 {
        cols - 1
    } else {
        c
    }
}

/// The first `k` cells of the candidate rectangle processed in row-major
/// order: the cell `j` of the rectangle is `(r0 + j / w, c0 + j % w)`, and
/// each is handed to `collide_cell_sp` in turn. Returns the resulting ball,
/// the resulting tile grid and whether any collision happened.
pub open spec fn collide_seq_sp(
    b: Ball,
    tiles: Seq<Option<BoardTile>>,
    cols: int,
    r0: int,
    c0: int,
    w: int,
    k: nat,
) -> (Ball, Seq<Option<BoardTile>>, bool)
    decreases k,
{
    if k == 0 {
        (b, tiles, false)
    } else {
        let prev = collide_seq_sp(b, tiles, cols, r0, c0, w, (k - 1) as nat);
        let kk = k - 1;
        let rr = r0 + kk / w;
        let cc = c0 + kk % w;
        let idx = rr * cols + cc;
        if 0 <= idx < prev.1.len() {
            let step = collide_cell_sp(prev.0, prev.1[idx]);
            (step.0, prev.1.update(idx, step.1), prev.2 || step.2)
        } else {
            prev
        }
    }
}

/// One whole tile-collision pass of a ball over a tile grid: every cell of
/// the rectangle of cells overlapping the ball's bounding box is processed
/// in increasing row, then column, order.
pub open spec fn tile_collision_sp(
    b: Ball,
    tiles: Seq<Option<BoardTile>>,
    rows: int,
    cols: int,
) -> (Ball, Seq<Option<BoardTile>>, bool) {
    let r0 = rect_min_row_sp(b);
    let r1 = rect_max_row_sp(b, rows);
    let c0 = rect_min_col_sp(b);
    let c1 = rect_max_col_sp(b, cols);
    if r0 <= r1 && c0 <= c1 {
        let w = c1 - c0 + 1;
        let n = (r1 - r0 + 1) * w;
        collide_seq_sp(b, tiles, cols, r0, c0, w, n as nat)
    } else {
        (b, tiles, false)
    }
}

impl Physics {
    /// Resolve the ball against every tile whose cell overlaps its bounding
    /// box, in increasing row, then column, order; a deflecting contact on a
    /// `BreakWall` reverts that tile to `Floor`. Reports whether any
    /// collision happened.
    pub fn check_tile_collision(ball: &mut Ball, board: &mut GameBoard) -> (collided: bool)
        requires
            old(ball).wf(),
            old(board).wf(),
        ensures
            final(ball).wf(),
            final(board).wf(),
            final(board).rows == old(board).rows,
            final(board).cols == old(board).cols,
            final(board).balls == old(board).balls,
            final(board).entry_pos == old(board).entry_pos,
            final(board).goal_pos == old(board).goal_pos,
            final(board).captured_seen == old(board).captured_seen,
            ({
                let res = tile_collision_sp(
                    *old(ball),
                    old(board).tiles@,
                    old(board).rows as int,
                    old(board).cols as int,
                );
                *final(ball) == res.0 && final(board).tiles@ == res.1 && collided == res.2
            }),
    {
        let min_row = cell_fp(ball.y - ball.radius, TILE_FP);
        let row_hi = cell_fp(ball.y + ball.radius, TILE_FP);
        let max_row = if row_hi > board.rows - 1 {
            board.rows - 1
        } else {
            row_hi
        };
        let min_col = cell_fp(ball.x - ball.radius, TILE_FP);
        let col_hi = cell_fp(ball.x + ball.radius, TILE_FP);
        let max_col = if col_hi > board.cols - 1 {
            board.cols - 1
        } else {
            col_hi
        };
        if min_row <= max_row && min_col <= max_col {
            let h = max_row - min_row + 1;
            let w = max_col - min_col + 1;
            proof {
                lemma_mul_upper_bound(h as int, MAX_DIM as int, w as int, MAX_DIM as int);
            }
            let n = h * w;
            let ghost b0 = *ball;
            let ghost t0 = board.tiles@;
            let mut k: usize = 0;
            let mut any = false;
            while k < n
                invariant
                    k <= n,
                    n == h * w,
                    1 <= h,
                    1 <= w,
                    min_row + h - 1 <= board.rows - 1,
                    min_col + w - 1 <= board.cols - 1,
                    board.wf(),
                    ball.wf(),
                    board.rows == old(board).rows,
                    board.cols == old(board).cols,
                    board.balls == old(board).balls,
                    board.entry_pos == old(board).entry_pos,
                    board.goal_pos == old(board).goal_pos,
                    board.captured_seen == old(board).captured_seen,
                    ({
                        let prev = collide_seq_sp(
                            b0,
                            t0,
                            board.cols as int,
                            min_row as int,
                            min_col as int,
                            w as int,
                            k as nat,
                        );
                        *ball == prev.0 && board.tiles@ == prev.1 && any == prev.2
                    }),
                decreases n - k,
            {
                proof {
                    lemma_div_is_ordered(k as int, n as int - 1, w as int);
                    lemma_rect_last_row(h as int, w as int);
                    assert(0 <= (k as int) % (w as int) < w as int) by {
                        vstd::arithmetic::div_mod::lemma_mod_bound(k as int, w as int);
                    }
                    vstd::arithmetic::div_mod::lemma_div_pos_is_pos(k as int, w as int);
                }
                let rr = min_row + k / w;
                let cc = min_col + k % w;
                proof {
                    lemma_rc_index(rr as int, cc as int, board.rows as int, board.cols as int);
                    lemma_mul_upper_bound(
                        board.rows as int,
                        MAX_DIM as int,
                        board.cols as int,
                        MAX_DIM as int,
                    );
                }
                let idx = rr * board.cols + cc;
                let t = board.tiles[idx];
                proof {
                    if t is Some {
                        lemma_cell_of_index(rr as int, cc as int, board.cols as int);
                    }
                }
                let ghost bpre = *ball;
                let step = Self::collide_cell(ball, t);
                let t2 = step.0;
                let h2 = step.1;
                proof {
                    lemma_collide_cell_frame(bpre, t);
                    if t2 is Some {
                        lemma_cell_of_index(rr as int, cc as int, board.cols as int);
                    }
                }
                board.tiles[idx] = t2;
                any = any || h2;
                k += 1;
            }
            any
        } else {
            false
        }
    }
}

/// The last cell index of the rectangle lands on the last row: for positive
/// `h` and `w`, `(h * w - 1) / w == h - 1`.
pub proof fn lemma_rect_last_row(h: int, w: int)
    requires
        1 <= h,
        1 <= w,
    ensures
        (h * w - 1) / w == h - 1,
{
    assert(h * w - 1 == (h - 1) * w + (w - 1)) by (nonlinear_arith);
    vstd::arithmetic::div_mod::lemma_fundamental_div_mod_converse(h * w - 1, w, h - 1, w - 1);
}

/// Processing one cell keeps the cell occupied by a tile with the same
/// coordinates; only a `BreakWall` changes kind, and only to a fresh
/// `Floor`.
pub proof fn lemma_collide_cell_frame(b: Ball, t: Option<BoardTile>)
    ensures
        t is None ==> collide_cell_sp(b, t).1 is None,
        t matches Some(tile) ==> (collide_cell_sp(b, t).1 matches Some(t2) && t2.row == tile.row
            && t2.col == tile.col && (t2 == tile || (tile.tile_type == TileType::BreakWall && t2
            == BoardTile { tile_type: TileType::Floor, hit_count: 0, ..tile }))),
{
}

/// The sum `1 + 2 + ... + k`.
pub open spec fn tri_sp(k: nat) -> int
    decreases k,
{
    if k == 0 {
        0
    } else {
        tri_sp((k - 1) as nat) + k
    }
}

/// The textbook closed form of the triangular sum, stated without division:
/// `2 * tri_sp(k) == k * (k + 1)`.
pub proof fn lemma_tri_closed(k: nat)
    ensures
        2 * tri_sp(k) == k * (k + 1),
    decreases k,
{
    if k > 0 {
        lemma_tri_closed((k - 1) as nat);
        assert(tri_sp(k) == tri_sp((k - 1) as nat) + k);
        assert(2 * tri_sp(k) == k * (k + 1)) by (nonlinear_arith)
            requires
                2 * tri_sp((k - 1) as nat) == (k - 1) * k,
                tri_sp(k) == tri_sp((k - 1) as nat) + k,
                1 <= k,
        ;
    } else {
        assert(k * (k + 1) == 0) by (nonlinear_arith)
            requires
                k == 0,
        ;
    }
}

/// A ball at rest under zero gravity never moves, whatever the friction:
/// any number of integration steps leaves it exactly as it was, its cell
/// included.
pub proof fn lemma_resting_ball_stays(b: Ball, n: nat, dt: nat, fnum: int, fden: int)
    requires
        b.vx == 0,
        b.vy == 0,
        -POS_LIMIT <= b.x <= POS_LIMIT,
        -POS_LIMIT <= b.y <= POS_LIMIT,
        b.row == cell_sp(b.y as int, TILE_FP as int),
        b.col == cell_sp(b.x as int, TILE_FP as int),
        1 <= fden,
        0 <= fnum <= fden,
    ensures
        integrate_n_sp(b, n, dt, 0, fnum, fden) == b,
    decreases n,
{
    if n > 0 {
        lemma_resting_ball_stays(b, (n - 1) as nat, dt, fnum, fden);
        assert(0 * dt == 0) by (nonlinear_arith);
        lemma_fric_pow_shrinks(0, fnum, fden, dt);
        let bp = integrate_n_sp(b, (n - 1) as nat, dt, 0, fnum, fden);
        assert(bp == b);
        assert(integrate_sp(b, dt, 0, fnum, fden) == b);
    }
}

/// Gravity-only integration: with the friction fraction equal to one, `n`
/// steps of size `dt` add exactly `n * g * dt` to the vertical velocity, and
/// move `y` by the constant-acceleration sum, as long as the closed forms
/// stay within the working range so that no saturation fires.
pub proof fn lemma_gravity_closed_form(b: Ball, n: nat, dt: nat, g: int, f: int)
    requires
        1 <= f <= FRAC_LIMIT,
        0 <= g,
        -VEL_LIMIT <= b.vy,
        b.vy + n * g * dt <= VEL_LIMIT,
        forall|k: nat|
            k <= n ==> -POS_LIMIT <= b.y + k * dt * b.vy + (#[trigger] tri_sp(k)) * g * dt * dt
                <= POS_LIMIT,
    ensures
        integrate_n_sp(b, n, dt, g, f, f).vy == b.vy + n * g * dt,
        integrate_n_sp(b, n, dt, g, f, f).y == b.y + n * dt * b.vy + tri_sp(n) * g * dt * dt,
    decreases n,
{
    if n > 0 {
        assert(b.vy + (n - 1) * g * dt <= b.vy + n * g * dt && 0 <= g * dt * 1) by (nonlinear_arith)
            requires
                0 <= g,
                0 <= dt,
                1 <= n,
        ;
        assert(forall|k: nat|
            k <= (n - 1) as nat ==> -POS_LIMIT <= b.y + k * dt * b.vy + (#[trigger] tri_sp(k)) * g
                * dt * dt <= POS_LIMIT);
        lemma_gravity_closed_form(b, (n - 1) as nat, dt, g, f);
        let bp = integrate_n_sp(b, (n - 1) as nat, dt, g, f, f);
        let vyn = bp.vy + g * dt;
        assert(vyn == b.vy + n * g * dt) by (nonlinear_arith)
            requires
                bp.vy == b.vy + (n - 1) * g * dt,
                vyn == bp.vy + g * dt,
                1 <= n,
        ;
        assert(b.vy <= vyn) by (nonlinear_arith)
            requires
                vyn == b.vy + n * g * dt,
                0 <= g,
                0 <= dt,
                0 <= n,
        ;
        assert(clamp_sp(vyn, VEL_LIMIT as int) == vyn);
        lemma_fric_pow_identity(vyn, f, dt);
        lemma_fric_pow_identity(bp.vx as int, f, dt);
        let yn = bp.y + vyn * dt;
        assert(yn == b.y + n * dt * b.vy + tri_sp(n) * g * dt * dt) by (nonlinear_arith)
            requires
                bp.y == b.y + (n - 1) * dt * b.vy + tri_sp((n - 1) as nat) * g * dt * dt,
                yn == bp.y + vyn * dt,
                vyn == b.vy + n * g * dt,
                tri_sp(n) == tri_sp((n - 1) as nat) + n,
                1 <= n,
        ;
        assert(tri_sp(n) == tri_sp((n - 1) as nat) + n);
        assert(clamp_sp(yn, POS_LIMIT as int) == yn) by {
            assert(-POS_LIMIT <= b.y + n * dt * b.vy + tri_sp(n) * g * dt * dt <= POS_LIMIT);
        }
    } else {
        assert(b.vy + 0 * g * dt == b.vy) by (nonlinear_arith);
        assert(b.y + 0 * dt * b.vy + tri_sp(0) * g * dt * dt == b.y) by (nonlinear_arith);
    }
}

/// A wall contact reflects exactly one axis: on a dominant horizontal
/// penetration the horizontal velocity is flipped and damped while the
/// vertical velocity and position stay untouched, and symmetrically for a
/// dominant vertical penetration. Without overlap nothing changes.
pub proof fn lemma_wall_reflects_one_axis(b: Ball, row: int, col: int)
    requires
        b.wf(),
    ensures
        wall_overlap_sp(b, row, col) && wall_horizontal_sp(b, row, col) ==> ({
            let (b2, hit) = wall_deflect_sp(b, row, col);
            &&& hit
            &&& b2.vx == bounce_sp(b.vx as int)
            &&& (b.vx > 0 ==> b2.vx <= 0)
            &&& (b.vx < 0 ==> b2.vx >= 0)
            &&& b2.vy == b.vy
            &&& b2.y == b.y
            &&& b2.row == b.row
            &&& b2.col == b.col
        }),
        wall_overlap_sp(b, row, col) && !wall_horizontal_sp(b, row, col) ==> ({
            let (b2, hit) = wall_deflect_sp(b, row, col);
            &&& hit
            &&& b2.vy == bounce_sp(b.vy as int)
            &&& (b.vy > 0 ==> b2.vy <= 0)
            &&& (b.vy < 0 ==> b2.vy >= 0)
            &&& b2.vx == b.vx
            &&& b2.x == b.x
        }),
        !wall_overlap_sp(b, row, col) ==> wall_deflect_sp(b, row, col) == (b, false),
{
    lemma_scale_shrinks(-b.vx, BOUNCE_NUM as int, BOUNCE_DEN as int);
    lemma_scale_shrinks(-b.vy, BOUNCE_NUM as int, BOUNCE_DEN as int);
}

/// A drain captures a ball iff the ball is within the capture radius and the
/// colours match; in every case the drain leaves position and velocity
/// untouched, and a ball that does not match passes through unaffected.
pub proof fn lemma_drain_capture_iff(b: Ball, row: int, col: int, color: BoardColor)
    ensures
        ({
            let cx = col * (TILE_FP as int) + TILE_FP / 2;
            let cy = row * (TILE_FP as int) + TILE_FP / 2;
            let dx = b.x - cx;
            let dy = b.y - cy;
            let within = dx * dx + dy * dy < (TILE_FP / 4) * (TILE_FP / 4);
            let (b2, hit) = drain_sp(b, row, col, color);
            &&& hit == (within && colors_match_sp(b.color, color))
            &&& hit ==> b2 == Ball { captured: true, alive: false, ..b }
            &&& !hit ==> b2 == b
            &&& b2.x == b.x && b2.y == b.y && b2.vx == b.vx && b2.vy == b.vy
        }),
{
}

/// A one-way force field is permeable in its direction and solid against
/// it: a ball moving with the field (or at rest on the axis) passes through
/// untouched, one moving against it takes a wall-style deflection.
pub proof fn lemma_owf_one_way(b: Ball, row: int, col: int, dir: Direction)
    ensures
        !owf_blocks_sp(dir, b.vx as int, b.vy as int) ==> owf_sp(b, row, col, dir) == (b, false),
        owf_blocks_sp(dir, b.vx as int, b.vy as int) ==> owf_sp(b, row, col, dir)
            == wall_deflect_sp(b, row, col),
        dir == Direction::Up && b.vy <= 0 ==> owf_sp(b, row, col, dir) == (b, false),
        dir == Direction::Up && b.vy > 0 ==> owf_sp(b, row, col, dir) == wall_deflect_sp(
            b,
            row,
            col,
        ),
{
}

/// A `BreakWall` is single-use: one deflecting contact converts it to a
/// fresh `Floor`; without contact it stays as it is.
pub proof fn lemma_breakwall_single_use(b: Ball, tile: BoardTile)
    requires
        tile.tile_type == TileType::BreakWall,
    ensures
        wall_deflect_sp(b, tile.row as int, tile.col as int).1 ==> collide_cell_sp(
            b,
            Some(tile),
        ).1 == Some(BoardTile { tile_type: TileType::Floor, hit_count: 0, ..tile }),
        !wall_deflect_sp(b, tile.row as int, tile.col as int).1 ==> collide_cell_sp(
            b,
            Some(tile),
        ).1 == Some(tile),
{
}

/// Tile grid `b` is tile grid `a` with some `BreakWall` tiles degraded to
/// fresh `Floor` tiles, and nothing else changed. In particular no tile ever
/// becomes a `BreakWall` again.
pub open spec fn tiles_degrade_sp(a: Seq<Option<BoardTile>>, b: Seq<Option<BoardTile>>) -> bool {
    &&& a.len() == b.len()
    &&& forall|i: int|
        0 <= i < a.len() ==> ((#[trigger] b[i]) == a[i] || (a[i] matches Some(ta)
            && ta.tile_type == TileType::BreakWall && b[i] == Some(
            BoardTile { tile_type: TileType::Floor, hit_count: 0, ..ta },
        )))
}

/// Degrading is transitive: a `BreakWall` that became `Floor` never changes
/// again.
pub proof fn lemma_degrade_trans(
    a: Seq<Option<BoardTile>>,
    b: Seq<Option<BoardTile>>,
    c: Seq<Option<BoardTile>>,
)
    requires
        tiles_degrade_sp(a, b),
        tiles_degrade_sp(b, c),
    ensures
        tiles_degrade_sp(a, c),
{
    assert forall|i: int|
        0 <= i < a.len() implies ((#[trigger] c[i]) == a[i] || (a[i] matches Some(ta)
        && ta.tile_type == TileType::BreakWall && c[i] == Some(
        BoardTile { tile_type: TileType::Floor, hit_count: 0, ..ta },
    ))) by {
        assert(b[i] == a[i] || (a[i] matches Some(ta) && ta.tile_type == TileType::BreakWall
            && b[i] == Some(BoardTile { tile_type: TileType::Floor, hit_count: 0, ..ta })));
        assert(c[i] == b[i] || (b[i] matches Some(tb) && tb.tile_type == TileType::BreakWall
            && c[i] == Some(BoardTile { tile_type: TileType::Floor, hit_count: 0, ..tb })));
    }
}

/// A collision pass only degrades tiles.
pub proof fn lemma_collide_seq_degrades(
    b: Ball,
    tiles: Seq<Option<BoardTile>>,
    cols: int,
    r0: int,
    c0: int,
    w: int,
    k: nat,
)
    ensures
        tiles_degrade_sp(tiles, collide_seq_sp(b, tiles, cols, r0, c0, w, k).1),
    decreases k,
{
    if k > 0 {
        lemma_collide_seq_degrades(b, tiles, cols, r0, c0, w, (k - 1) as nat);
        let prev = collide_seq_sp(b, tiles, cols, r0, c0, w, (k - 1) as nat);
        let kk = k - 1;
        let idx = (r0 + kk / w) * cols + (c0 + kk % w);
        if 0 <= idx < prev.1.len() {
            lemma_collide_cell_frame(prev.0, prev.1[idx]);
            lemma_degrade_trans(
                tiles,
                prev.1,
                prev.1.update(idx, collide_cell_sp(prev.0, prev.1[idx]).1),
            );
        }
    }
}

/// One whole tile-collision pass only degrades tiles.
pub proof fn lemma_tile_collision_degrades(
    b: Ball,
    tiles: Seq<Option<BoardTile>>,
    rows: int,
    cols: int,
)
    ensures
        tiles_degrade_sp(tiles, tile_collision_sp(b, tiles, rows, cols).1),
{
    let r0 = rect_min_row_sp(b);
    let r1 = rect_max_row_sp(b, rows);
    let c0 = rect_min_col_sp(b);
    let c1 = rect_max_col_sp(b, cols);
    if r0 <= r1 && c0 <= c1 {
        let w = c1 - c0 + 1;
        let n = (r1 - r0 + 1) * w;
        lemma_collide_seq_degrades(b, tiles, cols, r0, c0, w, n as nat);
    }
}

/// Far on one axis means no overlap: if either component reaches `r` in
/// magnitude, the squared distance reaches `r * r`.
proof fn lemma_far_axis_no_overlap(dx: int, dy: int, r: int)
    requires
        0 <= r,
        dx <= -r || dx >= r || dy <= -r || dy >= r,
    ensures
        dx * dx + dy * dy >= r * r,
{
    assert(dx * dx + dy * dy >= r * r) by (nonlinear_arith)
        requires
            0 <= r,
            dx <= -r || dx >= r || dy <= -r || dy >= r,
    ;
}

/// A bounded value has a bounded square.
proof fn lemma_square_bound(v: int, b: int)
    requires
        -b <= v <= b,
        0 <= b,
    ensures
        0 <= v * v <= b * b,
{
    assert(0 <= v * v <= b * b) by (nonlinear_arith)
        requires
            -b <= v <= b,
            0 <= b,
    ;
}

/// The bounds check is idempotent: on a ball already inside the bounds it
/// changes nothing.
pub proof fn lemma_bounds_idempotent(b: Ball, w: int, h: int)
    requires
        in_bounds_sp(b, w, h),
    ensures
        bounds_sp(b, w, h) == b,
{
}

/// A velocity within the working range times a step count within the working
/// range stays far inside `i64`.
proof fn lemma_vel_times_dt(v: int, dt: int)
    requires
        -VEL_LIMIT <= v <= VEL_LIMIT,
        0 <= dt <= DT_LIMIT,
    ensures
        -1_000_000_000_000_000 <= v * dt <= 1_000_000_000_000_000,
{
    assert(-1_000_000_000_000_000 <= v * dt <= 1_000_000_000_000_000) by (nonlinear_arith)
        requires
            -1_000_000_000 <= v <= 1_000_000_000,
            0 <= dt <= 1_000_000,
    ;
}

} // verus!
