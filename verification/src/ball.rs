//! The ball entity: the mutable simulation state of one ball.

use vstd::prelude::*;

verus! {

use crate::fp::{POS_LIMIT, RADIUS_LIMIT, VEL_LIMIT};
use crate::tile::BoardColor;

/// The closed colour set for balls. `Gray` is the neutral value used for the
/// auto-spawned entry ball.
#[derive(Debug, Clone, Copy, PartialEq, Eq, Structural)]
pub enum BallColor {
    Red,
    Blue,
    Green,
    Yellow,
    Cyan,
    Gray,
}

/// One sampled point of a ball's trajectory: position and velocity in whole
/// pixels.
#[derive(Debug, Clone, Copy, PartialEq, Eq, Structural)]
pub struct BallPoint {
    pub x: i32,
    pub y: i32,
    pub vx: i32,
    pub vy: i32,
}

/// One ball. Position, velocity and radius are fixed-point pixel-space
/// quantities; the grid cell is derived from the position each tick.
#[derive(Debug, Clone, Copy, PartialEq, Eq, Structural)]
pub struct Ball {
    pub row: usize,
    pub col: usize,
    pub color: BallColor,
    pub x: i64,
    pub y: i64,
    pub vx: i64,
    pub vy: i64,
    pub radius: i64,
    /// Still simulated.
    pub alive: bool,
    /// Consumed by a drain. A captured ball is never alive.
    pub captured: bool,
}

impl Ball {
    /// Well-formedness: the simulated quantities stay within the machine
    /// bounds the fixed-point arithmetic needs, and a captured ball is not
    /// alive.
    pub open spec fn wf(self) -> bool {
        &&& -POS_LIMIT <= self.x <= POS_LIMIT
        &&& -POS_LIMIT <= self.y <= POS_LIMIT
        &&& -VEL_LIMIT <= self.vx <= VEL_LIMIT
        &&& -VEL_LIMIT <= self.vy <= VEL_LIMIT
        &&& 0 < self.radius <= RADIUS_LIMIT
        &&& self.captured ==> !self.alive
    }
}

/// Whether a ball colour and a board colour name the same colour.
pub open spec fn colors_match_sp(b: BallColor, c: BoardColor) -> bool {
    match (b, c) {
        (BallColor::Red, BoardColor::Red) => true,
        (BallColor::Blue, BoardColor::Blue) => true,
        (BallColor::Green, BoardColor::Green) => true,
        (BallColor::Yellow, BoardColor::Yellow) => true,
        (BallColor::Cyan, BoardColor::Cyan) => true,
        (BallColor::Gray, BoardColor::Gray) => true,
        _ => false,
    }
}

/// Whether a ball colour and a board colour name the same colour.
pub fn colors_match(b: BallColor, c: BoardColor) -> (r: bool)
    ensures
        r == colors_match_sp(b, c),
{
    match (b, c) {
        (BallColor::Red, BoardColor::Red) => true,
        (BallColor::Blue, BoardColor::Blue) => true,
        (BallColor::Green, BoardColor::Green) => true,
        (BallColor::Yellow, BoardColor::Yellow) => true,
        (BallColor::Cyan, BoardColor::Cyan) => true,
        (BallColor::Gray, BoardColor::Gray) => true,
        _ => false,
    }
}

} // verus!
