//! The tile model: the closed set of tile kinds and their static,
//! collision-relevant capabilities.

use vstd::prelude::*;

verus! {

/// A compass direction. Only the four cardinal values steer deflection and
/// force-field logic; the diagonal values are carried but have no effect
/// there.
#[derive(Debug, Clone, Copy, PartialEq, Eq, Structural)]
pub enum Direction {
    Up,
    Down,
    Left,
    Right,
    UpLeft,
    UpRight,
    DownLeft,
    DownRight,
}

/// The closed colour set shared by drains and coloured reflective walls.
#[derive(Debug, Clone, Copy, PartialEq, Eq, Structural)]
pub enum BoardColor {
    Red,
    Blue,
    Green,
    Yellow,
    Cyan,
    Gray,
}

/// The closed set of tile kinds.
#[derive(Debug, Clone, Copy, PartialEq, Eq, Structural)]
pub enum TileType {
    /// Open floor: no interaction.
    Floor,
    /// A solid wall that reflects balls.
    Wall,
    /// A wall that reverts to `Floor` after one deflecting contact.
    BreakWall,
    /// Reflects and accelerates a ball radially outward from its centre.
    Bumper,
    /// Reflects like a wall, then forces the velocity sign on the axis of
    /// its direction.
    Chevron(Direction),
    /// Captures balls of the matching colour.
    Drain(BoardColor),
    /// A coloured reflective wall; reflects like a wall.
    RLColored(BoardColor),
    /// A gray reflective wall. Meant to open periodically, but no time
    /// source is wired into collision checks, so it always blocks.
    RLGray,
    /// Permeable to balls moving in its direction, solid to balls moving
    /// against it.
    OneWayForce(Direction),
}

/// Whether a ball deflects off a tile of this kind.
pub open spec fn deflects_sp(t: TileType) -> bool {
    match t {
        TileType::Wall => true,
        TileType::BreakWall => true,
        TileType::Bumper => true,
        TileType::Chevron(_) => true,
        TileType::RLColored(_) => true,
        TileType::RLGray => true,
        _ => false,
    }
}

/// Whether a tile of this kind can capture balls.
pub open spec fn captures_sp(t: TileType) -> bool {
    t is Drain
}

/// The colour a tile of this kind carries, if any.
pub open spec fn color_sp(t: TileType) -> Option<BoardColor> {
    match t {
        TileType::Drain(c) => Some(c),
        TileType::RLColored(c) => Some(c),
        _ => None,
    }
}

/// One tile of the board: its cell, its kind, and the hit counter that a
/// `BreakWall` accumulates before reverting to `Floor`.
#[derive(Debug, Clone, Copy, PartialEq, Eq, Structural)]
pub struct BoardTile {
    pub row: usize,
    pub col: usize,
    pub tile_type: TileType,
    /// Deflecting contacts a `BreakWall` has taken; 0 for every other kind.
    pub hit_count: u32,
    pub shadowed: bool,
    pub closest_side: u8,
}

impl BoardTile {
    /// A fresh tile of the given kind at the given cell.
    pub fn new(row: usize, col: usize, tile_type: TileType) -> (t: BoardTile)
        ensures
            t == (BoardTile {
                row,
                col,
                tile_type,
                hit_count: 0,
                shadowed: false,
                closest_side: 0,
            }),
    {
        BoardTile { row, col, tile_type, hit_count: 0, shadowed: false, closest_side: 0 }
    }

    /// Whether a ball should deflect off this tile.
    pub fn should_deflect(&self) -> (r: bool)
        ensures
            r == deflects_sp(self.tile_type),
    {
        match self.tile_type {
            TileType::Wall => true,
            TileType::BreakWall => true,
            TileType::Bumper => true,
            TileType::Chevron(_) => true,
            TileType::RLColored(_) => true,
            TileType::RLGray => true,
            _ => false,
        }
    }

    /// Whether this tile can capture balls.
    pub fn can_capture(&self) -> (r: bool)
        ensures
            r == captures_sp(self.tile_type),
    {
        match self.tile_type {
            TileType::Drain(_) => true,
            _ => false,
        }
    }

    /// The tile's colour, if its kind carries one.
    pub fn get_color(&self) -> (r: Option<BoardColor>)
        ensures
            r == color_sp(self.tile_type),
    {
        match self.tile_type {
            TileType::Drain(c) => Some(c),
            TileType::RLColored(c) => Some(c),
            _ => None,
        }
    }
}

} // verus!
