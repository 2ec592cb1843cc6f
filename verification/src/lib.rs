//! A grid-based ball-deflection puzzle engine.
//!
//! Balls move under gravity and friction across a bounded tile grid, bounce
//! off walls, bumpers, directional deflectors and one-way force fields, and
//! are captured by colour-matched drains. All simulation arithmetic is
//! fixed-point: a pixel-space quantity `q` is stored as the integer
//! `q * fp::FP_SCALE`, so every physics step is exact integer arithmetic.

pub mod ball;
pub mod board;
pub mod fp;
pub mod game;
pub mod physics;
pub mod tile;
