//! A segment spatial index and stroke-capture pipeline on an integer lattice.
//!
//! Positions are fixed-point lattice points (see [`point::UNIT`]), so every
//! geometric decision is exact integer arithmetic.

pub mod arith;
pub mod point;
pub mod math_utils;
pub mod spatial_grid;
pub mod draw_state;
pub mod merge_svg;
pub mod draw_logic;
pub mod draw_undo_delete;
pub mod draw_input;
pub mod settings;
