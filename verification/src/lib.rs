//! Dungeon layouts derived from identifier tokens.
//!
//! A token such as `nft1q5k…` fixes a number of rooms, their centers, sizes
//! and shapes, a biome and a level. The excavated cells of the dungeon are the
//! cells of the rooms, the tunnels that join the rooms in pairs, and a number
//! of cells scattered at random inside the box around the room centers.
//!
//! Everything but the scattered cells is a function of the token alone, and
//! the scattered cells are a function of the token and of the candidate cells
//! that the random source hands out.

pub mod error;
pub mod symbols;
pub mod rounding;
pub mod census;
pub mod cells;
pub mod shapes;
pub mod tunnels;
pub mod classify;
pub mod decode;
pub mod random;
pub mod scatter;
pub mod dungeon;
pub mod generate;
