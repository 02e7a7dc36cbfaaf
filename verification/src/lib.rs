use vstd::prelude::*;

pub mod bag;
pub mod board;
pub mod buffer;
pub mod collision_map;
pub mod data;
pub mod detect;
pub mod global;
pub mod header;
pub mod instant;
pub mod nav_collision_map;
pub mod perft;
pub mod piece;
pub mod placement;
pub mod queue;
pub mod reach;
pub mod render;
pub mod rotation;
pub mod score;
pub mod spin;
pub mod vector;

verus! {

} // verus!
