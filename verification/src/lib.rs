//! Authoritative engine for a turn-based, tile-laying path game:
//! board topology, tile generation under rotational symmetry, token
//! path advancement, and the turn state machine.

pub mod board;
pub mod board_state;
pub mod game;
pub mod game_state;
pub mod math;
pub mod player_state;
pub mod tile;

use vstd::prelude::*;

verus! {

} // verus!
