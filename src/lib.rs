//! Rules engine for one two-player turn of a collectible card game: zones,
//! players, the phase sequence, and the interrupt processing that follows a
//! clock action.
pub mod data;
pub mod rules;
pub mod state;
