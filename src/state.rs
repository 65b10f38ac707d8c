pub mod game_state;
pub mod player_state;
pub mod zone_state;
