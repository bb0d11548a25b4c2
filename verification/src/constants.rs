//! Sizes, positions and texts that client and server share.

use vstd::prelude::*;

verus! {

/// The constants of the game.
pub struct GameConstants;

impl GameConstants {
    pub const OVERWORLD_WIDTH: i32 = 60;

    pub const OVERWORLD_HEIGHT: i32 = 30;

    pub const DUNGEON_WIDTH: i32 = 80;

    pub const DUNGEON_HEIGHT: i32 = 50;

    pub const OVERWORLD_SPAWN_X: i32 = 30;

    pub const OVERWORLD_SPAWN_Y: i32 = 15;

    pub const DUNGEON_SPAWN_X: i32 = 10;

    pub const DUNGEON_SPAWN_Y: i32 = 10;

    pub const DEFAULT_HP: i32 = 20;

    pub const DEFAULT_MAX_HP: i32 = 20;

    pub const PLAYER_SYMBOL: char = '@';

    /// The radius of the light a player carries.
    pub const LIGHT_RADIUS: i32 = 6;

    pub const MAX_MESSAGES: usize = 10;

    pub const VIEWPORT_MIN_WIDTH: i32 = 60;

    pub const VIEWPORT_MIN_HEIGHT: i32 = 20;

    pub const NETWORK_POLL_INTERVAL_MS: u64 = 50;
}

} // verus!
