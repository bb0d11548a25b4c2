//! The values that client and server exchange.

use crate::grid::CoordSet;
use crate::tile::Tile;
use std::collections::HashSet;
use vstd::prelude::*;

verus! {

/// The kind of map a player is on.
#[derive(Debug, Clone, Copy, PartialEq, Eq, Structural)]
pub enum MapType {
    Overworld,
    Dungeon,
}

/// The screen a client shows.
#[derive(Debug, Clone, Copy, PartialEq, Eq, Structural)]
pub enum CurrentScreen {
    MainMenu,
    Game,
    Inventory,
    Chat,
    Exiting,
}

/// The screen of a player as the server knows it: the main menu is not
/// among them.
#[derive(Debug, Clone, Copy, PartialEq, Eq, Structural)]
pub enum NetworkCurrentScreen {
    Game,
    Inventory,
    Chat,
    Exiting,
}

impl From<CurrentScreen> for NetworkCurrentScreen {
    /// The main menu counts as the game.
    fn from(screen: CurrentScreen) -> (result: NetworkCurrentScreen) {
        match screen {
            CurrentScreen::MainMenu => NetworkCurrentScreen::Game,
            CurrentScreen::Game => NetworkCurrentScreen::Game,
            CurrentScreen::Inventory => NetworkCurrentScreen::Inventory,
            CurrentScreen::Chat => NetworkCurrentScreen::Chat,
            CurrentScreen::Exiting => NetworkCurrentScreen::Exiting,
        }
    }
}

impl vstd::std_specs::convert::FromSpecImpl<CurrentScreen> for NetworkCurrentScreen {
    open spec fn obeys_from_spec() -> bool {
        true
    }

    open spec fn from_spec(screen: CurrentScreen) -> NetworkCurrentScreen {
        match screen {
            CurrentScreen::MainMenu => NetworkCurrentScreen::Game,
            CurrentScreen::Game => NetworkCurrentScreen::Game,
            CurrentScreen::Inventory => NetworkCurrentScreen::Inventory,
            CurrentScreen::Chat => NetworkCurrentScreen::Chat,
            CurrentScreen::Exiting => NetworkCurrentScreen::Exiting,
        }
    }
}

impl From<NetworkCurrentScreen> for CurrentScreen {
    fn from(screen: NetworkCurrentScreen) -> (result: CurrentScreen) {
        match screen {
            NetworkCurrentScreen::Game => CurrentScreen::Game,
            NetworkCurrentScreen::Inventory => CurrentScreen::Inventory,
            NetworkCurrentScreen::Chat => CurrentScreen::Chat,
            NetworkCurrentScreen::Exiting => CurrentScreen::Exiting,
        }
    }
}

impl vstd::std_specs::convert::FromSpecImpl<NetworkCurrentScreen> for CurrentScreen {
    open spec fn obeys_from_spec() -> bool {
        true
    }

    open spec fn from_spec(screen: NetworkCurrentScreen) -> CurrentScreen {
        match screen {
            NetworkCurrentScreen::Game => CurrentScreen::Game,
            NetworkCurrentScreen::Inventory => CurrentScreen::Inventory,
            NetworkCurrentScreen::Chat => CurrentScreen::Chat,
            NetworkCurrentScreen::Exiting => CurrentScreen::Exiting,
        }
    }
}

/// What a client asks of the server.
#[derive(Debug)]
pub enum ClientMessage {
    Connect { player_name: String },
    Move { dx: i32, dy: i32 },
    RequestChunks { chunks: Vec<(i32, i32)> },
    EnterDungeon,
    ExitDungeon,
    OpenInventory,
    CloseInventory,
    Chat { message: String },
    Disconnect,
}

/// A player as the server tells it to clients.
pub struct NetworkPlayer {
    pub id: String,
    pub name: String,
    pub x: i32,
    pub y: i32,
    pub hp: i32,
    pub max_hp: i32,
    pub symbol: char,
    pub current_screen: NetworkCurrentScreen,
    pub color: (u8, u8, u8),
    pub current_map_type: MapType,
    pub opened_doors: CoordSet,
    pub explored_rooms: HashSet<u32>,
}

/// The players and the turn.
pub struct GameState {
    pub players: Vec<NetworkPlayer>,
    pub turn_count: u32,
}

/// The tiles of a chunk by their places, written as text.
#[derive(Debug)]
pub struct ChunkData {
    pub chunk_x: i32,
    pub chunk_y: i32,
    pub tiles: Vec<(String, Tile)>,
}

/// What the server tells a client.
pub enum ServerMessage {
    Connected { player_id: String },
    GameState { state: GameState },
    ChunkData { chunks: Vec<ChunkData> },
    PlayerMoved { player_id: String, x: i32, y: i32 },
    PlayerJoined { player_id: String, player: NetworkPlayer },
    PlayerLeft { player_id: String },
    Error { message: String },
    Message { text: String },
    ChatMessage { player_name: String, message: String },
}

} // verus!
