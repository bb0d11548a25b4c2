//! Procedural level generation and visibility for a tile-based roguelike.

pub mod bsp;
pub mod chunk;
pub mod chunk_manager;
pub mod connectivity;
pub mod constants;
pub mod coord_text;
pub mod door_laws;
pub mod doors;
pub mod dungeon;
pub mod explore;
pub mod game_logic;
pub mod generate;
pub mod grid;
pub mod layout;
pub mod lighting;
pub mod map;
pub mod network_map;
pub mod overworld;
pub mod protocol;
pub mod rng;
pub mod rooms;
pub mod session;
pub mod terrain;
pub mod tile;
pub mod visualization;
