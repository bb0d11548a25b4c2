use roguelike_core::constants::GameConstants;
use roguelike_core::coord_text::{coord_to_string, string_to_coord};
use roguelike_core::game_logic::{GameLogic, Player, PlayerOperations};
use roguelike_core::grid::{CoordMap, CoordSet};
use roguelike_core::map::GameMap;
use roguelike_core::network_map::NetworkGameMap;
use roguelike_core::protocol::{CurrentScreen, MapType, NetworkCurrentScreen, NetworkPlayer};
use roguelike_core::session::{ConnectionState, GameMode, MainMenuState};
use roguelike_core::tile::{Rect, Room, RoomType, Tile};
use roguelike_core::visualization::DungeonVisualizer;
use std::collections::HashSet;

const ALL_TILES: [Tile; 13] = [
    Tile::Floor,
    Tile::Wall,
    Tile::Empty,
    Tile::Door,
    Tile::Corridor,
    Tile::Grass,
    Tile::Tree,
    Tile::Mountain,
    Tile::Water,
    Tile::Road,
    Tile::Village,
    Tile::DungeonEntrance,
    Tile::DungeonExit,
];

fn small_map() -> GameMap {
    let mut map = GameMap::new(6, 4);
    for x in 0..6 {
        for y in 0..4 {
            map.tiles.insert(x, y, Tile::Grass);
        }
    }
    map.tiles.insert(3, 1, Tile::Water);
    map.tiles.insert(4, 1, Tile::Tree);
    map.tiles.insert(2, 2, Tile::DungeonEntrance);
    map.tiles.insert(1, 1, Tile::Door);
    map
}

fn network_player() -> NetworkPlayer {
    NetworkPlayer {
        id: "player-ann".to_string(),
        name: "Ann".to_string(),
        x: 1,
        y: 2,
        hp: 20,
        max_hp: 20,
        symbol: '@',
        current_screen: NetworkCurrentScreen::Game,
        color: (1, 2, 3),
        current_map_type: MapType::Dungeon,
        opened_doors: CoordSet::new(),
        explored_rooms: HashSet::new(),
    }
}

#[test]
fn tiles_one_can_step_on() {
    let valid = [
        Tile::Floor,
        Tile::Corridor,
        Tile::Grass,
        Tile::Road,
        Tile::Tree,
        Tile::Village,
        Tile::DungeonEntrance,
        Tile::Door,
        Tile::DungeonExit,
    ];
    for tile in ALL_TILES {
        assert_eq!(GameLogic::is_movement_valid(tile), valid.contains(&tile));
    }
}

#[test]
fn messages_for_blocked_movement() {
    assert_eq!(GameLogic::get_blocked_movement_message(Tile::Wall), "You can't move through a wall.");
    assert_eq!(
        GameLogic::get_blocked_movement_message(Tile::Mountain),
        "You can't move through a mountain."
    );
    assert_eq!(
        GameLogic::get_blocked_movement_message(Tile::Water),
        "You can't swim across the water."
    );
    assert_eq!(GameLogic::get_blocked_movement_message(Tile::Empty), "You can't move there.");
    assert_eq!(GameLogic::get_blocked_movement_message(Tile::Floor), "You can't move there.");
}

#[test]
fn messages_for_tiles_stepped_on() {
    assert_eq!(
        GameLogic::get_tile_interaction_message(Tile::Tree),
        Some("You push through the thick forest.".to_string())
    );
    assert_eq!(
        GameLogic::get_tile_interaction_message(Tile::Village),
        Some("You visit the village. The locals greet you warmly.".to_string())
    );
    assert_eq!(
        GameLogic::get_tile_interaction_message(Tile::DungeonEntrance),
        Some("You stand before a dark dungeon entrance. Press 'e' to enter.".to_string())
    );
    assert_eq!(
        GameLogic::get_tile_interaction_message(Tile::DungeonExit),
        Some("You are at the dungeon entrance/exit. Press 'x' to exit to the overworld.".to_string())
    );
    assert_eq!(GameLogic::get_tile_interaction_message(Tile::Floor), None);
    assert_eq!(GameLogic::get_tile_interaction_message(Tile::Water), None);
}

#[test]
fn moving_into_water_is_rejected() {
    let map = small_map();
    let mut player = Player::new(2, 1);
    let outcome = GameLogic::move_player(&map, &mut player, 1, 0);
    assert!(!outcome.moved);
    assert!(!outcome.opened_door);
    assert_eq!(outcome.message, Some("You can't swim across the water.".to_string()));
    assert_eq!((player.x, player.y), (2, 1));
}

#[test]
fn moving_onto_grass_says_nothing() {
    let map = small_map();
    let mut player = Player::new(2, 1);
    let outcome = GameLogic::move_player(&map, &mut player, 0, -1);
    assert!(outcome.moved);
    assert_eq!(outcome.message, None);
    assert_eq!((player.x, player.y), (2, 0));
    assert_eq!(player.hp, 20);
}

#[test]
fn moving_onto_an_entrance_tells_of_it() {
    let map = small_map();
    let mut player = Player::new(2, 1);
    let outcome = GameLogic::move_player(&map, &mut player, 0, 1);
    assert!(outcome.moved);
    assert_eq!(
        outcome.message,
        Some("You stand before a dark dungeon entrance. Press 'e' to enter.".to_string())
    );
    assert_eq!((player.x, player.y), (2, 2));
}

#[test]
fn moving_off_the_map_is_rejected() {
    let map = small_map();
    let mut player = Player::new(0, 0);
    let outcome = GameLogic::move_player(&map, &mut player, -1, 0);
    assert!(!outcome.moved);
    assert_eq!(outcome.message, Some("You can't move there.".to_string()));
    assert_eq!((player.x, player.y), (0, 0));
    let mut player = Player::new(i32::MAX, i32::MIN);
    let outcome = GameLogic::move_player(&map, &mut player, 1, -1);
    assert!(!outcome.moved);
    assert_eq!((player.x, player.y), (i32::MAX, i32::MIN));
}

#[test]
fn moving_into_a_door_opens_it() {
    let map = small_map();
    let mut player = Player::new(2, 1);
    let outcome = GameLogic::move_player(&map, &mut player, -1, 0);
    assert!(outcome.moved);
    assert!(outcome.opened_door);
    assert_eq!(outcome.message, Some("You open the door and reveal new areas!".to_string()));
    assert_eq!((player.x, player.y), (1, 1));
    assert!(player.opened_doors.contains(1, 1));
}

#[test]
fn new_player_is_in_full_health() {
    let player = Player::new(3, 4);
    assert_eq!((player.x, player.y), (3, 4));
    assert_eq!((player.hp, player.max_hp), (20, 20));
    assert_eq!(player.symbol, '@');
    assert_eq!(player.dungeon_entrance_pos, None);
    assert!(player.explored_rooms.is_empty());
    assert!(!player.opened_doors.contains(3, 4));
}

#[test]
fn player_operations() {
    let mut player = Player::new(3, 4);
    assert_eq!(player.get_position(), (3, 4));
    player.set_position(-1, 9);
    assert_eq!(player.get_position(), (-1, 9));
    assert_eq!(player.get_hp(), 20);
    player.set_hp(7);
    assert_eq!(player.get_hp(), 7);
    assert_eq!(player.get_position(), (-1, 9));
    let mut other = network_player();
    assert_eq!(other.get_position(), (1, 2));
    other.set_position(5, 6);
    other.set_hp(0);
    assert_eq!((other.get_position(), other.get_hp()), ((5, 6), 0));
    assert_eq!(other.name, "Ann");
}

#[test]
fn network_player_explores_like_a_player() {
    let mut map = GameMap::new(12, 8);
    for x in 0..12 {
        for y in 0..8 {
            map.tiles.insert(x, y, Tile::Wall);
        }
    }
    let room = Room::new(Rect { x: 2, y: 2, width: 4, height: 4 }, 4);
    roguelike_core::dungeon::DungeonGenerator::carve_room(&mut map, &room);
    map.rooms.push(room);
    map.tiles.insert(3, 3, Tile::DungeonExit);
    map.tiles.insert(6, 3, Tile::Door);
    map.tiles.insert(7, 3, Tile::Corridor);
    let mut player = network_player();
    player.explored_rooms.insert(9);
    GameLogic::initialize_network_player_dungeon_exploration(&map, &mut player);
    assert_eq!(player.explored_rooms.len(), 1);
    assert!(player.explored_rooms.contains(&4));
    assert!(GameLogic::is_tile_visible_network_player(&map, &player, 2, 2));
    assert!(GameLogic::is_tile_visible_network_player(&map, &player, 6, 3));
    assert!(!GameLogic::is_tile_visible_network_player(&map, &player, 7, 3));
    player.opened_doors.insert(6, 3);
    assert!(GameLogic::is_tile_visible_network_player(&map, &player, 7, 3));
}

#[test]
fn keeps_the_last_messages() {
    let mut messages: Vec<String> = (0..14).map(|i| format!("m{}", i)).collect();
    GameLogic::limit_messages(&mut messages, 10);
    assert_eq!(messages.len(), 10);
    assert_eq!(messages[0], "m4");
    assert_eq!(messages[9], "m13");
    GameLogic::limit_messages(&mut messages, 10);
    assert_eq!(messages.len(), 10);
    GameLogic::limit_messages(&mut messages, 20);
    assert_eq!(messages.len(), 10);
    GameLogic::limit_messages(&mut messages, 0);
    assert!(messages.is_empty());
    GameLogic::limit_messages(&mut messages, 0);
    assert!(messages.is_empty());
}

#[test]
fn spawn_positions() {
    assert_eq!(GameLogic::get_overworld_spawn_position(), (30, 15));
    assert_eq!(GameLogic::get_dungeon_spawn_position(), (6, 8));
    let map = GameLogic::generate_dungeon_map_with_seed(0x12345678);
    assert_eq!(GameLogic::get_safe_dungeon_spawn_position(&map), (6, 16));
    assert_eq!((map.width, map.height), (80, 50));
}

#[test]
fn dungeon_maps_of_the_game() {
    let a = GameLogic::generate_dungeon_map();
    let b = GameLogic::generate_dungeon_map_with_seed(12345);
    let c = GameLogic::generate_dungeon_map_for_entrance(15, 20);
    let d = GameLogic::generate_dungeon_map_with_seed(GameLogic::generate_dungeon_seed(15, 20));
    assert_eq!(GameLogic::generate_dungeon_seed(15, 20), 961554318);
    for x in 0..80 {
        for y in 0..50 {
            assert_eq!(a.tile(x, y), b.tile(x, y));
            assert_eq!(c.tile(x, y), d.tile(x, y));
        }
    }
    assert_eq!(a.rooms.len(), 5);
}

#[test]
fn entrances_and_exits() {
    let mut map = small_map();
    assert!(GameLogic::is_at_dungeon_entrance(&map, 2, 2));
    assert!(!GameLogic::is_at_dungeon_entrance(&map, 2, 1));
    assert!(!GameLogic::is_at_dungeon_entrance(&map, 20, 20));
    assert!(!GameLogic::is_at_dungeon_exit(&map, 2, 2));
    map.tiles.insert(0, 0, Tile::DungeonExit);
    assert!(GameLogic::is_at_dungeon_exit(&map, 0, 0));
}

#[test]
fn cells_as_text() {
    assert_eq!(coord_to_string(0, 0), "0_0");
    assert_eq!(coord_to_string(12, 345), "12_345");
    assert_eq!(coord_to_string(-1, 7), "-1_7");
    assert_eq!(coord_to_string(10, -20), "10_-20");
    assert_eq!(coord_to_string(i32::MIN, i32::MAX), "-2147483648_2147483647");
}

#[test]
fn text_as_cells() {
    assert_eq!(string_to_coord("0_0"), Some((0, 0)));
    assert_eq!(string_to_coord("12_345"), Some((12, 345)));
    assert_eq!(string_to_coord("-1_7"), Some((-1, 7)));
    assert_eq!(string_to_coord("+5_-0"), Some((5, 0)));
    assert_eq!(string_to_coord("007_08"), Some((7, 8)));
    assert_eq!(string_to_coord("-2147483648_2147483647"), Some((i32::MIN, i32::MAX)));
}

#[test]
fn malformed_text_is_no_cell() {
    for text in [
        "", "_", "1_", "_1", "1", "1,2", "1_2_3", "1__2", "a_1", "1_b", " 1_2", "1_2 ", "1.5_2",
        "-_1", "+_1", "1_-", "--1_2", "2147483648_0", "0_-2147483649", "99999999999999999999_1",
        "1_٣",
    ] {
        assert_eq!(string_to_coord(text), None);
    }
}

#[test]
fn text_and_cells_round_trip() {
    for x in [i32::MIN, -1000, -1, 0, 1, 9, 10, 99, 100, 123456, i32::MAX] {
        for y in [i32::MIN, -7, 0, 5, 31, i32::MAX] {
            assert_eq!(string_to_coord(&coord_to_string(x, y)), Some((x, y)));
        }
    }
}

#[test]
fn map_to_network_and_back() {
    let mut map = small_map();
    // A tile outside the bounds does not travel.
    map.tiles.insert(9, 9, Tile::Road);
    let net = GameLogic::game_map_to_network(&map);
    assert_eq!((net.width, net.height), (6, 4));
    assert_eq!(net.tiles.len(), 24);
    assert_eq!(net.tiles[0].0, "0_0");
    assert_eq!(net.tiles[1].0, "1_0");
    assert_eq!(net.get_tile(3, 1), Some(&Tile::Water));
    assert_eq!(net.get_tile(0, 0), Some(&Tile::Grass));
    assert_eq!(net.get_tile(9, 9), None);
    assert_eq!(net.get_tile(-1, 0), None);
    assert!(GameLogic::is_at_network_dungeon_entrance(&net, 2, 2));
    assert!(!GameLogic::is_at_network_dungeon_entrance(&net, 2, 1));
    let back = GameLogic::network_map_to_game(&net);
    assert_eq!((back.width, back.height), (6, 4));
    for x in -1..8 {
        for y in -1..6 {
            let inside = 0 <= x && x < 6 && 0 <= y && y < 4;
            assert_eq!(back.tile(x, y), if inside { map.tile(x, y) } else { None });
        }
    }
    assert!(back.rooms.is_empty());
}

#[test]
fn network_map_skips_malformed_keys() {
    let net = NetworkGameMap {
        width: 3,
        height: 3,
        tiles: vec![
            ("1_1".to_string(), Tile::Grass),
            ("1,2".to_string(), Tile::Water),
            ("nonsense".to_string(), Tile::Water),
            ("+1_1".to_string(), Tile::Road),
            ("2_2".to_string(), Tile::Tree),
            ("1_1".to_string(), Tile::Village),
        ],
    };
    // A lookup takes the first entry with the key.
    assert_eq!(net.get_tile(1, 1), Some(&Tile::Grass));
    assert_eq!(net.get_tile(1, 2), None);
    // A later entry for a cell replaces an earlier one.
    let map = GameLogic::network_map_to_game(&net);
    assert_eq!(map.tile(1, 1), Some(Tile::Village));
    assert_eq!(map.tile(2, 2), Some(Tile::Tree));
    assert_eq!(map.tile(1, 2), None);
}

#[test]
fn screens_of_client_and_server() {
    assert_eq!(NetworkCurrentScreen::from(CurrentScreen::MainMenu), NetworkCurrentScreen::Game);
    assert_eq!(NetworkCurrentScreen::from(CurrentScreen::Game), NetworkCurrentScreen::Game);
    assert_eq!(NetworkCurrentScreen::from(CurrentScreen::Inventory), NetworkCurrentScreen::Inventory);
    assert_eq!(NetworkCurrentScreen::from(CurrentScreen::Chat), NetworkCurrentScreen::Chat);
    assert_eq!(NetworkCurrentScreen::from(CurrentScreen::Exiting), NetworkCurrentScreen::Exiting);
    assert_eq!(CurrentScreen::from(NetworkCurrentScreen::Game), CurrentScreen::Game);
    assert_eq!(CurrentScreen::from(NetworkCurrentScreen::Inventory), CurrentScreen::Inventory);
    assert_eq!(CurrentScreen::from(NetworkCurrentScreen::Chat), CurrentScreen::Chat);
    assert_eq!(CurrentScreen::from(NetworkCurrentScreen::Exiting), CurrentScreen::Exiting);
}

#[test]
fn menu_and_connection() {
    let menu = MainMenuState::new();
    assert_eq!(menu.selected_option, 0);
    assert!(!menu.connecting);
    assert_eq!(menu.connection_error, None);
    let mut state = ConnectionState::new("c1".to_string(), 5);
    assert!(state.is_connected());
    assert_eq!(state.last_activity, 5);
    state.update_activity(9);
    assert_eq!(state.last_activity, 9);
    state.disconnect();
    assert!(!state.is_connected());
    assert_eq!(state.connection_id, "c1");
    assert_ne!(GameMode::SinglePlayer, GameMode::MultiPlayer);
}

#[test]
fn constants_of_the_game() {
    assert_eq!((GameConstants::OVERWORLD_WIDTH, GameConstants::OVERWORLD_HEIGHT), (60, 30));
    assert_eq!((GameConstants::DUNGEON_WIDTH, GameConstants::DUNGEON_HEIGHT), (80, 50));
    assert_eq!(GameConstants::LIGHT_RADIUS, 6);
    assert_eq!(GameConstants::MAX_MESSAGES, 10);
    assert_eq!(GameConstants::PLAYER_SYMBOL, '@');
}

#[test]
fn glyphs_of_tiles() {
    assert_eq!(Tile::Floor.to_char(), '.');
    assert_eq!(Tile::Wall.to_char(), '#');
    assert_eq!(Tile::Empty.to_char(), ' ');
    assert_eq!(Tile::Grass.to_char(), '"');
    assert_eq!(Tile::Tree.to_char(), 'T');
    assert_eq!(Tile::Mountain.to_char(), '^');
    assert_eq!(Tile::Water.to_char(), '~');
    assert_eq!(Tile::Village.to_char(), 'V');
    assert_eq!(Tile::DungeonEntrance.to_char(), 'D');
    let mut seen = Vec::new();
    for tile in ALL_TILES {
        assert!(!seen.contains(&tile.to_char()));
        seen.push(tile.to_char());
    }
}

#[test]
fn rooms_and_rectangles() {
    let room = Room::new(Rect { x: 1, y: 2, width: 3, height: 4 }, 9);
    assert_eq!((room.x, room.y, room.width, room.height, room.id), (1, 2, 3, 4, 9));
    assert_eq!(room.room_type, RoomType::Rectangle);
    assert_eq!(room.bounds(), Rect { x: 1, y: 2, width: 3, height: 4 });
}

#[test]
fn sparse_containers() {
    let mut map: CoordMap<u8> = CoordMap::new();
    assert!(!map.contains(0, 0));
    map.insert(i32::MIN, i32::MAX, 1);
    map.insert(i32::MAX, i32::MIN, 2);
    map.insert(-1, 0, 3);
    map.insert(0, -1, 4);
    map.insert(-1, 0, 5);
    assert_eq!(map.get(i32::MIN, i32::MAX), Some(&1));
    assert_eq!(map.get(i32::MAX, i32::MIN), Some(&2));
    assert_eq!(map.get(-1, 0), Some(&5));
    assert_eq!(map.get(0, -1), Some(&4));
    assert_eq!(map.get(0, 0), None);
    map.clear();
    assert!(!map.contains(-1, 0));
    let mut set = CoordSet::new();
    assert!(set.insert(3, -3));
    assert!(!set.insert(3, -3));
    assert!(set.contains(3, -3));
    assert!(!set.contains(-3, 3));
    set.clear();
    assert!(!set.contains(3, -3));
}

#[test]
fn colors_of_cells() {
    assert_eq!(DungeonVisualizer::tile_color(None, None), (0, 0, 0));
    assert_eq!(DungeonVisualizer::tile_color(Some(Tile::Wall), None), (64, 64, 64));
    assert_eq!(DungeonVisualizer::tile_color(Some(Tile::Floor), None), (200, 200, 200));
    assert_eq!(DungeonVisualizer::tile_color(Some(Tile::Floor), Some(3)), (125, 61, 157));
    assert_eq!(DungeonVisualizer::tile_color(Some(Tile::Corridor), None), (150, 150, 200));
    assert_eq!(DungeonVisualizer::tile_color(Some(Tile::Door), Some(3)), (139, 69, 19));
    assert_eq!(DungeonVisualizer::tile_color(Some(Tile::DungeonExit), None), (0, 255, 0));
    assert_eq!(DungeonVisualizer::tile_color(Some(Tile::Grass), None), (255, 0, 0));
}

#[test]
fn picture_of_a_map() {
    let mut map = GameMap::new(3, 2);
    map.tiles.insert(0, 0, Tile::Wall);
    map.tiles.insert(2, 0, Tile::Door);
    map.tiles.insert(1, 1, Tile::Floor);
    map.room_positions.insert(1, 1, 2);
    let bytes = DungeonVisualizer::dungeon_bitmap(&map);
    assert_eq!(
        bytes,
        vec![64, 64, 64, 0, 0, 0, 139, 69, 19, 0, 0, 0, 254, 126, 190, 0, 0, 0]
    );
    assert!(DungeonVisualizer::dungeon_bitmap(&GameMap::new(0, 5)).is_empty());
}

#[test]
fn picture_can_be_read_as_an_image() {
    let mut map = GameMap::new(4, 3);
    map.tiles.insert(3, 2, Tile::DungeonExit);
    map.tiles.insert(0, 1, Tile::Corridor);
    // A tile outside the map is not drawn.
    map.tiles.insert(4, 0, Tile::Wall);
    let bytes = DungeonVisualizer::dungeon_bitmap(&map);
    let picture = image::RgbImage::from_raw(4, 3, bytes).unwrap();
    assert_eq!(picture.get_pixel(3, 2), &image::Rgb([0, 255, 0]));
    assert_eq!(picture.get_pixel(0, 1), &image::Rgb([150, 150, 200]));
    assert_eq!(picture.get_pixel(0, 0), &image::Rgb([0, 0, 0]));
    assert_eq!(picture.get_pixel(3, 0), &image::Rgb([0, 0, 0]));
}

#[test]
fn network_map_lists_the_tiles_row_by_row() {
    let mut map = GameMap::new(4, 3);
    map.tiles.insert(2, 1, Tile::Water);
    map.tiles.insert(3, 0, Tile::Road);
    map.tiles.insert(0, 2, Tile::Grass);
    map.tiles.insert(1, 0, Tile::Tree);
    map.tiles.insert(4, 1, Tile::Mountain);
    map.tiles.insert(-1, 0, Tile::Mountain);
    let net = GameLogic::game_map_to_network(&map);
    let listed: Vec<(&str, Tile)> = net.tiles.iter().map(|(k, t)| (k.as_str(), *t)).collect();
    assert_eq!(
        listed,
        vec![("1_0", Tile::Tree), ("3_0", Tile::Road), ("2_1", Tile::Water), ("0_2", Tile::Grass)]
    );
    let none = GameLogic::game_map_to_network(&GameMap::new(-2, 5));
    assert!(none.tiles.is_empty());
}
