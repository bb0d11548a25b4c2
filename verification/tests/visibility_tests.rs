use roguelike_core::dungeon::DungeonGenerator;
use roguelike_core::game_logic::{GameLogic, Player};
use roguelike_core::grid::CoordSet;
use roguelike_core::lighting::{
    calculate_brightness, is_bright_enough, line_cell, line_length, sqrt_floor, LightLevel,
    TileVisibility,
};
use roguelike_core::map::GameMap;
use roguelike_core::tile::{Rect, Room, Tile};

fn wall_map(width: i32, height: i32) -> GameMap {
    let mut map = GameMap::new(width, height);
    for x in 0..width {
        for y in 0..height {
            map.tiles.insert(x, y, Tile::Wall);
        }
    }
    map
}

fn floor_map(width: i32, height: i32) -> GameMap {
    let mut map = GameMap::new(width, height);
    for x in 0..width {
        for y in 0..height {
            map.tiles.insert(x, y, Tile::Floor);
        }
    }
    map
}

fn add_room(map: &mut GameMap, x: i32, y: i32, width: i32, height: i32, id: u32) {
    let room = Room::new(Rect { x, y, width, height }, id);
    DungeonGenerator::carve_room(map, &room);
    map.rooms.push(room);
}

/// Room 3 at the left, a door at (10, 10) in its right wall, a corridor
/// from the door to the open side of room 5, and room 7 behind a closed
/// door at the end of a branch.
fn wing() -> GameMap {
    let mut map = wall_map(40, 24);
    add_room(&mut map, 5, 8, 5, 5, 3);
    add_room(&mut map, 20, 8, 5, 5, 5);
    add_room(&mut map, 13, 16, 5, 5, 7);
    map.tiles.insert(10, 10, Tile::Door);
    for x in 11..20 {
        map.tiles.insert(x, 10, Tile::Corridor);
    }
    for y in 11..15 {
        map.tiles.insert(15, y, Tile::Corridor);
    }
    map.tiles.insert(15, 15, Tile::Door);
    map.tiles.insert(6, 9, Tile::DungeonExit);
    map
}

#[test]
fn a_visit_starts_in_the_room_with_the_exit() {
    let map = wing();
    let mut player = Player::new(6, 9);
    player.explored_rooms.insert(99);
    player.opened_doors.insert(1, 1);
    GameLogic::initialize_dungeon_exploration(&map, &mut player);
    assert_eq!(player.explored_rooms.len(), 1);
    assert!(player.explored_rooms.contains(&3));
    assert!(!player.opened_doors.contains(1, 1));
}

#[test]
fn a_visit_of_a_map_without_exit_starts_nowhere() {
    let mut map = wing();
    map.tiles.insert(6, 9, Tile::Floor);
    let mut player = Player::new(6, 9);
    player.explored_rooms.insert(3);
    GameLogic::initialize_dungeon_exploration(&map, &mut player);
    assert!(player.explored_rooms.is_empty());
}

#[test]
fn generated_dungeon_starts_with_its_first_room() {
    let map = DungeonGenerator::generate_dungeon_with_seed(80, 50, 0x12345678);
    let mut player = Player::new(0, 0);
    GameLogic::initialize_dungeon_exploration(&map, &mut player);
    assert_eq!(player.explored_rooms.len(), 1);
    assert!(player.explored_rooms.contains(&5));
}

#[test]
fn opening_a_door_reveals_the_wing() {
    let map = wing();
    let mut player = Player::new(9, 10);
    GameLogic::initialize_dungeon_exploration(&map, &mut player);
    assert!(player.explored_rooms.contains(&3));
    assert!(!player.explored_rooms.contains(&5));
    assert!(GameLogic::open_door(&map, &mut player, 10, 10));
    assert!(player.opened_doors.contains(10, 10));
    assert!(player.explored_rooms.contains(&3));
    assert!(player.explored_rooms.contains(&5));
    // Room 7 is behind a door that is still closed.
    assert!(!player.explored_rooms.contains(&7));
    assert_eq!(player.explored_rooms.len(), 2);
    assert!(!player.opened_doors.contains(15, 15));
    assert_eq!((player.x, player.y), (9, 10));
}

#[test]
fn opening_the_second_door_reveals_the_rest() {
    let map = wing();
    let mut player = Player::new(9, 10);
    GameLogic::initialize_dungeon_exploration(&map, &mut player);
    GameLogic::open_door(&map, &mut player, 10, 10);
    assert!(GameLogic::open_door(&map, &mut player, 15, 15));
    assert!(player.explored_rooms.contains(&7));
    assert_eq!(player.explored_rooms.len(), 3);
}

#[test]
fn opening_a_far_door_first_reveals_through_the_corridor() {
    let map = wing();
    let mut player = Player::new(0, 0);
    // Nothing explored: the door at (15, 15) leads to room 7 and,
    // through the corridor, to the open side of room 5, but not through
    // the closed door of room 3.
    assert!(GameLogic::open_door(&map, &mut player, 15, 15));
    assert!(player.explored_rooms.contains(&7));
    assert!(player.explored_rooms.contains(&5));
    assert!(!player.explored_rooms.contains(&3));
}

#[test]
fn opening_what_is_no_door_does_nothing() {
    let map = wing();
    let mut player = Player::new(9, 10);
    GameLogic::initialize_dungeon_exploration(&map, &mut player);
    assert!(!GameLogic::open_door(&map, &mut player, 11, 10));
    assert!(!GameLogic::open_door(&map, &mut player, 7, 9));
    assert!(!GameLogic::open_door(&map, &mut player, -1, -1));
    assert!(!GameLogic::open_door(&map, &mut player, i32::MAX, i32::MIN));
    assert_eq!(player.explored_rooms.len(), 1);
    assert!(!player.opened_doors.contains(11, 10));
}

#[test]
fn explored_rooms_stay_visible() {
    let map = wing();
    let mut player = Player::new(9, 10);
    GameLogic::initialize_dungeon_exploration(&map, &mut player);
    let mut seen: Vec<(i32, i32)> = Vec::new();
    for step in 0..3 {
        for x in 0..40 {
            for y in 0..24 {
                if GameLogic::is_tile_visible(&map, &player, x, y) && !seen.contains(&(x, y)) {
                    seen.push((x, y));
                }
            }
        }
        for (x, y) in &seen {
            assert!(GameLogic::is_tile_visible(&map, &player, *x, *y));
        }
        // The player wanders: what it sees of the map does not change.
        player.x = 30 - step;
        player.y = 2 + step;
        for (x, y) in &seen {
            assert!(GameLogic::is_tile_visible(&map, &player, *x, *y));
        }
        if step == 0 {
            GameLogic::open_door(&map, &mut player, 10, 10);
        } else {
            GameLogic::open_door(&map, &mut player, 15, 15);
        }
    }
    assert!(seen.contains(&(14, 18)));
}

#[test]
fn what_is_visible_at_the_start() {
    let map = wing();
    let mut player = Player::new(9, 10);
    GameLogic::initialize_dungeon_exploration(&map, &mut player);
    // The room with the exit, and its door.
    assert!(GameLogic::is_tile_visible(&map, &player, 5, 8));
    assert!(GameLogic::is_tile_visible(&map, &player, 9, 12));
    assert!(GameLogic::is_tile_visible(&map, &player, 6, 9));
    assert!(GameLogic::is_tile_visible(&map, &player, 10, 10));
    // Not the corridor behind the closed door, nor the other rooms.
    assert!(!GameLogic::is_tile_visible(&map, &player, 11, 10));
    assert!(!GameLogic::is_tile_visible(&map, &player, 19, 10));
    assert!(!GameLogic::is_tile_visible(&map, &player, 20, 8));
    assert!(!GameLogic::is_tile_visible(&map, &player, 15, 15));
    // Not the walls.
    assert!(!GameLogic::is_tile_visible(&map, &player, 4, 8));
    assert!(!GameLogic::is_tile_visible(&map, &player, 0, 0));
}

#[test]
fn what_is_visible_behind_the_opened_door() {
    let map = wing();
    let mut player = Player::new(9, 10);
    GameLogic::initialize_dungeon_exploration(&map, &mut player);
    GameLogic::open_door(&map, &mut player, 10, 10);
    for x in 11..20 {
        assert!(GameLogic::is_tile_visible(&map, &player, x, 10));
    }
    for y in 11..15 {
        assert!(GameLogic::is_tile_visible(&map, &player, 15, y));
    }
    assert!(GameLogic::is_tile_visible(&map, &player, 22, 10));
    // The closed door of room 7 is next to no explored room.
    assert!(!GameLogic::is_tile_visible(&map, &player, 15, 15));
    assert!(!GameLogic::is_tile_visible(&map, &player, 15, 18));
}

#[test]
fn corridor_behind_a_closed_door_of_an_explored_room() {
    // A corridor is seen when a walk leads from it to a cell next to an
    // explored room; the walk does not pass closed doors.
    let map = wing();
    let mut player = Player::new(0, 0);
    player.explored_rooms.insert(7);
    assert!(GameLogic::is_tile_visible(&map, &player, 15, 15));
    assert!(!GameLogic::is_tile_visible(&map, &player, 15, 14));
    player.opened_doors.insert(15, 15);
    assert!(GameLogic::is_tile_visible(&map, &player, 15, 14));
    assert!(GameLogic::is_tile_visible(&map, &player, 11, 10));
}

#[test]
fn exit_is_always_visible() {
    let mut map = wall_map(20, 20);
    add_room(&mut map, 5, 5, 5, 5, 1);
    map.tiles.insert(15, 15, Tile::DungeonExit);
    let player = Player::new(0, 0);
    assert!(GameLogic::is_tile_visible(&map, &player, 15, 15));
    assert!(!GameLogic::is_tile_visible(&map, &player, 6, 6));
}

#[test]
fn outside_the_map_nothing_is_visible() {
    let map = wing();
    let mut player = Player::new(9, 10);
    GameLogic::initialize_dungeon_exploration(&map, &mut player);
    GameLogic::open_door(&map, &mut player, 10, 10);
    assert!(!GameLogic::is_tile_visible(&map, &player, -1, 10));
    assert!(!GameLogic::is_tile_visible(&map, &player, 40, 10));
    assert!(!GameLogic::is_tile_visible(&map, &player, 10, 24));
    assert!(!GameLogic::is_tile_visible(&map, &player, i32::MIN, i32::MAX));
}

#[test]
fn on_a_map_without_rooms_every_cell_of_it_is_visible() {
    let map = floor_map(5, 5);
    let player = Player::new(0, 0);
    assert!(GameLogic::is_tile_visible(&map, &player, 2, 2));
    assert!(GameLogic::is_tile_visible(&map, &player, 0, 0));
    assert!(GameLogic::is_tile_visible(&map, &player, 4, 4));
    assert!(!GameLogic::is_tile_visible(&map, &player, 100, 100));
    assert!(!GameLogic::is_tile_visible(&map, &player, 5, 0));
    assert!(!GameLogic::is_tile_visible(&map, &player, 0, -1));
}

#[test]
fn exit_inside_an_unexplored_room_is_visible() {
    let mut map = wall_map(20, 20);
    add_room(&mut map, 5, 5, 5, 5, 1);
    map.tiles.insert(7, 7, Tile::DungeonExit);
    let player = Player::new(0, 0);
    assert!(GameLogic::is_tile_visible(&map, &player, 7, 7));
    assert!(!GameLogic::is_tile_visible(&map, &player, 6, 7));
    assert!(!GameLogic::is_tile_visible(&map, &player, 8, 7));
}

#[test]
fn door_next_to_explored_things() {
    let map = wing();
    let mut player = Player::new(0, 0);
    assert!(!GameLogic::door_connects_to_explored_area(&map, &player, 10, 10));
    player.explored_rooms.insert(5);
    // The corridor cell (11, 10) is next to no explored room.
    assert!(!GameLogic::door_connects_to_explored_area(&map, &player, 10, 10));
    assert!(GameLogic::is_corridor_visible(&map, &player.explored_rooms, 19, 10));
    assert!(!GameLogic::is_corridor_visible(&map, &player.explored_rooms, 18, 10));
    player.explored_rooms.insert(3);
    assert!(GameLogic::door_connects_to_explored_area(&map, &player, 10, 10));
}

#[test]
fn square_root_rounds_down() {
    assert_eq!(sqrt_floor(0), 0);
    assert_eq!(sqrt_floor(1), 1);
    assert_eq!(sqrt_floor(3), 1);
    assert_eq!(sqrt_floor(4), 2);
    assert_eq!(sqrt_floor(99), 9);
    assert_eq!(sqrt_floor(100), 10);
    assert_eq!(sqrt_floor(2_000_000_000_000), 1_414_213);
    assert_eq!(sqrt_floor((1u128 << 106) - 1), (1u64 << 53) - 1);
}

#[test]
fn brightness_falls_off_with_the_square() {
    assert_eq!(calculate_brightness(0, 6), 1_000_000);
    assert_eq!(calculate_brightness(1, 6), 1_000_000);
    assert_eq!(calculate_brightness(2, 6), 584_151);
    assert_eq!(calculate_brightness(4, 6), 444_444);
    assert_eq!(calculate_brightness(9, 6), 250_000);
    assert_eq!(calculate_brightness(16, 6), 111_111);
    assert_eq!(calculate_brightness(17, 6), 97_853);
    assert_eq!(calculate_brightness(25, 6), 27_777);
    assert_eq!(calculate_brightness(35, 6), 195);
    assert_eq!(calculate_brightness(36, 6), 0);
    assert_eq!(calculate_brightness(37, 6), 0);
    assert_eq!(calculate_brightness(4, 3), 111_111);
    assert_eq!(calculate_brightness(1, 0), 1_000_000);
    assert_eq!(calculate_brightness(2, 0), 0);
    assert_eq!(calculate_brightness(2, -3), 0);
}

#[test]
fn light_levels() {
    assert_eq!(LightLevel::new(5).brightness, 5);
    assert_eq!(LightLevel::new(2_000_000).brightness, 1_000_000);
    assert_eq!(LightLevel::dark().brightness, 0);
    assert_eq!(LightLevel::bright().brightness, 1_000_000);
}

#[test]
fn drawn_brightness() {
    assert_eq!(TileVisibility::Hidden.get_brightness(), 0);
    assert_eq!(TileVisibility::Remembered.get_brightness(), 300_000);
    assert_eq!(TileVisibility::Lit(LightLevel::dark()).get_brightness(), 500_000);
    assert_eq!(TileVisibility::Lit(LightLevel::bright()).get_brightness(), 1_000_000);
    assert_eq!(TileVisibility::Lit(LightLevel::new(250_000)).get_brightness(), 625_000);
    assert!(!TileVisibility::Hidden.is_visible());
    assert!(TileVisibility::Remembered.is_visible());
    assert!(TileVisibility::Lit(LightLevel::dark()).is_visible());
}

#[test]
fn line_between_two_cells() {
    assert_eq!(line_length(0, 0, 5, 2), 5);
    assert_eq!(line_length(3, 3, 3, 3), 0);
    assert_eq!(line_length(0, 0, -2, 7), 7);
    let cells: Vec<(i32, i32)> = (0..=5).map(|i| line_cell(0, 0, 5, 2, i)).collect();
    assert_eq!(cells, vec![(0, 0), (1, 0), (2, 1), (3, 1), (4, 2), (5, 2)]);
    let cells: Vec<(i32, i32)> = (0..=4).map(|i| line_cell(2, 2, -1, -2, i)).collect();
    assert_eq!(cells, vec![(2, 2), (1, 1), (0, 0), (0, -1), (-1, -2)]);
    let cells: Vec<(i32, i32)> = (0..=3).map(|i| line_cell(1, 1, 4, 4, i)).collect();
    assert_eq!(cells, vec![(1, 1), (2, 2), (3, 3), (4, 4)]);
    assert_eq!(line_cell(7, 7, 7, 7, 0), (7, 7));
    assert_eq!(line_cell(i32::MIN, 0, i32::MAX, 1, u32::MAX as u64), (i32::MAX, 1));
    assert_eq!(line_cell(i32::MIN, 0, i32::MAX, 1, 1 << 31), (0, 1));
}

#[test]
fn walls_stop_the_light_behind_them() {
    let mut map = floor_map(12, 5);
    map.tiles.insert(5, 2, Tile::Wall);
    let none = CoordSet::new();
    assert!(map.has_line_of_sight_with_doors(2, 2, 4, 2, &none));
    // The wall itself is seen, the floor behind it is not.
    assert!(map.has_line_of_sight_with_doors(2, 2, 5, 2, &none));
    assert!(!map.has_line_of_sight_with_doors(2, 2, 6, 2, &none));
    assert!(!map.has_line_of_sight_with_doors(6, 2, 2, 2, &none));
    assert!(map.has_line_of_sight_with_doors(2, 1, 8, 1, &none));
    assert!(map.has_line_of_sight_with_doors(2, 2, 2, 2, &none));
    map.tiles.insert(5, 2, Tile::Mountain);
    assert!(!map.has_line_of_sight_with_doors(2, 2, 6, 2, &none));
    map.tiles.insert(5, 2, Tile::Tree);
    assert!(!map.has_line_of_sight_with_doors(2, 2, 6, 2, &none));
    map.tiles.insert(5, 2, Tile::Water);
    assert!(map.has_line_of_sight_with_doors(2, 2, 6, 2, &none));
}

#[test]
fn closed_doors_stop_the_light() {
    let mut map = floor_map(12, 5);
    map.tiles.insert(5, 2, Tile::Door);
    let mut opened = CoordSet::new();
    assert!(!map.has_line_of_sight_with_doors(2, 2, 8, 2, &opened));
    opened.insert(5, 2);
    assert!(map.has_line_of_sight_with_doors(2, 2, 8, 2, &opened));
}

#[test]
fn light_reaches_as_far_as_it_is_bright() {
    let mut map = floor_map(21, 21);
    map.update_lighting(10, 10, 6);
    // Brightness above a tenth: up to the distance squared of 16.
    for x in 0..21 {
        for y in 0..21 {
            let d = (x - 10) * (x - 10) + (y - 10) * (y - 10);
            assert_eq!(map.is_visible(x, y), d <= 16);
            assert_eq!(map.is_explored(x, y), d <= 16);
            assert_eq!(map.should_render_tile(x, y), d <= 16);
        }
    }
}

#[test]
fn a_wide_light_reaches_the_cell_just_above_the_tenth() {
    let mut map = floor_map(200, 200);
    map.update_lighting(0, 0, 127);
    assert!(map.is_visible(50, 71));
    assert!(map.is_explored(50, 71));
    assert!(map.is_visible(71, 50));
    assert!(!map.is_visible(120, 120));
    assert!(map.is_visible(0, 0));
}

#[test]
fn brighter_than_a_tenth() {
    assert!(is_bright_enough(0, 0));
    assert!(is_bright_enough(1, -5));
    assert!(!is_bright_enough(2, 0));
    assert!(is_bright_enough(16, 6));
    assert!(!is_bright_enough(17, 6));
    assert!(!is_bright_enough(36, 6));
    assert!(is_bright_enough(7541, 127));
    assert!(!is_bright_enough(16129, 127));
    assert!(is_bright_enough(4, i32::MAX));
    assert!(!is_bright_enough(0x2_0000_0000_0000_0000u128, i32::MAX));
}

#[test]
fn what_was_lit_is_remembered() {
    let mut map = floor_map(30, 9);
    map.update_lighting(5, 4, 6);
    assert!(map.is_visible(5, 4));
    assert!(!map.is_visible(20, 4));
    map.update_lighting(20, 4, 6);
    assert!(!map.is_visible(5, 4));
    assert!(map.is_explored(5, 4));
    assert!(map.should_render_tile(5, 4));
    assert!(map.is_visible(20, 4));
    assert!(!map.should_render_tile(12, 4));
    let state = map.get_tile_visibility_state(20, 4, 5, 4, 6);
    assert_eq!(state, TileVisibility::Remembered);
    let state = map.get_tile_visibility_state(20, 4, 12, 4, 6);
    assert_eq!(state, TileVisibility::Hidden);
    let state = map.get_tile_visibility_state(20, 4, 22, 4, 6);
    assert_eq!(state, TileVisibility::Lit(LightLevel::new(444_444)));
    assert_eq!(state.get_brightness(), 722_222);
}

#[test]
fn light_stays_on_the_map() {
    let mut map = floor_map(3, 3);
    map.update_lighting(0, 0, 6);
    assert!(map.is_visible(2, 2));
    assert!(!map.is_visible(-1, 0));
    assert!(!map.is_visible(3, 0));
    map.update_lighting(1, 1, -1);
    assert!(!map.is_visible(1, 1));
    assert!(map.is_explored(2, 2));
    map.update_lighting(i32::MAX, i32::MIN, 6);
    assert!(!map.is_visible(2, 2));
}

#[test]
fn light_behind_doors() {
    let mut map = floor_map(12, 5);
    for y in 0..5 {
        map.tiles.insert(5, y, Tile::Wall);
    }
    map.tiles.insert(5, 2, Tile::Door);
    let mut opened = CoordSet::new();
    map.update_lighting_with_doors(3, 2, 6, &opened);
    assert!(map.is_visible(5, 2));
    assert!(!map.is_visible(6, 2));
    assert_eq!(map.get_light_level_with_doors(3, 2, 6, 2, 6, &opened).brightness, 0);
    assert_eq!(map.get_light_level(3, 2, 6, 2, 6).brightness, 0);
    opened.insert(5, 2);
    map.update_lighting_with_doors(3, 2, 6, &opened);
    assert!(map.is_visible(6, 2));
    assert!(map.is_visible(7, 2));
    assert!(!map.is_visible(6, 0));
    assert_eq!(map.get_light_level_with_doors(3, 2, 6, 2, 6, &opened).brightness, 250_000);
    assert_eq!(map.get_light_level_with_doors(3, 2, 3, 2, 6, &opened).brightness, 1_000_000);
    assert_eq!(map.get_light_level_with_doors(3, 2, 9, 2, 6, &opened).brightness, 0);
    let state = map.get_tile_visibility_state_with_doors(3, 2, 6, 2, 6, &opened);
    assert_eq!(state, TileVisibility::Lit(LightLevel::new(250_000)));
}
