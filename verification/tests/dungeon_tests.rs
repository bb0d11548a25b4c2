use roguelike_core::dungeon::DungeonGenerator;
use roguelike_core::map::GameMap;
use roguelike_core::rng::SeededRng;
use roguelike_core::tile::{Rect, Room, Tile};

fn grid(map: &GameMap) -> Vec<Option<Tile>> {
    let mut cells = Vec::new();
    for y in 0..map.height {
        for x in 0..map.width {
            cells.push(map.tile(x, y));
        }
    }
    cells
}

fn wall_map(width: i32, height: i32) -> GameMap {
    let mut map = GameMap::new(width, height);
    for x in 0..width {
        for y in 0..height {
            map.tiles.insert(x, y, Tile::Wall);
        }
    }
    map
}

fn passable(map: &GameMap, x: i32, y: i32) -> bool {
    matches!(
        map.tile(x, y),
        Some(Tile::Floor) | Some(Tile::Corridor) | Some(Tile::Door) | Some(Tile::DungeonExit)
    )
}

fn reached_rooms(map: &GameMap) -> Vec<bool> {
    let w = map.width;
    let h = map.height;
    let mut seen = vec![false; (w * h) as usize];
    let first = &map.rooms[0];
    let mut stack = vec![(first.x, first.y)];
    while let Some((x, y)) = stack.pop() {
        if x < 0 || y < 0 || x >= w || y >= h {
            continue;
        }
        let at = (y * w + x) as usize;
        if seen[at] || !passable(map, x, y) {
            continue;
        }
        seen[at] = true;
        stack.push((x - 1, y));
        stack.push((x + 1, y));
        stack.push((x, y - 1));
        stack.push((x, y + 1));
    }
    map.rooms.iter().map(|room| seen[(room.y * w + room.x) as usize]).collect()
}

fn encased(map: &GameMap, x: i32, y: i32) -> bool {
    let wall = |a: i32, b: i32| map.tile(a, b) == Some(Tile::Wall);
    let open = |a: i32, b: i32| matches!(map.tile(a, b), Some(Tile::Floor) | Some(Tile::Corridor));
    (wall(x - 1, y) && wall(x + 1, y) && open(x, y - 1) && open(x, y + 1))
        || (wall(x, y - 1) && wall(x, y + 1) && open(x - 1, y) && open(x + 1, y))
}

/// The stages of generation, one by one, with the doors that were forced.
fn staged(width: i32, height: i32, seed: u32) -> (GameMap, Vec<(i32, i32)>) {
    let mut rng = SeededRng::new(seed);
    let mut map = wall_map(width, height);
    let tree = DungeonGenerator::plant_tree(width, height, &mut rng);
    let rooms = DungeonGenerator::collect_rooms(&tree, width, height);
    DungeonGenerator::carve_rooms(&mut map, &rooms);
    tree.connect_children(&mut map, &mut rng);
    let forced = DungeonGenerator::add_doors(&mut map, &rooms);
    DungeonGenerator::place_exit(&mut map, &rooms);
    (map, forced)
}

#[test]
fn reference_dungeon_has_its_rooms() {
    let map = DungeonGenerator::generate_dungeon_with_seed(80, 50, 0x12345678);
    assert_eq!(map.width, 80);
    assert_eq!(map.height, 50);
    assert_eq!(map.rooms.len(), 6);
    let first = &map.rooms[0];
    assert_eq!((first.x, first.y, first.width, first.height, first.id), (5, 15, 5, 8, 5));
    let sites: Vec<(i32, i32, i32, i32, u32)> =
        map.rooms.iter().map(|r| (r.x, r.y, r.width, r.height, r.id)).collect();
    assert_eq!(
        sites,
        vec![
            (5, 15, 5, 8, 5),
            (22, 4, 5, 8, 9),
            (19, 20, 5, 8, 10),
            (21, 37, 5, 8, 8),
            (44, 3, 5, 8, 4),
            (67, 18, 5, 8, 2)
        ]
    );
}

#[test]
fn small_dungeon_uses_the_small_partition() {
    let map = DungeonGenerator::generate_dungeon_with_seed(50, 30, 7);
    let sites: Vec<(i32, i32, i32, i32, u32)> =
        map.rooms.iter().map(|r| (r.x, r.y, r.width, r.height, r.id)).collect();
    assert_eq!(sites, vec![(3, 9, 8, 7, 1), (24, 3, 8, 7, 3), (38, 3, 8, 7, 4)]);
}

#[test]
fn same_seed_same_dungeon() {
    let a = DungeonGenerator::generate_dungeon_with_seed(80, 50, 0x12345678);
    let b = DungeonGenerator::generate_dungeon_with_seed(80, 50, 0x12345678);
    assert_eq!(grid(&a), grid(&b));
    let c = DungeonGenerator::generate_dungeon_with_seed(80, 50, 0x12345679);
    assert_ne!(grid(&a), grid(&c));
}

#[test]
fn same_entrance_same_dungeon() {
    let a = DungeonGenerator::generate_dungeon_for_entrance(15, 20);
    let b = DungeonGenerator::generate_dungeon_for_entrance(15, 20);
    assert_eq!(grid(&a), grid(&b));
    assert_eq!((a.width, a.height), (80, 50));
    let by_seed = DungeonGenerator::generate_dungeon_with_seed(80, 50, 961554318);
    assert_eq!(grid(&a), grid(&by_seed));
    let other = DungeonGenerator::generate_dungeon_for_entrance(16, 20);
    assert_ne!(grid(&a), grid(&other));
}

#[test]
fn default_dungeon_uses_the_default_seed() {
    let a = DungeonGenerator::generate_dungeon(80, 50);
    let b = DungeonGenerator::generate_dungeon_with_seed(80, 50, 12345);
    assert_eq!(grid(&a), grid(&b));
    assert_eq!(a.rooms.len(), 5);
    assert_eq!((a.rooms[0].x, a.rooms[0].y, a.rooms[0].id), (3, 16, 7));
}

#[test]
fn seed_of_an_entrance() {
    assert_eq!(DungeonGenerator::generate_dungeon_seed(0, 0), 2462723854);
    assert_eq!(DungeonGenerator::generate_dungeon_seed(1, 2), 283688370);
    assert_eq!(DungeonGenerator::generate_dungeon_seed(-1, -1), 257138085);
    assert_eq!(DungeonGenerator::generate_dungeon_seed(15, 20), 961554318);
    assert_eq!(DungeonGenerator::generate_dungeon_seed(100, -50), 4027745226);
}

#[test]
fn seed_is_never_zero() {
    for x in -40..40 {
        for y in -40..40 {
            assert_ne!(DungeonGenerator::generate_dungeon_seed(x, y), 0);
        }
    }
}

#[test]
fn every_cell_of_the_map_has_a_tile() {
    let map = DungeonGenerator::generate_dungeon_with_seed(80, 50, 3);
    for x in -2..82 {
        for y in -2..52 {
            let inside = 0 <= x && x < 80 && 0 <= y && y < 50;
            assert_eq!(map.tile(x, y).is_some(), inside);
        }
    }
}

#[test]
fn border_stays_wall() {
    for seed in 0..50u32 {
        let map = DungeonGenerator::generate_dungeon_with_seed(80, 50, seed);
        for x in 0..80 {
            assert_eq!(map.tile(x, 0), Some(Tile::Wall));
            assert_eq!(map.tile(x, 49), Some(Tile::Wall));
        }
        for y in 0..50 {
            assert_eq!(map.tile(0, y), Some(Tile::Wall));
            assert_eq!(map.tile(79, y), Some(Tile::Wall));
        }
    }
}

#[test]
fn rooms_do_not_overlap() {
    for seed in 0..300u32 {
        let map = DungeonGenerator::generate_dungeon_with_seed(80, 50, seed);
        for i in 0..map.rooms.len() {
            for j in (i + 1)..map.rooms.len() {
                let a = &map.rooms[i];
                let b = &map.rooms[j];
                let overlap = a.x < b.x + b.width
                    && a.x + a.width > b.x
                    && a.y < b.y + b.height
                    && a.y + a.height > b.y;
                assert!(!overlap);
                assert_ne!(a.id, b.id);
            }
        }
    }
}

#[test]
fn room_cells_are_owned_and_floored() {
    let map = DungeonGenerator::generate_dungeon_with_seed(80, 50, 0x12345678);
    let mut owned = 0;
    for room in &map.rooms {
        for x in room.x..room.x + room.width {
            for y in room.y..room.y + room.height {
                assert_eq!(map.room_id_at(x, y), Some(room.id));
                assert!(matches!(map.tile(x, y), Some(Tile::Floor) | Some(Tile::DungeonExit)));
                owned += 1;
            }
        }
    }
    let mut total = 0;
    for x in 0..80 {
        for y in 0..50 {
            if map.room_id_at(x, y).is_some() {
                total += 1;
            }
        }
    }
    assert_eq!(owned, total);
}

#[test]
fn doors_are_encased_unless_forced() {
    let mut doors = 0;
    for seed in 0..200u32 {
        let (map, forced) = staged(80, 50, seed);
        let whole = DungeonGenerator::generate_dungeon_with_seed(80, 50, seed);
        assert_eq!(grid(&map), grid(&whole));
        for x in 0..80 {
            for y in 0..50 {
                if whole.tile(x, y) == Some(Tile::Door) {
                    doors += 1;
                    assert!(encased(&whole, x, y) || forced.contains(&(x, y)));
                }
            }
        }
    }
    assert!(doors > 200);
}

#[test]
fn every_room_of_the_reference_dungeon_has_a_door() {
    let map = DungeonGenerator::generate_dungeon_with_seed(80, 50, 0x12345678);
    for room in &map.rooms {
        let mut found = false;
        for x in room.x..room.x + room.width {
            found |= map.tile(x, room.y - 1) == Some(Tile::Door);
            found |= map.tile(x, room.y + room.height) == Some(Tile::Door);
        }
        for y in room.y..room.y + room.height {
            found |= map.tile(room.x - 1, y) == Some(Tile::Door);
            found |= map.tile(room.x + room.width, y) == Some(Tile::Door);
        }
        assert!(found);
    }
}

#[test]
fn exit_is_in_the_first_room() {
    for seed in 0..100u32 {
        let map = DungeonGenerator::generate_dungeon_with_seed(80, 50, seed);
        let first = &map.rooms[0];
        assert_eq!(map.tile(first.x + 1, first.y + 1), Some(Tile::DungeonExit));
        let mut exits = 0;
        for x in 0..80 {
            for y in 0..50 {
                if map.tile(x, y) == Some(Tile::DungeonExit) {
                    exits += 1;
                }
            }
        }
        assert_eq!(exits, 1);
    }
}

#[test]
fn two_rooms_are_always_connected() {
    // A map of this size is cut once, into two leaves with a room each.
    for seed in 0..300u32 {
        let map = DungeonGenerator::generate_dungeon_with_seed(32, 23, seed);
        assert_eq!(map.rooms.len(), 2);
        assert!(reached_rooms(&map).iter().all(|r| *r));
    }
}

#[test]
fn every_room_is_reached_from_the_first() {
    let mut rooms = 0;
    for seed in 0..300u32 {
        let map = DungeonGenerator::generate_dungeon_with_seed(80, 50, seed);
        assert!(map.rooms.len() >= 3);
        rooms += map.rooms.len();
        assert!(reached_rooms(&map).iter().all(|r| *r));
    }
    assert!(rooms > 1500);
    for (width, height) in [(3, 3), (9, 7), (11, 11), (40, 25), (64, 64), (120, 45), (200, 150)] {
        for seed in [0u32, 1, 0x12345678, u32::MAX] {
            let map = DungeonGenerator::generate_dungeon_with_seed(width, height, seed);
            assert!(reached_rooms(&map).iter().all(|r| *r));
        }
    }
}

#[test]
fn corridors_start_in_the_middle_of_the_first_rooms() {
    // Two rooms: the corridor runs between their middles, so every cell
    // of the row of one middle and the column of the other, or the other
    // way round, can be walked on.
    for seed in 0..50u32 {
        let map = DungeonGenerator::generate_dungeon_with_seed(32, 23, seed);
        let a = &map.rooms[0];
        let b = &map.rooms[1];
        let from = (a.x + a.width / 2, a.y + a.height / 2);
        let to = (b.x + b.width / 2, b.y + b.height / 2);
        let open = |x: i32, y: i32| passable(&map, x, y);
        let along_row = |y: i32| (from.0.min(to.0)..=from.0.max(to.0)).all(|x| open(x, y));
        let along_column = |x: i32| (from.1.min(to.1)..=from.1.max(to.1)).all(|y| open(x, y));
        assert!(
            (along_row(from.1) && along_column(to.0)) || (along_column(from.0) && along_row(to.1))
        );
    }
}

#[test]
fn tiny_map_gets_the_fallback_room() {
    let map = DungeonGenerator::generate_dungeon_with_seed(10, 10, 1);
    assert_eq!(map.rooms.len(), 1);
    let room = &map.rooms[0];
    assert_eq!((room.x, room.y, room.width, room.height, room.id), (2, 2, 6, 4, 0));
    assert_eq!(map.tile(2, 2), Some(Tile::Floor));
    assert_eq!(map.tile(3, 3), Some(Tile::DungeonExit));
    assert_eq!(map.tile(7, 5), Some(Tile::Floor));
    assert_eq!(map.tile(8, 5), Some(Tile::Wall));
    assert_eq!(map.tile(2, 6), Some(Tile::Wall));
}

#[test]
fn fallback_room_fits_inside_the_border() {
    // One cell inside the border: the room is that cell, and the exit.
    let map = DungeonGenerator::generate_dungeon_with_seed(3, 3, 1);
    let room = &map.rooms[0];
    assert_eq!((room.x, room.y, room.width, room.height, room.id), (1, 1, 1, 1, 0));
    assert_eq!(map.tile(1, 1), Some(Tile::DungeonExit));
    assert_eq!(map.tile(0, 0), Some(Tile::Wall));
    assert_eq!(map.tile(2, 2), Some(Tile::Wall));
    assert_eq!(map.room_id_at(1, 1), Some(0));
    assert_eq!(DungeonGenerator::get_safe_spawn_position(&map), (1, 1));
    let map = DungeonGenerator::generate_dungeon_with_seed(4, 4, 1);
    let room = &map.rooms[0];
    assert_eq!((room.x, room.y, room.width, room.height), (1, 1, 2, 2));
    assert_eq!(map.tile(1, 1), Some(Tile::Floor));
    assert_eq!(map.tile(2, 2), Some(Tile::DungeonExit));
    let map = DungeonGenerator::generate_dungeon_with_seed(5, 5, 1);
    let room = &map.rooms[0];
    assert_eq!((room.x, room.y, room.width, room.height), (1, 1, 3, 3));
    assert_eq!(map.tile(1, 1), Some(Tile::Floor));
    assert_eq!(map.tile(2, 2), Some(Tile::DungeonExit));
    assert_eq!(map.tile(3, 3), Some(Tile::Floor));
    assert_eq!(map.tile(4, 4), Some(Tile::Wall));
    // Wide enough but not high enough, and the other way round.
    let map = DungeonGenerator::generate_dungeon_with_seed(9, 6, 1);
    let room = &map.rooms[0];
    assert_eq!((room.x, room.y, room.width, room.height), (2, 1, 6, 4));
    assert_eq!(map.tile(3, 2), Some(Tile::DungeonExit));
    let map = DungeonGenerator::generate_dungeon_with_seed(8, 7, 1);
    let room = &map.rooms[0];
    assert_eq!((room.x, room.y, room.width, room.height), (1, 2, 6, 4));
    assert_eq!(map.tile(2, 3), Some(Tile::DungeonExit));
    // Every cell of the room is owned by it.
    for width in 3..11 {
        for height in 3..11 {
            let map = DungeonGenerator::generate_dungeon_with_seed(width, height, 7);
            let room = &map.rooms[0];
            assert_eq!(map.rooms.len(), 1);
            let mut exits = 0;
            for x in 0..width {
                for y in 0..height {
                    let inside = room.x <= x
                        && x < room.x + room.width
                        && room.y <= y
                        && y < room.y + room.height;
                    assert_eq!(map.room_id_at(x, y), if inside { Some(0) } else { None });
                    assert!(!inside || (1 <= x && x < width - 1 && 1 <= y && y < height - 1));
                    if map.tile(x, y) == Some(Tile::DungeonExit) {
                        exits += 1;
                    }
                }
            }
            assert_eq!(exits, 1);
        }
    }
}

#[test]
fn degenerate_sizes_do_not_fail() {
    let map = DungeonGenerator::generate_dungeon_with_seed(0, 0, 1);
    assert_eq!(map.rooms.len(), 1);
    assert_eq!(map.tile(0, 0), None);
    assert_eq!(DungeonGenerator::get_safe_spawn_position(&map), (6, 8));
    let room = &map.rooms[0];
    assert_eq!((room.x, room.y, room.width, room.height, room.id), (1, 1, 0, 0, 0));
    let map = DungeonGenerator::generate_dungeon_with_seed(-5, 3, 1);
    assert_eq!(map.tile(0, 0), None);
    let map = DungeonGenerator::generate_dungeon_with_seed(2, 9, 1);
    let room = &map.rooms[0];
    assert_eq!((room.x, room.y, room.width, room.height), (1, 2, 0, 4));
    assert_eq!(DungeonGenerator::get_safe_spawn_position(&map), (6, 8));
    let map = DungeonGenerator::generate_dungeon_with_seed(11, 11, 1);
    assert_eq!((map.rooms[0].x, map.rooms[0].y, map.rooms[0].width), (3, 3, 5));
}

#[test]
fn carve_room_spares_the_border() {
    let mut map = wall_map(10, 8);
    let room = Room::new(Rect { x: -1, y: 5, width: 4, height: 10 }, 3);
    DungeonGenerator::carve_room(&mut map, &room);
    assert_eq!(map.tile(0, 5), Some(Tile::Wall));
    assert_eq!(map.tile(1, 5), Some(Tile::Floor));
    assert_eq!(map.tile(2, 6), Some(Tile::Floor));
    assert_eq!(map.tile(3, 6), Some(Tile::Wall));
    assert_eq!(map.tile(1, 7), Some(Tile::Wall));
    assert_eq!(map.tile(1, 4), Some(Tile::Wall));
    assert_eq!(map.room_id_at(1, 5), Some(3));
    assert_eq!(map.room_id_at(0, 5), None);
    assert_eq!(map.room_id_at(1, 7), None);
}

#[test]
fn corridor_line_runs_along_the_row_then_the_column() {
    let mut map = wall_map(12, 12);
    map.tiles.insert(4, 2, Tile::Floor);
    DungeonGenerator::carve_corridor_line(&mut map, 2, 2, 6, 5);
    for x in 2..=6 {
        let expected = if x == 4 { Tile::Floor } else { Tile::Corridor };
        assert_eq!(map.tile(x, 2), Some(expected));
    }
    for y in 3..=5 {
        assert_eq!(map.tile(6, y), Some(Tile::Corridor));
    }
    assert_eq!(map.tile(2, 3), Some(Tile::Wall));
    assert_eq!(map.tile(7, 2), Some(Tile::Wall));
    assert_eq!(map.tile(6, 6), Some(Tile::Wall));
}

#[test]
fn corridor_line_runs_backwards_too() {
    let mut map = wall_map(12, 12);
    DungeonGenerator::carve_corridor_line(&mut map, 8, 9, 3, 9);
    for x in 3..=8 {
        assert_eq!(map.tile(x, 9), Some(Tile::Corridor));
    }
    assert_eq!(map.tile(2, 9), Some(Tile::Wall));
    assert_eq!(map.tile(9, 9), Some(Tile::Wall));
}

#[test]
fn corridor_line_never_digs_the_border() {
    let mut map = wall_map(6, 6);
    DungeonGenerator::carve_corridor_line(&mut map, -3, 0, 9, 0);
    DungeonGenerator::carve_corridor_line(&mut map, 0, 3, 5, 3);
    for x in 0..6 {
        assert_eq!(map.tile(x, 0), Some(Tile::Wall));
    }
    assert_eq!(map.tile(0, 3), Some(Tile::Wall));
    assert_eq!(map.tile(5, 3), Some(Tile::Wall));
    assert_eq!(map.tile(1, 3), Some(Tile::Corridor));
    assert_eq!(map.tile(4, 3), Some(Tile::Corridor));
    assert_eq!(map.tile(6, 3), None);
}

#[test]
fn corridor_of_one_cell() {
    let mut map = wall_map(6, 6);
    DungeonGenerator::carve_corridor_line(&mut map, 2, 2, 2, 2);
    assert_eq!(map.tile(2, 2), Some(Tile::Corridor));
    assert_eq!(map.tile(3, 2), Some(Tile::Wall));
}

#[test]
fn l_shaped_corridor_draws_its_corner() {
    // State 42 steps to an odd number: along the column first.
    let mut map = wall_map(12, 12);
    let mut rng = SeededRng::new(42);
    DungeonGenerator::carve_l_shaped_corridor(&mut map, (2, 2), (6, 5), &mut rng);
    assert_eq!(rng.state, 1083814273);
    for y in 2..=5 {
        assert_eq!(map.tile(2, y), Some(Tile::Corridor));
    }
    for x in 2..=6 {
        assert_eq!(map.tile(x, 5), Some(Tile::Corridor));
    }
    assert_eq!(map.tile(6, 2), Some(Tile::Wall));
    // State 1013904223 steps to an even number: along the row first.
    let mut map = wall_map(12, 12);
    let mut rng = SeededRng::new(1013904223);
    DungeonGenerator::carve_l_shaped_corridor(&mut map, (2, 2), (6, 5), &mut rng);
    for x in 2..=6 {
        assert_eq!(map.tile(x, 2), Some(Tile::Corridor));
    }
    for y in 2..=5 {
        assert_eq!(map.tile(6, y), Some(Tile::Corridor));
    }
    assert_eq!(map.tile(2, 5), Some(Tile::Wall));
}

#[test]
fn corridor_end_reaches_for_the_floor() {
    let mut map = wall_map(12, 12);
    map.tiles.insert(3, 5, Tile::Floor);
    // (4, 5) is next to the point and has the floor next to it.
    DungeonGenerator::ensure_room_connection(&mut map, (5, 5));
    assert_eq!(map.tile(4, 5), Some(Tile::Corridor));
    assert_eq!(map.tile(5, 5), Some(Tile::Wall));
    assert_eq!(map.tile(6, 5), Some(Tile::Wall));
    assert_eq!(map.tile(5, 4), Some(Tile::Wall));
    assert_eq!(map.tile(3, 5), Some(Tile::Floor));
}

#[test]
fn door_needs_corridor_floor_and_walls() {
    let mut map = wall_map(20, 20);
    let room = Room::new(Rect { x: 5, y: 5, width: 5, height: 5 }, 1);
    DungeonGenerator::carve_room(&mut map, &room);
    // A corridor that enters from the left, through (4, 7).
    for x in 1..5 {
        map.tiles.insert(x, 7, Tile::Corridor);
    }
    // A corridor two cells wide that enters from above.
    for y in 1..5 {
        map.tiles.insert(7, y, Tile::Corridor);
        map.tiles.insert(8, y, Tile::Corridor);
    }
    let forced = DungeonGenerator::add_room_doors(&mut map, &room);
    assert_eq!(forced, None);
    assert_eq!(map.tile(4, 7), Some(Tile::Door));
    assert_eq!(map.tile(7, 4), Some(Tile::Corridor));
    assert_eq!(map.tile(8, 4), Some(Tile::Corridor));
    assert_eq!(map.tile(3, 7), Some(Tile::Corridor));
}

#[test]
fn door_in_a_wall_between_corridor_and_room() {
    let mut map = wall_map(20, 20);
    let room = Room::new(Rect { x: 5, y: 5, width: 5, height: 5 }, 1);
    DungeonGenerator::carve_room(&mut map, &room);
    // The corridor stops one cell short of the room.
    for x in 1..4 {
        map.tiles.insert(x, 7, Tile::Corridor);
    }
    let forced = DungeonGenerator::add_room_doors(&mut map, &room);
    assert_eq!(forced, None);
    assert_eq!(map.tile(4, 7), Some(Tile::Door));
}

#[test]
fn doors_of_a_room_keep_their_distance() {
    let mut map = wall_map(30, 20);
    let room = Room::new(Rect { x: 5, y: 5, width: 12, height: 5 }, 1);
    DungeonGenerator::carve_room(&mut map, &room);
    // Corridors from above at columns 6, 8, 10 and 14.
    for x in [6, 8, 10, 14] {
        for y in 1..5 {
            map.tiles.insert(x, y, Tile::Corridor);
        }
    }
    let forced = DungeonGenerator::add_room_doors(&mut map, &room);
    assert_eq!(forced, None);
    // 8 is within three steps of 6; 10 is four steps from 6; 14 is four
    // steps from 10.
    assert_eq!(map.tile(6, 4), Some(Tile::Door));
    assert_eq!(map.tile(8, 4), Some(Tile::Corridor));
    assert_eq!(map.tile(10, 4), Some(Tile::Door));
    assert_eq!(map.tile(14, 4), Some(Tile::Door));
}

#[test]
fn room_without_a_fitting_place_gets_a_forced_door() {
    let mut map = wall_map(20, 20);
    let room = Room::new(Rect { x: 5, y: 5, width: 5, height: 5 }, 1);
    DungeonGenerator::carve_room(&mut map, &room);
    // A corridor along the row above the room: no place is encased.
    for x in 3..12 {
        map.tiles.insert(x, 4, Tile::Corridor);
    }
    let forced = DungeonGenerator::add_room_doors(&mut map, &room);
    // The first place with three openings: corridor on both sides
    // and the floor behind.
    assert_eq!(forced, Some((5, 4)));
    assert_eq!(map.tile(5, 4), Some(Tile::Door));
    assert_eq!(map.tile(6, 4), Some(Tile::Corridor));
}

#[test]
fn room_in_solid_rock_gets_a_forced_door_in_its_wall() {
    let mut map = wall_map(20, 20);
    let room = Room::new(Rect { x: 5, y: 5, width: 5, height: 5 }, 1);
    DungeonGenerator::carve_room(&mut map, &room);
    let forced = DungeonGenerator::add_room_doors(&mut map, &room);
    assert_eq!(forced, Some((5, 4)));
    assert_eq!(map.tile(5, 4), Some(Tile::Door));
}

#[test]
fn rooms_sharing_a_door_are_connected() {
    let mut map = wall_map(20, 10);
    let mut rooms = vec![
        Room::new(Rect { x: 2, y: 2, width: 4, height: 4 }, 1),
        Room::new(Rect { x: 7, y: 2, width: 4, height: 4 }, 2),
        Room::new(Rect { x: 13, y: 2, width: 4, height: 4 }, 3),
    ];
    DungeonGenerator::carve_rooms(&mut map, &rooms);
    map.tiles.insert(6, 3, Tile::Door);
    map.tiles.insert(6, 4, Tile::Door);
    map.tiles.insert(12, 3, Tile::Door);
    DungeonGenerator::update_room_connections(&mut rooms, &map);
    assert_eq!(rooms[0].connected_rooms, vec![2]);
    assert_eq!(rooms[1].connected_rooms, vec![1]);
    assert!(rooms[2].connected_rooms.is_empty());
    assert_eq!((rooms[0].x, rooms[0].id), (2, 1));
}

#[test]
fn spawn_is_the_exit() {
    let map = DungeonGenerator::generate_dungeon_with_seed(80, 50, 0x12345678);
    assert_eq!(DungeonGenerator::get_safe_spawn_position(&map), (6, 16));
    assert_eq!(map.tile(6, 16), Some(Tile::DungeonExit));
}

#[test]
fn spawn_without_exit_is_the_first_floor() {
    let mut map = wall_map(10, 10);
    map.tiles.insert(7, 3, Tile::Floor);
    map.tiles.insert(2, 4, Tile::Floor);
    map.tiles.insert(1, 4, Tile::Corridor);
    assert_eq!(DungeonGenerator::get_safe_spawn_position(&map), (7, 3));
    map.tiles.insert(9, 9, Tile::DungeonExit);
    assert_eq!(DungeonGenerator::get_safe_spawn_position(&map), (9, 9));
}

#[test]
fn spawn_without_exit_or_floor_is_the_default() {
    let map = wall_map(10, 10);
    assert_eq!(DungeonGenerator::get_safe_spawn_position(&map), (6, 8));
    assert_eq!(DungeonGenerator::get_default_spawn_position(), (6, 8));
    let empty = GameMap::new(10, 10);
    assert_eq!(DungeonGenerator::get_safe_spawn_position(&empty), (6, 8));
}

#[test]
fn new_map_is_void() {
    let map = GameMap::new(4, 3);
    assert_eq!((map.width, map.height), (4, 3));
    assert_eq!(map.tile(0, 0), None);
    assert_eq!(map.room_id_at(0, 0), None);
    assert!(map.rooms.is_empty());
    assert!(!map.is_interior(0, 0));
}

#[test]
fn every_room_has_a_door_on_its_ring() {
    for seed in 0..200u32 {
        for (width, height) in [(80, 50), (50, 30), (32, 23)] {
            let map = DungeonGenerator::generate_dungeon_with_seed(width, height, seed);
            for room in &map.rooms {
                let mut found = false;
                for x in room.x..room.x + room.width {
                    found |= map.tile(x, room.y - 1) == Some(Tile::Door);
                    found |= map.tile(x, room.y + room.height) == Some(Tile::Door);
                }
                for y in room.y..room.y + room.height {
                    found |= map.tile(room.x - 1, y) == Some(Tile::Door);
                    found |= map.tile(room.x + room.width, y) == Some(Tile::Door);
                }
                assert!(found);
            }
        }
    }
}

#[test]
fn rooms_keep_four_cells_apart() {
    for seed in 0..200u32 {
        let map = DungeonGenerator::generate_dungeon_with_seed(80, 50, seed);
        for i in 0..map.rooms.len() {
            let a = &map.rooms[i];
            assert!(a.x >= 3 && a.y >= 3 && a.x + a.width <= 77 && a.y + a.height <= 47);
            for j in (i + 1)..map.rooms.len() {
                let b = &map.rooms[j];
                let apart = a.x + a.width + 4 <= b.x
                    || b.x + b.width + 4 <= a.x
                    || a.y + a.height + 4 <= b.y
                    || b.y + b.height + 4 <= a.y;
                assert!(apart);
            }
        }
    }
}
