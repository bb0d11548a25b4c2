use roguelike_core::chunk_manager::ChunkManager;
use roguelike_core::game_logic::GameLogic;
use roguelike_core::map::GameMap;
use roguelike_core::overworld::NoiseField;
use roguelike_core::terrain::TerrainGenerator;
use roguelike_core::tile::{Rect, Tile};

/// Noise of a real noise generator, in millionths.
struct PerlinNoise {
    perlin: noise::Perlin,
}

impl NoiseField for PerlinNoise {
    fn of_seed(seed: u32) -> Self {
        PerlinNoise { perlin: noise::Perlin::new(seed) }
    }

    fn value(&self, x: i64, y: i64) -> i32 {
        let value = noise::NoiseFn::get(&self.perlin, [x as f64 / 1e6, y as f64 / 1e6]);
        (value * 1e6).round() as i32
    }

    fn with_seed(seed: u32) -> Self {
        Self::of_seed(seed)
    }

    fn sample(&self, x: i64, y: i64) -> i32 {
        self.value(x, y)
    }
}

/// The same value everywhere.
struct FlatNoise;

impl NoiseField for FlatNoise {
    fn of_seed(_seed: u32) -> Self {
        FlatNoise
    }

    fn value(&self, _x: i64, _y: i64) -> i32 {
        0
    }

    fn with_seed(seed: u32) -> Self {
        Self::of_seed(seed)
    }

    fn sample(&self, x: i64, y: i64) -> i32 {
        self.value(x, y)
    }
}

fn grass_map(width: i32, height: i32) -> GameMap {
    let mut map = GameMap::new(width, height);
    for x in 0..width {
        for y in 0..height {
            map.tiles.insert(x, y, Tile::Grass);
        }
    }
    map
}

#[test]
fn rectangles_that_overlap() {
    let a = Rect { x: 2, y: 2, width: 4, height: 4 };
    assert!(TerrainGenerator::rooms_overlap(&a, &a));
    assert!(TerrainGenerator::rooms_overlap(&a, &Rect { x: 5, y: 5, width: 3, height: 3 }));
    assert!(!TerrainGenerator::rooms_overlap(&a, &Rect { x: 6, y: 2, width: 3, height: 3 }));
    assert!(!TerrainGenerator::rooms_overlap(&a, &Rect { x: 2, y: 6, width: 3, height: 3 }));
    assert!(!TerrainGenerator::rooms_overlap(&a, &Rect { x: -3, y: 2, width: 5, height: 3 }));
    assert!(TerrainGenerator::rooms_overlap(&a, &Rect { x: -3, y: 2, width: 6, height: 3 }));
    let huge = Rect { x: i32::MIN, y: i32::MIN, width: i32::MAX, height: i32::MAX };
    assert!(!TerrainGenerator::rooms_overlap(&a, &huge));
}

#[test]
fn middle_of_a_rectangle() {
    assert_eq!(TerrainGenerator::room_center(&Rect { x: 2, y: 3, width: 6, height: 4 }), (5, 5));
    assert_eq!(TerrainGenerator::room_center(&Rect { x: 2, y: 3, width: 5, height: 1 }), (4, 3));
    assert_eq!(TerrainGenerator::room_center(&Rect { x: -8, y: 0, width: 0, height: 0 }), (-8, 0));
}

#[test]
fn overworld_tile_by_noise() {
    // Elevation and moisture are the noise lifted to between zero and
    // one, halves rounded down.
    assert_eq!(TerrainGenerator::generate_overworld_tile(500_002, 0), Tile::Mountain);
    assert_eq!(TerrainGenerator::generate_overworld_tile(500_001, 200_002), Tile::Tree);
    assert_eq!(TerrainGenerator::generate_overworld_tile(500_001, 200_001), Tile::Grass);
    assert_eq!(TerrainGenerator::generate_overworld_tile(200_002, 200_001), Tile::Grass);
    assert_eq!(TerrainGenerator::generate_overworld_tile(200_001, 400_002), Tile::Tree);
    assert_eq!(TerrainGenerator::generate_overworld_tile(200_001, 400_001), Tile::Grass);
    assert_eq!(TerrainGenerator::generate_overworld_tile(-399_998, 0), Tile::Grass);
    assert_eq!(TerrainGenerator::generate_overworld_tile(-399_999, 1_000_000), Tile::Water);
    assert_eq!(TerrainGenerator::generate_overworld_tile(-1_000_000, -1_000_000), Tile::Water);
    assert_eq!(TerrainGenerator::generate_overworld_tile(1_000_000, 1_000_000), Tile::Mountain);
}

#[test]
fn road_between_two_places() {
    let mut map = grass_map(10, 6);
    map.tiles.insert(1, 1, Tile::Village);
    map.tiles.insert(6, 3, Tile::DungeonEntrance);
    map.tiles.insert(3, 2, Tile::Water);
    TerrainGenerator::draw_road(&mut map, 1, 1, 6, 3);
    // (2, 1), (3, 2), (4, 2), (5, 3) lie between the ends.
    assert_eq!(map.tile(1, 1), Some(Tile::Village));
    assert_eq!(map.tile(2, 1), Some(Tile::Road));
    assert_eq!(map.tile(3, 2), Some(Tile::Water));
    assert_eq!(map.tile(4, 2), Some(Tile::Road));
    assert_eq!(map.tile(5, 3), Some(Tile::Road));
    assert_eq!(map.tile(6, 3), Some(Tile::DungeonEntrance));
    let roads = (0..10)
        .flat_map(|x| (0..6).map(move |y| (x, y)))
        .filter(|(x, y)| map.tile(*x, *y) == Some(Tile::Road))
        .count();
    assert_eq!(roads, 3);
}

#[test]
fn road_spares_mountains_and_the_void() {
    let mut map = grass_map(6, 3);
    map.tiles.insert(2, 1, Tile::Mountain);
    TerrainGenerator::draw_road(&mut map, 0, 1, 9, 1);
    assert_eq!(map.tile(0, 1), Some(Tile::Grass));
    assert_eq!(map.tile(1, 1), Some(Tile::Road));
    assert_eq!(map.tile(2, 1), Some(Tile::Mountain));
    assert_eq!(map.tile(5, 1), Some(Tile::Road));
    assert_eq!(map.tile(6, 1), None);
    TerrainGenerator::draw_road(&mut map, 3, 0, 3, 0);
    TerrainGenerator::draw_road(&mut map, 3, 0, 4, 0);
    assert_eq!(map.tile(3, 0), Some(Tile::Grass));
    assert_eq!(map.tile(4, 0), Some(Tile::Grass));
}

#[test]
fn roads_link_each_place_to_the_nearest() {
    let mut map = grass_map(20, 5);
    map.tiles.insert(2, 2, Tile::Village);
    map.tiles.insert(6, 2, Tile::Village);
    map.tiles.insert(17, 2, Tile::DungeonEntrance);
    TerrainGenerator::add_roads(&mut map);
    for x in 3..6 {
        assert_eq!(map.tile(x, 2), Some(Tile::Road));
    }
    for x in 7..17 {
        assert_eq!(map.tile(x, 2), Some(Tile::Road));
    }
    assert_eq!(map.tile(2, 2), Some(Tile::Village));
    assert_eq!(map.tile(6, 2), Some(Tile::Village));
    assert_eq!(map.tile(17, 2), Some(Tile::DungeonEntrance));
    assert_eq!(map.tile(1, 2), Some(Tile::Grass));
    assert_eq!(map.tile(18, 2), Some(Tile::Grass));
    assert_eq!(map.tile(4, 1), Some(Tile::Grass));
}

#[test]
fn one_place_gets_no_road() {
    let mut map = grass_map(8, 5);
    map.tiles.insert(2, 2, Tile::Village);
    TerrainGenerator::add_roads(&mut map);
    for x in 0..8 {
        for y in 0..5 {
            assert_ne!(map.tile(x, y), Some(Tile::Road));
        }
    }
}

#[test]
fn rivers_run_down_the_map() {
    let mut map = grass_map(30, 10);
    map.tiles.insert(15, 4, Tile::Mountain);
    TerrainGenerator::generate_rivers(&mut map, &FlatNoise);
    // Flat noise: both rivers start in the middle and run straight.
    for y in 0..10 {
        let expected = if y == 4 { Tile::Mountain } else { Tile::Water };
        assert_eq!(map.tile(15, y), Some(expected));
        assert_eq!(map.tile(14, y), Some(Tile::Grass));
        assert_eq!(map.tile(16, y), Some(Tile::Grass));
    }
}

#[test]
fn overworld_fills_the_map() {
    let map = TerrainGenerator::generate_overworld::<PerlinNoise>(60, 30);
    assert_eq!((map.width, map.height), (60, 30));
    assert!(map.rooms.is_empty());
    let mut kinds = Vec::new();
    for x in -1..61 {
        for y in -1..31 {
            let inside = 0 <= x && x < 60 && 0 <= y && y < 30;
            let tile = map.tile(x, y);
            assert_eq!(tile.is_some(), inside);
            if let Some(t) = tile {
                assert!(matches!(
                    t,
                    Tile::Grass
                        | Tile::Tree
                        | Tile::Mountain
                        | Tile::Water
                        | Tile::Road
                        | Tile::Village
                        | Tile::DungeonEntrance
                ));
                if !kinds.contains(&t) {
                    kinds.push(t);
                }
            }
        }
    }
    assert!(kinds.len() >= 2);
    let again = TerrainGenerator::generate_overworld::<PerlinNoise>(60, 30);
    for x in 0..60 {
        for y in 0..30 {
            assert_eq!(map.tile(x, y), again.tile(x, y));
        }
    }
}

#[test]
fn overworld_of_the_game() {
    let map = GameLogic::generate_overworld_map::<PerlinNoise>();
    let same = TerrainGenerator::generate_overworld::<PerlinNoise>(60, 30);
    assert_eq!((map.width, map.height), (60, 30));
    assert!(map.rooms.is_empty());
    for x in -1..61 {
        for y in -1..31 {
            assert_eq!(map.tile(x, y), same.tile(x, y));
            assert_eq!(map.tile(x, y).is_some(), 0 <= x && x < 60 && 0 <= y && y < 30);
        }
    }
}

#[test]
fn overworld_follows_its_fields() {
    // Fields that return their seed everywhere. Elevation 42 and
    // moisture 123 millionths lift to just above one half: grass. The
    // one river of a map this narrow starts where 555 millionths put it,
    // 500_277 millionths of 19 columns along, and does not drift. The
    // villages and entrances are tried at (9, 2), in the river.
    let map = TerrainGenerator::generate_overworld::<ConstNoise>(19, 4);
    for x in 0..19 {
        for y in 0..4 {
            let expected = if x == 9 { Tile::Water } else { Tile::Grass };
            assert_eq!(map.tile(x, y), Some(expected));
        }
    }
}

#[test]
fn overworld_of_no_size_is_empty() {
    let map = TerrainGenerator::generate_overworld::<PerlinNoise>(0, 10);
    assert_eq!(map.tile(0, 0), None);
    let map = TerrainGenerator::generate_overworld::<PerlinNoise>(-3, -3);
    assert_eq!(map.tile(0, 0), None);
    let map = TerrainGenerator::generate_overworld::<FlatNoise>(1, 1);
    assert_eq!(map.tile(0, 0), Some(Tile::Water));
}

#[test]
fn dungeons_of_the_terrain_generator() {
    // The seed is the low 32 bits of the clock's reading.
    let a = TerrainGenerator::generate_dungeon(80, 50, (7u128 << 32) + 12345);
    let b = TerrainGenerator::generate_dungeon_with_seed(80, 50, 12345);
    for x in 0..80 {
        for y in 0..50 {
            assert_eq!(a.tile(x, y), b.tile(x, y));
        }
    }
    assert_eq!(b.rooms.len(), 5);
    let c = TerrainGenerator::generate_dungeon(80, 50, 0x12345678);
    let d = TerrainGenerator::generate_dungeon(80, 50, u128::MAX - 0xFFFF_FFFF + 0x12345678);
    assert_eq!(c.rooms.len(), 6);
    assert_eq!((c.rooms[0].x, c.rooms[0].y), (5, 15));
    for x in 0..80 {
        for y in 0..50 {
            assert_eq!(c.tile(x, y), d.tile(x, y));
        }
    }
}

#[test]
fn world_of_real_noise() {
    let mut manager: ChunkManager<PerlinNoise> = GameLogic::create_chunk_manager(2024);
    let mut kinds = Vec::new();
    for x in -64..64 {
        for y in -64..64 {
            let tile = manager.get_tile(x, y, 1).unwrap();
            if !kinds.contains(&tile) {
                kinds.push(tile);
            }
        }
    }
    assert_eq!(manager.get_loaded_chunks().len(), 16);
    assert!(kinds.len() >= 2);
    let mut again: ChunkManager<PerlinNoise> = GameLogic::create_chunk_manager(2024);
    for x in -64..64 {
        assert_eq!(again.get_tile(x, 7, 1), manager.get_tile(x, 7, 2));
    }
}

#[test]
fn viewport_around_a_center() {
    let mut manager: ChunkManager<PerlinNoise> = GameLogic::create_chunk_manager(5);
    let tiles = GameLogic::get_viewport_tiles(&mut manager, 0, 0, 7, 4, 3);
    // Half of the size to every side, rounded down.
    for x in -3..=3 {
        for y in -2..=2 {
            assert_eq!(tiles.get(x, y).copied(), manager.get_tile(x, y, 3));
        }
    }
    assert!(tiles.get(4, 0).is_none());
    assert!(tiles.get(0, 3).is_none());
    assert!(tiles.get(-4, 0).is_none());
    let here = manager.get_tile(1, 1, 4);
    assert_eq!(
        GameLogic::is_at_chunk_dungeon_entrance(&mut manager, 1, 1, 5),
        here == Some(Tile::DungeonEntrance)
    );
    manager.set_tile(1, 1, Tile::DungeonEntrance, 6);
    assert!(GameLogic::is_at_chunk_dungeon_entrance(&mut manager, 1, 1, 7));
}

#[test]
fn places_are_listed_column_by_column() {
    let mut map = grass_map(6, 5);
    map.tiles.insert(4, 0, Tile::Village);
    map.tiles.insert(1, 3, Tile::DungeonEntrance);
    map.tiles.insert(1, 1, Tile::Village);
    map.tiles.insert(0, 4, Tile::Village);
    map.tiles.insert(9, 9, Tile::Village);
    assert_eq!(TerrainGenerator::important_locations(&map), vec![(0, 4), (1, 1), (1, 3), (4, 0)]);
    assert!(TerrainGenerator::important_locations(&grass_map(3, 3)).is_empty());
}

#[test]
fn water_within_three_cells() {
    let mut map = grass_map(12, 12);
    map.tiles.insert(8, 2, Tile::Water);
    assert!(TerrainGenerator::water_near(&map, 5, 5));
    assert!(TerrainGenerator::water_near(&map, 8, 2));
    assert!(TerrainGenerator::water_near(&map, 11, 0));
    assert!(!TerrainGenerator::water_near(&map, 4, 5));
    assert!(!TerrainGenerator::water_near(&map, 5, 6));
    assert!(!TerrainGenerator::water_near(&map, i32::MAX, i32::MIN));
}

#[test]
fn of_two_places_as_near_the_first_is_linked() {
    // The places in order: (2, 4), (6, 0), (6, 4), (6, 8). From (6, 4)
    // the places above and below are both four steps away: the road
    // goes to the first of them, (6, 0).
    let mut map = grass_map(20, 9);
    map.tiles.insert(6, 4, Tile::Village);
    map.tiles.insert(6, 0, Tile::Village);
    map.tiles.insert(6, 8, Tile::Village);
    map.tiles.insert(17, 4, Tile::Water);
    TerrainGenerator::add_roads(&mut map);
    for y in 1..4 {
        assert_eq!(map.tile(6, y), Some(Tile::Road));
    }
    // (6, 8) is linked to (6, 4) by its own road.
    for y in 5..8 {
        assert_eq!(map.tile(6, y), Some(Tile::Road));
    }
    assert_eq!(map.tile(5, 4), Some(Tile::Grass));
    assert_eq!(map.tile(7, 4), Some(Tile::Grass));
}

#[test]
fn a_road_may_run_over_a_place_between() {
    let mut map = grass_map(30, 3);
    map.tiles.insert(2, 1, Tile::Village);
    map.tiles.insert(4, 1, Tile::Village);
    map.tiles.insert(9, 1, Tile::Village);
    // (9, 1) is linked to (4, 1); (2, 1) and (4, 1) to each other.
    TerrainGenerator::add_roads(&mut map);
    assert_eq!(map.tile(3, 1), Some(Tile::Road));
    assert_eq!(map.tile(4, 1), Some(Tile::Village));
    assert_eq!(map.tile(5, 1), Some(Tile::Road));
    assert_eq!(map.tile(8, 1), Some(Tile::Road));
    assert_eq!(map.tile(10, 1), Some(Tile::Grass));
}

/// One value everywhere.
struct ConstNoise(i32);

impl NoiseField for ConstNoise {
    fn of_seed(seed: u32) -> Self {
        ConstNoise(seed as i32)
    }

    fn value(&self, _x: i64, _y: i64) -> i32 {
        self.0
    }

    fn with_seed(seed: u32) -> Self {
        Self::of_seed(seed)
    }

    fn sample(&self, x: i64, y: i64) -> i32 {
        self.value(x, y)
    }
}

#[test]
fn river_starts_where_the_noise_picks_and_drifts() {
    // Noise one half: the start is three quarters along the first row,
    // 22 of 30, and every row takes the river one column to the right,
    // up to the last column.
    let mut map = grass_map(30, 10);
    TerrainGenerator::generate_rivers(&mut map, &ConstNoise(500_000));
    let course = [22, 23, 24, 25, 26, 27, 28, 29, 29, 29];
    for y in 0..10 {
        for x in 0..30 {
            let expected = if x == course[y as usize] { Tile::Water } else { Tile::Grass };
            assert_eq!(map.tile(x, y), Some(expected));
        }
    }
}

#[test]
fn river_drifts_left_to_the_first_column() {
    // Noise minus one: the start is column 0, and the drift to the left
    // keeps the river there.
    let mut map = grass_map(5, 4);
    TerrainGenerator::generate_rivers(&mut map, &ConstNoise(-1_000_000));
    for y in 0..4 {
        assert_eq!(map.tile(0, y), Some(Tile::Water));
        assert_eq!(map.tile(1, y), Some(Tile::Grass));
    }
    // Minus four tenths lifts to three tenths: column 1 of 5, then left.
    let mut map = grass_map(5, 4);
    TerrainGenerator::generate_rivers(&mut map, &ConstNoise(-400_000));
    assert_eq!(map.tile(1, 0), Some(Tile::Water));
    assert_eq!(map.tile(0, 0), Some(Tile::Grass));
    assert_eq!(map.tile(0, 1), Some(Tile::Water));
    assert_eq!(map.tile(1, 1), Some(Tile::Grass));
}

#[test]
fn river_that_starts_past_the_map_comes_back() {
    // Noise one: the start is the column past the last one, where no
    // tile is; from the second row on the river runs in the last column.
    let mut map = grass_map(4, 3);
    TerrainGenerator::generate_rivers(&mut map, &ConstNoise(1_000_000));
    for x in 0..4 {
        assert_eq!(map.tile(x, 0), Some(Tile::Grass));
    }
    assert_eq!(map.tile(3, 1), Some(Tile::Water));
    assert_eq!(map.tile(3, 2), Some(Tile::Water));
    assert_eq!(map.tile(2, 1), Some(Tile::Grass));
}

#[test]
fn village_is_founded_on_grass_near_water() {
    // Noise zero picks the middle of the map for every try: (15, 5).
    let mut map = grass_map(30, 10);
    map.tiles.insert(18, 2, Tile::Water);
    TerrainGenerator::add_special_locations(&mut map, &ConstNoise(0), &ConstNoise(0));
    assert_eq!(map.tile(15, 5), Some(Tile::Village));
    let changed = (0..30)
        .flat_map(|x| (0..10).map(move |y| (x, y)))
        .filter(|(x, y)| !matches!(map.tile(*x, *y), Some(Tile::Grass) | Some(Tile::Water)))
        .count();
    assert_eq!(changed, 1);
}

#[test]
fn without_water_an_entrance_opens_instead() {
    let mut map = grass_map(30, 10);
    map.tiles.insert(19, 5, Tile::Water);
    TerrainGenerator::add_special_locations(&mut map, &ConstNoise(0), &ConstNoise(0));
    assert_eq!(map.tile(15, 5), Some(Tile::DungeonEntrance));
}

#[test]
fn entrance_keeps_ten_cells_from_villages() {
    // Villages are tried at (15, 5), dungeon entrances at (22, 7): the
    // distance squared is 53, less than 100.
    let mut map = grass_map(30, 10);
    map.tiles.insert(15, 4, Tile::Water);
    TerrainGenerator::add_special_locations(&mut map, &ConstNoise(0), &ConstNoise(500_000));
    assert_eq!(map.tile(15, 5), Some(Tile::Village));
    assert_eq!(map.tile(22, 7), Some(Tile::Grass));
    // Without the village the entrance opens.
    let mut map = grass_map(30, 10);
    TerrainGenerator::add_special_locations(&mut map, &ConstNoise(0), &ConstNoise(500_000));
    assert_eq!(map.tile(15, 5), Some(Tile::Grass));
    assert_eq!(map.tile(22, 7), Some(Tile::DungeonEntrance));
    // Far enough from the village, both stand, with a road between.
    let mut map = grass_map(60, 10);
    map.tiles.insert(30, 4, Tile::Water);
    TerrainGenerator::add_special_locations(&mut map, &ConstNoise(0), &ConstNoise(500_000));
    assert_eq!(map.tile(30, 5), Some(Tile::Village));
    assert_eq!(map.tile(45, 7), Some(Tile::DungeonEntrance));
    assert_eq!(map.tile(37, 6), Some(Tile::Road));
}

#[test]
fn a_pick_past_the_map_founds_nothing() {
    let mut map = grass_map(6, 6);
    map.tiles.insert(5, 5, Tile::Water);
    TerrainGenerator::add_special_locations(&mut map, &ConstNoise(1_000_000), &ConstNoise(1_000_000));
    for x in 0..6 {
        for y in 0..6 {
            let expected = if (x, y) == (5, 5) { Tile::Water } else { Tile::Grass };
            assert_eq!(map.tile(x, y), Some(expected));
        }
    }
}
