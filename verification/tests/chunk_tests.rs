use roguelike_core::chunk::{Chunk, ChunkCoord, CHUNK_LOAD_RADIUS, CHUNK_SIZE, MAX_LOADED_CHUNKS};
use roguelike_core::chunk_manager::ChunkManager;
use roguelike_core::overworld::{InfiniteTerrainGenerator, NoiseField, NoiseSamples};
use roguelike_core::tile::Tile;

/// Noise that mixes the seed and the position.
struct MixNoise {
    seed: u32,
}

impl NoiseField for MixNoise {
    fn of_seed(seed: u32) -> Self {
        MixNoise { seed }
    }

    fn value(&self, x: i64, y: i64) -> i32 {
        let mut h = (x as u64).wrapping_mul(0x9E37_79B9_7F4A_7C15)
            ^ (y as u64).wrapping_mul(0xC2B2_AE3D_27D4_EB4F)
            ^ (self.seed as u64);
        h ^= h >> 29;
        h = h.wrapping_mul(0xBF58_476D_1CE4_E5B9);
        h ^= h >> 32;
        (h % 2_000_001) as i32 - 1_000_000
    }

    fn with_seed(seed: u32) -> Self {
        Self::of_seed(seed)
    }

    fn sample(&self, x: i64, y: i64) -> i32 {
        self.value(x, y)
    }
}

/// Noise that is out of range everywhere.
struct LoudNoise;

impl NoiseField for LoudNoise {
    fn of_seed(_seed: u32) -> Self {
        LoudNoise
    }

    fn value(&self, _x: i64, _y: i64) -> i32 {
        i32::MAX
    }

    fn with_seed(seed: u32) -> Self {
        Self::of_seed(seed)
    }

    fn sample(&self, x: i64, y: i64) -> i32 {
        self.value(x, y)
    }
}

fn flat(value: i32) -> NoiseSamples {
    NoiseSamples {
        elevation: value,
        elevation_double: value,
        elevation_quad: value,
        moisture: value,
        moisture_triple: value,
        temperature: value,
        detail: value,
        road: 0,
        cross_road: 0,
        river: 0,
    }
}

#[test]
fn chunk_of_a_world_position() {
    assert_eq!(ChunkCoord::from_world_pos(0, 0), ChunkCoord::new(0, 0));
    assert_eq!(ChunkCoord::from_world_pos(31, 32), ChunkCoord::new(0, 1));
    assert_eq!(ChunkCoord::from_world_pos(-1, -32), ChunkCoord::new(-1, -1));
    assert_eq!(ChunkCoord::from_world_pos(-33, 95), ChunkCoord::new(-2, 2));
    assert_eq!(ChunkCoord::from_world_pos(i32::MIN, i32::MAX), ChunkCoord::new(-67108864, 67108863));
}

#[test]
fn minus_one_is_the_last_tile_of_chunk_minus_one() {
    let coord = ChunkCoord::from_world_pos(-1, -1);
    assert_eq!((coord.x, coord.y), (-1, -1));
    assert_eq!(Chunk::world_to_local(-1, -1), (31, 31));
}

#[test]
fn chunk_and_local_agree_with_euclidean_division() {
    for x in -200..200 {
        let coord = ChunkCoord::from_world_pos(x, -x);
        let local = Chunk::world_to_local(x, -x);
        assert_eq!(coord.x, x.div_euclid(32));
        assert_eq!(coord.y, (-x).div_euclid(32));
        assert_eq!(local.0, x.rem_euclid(32));
        assert_eq!(local.1, (-x).rem_euclid(32));
        assert!(0 <= local.0 && local.0 < CHUNK_SIZE);
        assert_eq!(coord.to_world_pos().0 + local.0, x);
    }
    assert_eq!(Chunk::world_to_local(i32::MIN, i32::MAX), (0, 31));
}

#[test]
fn world_position_of_a_chunk() {
    assert_eq!(ChunkCoord::new(0, 0).to_world_pos(), (0, 0));
    assert_eq!(ChunkCoord::new(2, -3).to_world_pos(), (64, -96));
    assert_eq!(ChunkCoord::new(-67108864, 67108863).to_world_pos(), (i32::MIN, i32::MAX - 31));
}

#[test]
fn distance_is_the_larger_axis_distance() {
    let a = ChunkCoord::new(1, 1);
    assert_eq!(a.distance_to(&ChunkCoord::new(1, 1)), 0);
    assert_eq!(a.distance_to(&ChunkCoord::new(4, 2)), 3);
    assert_eq!(a.distance_to(&ChunkCoord::new(0, -6)), 7);
    assert_eq!(ChunkCoord::new(-5, 0).distance_to(&ChunkCoord::new(5, 0)), 10);
    assert_eq!(ChunkCoord::new(i32::MIN, 0).distance_to(&ChunkCoord::new(i32::MAX, 0)), i32::MAX);
}

#[test]
fn neighbors_fill_the_square() {
    let around = ChunkCoord::new(10, -4).neighbors_within_radius(3);
    assert_eq!(around.len(), 49);
    assert_eq!(around[0], ChunkCoord::new(7, -7));
    assert_eq!(around[1], ChunkCoord::new(7, -6));
    assert_eq!(around[48], ChunkCoord::new(13, -1));
    for dx in -3..=3 {
        for dy in -3..=3 {
            assert!(around.contains(&ChunkCoord::new(10 + dx, -4 + dy)));
        }
    }
    assert_eq!(ChunkCoord::new(0, 0).neighbors_within_radius(0), vec![ChunkCoord::new(0, 0)]);
    assert!(ChunkCoord::new(0, 0).neighbors_within_radius(-1).is_empty());
    assert_eq!(ChunkCoord::new(i32::MAX, 0).neighbors_within_radius(1).len(), 6);
    for (k, c) in around.iter().enumerate() {
        assert_eq!(*c, ChunkCoord::new(7 + k as i32 / 7, -7 + k as i32 % 7));
    }
    // At the corner of the world the square is cut off.
    let corner = ChunkCoord::new(i32::MIN, i32::MAX).neighbors_within_radius(2);
    assert_eq!(corner.len(), 9);
    for (k, c) in corner.iter().enumerate() {
        assert_eq!(*c, ChunkCoord::new(i32::MIN + k as i32 / 3, i32::MAX - 2 + k as i32 % 3));
    }
}

#[test]
fn new_chunk_is_empty() {
    let mut chunk = Chunk::new(ChunkCoord::new(2, 3), 50);
    assert_eq!(chunk.coord, ChunkCoord::new(2, 3));
    assert!(!chunk.generated);
    assert_eq!(chunk.last_accessed, 50);
    assert_eq!(chunk.get_tile(0, 0, 60), None);
    assert_eq!(chunk.last_accessed, 60);
}

#[test]
fn chunk_keeps_what_is_set() {
    let mut chunk = Chunk::new(ChunkCoord::new(0, 0), 0);
    chunk.set_tile(3, 4, Tile::Water, 7);
    assert_eq!(chunk.last_accessed, 7);
    assert_eq!(chunk.get_tile(3, 4, 8), Some(Tile::Water));
    assert_eq!(chunk.get_tile(4, 3, 9), None);
    chunk.set_tile(3, 4, Tile::Road, 10);
    assert_eq!(chunk.get_tile(3, 4, 11), Some(Tile::Road));
}

#[test]
fn chunk_ignores_places_outside_it() {
    let mut chunk = Chunk::new(ChunkCoord::new(0, 0), 0);
    chunk.set_tile(32, 0, Tile::Water, 1);
    chunk.set_tile(0, -1, Tile::Water, 2);
    chunk.set_tile(31, 31, Tile::Grass, 3);
    assert_eq!(chunk.get_tile(32, 0, 4), None);
    assert_eq!(chunk.get_tile(0, -1, 4), None);
    assert_eq!(chunk.get_tile(31, 31, 4), Some(Tile::Grass));
    assert_eq!(chunk.last_accessed, 4);
}

#[test]
fn chunk_is_generated_once() {
    let generator: InfiniteTerrainGenerator<MixNoise> = InfiniteTerrainGenerator::new(9);
    let mut chunk = Chunk::new(ChunkCoord::new(-1, 2), 5);
    chunk.generate(&generator, 6);
    assert!(chunk.generated);
    assert_eq!(chunk.last_accessed, 6);
    for x in 0..32 {
        for y in 0..32 {
            let tile = chunk.get_tile(x, y, 6);
            assert_eq!(tile, Some(generator.generate_tile_at(-32 + x, 64 + y)));
        }
    }
    chunk.set_tile(0, 0, Tile::Village, 7);
    chunk.generate(&generator, 8);
    assert_eq!(chunk.last_accessed, 7);
    assert_eq!(chunk.get_tile(0, 0, 9), Some(Tile::Village));
}

#[test]
fn generator_seeds_its_fields() {
    let generator: InfiniteTerrainGenerator<MixNoise> = InfiniteTerrainGenerator::new(u32::MAX);
    assert_eq!(generator.seed, u32::MAX);
    assert_eq!(generator.elevation_noise.seed, u32::MAX);
    assert_eq!(generator.moisture_noise.seed, 999);
    assert_eq!(generator.temperature_noise.seed, 1999);
    assert_eq!(generator.feature_noise.seed, 3999);
}

#[test]
fn hash_of_a_position() {
    let generator: InfiniteTerrainGenerator<MixNoise> = InfiniteTerrainGenerator::new(12345);
    assert_eq!(generator.hash_coords(0, 0, 12345), 567055230);
    assert_eq!(generator.hash_coords(10, -3, 54321), 568226105);
    let generator: InfiniteTerrainGenerator<MixNoise> = InfiniteTerrainGenerator::new(7);
    assert_eq!(generator.hash_coords(-1, -1, 12345), 484738);
}

#[test]
fn noise_out_of_range_is_clamped() {
    let generator: InfiniteTerrainGenerator<LoudNoise> = InfiniteTerrainGenerator::new(1);
    let s = generator.sample_at(5, 5);
    assert_eq!(s.elevation, 1_000_000);
    assert_eq!(s.river, 1_000_000);
    // Elevation 1.375: above the roads, not a village site.
    assert_eq!(generator.generate_tile_at(5, 5), Tile::Mountain);
}

#[test]
fn biome_by_elevation_and_moisture() {
    type G = InfiniteTerrainGenerator<MixNoise>;
    assert_eq!(G::determine_biome_tile(800_001, 0, 0, 0), Tile::Mountain);
    assert_eq!(G::determine_biome_tile(800_000, 500_001, 300_000, 0), Tile::Tree);
    assert_eq!(G::determine_biome_tile(800_000, 500_000, 300_000, 0), Tile::Mountain);
    assert_eq!(G::determine_biome_tile(700_000, 900_000, 299_999, 0), Tile::Mountain);
    assert_eq!(G::determine_biome_tile(199_999, 600_001, 0, 0), Tile::Water);
    assert_eq!(G::determine_biome_tile(200_000, 600_001, 0, 0), Tile::Grass);
    assert_eq!(G::determine_biome_tile(500_000, 600_001, 0, 700_001), Tile::Tree);
    assert_eq!(G::determine_biome_tile(500_000, 600_001, 0, 700_000), Tile::Grass);
    assert_eq!(G::determine_biome_tile(500_000, 600_000, 0, 900_000), Tile::Grass);
    assert_eq!(G::determine_biome_tile(400_000, 700_001, 0, 0), Tile::Water);
    assert_eq!(G::determine_biome_tile(400_000, 700_000, 0, 0), Tile::Grass);
    assert_eq!(G::determine_biome_tile(0, 0, 0, 0), Tile::Grass);
}

#[test]
fn tile_from_flat_noise() {
    let generator: InfiniteTerrainGenerator<MixNoise> = InfiniteTerrainGenerator::new(12345);
    // All noise zero: elevation and moisture one half, plains.
    assert_eq!(generator.tile_from_samples(1, 1, &flat(0)), Tile::Grass);
    // All noise at one: elevation (4 + 2 + 1 + 4) / 8 = 1.375.
    assert_eq!(generator.tile_from_samples(1, 1, &flat(1_000_000)), Tile::Mountain);
    // All noise at minus one: elevation -0.375, moisture -0.15.
    assert_eq!(generator.tile_from_samples(1, 1, &flat(-1_000_000)), Tile::Grass);
}

#[test]
fn road_needs_strong_noise_one_way_only() {
    let generator: InfiniteTerrainGenerator<MixNoise> = InfiniteTerrainGenerator::new(12345);
    let mut s = flat(0);
    s.road = 850_001;
    s.cross_road = 49_999;
    assert_eq!(generator.tile_from_samples(1, 1, &s), Tile::Road);
    s.road = -850_001;
    assert_eq!(generator.tile_from_samples(1, 1, &s), Tile::Road);
    s.cross_road = 50_000;
    assert_eq!(generator.tile_from_samples(1, 1, &s), Tile::Grass);
    s.road = 850_000;
    s.cross_road = 0;
    assert_eq!(generator.tile_from_samples(1, 1, &s), Tile::Grass);
    s.road = 0;
    s.cross_road = 900_000;
    assert_eq!(generator.tile_from_samples(1, 1, &s), Tile::Road);
    // No road above 0.7 elevation: 0.5 + 0.4 / 2.
    s.elevation = 400_001;
    assert_eq!(generator.tile_from_samples(1, 1, &s), Tile::Mountain);
}

#[test]
fn river_needs_low_land() {
    let generator: InfiniteTerrainGenerator<MixNoise> = InfiniteTerrainGenerator::new(12345);
    let mut s = flat(0);
    s.river = 300_001;
    // Elevation (4 * e + 4) / 8 below 0.25 needs e below -0.5.
    s.elevation = -500_001;
    assert_eq!(generator.tile_from_samples(1, 1, &s), Tile::Water);
    s.elevation = -500_000;
    assert_eq!(generator.tile_from_samples(1, 1, &s), Tile::Grass);
    s.elevation = -500_001;
    s.river = 300_000;
    assert_eq!(generator.tile_from_samples(1, 1, &s), Tile::Grass);
}

#[test]
fn village_and_entrance_where_the_hash_allows() {
    let generator: InfiniteTerrainGenerator<MixNoise> = InfiniteTerrainGenerator::new(12345);
    assert_eq!(generator.hash_coords(-176, -22, 12345) % 10000, 0);
    assert_eq!(generator.hash_coords(-103, 1, 54321) % 15000, 0);
    // Elevation and moisture one half: a village site, too low for an
    // entrance.
    assert_eq!(generator.tile_from_samples(-176, -22, &flat(0)), Tile::Village);
    assert_eq!(generator.tile_from_samples(-175, -22, &flat(0)), Tile::Grass);
    assert_eq!(generator.tile_from_samples(-103, 1, &flat(0)), Tile::Grass);
    // Elevation 0.65: an entrance site.
    let mut high = flat(0);
    high.elevation = 300_000;
    assert_eq!(generator.tile_from_samples(-103, 1, &high), Tile::DungeonEntrance);
    assert_eq!(generator.tile_from_samples(-176, -22, &high), Tile::Village);
    // Dry land: no village.
    let mut dry = flat(0);
    dry.moisture = -200_000;
    assert_eq!(generator.tile_from_samples(-176, -22, &dry), Tile::Grass);
}

#[test]
fn cold_rows_turn_hills_to_mountains() {
    let generator: InfiniteTerrainGenerator<MixNoise> = InfiniteTerrainGenerator::new(5);
    let mut s = flat(0);
    s.elevation = 300_000;
    s.moisture = 200_000;
    // Row 0: temperature (0 + 3 + 10) / 20 = 0.65, forested hills.
    assert_eq!(generator.tile_from_samples(3, 0, &s), Tile::Tree);
    s.temperature = -1_000_000;
    // Row 0: (-7 + 3 + 10) / 20 = 0.3, not below.
    assert_eq!(generator.tile_from_samples(3, 0, &s), Tile::Tree);
    // Row 1: (-7 + 2.997 + 10) / 20 < 0.3.
    assert_eq!(generator.tile_from_samples(3, 1, &s), Tile::Mountain);
    assert_eq!(generator.tile_from_samples(3, -5000, &s), Tile::Mountain);
}

#[test]
fn get_tile_loads_the_chunk() {
    let mut manager: ChunkManager<MixNoise> = ChunkManager::new(77);
    assert!(manager.get_loaded_chunks().is_empty());
    let tile = manager.get_tile(-1, 40, 10);
    assert!(tile.is_some());
    assert_eq!(manager.get_loaded_chunks().len(), 1);
    let chunk = &manager.get_loaded_chunks()[0];
    assert_eq!(chunk.coord, ChunkCoord::new(-1, 1));
    assert!(chunk.generated);
    assert_eq!(chunk.last_accessed, 10);
    assert_eq!(tile, Some(manager.terrain_generator.generate_tile_at(-1, 40)));
}

#[test]
fn get_tile_twice_gives_the_same_tile() {
    let mut manager: ChunkManager<MixNoise> = ChunkManager::new(77);
    for (x, y) in [(0, 0), (-1, -1), (100, -7), (31, 32)] {
        let first = manager.get_tile(x, y, 10);
        let loaded = manager.get_loaded_chunks().len();
        let second = manager.get_tile(x, y, 20);
        assert_eq!(first, second);
        assert_eq!(manager.get_loaded_chunks().len(), loaded);
        assert!(manager.get_loaded_chunks().iter().all(|c| c.generated));
    }
}

#[test]
fn set_tile_is_kept() {
    let mut manager: ChunkManager<MixNoise> = ChunkManager::new(77);
    let neighbor = manager.get_tile(-2, 5, 1);
    manager.set_tile(-1, 5, Tile::Village, 2);
    assert_eq!(manager.get_tile(-1, 5, 3), Some(Tile::Village));
    assert_eq!(manager.get_tile(-2, 5, 3), neighbor);
    manager.set_tile(200, 200, Tile::Road, 4);
    assert_eq!(manager.get_tile(200, 200, 5), Some(Tile::Road));
    assert_eq!(manager.get_loaded_chunks().len(), 2);
}

#[test]
fn staying_in_the_chunk_loads_nothing() {
    let mut manager: ChunkManager<MixNoise> = ChunkManager::new(1);
    manager.update_player_position(5, 31, 0);
    assert!(manager.get_loaded_chunks().is_empty());
    assert_eq!(manager.player_chunk, ChunkCoord::new(0, 0));
}

#[test]
fn entering_a_chunk_loads_its_surroundings() {
    let mut manager: ChunkManager<MixNoise> = ChunkManager::new(1);
    manager.update_player_position(32, 0, 100);
    assert_eq!(manager.player_chunk, ChunkCoord::new(1, 0));
    assert_eq!(manager.get_loaded_chunks().len(), 49);
    for chunk in manager.get_loaded_chunks() {
        assert!(chunk.generated);
        assert!(ChunkCoord::new(1, 0).distance_to(&chunk.coord) <= CHUNK_LOAD_RADIUS);
        assert_eq!(chunk.last_accessed, 100);
    }
}

#[test]
fn far_chunks_are_dropped() {
    let mut manager: ChunkManager<MixNoise> = ChunkManager::new(1);
    manager.get_tile(0, 0, 10);
    manager.get_tile(32 * 5, 0, 10);
    manager.get_tile(32 * 6, 0, 10);
    // The player enters chunk (1, 0): chunk 5 is four away, chunk 6 five.
    manager.update_player_position(32, 0, 20);
    let coords: Vec<ChunkCoord> = manager.get_loaded_chunks().iter().map(|c| c.coord).collect();
    assert!(coords.contains(&ChunkCoord::new(0, 0)));
    assert!(coords.contains(&ChunkCoord::new(5, 0)));
    assert!(!coords.contains(&ChunkCoord::new(6, 0)));
    assert_eq!(coords.len(), 50);
}

#[test]
fn stale_chunks_are_dropped() {
    let mut manager: ChunkManager<MixNoise> = ChunkManager::new(1);
    manager.get_tile(32 * 5, 0, 100);
    manager.get_tile(32 * 5, 32, 101);
    // 300 seconds is not stale, 301 is.
    manager.update_player_position(32, 0, 401);
    let coords: Vec<ChunkCoord> = manager.get_loaded_chunks().iter().map(|c| c.coord).collect();
    assert!(!coords.contains(&ChunkCoord::new(5, 0)));
    assert!(coords.contains(&ChunkCoord::new(5, 1)));
}

#[test]
fn oldest_chunks_go_when_there_are_too_many() {
    let mut manager: ChunkManager<MixNoise> = ChunkManager::new(1);
    // The ring four away from chunk (1, 0): 32 chunks, accessed at the
    // times 1 to 32.
    let mut time = 0;
    for dx in -4i32..=4 {
        for dy in -4i32..=4 {
            if dx.abs() == 4 || dy.abs() == 4 {
                time += 1;
                manager.get_tile((1 + dx) * 32, dy * 32, time);
            }
        }
    }
    assert_eq!(manager.get_loaded_chunks().len(), 32);
    manager.update_player_position(32, 0, 50);
    // 49 new chunks and 32 old ones: the 17 oldest go.
    assert_eq!(manager.get_loaded_chunks().len(), MAX_LOADED_CHUNKS);
    let kept: Vec<u64> = manager
        .get_loaded_chunks()
        .iter()
        .filter(|c| c.last_accessed != 50)
        .map(|c| c.last_accessed)
        .collect();
    assert_eq!(kept, (18..=32).collect::<Vec<u64>>());
}

#[test]
fn tiles_of_an_area() {
    let mut manager: ChunkManager<MixNoise> = ChunkManager::new(3);
    let tiles = manager.get_tiles_in_area(-2, 30, 1, 33, 9);
    for x in -2..=1 {
        for y in 30..=33 {
            let tile = manager.get_tile(x, y, 9);
            assert_eq!(tiles.get(x, y).copied(), tile);
            assert!(tile.is_some());
        }
    }
    assert!(tiles.get(2, 30).is_none());
    assert!(tiles.get(-2, 34).is_none());
    assert_eq!(manager.get_loaded_chunks().len(), 4);
    let none = manager.get_tiles_in_area(5, 5, 4, 9, 9);
    assert!(none.get(5, 5).is_none());
}

#[test]
fn positions_at_which_the_fields_are_read() {
    let at = InfiniteTerrainGenerator::<MixNoise>::sample_points(3, -2);
    assert_eq!(at.elevation, (60_000, -40_000));
    assert_eq!(at.elevation_double, (120_000, -80_000));
    assert_eq!(at.elevation_quad, (240_000, -160_000));
    assert_eq!(at.moisture, (42_000, -28_000));
    assert_eq!(at.moisture_triple, (126_000, -84_000));
    assert_eq!(at.temperature, (24_000, -16_000));
    assert_eq!(at.detail, (300_000, -200_000));
    assert_eq!(at.road, (24_000, -24_000));
    assert_eq!(at.cross_road, (-16_000, 36_000));
    assert_eq!(at.river, (30_000, -100_000));
    let far = InfiniteTerrainGenerator::<MixNoise>::sample_points(i32::MIN, i32::MAX);
    assert_eq!(far.detail, (-214_748_364_800_000, 214_748_364_700_000));
}

/// Noise that tells where it was read.
struct EchoNoise {
    seed: u32,
}

impl NoiseField for EchoNoise {
    fn of_seed(seed: u32) -> Self {
        EchoNoise { seed }
    }

    fn value(&self, x: i64, y: i64) -> i32 {
        (x / 1000 + y / 1000 * 7) as i32 + (self.seed % 1000) as i32 * 10_000
    }

    fn with_seed(seed: u32) -> Self {
        Self::of_seed(seed)
    }

    fn sample(&self, x: i64, y: i64) -> i32 {
        self.value(x, y)
    }
}

#[test]
fn samples_are_what_the_fields_return_at_their_positions() {
    let generator: InfiniteTerrainGenerator<EchoNoise> = InfiniteTerrainGenerator::new(5);
    let s = generator.sample_at(3, -2);
    // Elevation field, seed 5: 50_000 more than the position gives.
    assert_eq!(s.elevation, 60 - 40 * 7 + 50_000);
    assert_eq!(s.elevation_double, 120 - 80 * 7 + 50_000);
    assert_eq!(s.elevation_quad, 240 - 160 * 7 + 50_000);
    // Moisture field, seed 1005; temperature, 2005; features, 4005.
    assert_eq!(s.moisture, 42 - 28 * 7 + 50_000);
    assert_eq!(s.moisture_triple, 126 - 84 * 7 + 50_000);
    assert_eq!(s.river, 30 - 100 * 7 + 50_000);
    assert_eq!(s.temperature, 24 - 16 * 7 + 50_000);
    assert_eq!(s.detail, 300 - 200 * 7 + 50_000);
    assert_eq!(s.road, 24 - 24 * 7 + 50_000);
    assert_eq!(s.cross_road, -16 + 36 * 7 + 50_000);
}

#[test]
fn an_area_loads_its_chunks_with_the_tiles_of_the_world() {
    let generator: InfiniteTerrainGenerator<MixNoise> = InfiniteTerrainGenerator::new(3);
    let mut manager: ChunkManager<MixNoise> = ChunkManager::new(3);
    manager.set_tile(40, 40, Tile::Road, 1);
    let tiles = manager.get_tiles_in_area(-1, -1, 32, 0, 9);
    let mut coords: Vec<(i32, i32)> =
        manager.get_loaded_chunks().iter().map(|c| (c.coord.x, c.coord.y)).collect();
    coords.sort();
    assert_eq!(coords, vec![(-1, -1), (-1, 0), (0, -1), (0, 0), (1, -1), (1, 0), (1, 1)]);
    for x in -1..=32 {
        for y in -1..=0 {
            assert_eq!(tiles.get(x, y).copied(), Some(generator.generate_tile_at(x, y)));
        }
    }
    // Every place of a chunk that the area touched, not only those read.
    for (x, y) in [(-32, -32), (-5, 17), (31, 31), (63, -32), (33, 20)] {
        assert_eq!(manager.get_tile(x, y, 10), Some(generator.generate_tile_at(x, y)));
    }
    assert_eq!(manager.get_loaded_chunks().len(), 7);
    // The chunk that was loaded before keeps what was set in it.
    assert_eq!(manager.get_tile(40, 40, 11), Some(Tile::Road));
    assert_eq!(manager.get_tile(41, 40, 11), Some(generator.generate_tile_at(41, 40)));
}

#[test]
fn setting_a_tile_in_a_new_chunk_generates_the_rest_of_it() {
    let generator: InfiniteTerrainGenerator<MixNoise> = InfiniteTerrainGenerator::new(21);
    let mut manager: ChunkManager<MixNoise> = ChunkManager::new(21);
    manager.set_tile(-70, 100, Tile::Village, 5);
    assert_eq!(manager.get_loaded_chunks().len(), 1);
    for x in -96..-64 {
        for y in 96..128 {
            let expected =
                if (x, y) == (-70, 100) { Tile::Village } else { generator.generate_tile_at(x, y) };
            assert_eq!(manager.get_tile(x, y, 6), Some(expected));
        }
    }
    assert_eq!(manager.get_loaded_chunks().len(), 1);
}
