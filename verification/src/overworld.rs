//! Tiles of the unbounded overworld: a function of the world position,
//! the seed and ten noise samples.

use crate::chunk::{is_local, Chunk, CHUNK_SIZE};
use crate::generate::{unsigned, wrapping_product, wrapping_sum};
use crate::tile::Tile;
use vstd::prelude::*;

verus! {

/// One, in the fixed-point unit of noise values and terrain channels:
/// a millionth.
pub const UNIT: i32 = 1_000_000;

/// A village stands at one position in this many, where the land suits.
pub const VILLAGE_RARITY: u32 = 10000;

/// A dungeon entrance stands at one position in this many, where the land
/// suits.
pub const ENTRANCE_RARITY: u32 = 15000;

/// The salt of the village test.
pub const VILLAGE_SALT: u32 = 12345;

/// The salt of the dungeon entrance test.
pub const ENTRANCE_SALT: u32 = 54321;

/// A field of coherent noise over the plane. Positions and values are in
/// millionths; a value stands for a number between minus one and one.
/// The generator clamps what a field returns to that range.
///
/// What is proved of the generators holds of a field whose `with_seed`
/// and `sample` compute `of_seed` and `value`: a field must be a
/// function of its seed, and its value a function of the position.
pub trait NoiseField: Sized {
    /// The field of a seed.
    spec fn of_seed(seed: u32) -> Self;

    /// The value of the field at a position.
    spec fn value(&self, x: i64, y: i64) -> i32;

    /// The field of the given seed: the same field for the same seed.
    fn with_seed(seed: u32) -> (field: Self)
        ensures
            field == Self::of_seed(seed),
    ;

    /// The value of the field at a position: the same value whenever it
    /// is read.
    fn sample(&self, x: i64, y: i64) -> (v: i32)
        ensures
            v == self.value(x, y),
    ;
}

/// The noise values that decide one tile.
#[derive(Clone, Copy, Debug)]
pub struct NoiseSamples {
    /// Elevation noise at the tile, at twice and at four times the
    /// frequency.
    pub elevation: i32,
    pub elevation_double: i32,
    pub elevation_quad: i32,
    /// Moisture noise at the tile and at three times the frequency.
    pub moisture: i32,
    pub moisture_triple: i32,
    pub temperature: i32,
    pub detail: i32,
    /// Feature noise along and across the roads.
    pub road: i32,
    pub cross_road: i32,
    pub river: i32,
}

/// True of the values that stand for a number between minus one and one.
pub open spec fn unit_range(v: int) -> bool {
    -UNIT <= v <= UNIT
}

/// A value brought into the range of noise: minus one where it is
/// below, one where it is above.
pub open spec fn clamped(v: int) -> int {
    if v < -UNIT {
        -UNIT as int
    } else if v > UNIT {
        UNIT as int
    } else {
        v
    }
}

/// The positions, in millionths, at which the four fields are read for
/// one tile.
#[derive(Clone, Copy, Debug)]
pub struct SamplePoints {
    pub elevation: (i64, i64),
    pub elevation_double: (i64, i64),
    pub elevation_quad: (i64, i64),
    pub moisture: (i64, i64),
    pub moisture_triple: (i64, i64),
    pub temperature: (i64, i64),
    pub detail: (i64, i64),
    pub road: (i64, i64),
    pub cross_road: (i64, i64),
    pub river: (i64, i64),
}

/// The positions at which the fields are read for the tile at `(x, y)`:
/// elevation at a fiftieth of the position and at twice and four times
/// that, moisture at seven tenths of the elevation's and at three times
/// that, temperature at four tenths, detail at a tenth of the position;
/// the roads along one axis and across, the rivers stretched along the
/// rows.
pub open spec fn points_for(x: int, y: int) -> SamplePoints {
    SamplePoints {
        elevation: ((x * 20_000) as i64, (y * 20_000) as i64),
        elevation_double: ((x * 40_000) as i64, (y * 40_000) as i64),
        elevation_quad: ((x * 80_000) as i64, (y * 80_000) as i64),
        moisture: ((x * 14_000) as i64, (y * 14_000) as i64),
        moisture_triple: ((x * 42_000) as i64, (y * 42_000) as i64),
        temperature: ((x * 8_000) as i64, (y * 8_000) as i64),
        detail: ((x * 100_000) as i64, (y * 100_000) as i64),
        road: ((x * 8_000) as i64, (y * 12_000) as i64),
        cross_road: ((y * 8_000) as i64, (x * 12_000) as i64),
        river: ((x * 10_000) as i64, (y * 50_000) as i64),
    }
}

impl NoiseSamples {
    /// Every value stands for a number between minus one and one.
    pub open spec fn in_range(self) -> bool {
        &&& unit_range(self.elevation as int)
        &&& unit_range(self.elevation_double as int)
        &&& unit_range(self.elevation_quad as int)
        &&& unit_range(self.moisture as int)
        &&& unit_range(self.moisture_triple as int)
        &&& unit_range(self.temperature as int)
        &&& unit_range(self.detail as int)
        &&& unit_range(self.road as int)
        &&& unit_range(self.cross_road as int)
        &&& unit_range(self.river as int)
    }

    /// Elevation: the base octave, half the second and a quarter of the
    /// third, halved and lifted by one half.
    pub open spec fn elevation_level(self) -> int {
        (4 * self.elevation + 2 * self.elevation_double + self.elevation_quad + 4 * UNIT) / 8
    }

    /// Moisture: the base octave and three tenths of the second, halved
    /// and lifted by one half.
    pub open spec fn moisture_level(self) -> int {
        (10 * self.moisture + 3 * self.moisture_triple + 10 * UNIT) / 20
    }

    /// Temperature at the row `world_y`: seven tenths noise, three tenths
    /// latitude, halved and lifted by one half.
    pub open spec fn temperature_level(self, world_y: int) -> int {
        (7 * self.temperature + 3 * latitude(world_y) + 10 * UNIT) / 20
    }

    /// Fine detail: the noise halved and lifted by one half.
    pub open spec fn detail_level(self) -> int {
        (self.detail + UNIT) / 2
    }
}

/// Warmth by latitude: one at row zero, falling by a thousandth per row
/// to zero.
pub open spec fn latitude(world_y: int) -> int {
    let rows = if world_y >= 0 {
        world_y
    } else {
        -world_y
    };
    if rows * 1000 >= UNIT {
        0
    } else {
        UNIT - rows * 1000
    }
}

/// The number that decides whether a rare feature stands at a position.
pub open spec fn coord_hash(seed: u32, x: int, y: int, salt: u32) -> u32 {
    let h1 = wrapping_product(wrapping_sum(seed, unsigned(x)), 73u32);
    let h2 = wrapping_product(wrapping_sum(h1, unsigned(y)), 37u32);
    wrapping_product(wrapping_sum(h2, salt), 17u32)
}

/// The size of a value, whatever its sign.
pub open spec fn magnitude(v: int) -> int {
    if v >= 0 {
        v
    } else {
        -v
    }
}

/// A village stands here: the hash test passes, the elevation is
/// moderate and the land moist.
pub open spec fn village_here(seed: u32, x: int, y: int, s: NoiseSamples) -> bool {
    &&& coord_hash(seed, x, y, VILLAGE_SALT) % VILLAGE_RARITY == 0
    &&& 300_000 < s.elevation_level() < 700_000
    &&& s.moisture_level() > 400_000
}

/// A dungeon entrance stands here: the hash test passes and the land is
/// high.
pub open spec fn entrance_here(seed: u32, x: int, y: int, s: NoiseSamples) -> bool {
    &&& coord_hash(seed, x, y, ENTRANCE_SALT) % ENTRANCE_RARITY == 0
    &&& s.elevation_level() > 600_000
}

/// A road runs here: the noise is strong in one direction and weak in
/// the other, and the elevation neither low nor high.
pub open spec fn road_here(s: NoiseSamples) -> bool {
    &&& (magnitude(s.road as int) > 850_000 && magnitude(s.cross_road as int) < 50_000) || (
    magnitude(s.cross_road as int) > 850_000 && magnitude(s.road as int) < 50_000)
    &&& 200_000 < s.elevation_level() < 700_000
}

/// A river runs here: the land is low and the river noise high.
pub open spec fn river_here(s: NoiseSamples) -> bool {
    s.elevation_level() <= 400_000 && s.river > 300_000 && s.elevation_level() < 250_000
}

/// The tile of a biome by elevation, moisture, temperature and detail.
pub open spec fn biome_tile(elevation: int, moisture: int, temperature: int, detail: int) -> Tile {
    if elevation > 800_000 {
        Tile::Mountain
    } else if elevation < 200_000 && moisture > 600_000 {
        Tile::Water
    } else if elevation > 600_000 {
        if temperature < 300_000 {
            Tile::Mountain
        } else if moisture > 500_000 {
            Tile::Tree
        } else {
            Tile::Mountain
        }
    } else if elevation > 400_000 {
        if moisture > 600_000 && detail > 700_000 {
            Tile::Tree
        } else {
            Tile::Grass
        }
    } else if moisture > 700_000 {
        Tile::Water
    } else {
        Tile::Grass
    }
}

/// The tile at a world position: a village, else a dungeon entrance,
/// else a road, else a river, else the tile of the biome.
pub open spec fn terrain_tile(seed: u32, x: int, y: int, s: NoiseSamples) -> Tile {
    if village_here(seed, x, y, s) {
        Tile::Village
    } else if entrance_here(seed, x, y, s) {
        Tile::DungeonEntrance
    } else if road_here(s) {
        Tile::Road
    } else if river_here(s) {
        Tile::Water
    } else {
        biome_tile(
            s.elevation_level(),
            s.moisture_level(),
            s.temperature_level(y),
            s.detail_level(),
        )
    }
}

fn clamp_unit(v: i32) -> (c: i32)
    ensures
        c == clamped(v as int),
        unit_range(c as int),
{
    if v < -UNIT {
        -UNIT
    } else if v > UNIT {
        UNIT
    } else {
        v
    }
}

fn size_of(v: i32) -> (m: i64)
    ensures
        m == magnitude(v as int),
{
    if v >= 0 {
        v as i64
    } else {
        -(v as i64)
    }
}

fn to_bits(x: i32) -> (u: u32)
    ensures
        u == unsigned(x as int),
{
    if x >= 0 {
        x as u32
    } else {
        (x as i64 + 0x1_0000_0000i64) as u32
    }
}

fn times(a: u32, b: u32) -> (p: u32)
    requires
        b <= 100,
    ensures
        p == wrapping_product(a, b),
{
    assert((a as u64) * (b as u64) <= 0xFFFF_FFFFu64 * 100) by (nonlinear_arith)
        requires
            a <= 0xFFFF_FFFFu64,
            b <= 100,
    ;
    let wide: u64 = (a as u64) * (b as u64);
    (wide % 0x1_0000_0000u64) as u32
}

fn plus(a: u32, b: u32) -> (s: u32)
    ensures
        s == wrapping_sum(a, b),
{
    let wide: u64 = (a as u64) + (b as u64);
    (wide % 0x1_0000_0000u64) as u32
}

/// Builds the tiles of the unbounded overworld from four noise fields.
pub struct InfiniteTerrainGenerator<N: NoiseField> {
    pub elevation_noise: N,
    pub moisture_noise: N,
    pub temperature_noise: N,
    pub feature_noise: N,
    pub seed: u32,
}

impl<N: NoiseField> InfiniteTerrainGenerator<N> {
    /// The generator of the world of a seed: its four fields are those of
    /// the seeds `seed`, `seed + 1000`, `seed + 2000` and `seed + 4000`.
    pub open spec fn seeded(seed: u32) -> Self {
        InfiniteTerrainGenerator {
            elevation_noise: N::of_seed(seed),
            moisture_noise: N::of_seed(wrapping_sum(seed, 1000)),
            temperature_noise: N::of_seed(wrapping_sum(seed, 2000)),
            feature_noise: N::of_seed(wrapping_sum(seed, 4000)),
            seed,
        }
    }

    /// The noise that decides the tile at `(x, y)`: what each field holds
    /// at its position of `points_for`, brought into range.
    pub open spec fn samples_for(self, x: int, y: int) -> NoiseSamples {
        let at = points_for(x, y);
        NoiseSamples {
            elevation: clamped(self.elevation_noise.value(at.elevation.0, at.elevation.1) as int) as i32,
            elevation_double: clamped(
                self.elevation_noise.value(at.elevation_double.0, at.elevation_double.1) as int,
            ) as i32,
            elevation_quad: clamped(
                self.elevation_noise.value(at.elevation_quad.0, at.elevation_quad.1) as int,
            ) as i32,
            moisture: clamped(self.moisture_noise.value(at.moisture.0, at.moisture.1) as int) as i32,
            moisture_triple: clamped(
                self.moisture_noise.value(at.moisture_triple.0, at.moisture_triple.1) as int,
            ) as i32,
            temperature: clamped(
                self.temperature_noise.value(at.temperature.0, at.temperature.1) as int,
            ) as i32,
            detail: clamped(self.feature_noise.value(at.detail.0, at.detail.1) as int) as i32,
            road: clamped(self.feature_noise.value(at.road.0, at.road.1) as int) as i32,
            cross_road: clamped(
                self.feature_noise.value(at.cross_road.0, at.cross_road.1) as int,
            ) as i32,
            river: clamped(self.moisture_noise.value(at.river.0, at.river.1) as int) as i32,
        }
    }

    /// The tile of the world at `(x, y)`.
    pub open spec fn tile_for(self, x: int, y: int) -> Tile {
        terrain_tile(self.seed, x, y, self.samples_for(x, y))
    }

    /// The tiles of the world by position.
    pub open spec fn world(self) -> spec_fn(int, int) -> Tile {
        |x: int, y: int| self.tile_for(x, y)
    }

    /// The generator of a world: its four fields have the seeds `seed`,
    /// `seed + 1000`, `seed + 2000` and `seed + 4000`.
    pub fn new(seed: u32) -> (generator: Self)
        ensures
            generator == Self::seeded(seed),
    {
        InfiniteTerrainGenerator {
            elevation_noise: N::with_seed(seed),
            moisture_noise: N::with_seed(plus(seed, 1000)),
            temperature_noise: N::with_seed(plus(seed, 2000)),
            feature_noise: N::with_seed(plus(seed, 4000)),
            seed,
        }
    }

    /// The number that decides whether a rare feature stands at a
    /// position.
    pub fn hash_coords(&self, x: i32, y: i32, salt: u32) -> (hash: u32)
        ensures
            hash == coord_hash(self.seed, x as int, y as int, salt),
    {
        let h1 = times(plus(self.seed, to_bits(x)), 73);
        let h2 = times(plus(h1, to_bits(y)), 37);
        times(plus(h2, salt), 17)
    }

    /// The positions at which the fields are read for the tile at a world
    /// position.
    pub fn sample_points(world_x: i32, world_y: i32) -> (points: SamplePoints)
        ensures
            points == points_for(world_x as int, world_y as int),
    {
        let x: i64 = world_x as i64;
        let y: i64 = world_y as i64;
        SamplePoints {
            elevation: (x * 20_000, y * 20_000),
            elevation_double: (x * 40_000, y * 40_000),
            elevation_quad: (x * 80_000, y * 80_000),
            moisture: (x * 14_000, y * 14_000),
            moisture_triple: (x * 42_000, y * 42_000),
            temperature: (x * 8_000, y * 8_000),
            detail: (x * 100_000, y * 100_000),
            road: (x * 8_000, y * 12_000),
            cross_road: (y * 8_000, x * 12_000),
            river: (x * 10_000, y * 50_000),
        }
    }

    /// Reads the ten noise values that decide the tile at a position:
    /// each field at its positions of `sample_points`, what it returns
    /// brought into range.
    pub fn sample_at(&self, world_x: i32, world_y: i32) -> (s: NoiseSamples)
        ensures
            s == self.samples_for(world_x as int, world_y as int),
            s.in_range(),
    {
        let at = Self::sample_points(world_x, world_y);
        NoiseSamples {
            elevation: clamp_unit(self.elevation_noise.sample(at.elevation.0, at.elevation.1)),
            elevation_double: clamp_unit(
                self.elevation_noise.sample(at.elevation_double.0, at.elevation_double.1),
            ),
            elevation_quad: clamp_unit(
                self.elevation_noise.sample(at.elevation_quad.0, at.elevation_quad.1),
            ),
            moisture: clamp_unit(self.moisture_noise.sample(at.moisture.0, at.moisture.1)),
            moisture_triple: clamp_unit(
                self.moisture_noise.sample(at.moisture_triple.0, at.moisture_triple.1),
            ),
            temperature: clamp_unit(
                self.temperature_noise.sample(at.temperature.0, at.temperature.1),
            ),
            detail: clamp_unit(self.feature_noise.sample(at.detail.0, at.detail.1)),
            road: clamp_unit(self.feature_noise.sample(at.road.0, at.road.1)),
            cross_road: clamp_unit(self.feature_noise.sample(at.cross_road.0, at.cross_road.1)),
            river: clamp_unit(self.moisture_noise.sample(at.river.0, at.river.1)),
        }
    }

    /// The tile at a world position, given the noise there.
    pub fn tile_from_samples(&self, world_x: i32, world_y: i32, s: &NoiseSamples) -> (tile: Tile)
        requires
            s.in_range(),
        ensures
            tile == terrain_tile(self.seed, world_x as int, world_y as int, *s),
    {
        let elevation: i64 = (4 * (s.elevation as i64) + 2 * (s.elevation_double as i64) + (
        s.elevation_quad as i64) + 12_000_000) / 8 - 1_000_000;
        let moisture: i64 = (10 * (s.moisture as i64) + 3 * (s.moisture_triple as i64) + 30_000_000)
            / 20 - 1_000_000;
        let rows: i64 = size_of(world_y);
        let warmth: i64 = if rows * 1000 >= 1_000_000 {
            0
        } else {
            1_000_000 - rows * 1000
        };
        let temperature: i64 = (7 * (s.temperature as i64) + 3 * warmth + 10_000_000) / 20;
        let detail: i64 = ((s.detail as i64) + 1_000_000) / 2;
        let road: i64 = size_of(s.road);
        let cross: i64 = size_of(s.cross_road);
        if self.hash_coords(world_x, world_y, VILLAGE_SALT) % VILLAGE_RARITY == 0 && 300_000
            < elevation && elevation < 700_000 && moisture > 400_000 {
            return Tile::Village;
        }
        if self.hash_coords(world_x, world_y, ENTRANCE_SALT) % ENTRANCE_RARITY == 0 && elevation
            > 600_000 {
            return Tile::DungeonEntrance;
        }
        if ((road > 850_000 && cross < 50_000) || (cross > 850_000 && road < 50_000)) && 200_000
            < elevation && elevation < 700_000 {
            return Tile::Road;
        }
        if elevation <= 400_000 && s.river > 300_000 && elevation < 250_000 {
            return Tile::Water;
        }
        Self::determine_biome_tile(elevation, moisture, temperature, detail)
    }

    /// The tile of a biome by elevation, moisture, temperature and
    /// detail, each in millionths: mountain above 0.8 elevation, and
    /// bands of tree, grass and water below.
    pub fn determine_biome_tile(elevation: i64, moisture: i64, temperature: i64, detail: i64) -> (tile:
        Tile)
        ensures
            tile == biome_tile(elevation as int, moisture as int, temperature as int, detail as int),
    {
        if elevation > 800_000 {
            Tile::Mountain
        } else if elevation < 200_000 && moisture > 600_000 {
            Tile::Water
        } else if elevation > 600_000 {
            if temperature < 300_000 {
                Tile::Mountain
            } else if moisture > 500_000 {
                Tile::Tree
            } else {
                Tile::Mountain
            }
        } else if elevation > 400_000 {
            if moisture > 600_000 && detail > 700_000 {
                Tile::Tree
            } else {
                Tile::Grass
            }
        } else if moisture > 700_000 {
            Tile::Water
        } else {
            Tile::Grass
        }
    }

    /// The tile at a world position: what `tile_from_samples` makes of
    /// the noise that the four fields hold there.
    pub fn generate_tile_at(&self, world_x: i32, world_y: i32) -> (tile: Tile)
        ensures
            tile == self.tile_for(world_x as int, world_y as int),
    {
        let s = self.sample_at(world_x, world_y);
        self.tile_from_samples(world_x, world_y, &s)
    }
}

/// The tiles of the chunk at `coord`, at the places before `(x, y)`
/// column by column, are those of `world`.
pub open spec fn generated_before(
    tiles: Map<(int, int), Tile>,
    world: spec_fn(int, int) -> Tile,
    coord: (int, int),
    x: int,
    y: int,
) -> bool {
    forall|p: (int, int)|
        is_local(p) && (p.0 < x || (p.0 == x && p.1 < y)) ==> #[trigger] tiles.contains_key(p)
            && tiles[p] == world(coord.0 * CHUNK_SIZE + p.0, coord.1 * CHUNK_SIZE + p.1)
}

impl Chunk {
    /// Fills the chunk with the tiles of its part of the world, once: a
    /// chunk that is generated already is left as it is.
    pub fn generate<N: NoiseField>(&mut self, generator: &InfiniteTerrainGenerator<N>, now: u64)
        requires
            old(self).coord.in_world(),
            old(self)@.well_formed(),
        ensures
            old(self)@.generated ==> final(self)@ == old(self)@,
            final(self)@.generated,
            final(self)@.coord == old(self)@.coord,
            final(self)@.well_formed(),
            !old(self)@.generated ==> final(self)@.last_accessed == now,
            !old(self)@.generated ==> generated_before(
                final(self)@.tiles,
                generator.world(),
                old(self)@.coord,
                CHUNK_SIZE as int,
                0,
            ),
    {
        if self.generated {
            return ;
        }
        let (start_x, start_y) = self.coord.to_world_pos();
        let ghost world = generator.world();
        let ghost coord = self.coord@;
        let mut local_x: i32 = 0;
        while local_x < CHUNK_SIZE
            invariant
                0 <= local_x <= CHUNK_SIZE,
                start_x == coord.0 * CHUNK_SIZE,
                start_y == coord.1 * CHUNK_SIZE,
                self.coord == old(self).coord,
                coord == self.coord@,
                self.coord.in_world(),
                self.generated == old(self).generated,
                world == generator.world(),
                self@.well_formed(),
                generated_before(self@.tiles, world, coord, local_x as int, 0),
            decreases CHUNK_SIZE - local_x,
        {
            let mut local_y: i32 = 0;
            while local_y < CHUNK_SIZE
                invariant
                    0 <= local_x < CHUNK_SIZE,
                    0 <= local_y <= CHUNK_SIZE,
                    start_x == coord.0 * CHUNK_SIZE,
                    start_y == coord.1 * CHUNK_SIZE,
                    self.coord == old(self).coord,
                    coord == self.coord@,
                    self.coord.in_world(),
                    self.generated == old(self).generated,
                    world == generator.world(),
                    self@.well_formed(),
                    generated_before(self@.tiles, world, coord, local_x as int, local_y as int),
                decreases CHUNK_SIZE - local_y,
            {
                let world_x: i32 = start_x + local_x;
                let world_y: i32 = start_y + local_y;
                let tile = generator.generate_tile_at(world_x, world_y);
                let ghost before = self@.tiles;
                self.tiles.insert(local_x, local_y, tile);
                proof {
                    let after = self@.tiles;
                    assert forall|p: (int, int)|
                        is_local(p) && (p.0 < local_x || (p.0 == local_x && p.1 < local_y + 1)) implies #[trigger] after.contains_key(
                        p,
                    ) && after[p] == world(
                        coord.0 * CHUNK_SIZE + p.0,
                        coord.1 * CHUNK_SIZE + p.1,
                    ) by {
                        if p != (local_x as int, local_y as int) {
                            assert(before.contains_key(p));
                        }
                    }
                }
                local_y = local_y + 1;
            }
            local_x = local_x + 1;
        }
        self.generated = true;
        self.last_accessed = now;
    }
}

} // verus!
