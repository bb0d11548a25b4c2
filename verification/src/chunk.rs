//! Chunks: the fixed-size squares into which the unbounded overworld is
//! cut.

use crate::grid::CoordMap;
use crate::tile::Tile;
use vstd::prelude::*;

verus! {

/// Side of a chunk, in tiles.
pub const CHUNK_SIZE: i32 = 32;

/// Chunks this far from the player's chunk are kept loaded.
pub const CHUNK_LOAD_RADIUS: i32 = 3;

/// The most chunks that stay loaded.
pub const MAX_LOADED_CHUNKS: usize = 64;

/// A chunk that was not accessed for more than this many seconds is
/// dropped.
pub const CHUNK_STALE_SECS: u64 = 300;

/// The chunk that holds the world coordinate `world`.
pub open spec fn chunk_of(world: int) -> int {
    world / (CHUNK_SIZE as int)
}

/// The place of the world coordinate `world` within its chunk.
pub open spec fn local_of(world: int) -> int {
    world % (CHUNK_SIZE as int)
}

/// The larger of the two distances along the axes.
pub open spec fn chebyshev(a: (int, int), b: (int, int)) -> int {
    let dx = if a.0 >= b.0 {
        a.0 - b.0
    } else {
        b.0 - a.0
    };
    let dy = if a.1 >= b.1 {
        a.1 - b.1
    } else {
        b.1 - a.1
    };
    if dx >= dy {
        dx
    } else {
        dy
    }
}

/// The lowest chunk coordinate at most `radius` from `c`.
pub open spec fn reach_low(c: int, radius: int) -> int {
    if c - radius < i32::MIN {
        i32::MIN as int
    } else {
        c - radius
    }
}

/// The highest chunk coordinate at most `radius` from `c`.
pub open spec fn reach_high(c: int, radius: int) -> int {
    if c + radius > i32::MAX {
        i32::MAX as int
    } else {
        c + radius
    }
}

/// How many chunk coordinates are at most `radius` from `c`.
pub open spec fn reach(c: int, radius: int) -> int {
    if radius < 0 {
        0
    } else {
        reach_high(c, radius) - reach_low(c, radius) + 1
    }
}

/// A world coordinate is the first coordinate of its chunk plus its
/// place in the chunk, and that place lies in `[0, CHUNK_SIZE)`, for
/// negative coordinates too.
pub proof fn lemma_chunk_and_local(world: int)
    ensures
        0 <= local_of(world) < CHUNK_SIZE,
        chunk_of(world) * CHUNK_SIZE + local_of(world) == world,
        world < 0 ==> chunk_of(world) < 0,
        chunk_of(-1) == -1 && local_of(-1) == 31,
{
}

/// The coordinates of a chunk.
#[derive(Debug, Clone, Copy, PartialEq, Eq, Hash, Structural)]
pub struct ChunkCoord {
    pub x: i32,
    pub y: i32,
}

impl View for ChunkCoord {
    type V = (int, int);

    open spec fn view(&self) -> (int, int) {
        (self.x as int, self.y as int)
    }
}

fn floor_chunk(world: i32) -> (parts: (i32, i32))
    ensures
        parts.0 == chunk_of(world as int),
        parts.1 == local_of(world as int),
{
    let shifted: i64 = world as i64 + 0x8000_0000i64;
    let chunk: i64 = shifted / 32 - 0x400_0000i64;
    let local: i64 = shifted % 32;
    (chunk as i32, local as i32)
}

impl ChunkCoord {
    pub fn new(x: i32, y: i32) -> (coord: ChunkCoord)
        ensures
            coord.x == x,
            coord.y == y,
    {
        ChunkCoord { x, y }
    }

    /// True of the coordinates of chunks that hold world coordinates.
    pub open spec fn in_world(self) -> bool {
        chunk_of(i32::MIN as int) <= self.x <= chunk_of(i32::MAX as int) && chunk_of(
            i32::MIN as int,
        ) <= self.y <= chunk_of(i32::MAX as int)
    }

    /// The chunk that holds the world position: each coordinate divided
    /// by the chunk size, rounded down.
    pub fn from_world_pos(world_x: i32, world_y: i32) -> (coord: ChunkCoord)
        ensures
            coord@ == (chunk_of(world_x as int), chunk_of(world_y as int)),
            coord.in_world(),
    {
        ChunkCoord { x: floor_chunk(world_x).0, y: floor_chunk(world_y).0 }
    }

    /// The world position of the chunk's first tile.
    pub fn to_world_pos(&self) -> (world: (i32, i32))
        requires
            self.in_world(),
        ensures
            world.0 == self.x * CHUNK_SIZE,
            world.1 == self.y * CHUNK_SIZE,
    {
        (self.x * CHUNK_SIZE, self.y * CHUNK_SIZE)
    }

    /// The Chebyshev distance to `other`, or `i32::MAX` if that is
    /// smaller.
    pub fn distance_to(&self, other: &ChunkCoord) -> (distance: i32)
        ensures
            distance == if chebyshev(self@, other@) <= i32::MAX {
                chebyshev(self@, other@)
            } else {
                i32::MAX as int
            },
    {
        let dx: i64 = if self.x >= other.x {
            self.x as i64 - other.x as i64
        } else {
            other.x as i64 - self.x as i64
        };
        let dy: i64 = if self.y >= other.y {
            self.y as i64 - other.y as i64
        } else {
            other.y as i64 - self.y as i64
        };
        let d: i64 = if dx >= dy {
            dx
        } else {
            dy
        };
        if d > i32::MAX as i64 {
            i32::MAX
        } else {
            d as i32
        }
    }

    /// The chunks at most `radius` away along both axes, column by
    /// column and from the lowest row up in each; none for a negative
    /// radius.
    pub fn neighbors_within_radius(&self, radius: i32) -> (found: Vec<ChunkCoord>)
        ensures
            found@.len() == reach(self.x as int, radius as int) * reach(
                self.y as int,
                radius as int,
            ),
            forall|k: int|
                0 <= k < found@.len() ==> (#[trigger] found@[k])@ == (
                    reach_low(self.x as int, radius as int) + k / reach(
                        self.y as int,
                        radius as int,
                    ),
                    reach_low(self.y as int, radius as int) + k % reach(
                        self.y as int,
                        radius as int,
                    ),
                ),
            forall|c: ChunkCoord| #[trigger]
                found@.contains(c) <==> chebyshev(self@, c@) <= radius,
            found@.no_duplicates(),
    {
        let mut found: Vec<ChunkCoord> = Vec::new();
        if radius < 0 {
            assert(reach(self.x as int, radius as int) * reach(self.y as int, radius as int) == 0)
                by (nonlinear_arith)
                requires
                    reach(self.x as int, radius as int) == 0,
            ;
            return found;
        }
        let r: i64 = radius as i64;
        let low_x: i64 = Self::clamp_to_i32(self.x as i64 - r);
        let high_x: i64 = Self::clamp_to_i32(self.x as i64 + r);
        let low_y: i64 = Self::clamp_to_i32(self.y as i64 - r);
        let high_y: i64 = Self::clamp_to_i32(self.y as i64 + r);
        let ghost rows: int = high_y - low_y + 1;
        let mut x: i64 = low_x;
        assert((x - low_x) * rows == 0) by (nonlinear_arith)
            requires
                x == low_x,
        ;
        while x <= high_x
            invariant
                0 <= r == radius,
                low_x == reach_low(self.x as int, radius as int),
                high_x == reach_high(self.x as int, radius as int),
                low_y == reach_low(self.y as int, radius as int),
                high_y == reach_high(self.y as int, radius as int),
                rows == high_y - low_y + 1,
                low_x <= x <= high_x + 1,
                found@.len() == (x - low_x) * rows,
                forall|k: int|
                    0 <= k < found@.len() ==> (#[trigger] found@[k])@ == (
                        low_x + k / rows,
                        low_y + k % rows,
                    ),
                found@.no_duplicates(),
                forall|c: ChunkCoord| #[trigger]
                    found@.contains(c) <==> chebyshev(self@, c@) <= radius && c.x < x,
            decreases high_x + 1 - x,
        {
            let mut y: i64 = low_y;
            while y <= high_y
                invariant
                    0 <= r == radius,
                    low_x == reach_low(self.x as int, radius as int),
                    high_x == reach_high(self.x as int, radius as int),
                    low_y == reach_low(self.y as int, radius as int),
                    high_y == reach_high(self.y as int, radius as int),
                    rows == high_y - low_y + 1,
                    low_x <= x <= high_x,
                    low_y <= y <= high_y + 1,
                    found@.len() == (x - low_x) * rows + (y - low_y),
                    forall|k: int|
                        0 <= k < found@.len() ==> (#[trigger] found@[k])@ == (
                            low_x + k / rows,
                            low_y + k % rows,
                        ),
                    found@.no_duplicates(),
                    forall|c: ChunkCoord| #[trigger]
                        found@.contains(c) <==> chebyshev(self@, c@) <= radius && (c.x < x || (c.x
                            == x && c.y < y)),
                decreases high_y + 1 - y,
            {
                let c = ChunkCoord { x: x as i32, y: y as i32 };
                let ghost before = found@;
                found.push(c);
                proof {
                    assert(found@ =~= before.push(c));
                    assert(!before.contains(c));
                    vstd::arithmetic::div_mod::lemma_fundamental_div_mod_converse(
                        before.len() as int,
                        rows,
                        x - low_x,
                        y - low_y,
                    );
                    assert forall|e: ChunkCoord| #[trigger]
                        found@.contains(e) <==> before.contains(e) || e == c by {
                        if found@.contains(e) {
                            let i = choose|i: int| 0 <= i < found@.len() && found@[i] == e;
                            if i < before.len() {
                                assert(before[i] == e);
                            }
                        }
                        if before.contains(e) {
                            let i = choose|i: int| 0 <= i < before.len() && before[i] == e;
                            assert(found@[i] == e);
                        }
                        if e == c {
                            assert(found@[before.len() as int] == e);
                        }
                    }
                }
                y = y + 1;
            }
            assert((x - low_x) * rows + rows == (x + 1 - low_x) * rows) by (nonlinear_arith);
            x = x + 1;
        }
        found
    }

    /// `v`, or the nearest value that an `i32` holds.
    fn clamp_to_i32(v: i64) -> (clamped: i64)
        ensures
            i32::MIN <= clamped <= i32::MAX,
            v < i32::MIN ==> clamped == i32::MIN,
            v > i32::MAX ==> clamped == i32::MAX,
            i32::MIN <= v <= i32::MAX ==> clamped == v,
    {
        if v < i32::MIN as i64 {
            i32::MIN as i64
        } else if v > i32::MAX as i64 {
            i32::MAX as i64
        } else {
            v
        }
    }
}

/// What a chunk is, as mathematical values.
pub struct ChunkView {
    pub coord: (int, int),
    pub tiles: Map<(int, int), Tile>,
    pub generated: bool,
    pub last_accessed: nat,
}

/// A square of `CHUNK_SIZE` by `CHUNK_SIZE` tiles of the overworld, by
/// their places within the chunk.
pub struct Chunk {
    pub coord: ChunkCoord,
    pub tiles: CoordMap<Tile>,
    pub generated: bool,
    pub last_accessed: u64,
}

impl View for Chunk {
    type V = ChunkView;

    open spec fn view(&self) -> ChunkView {
        ChunkView {
            coord: self.coord@,
            tiles: self.tiles@,
            generated: self.generated,
            last_accessed: self.last_accessed as nat,
        }
    }
}

/// True of the places within a chunk.
pub open spec fn is_local(p: (int, int)) -> bool {
    0 <= p.0 < CHUNK_SIZE && 0 <= p.1 < CHUNK_SIZE
}

impl ChunkView {
    /// Every tile sits at a place within the chunk.
    pub open spec fn well_formed(self) -> bool {
        forall|p: (int, int)| #[trigger] self.tiles.contains_key(p) ==> is_local(p)
    }

    /// The tile at a place, if there is one.
    pub open spec fn tile_at(self, p: (int, int)) -> Option<Tile> {
        if self.tiles.contains_key(p) {
            Some(self.tiles[p])
        } else {
            None
        }
    }
}

impl Chunk {
    /// An empty chunk that is still to be generated, accessed at `now`.
    pub fn new(coord: ChunkCoord, now: u64) -> (chunk: Chunk)
        ensures
            chunk@ == (ChunkView {
                coord: coord@,
                tiles: Map::<(int, int), Tile>::empty(),
                generated: false,
                last_accessed: now as nat,
            }),
            chunk@.well_formed(),
    {
        Chunk { coord, tiles: CoordMap::new(), generated: false, last_accessed: now }
    }

    /// The tile at a place of the chunk; the access is recorded.
    pub fn get_tile(&mut self, local_x: i32, local_y: i32, now: u64) -> (tile: Option<Tile>)
        ensures
            final(self)@ == (ChunkView { last_accessed: now as nat, ..old(self)@ }),
            tile == old(self)@.tile_at((local_x as int, local_y as int)),
    {
        self.last_accessed = now;
        match self.tiles.get(local_x, local_y) {
            Some(t) => Some(*t),
            None => None,
        }
    }

    /// Sets the tile at a place of the chunk; a place outside the chunk
    /// is left alone. The access is recorded.
    pub fn set_tile(&mut self, local_x: i32, local_y: i32, tile: Tile, now: u64)
        ensures
            is_local((local_x as int, local_y as int)) ==> final(self)@ == (ChunkView {
                last_accessed: now as nat,
                tiles: old(self)@.tiles.insert((local_x as int, local_y as int), tile),
                ..old(self)@
            }),
            !is_local((local_x as int, local_y as int)) ==> final(self)@ == (ChunkView {
                last_accessed: now as nat,
                ..old(self)@
            }),
            old(self)@.well_formed() ==> final(self)@.well_formed(),
    {
        self.last_accessed = now;
        if 0 <= local_x && local_x < CHUNK_SIZE && 0 <= local_y && local_y < CHUNK_SIZE {
            self.tiles.insert(local_x, local_y, tile);
        }
    }

    /// The place within its chunk of a world position: each coordinate
    /// modulo the chunk size, never negative.
    pub fn world_to_local(world_x: i32, world_y: i32) -> (local: (i32, i32))
        ensures
            local.0 == local_of(world_x as int),
            local.1 == local_of(world_y as int),
            is_local((local.0 as int, local.1 as int)),
    {
        (floor_chunk(world_x).1, floor_chunk(world_y).1)
    }
}

} // verus!
