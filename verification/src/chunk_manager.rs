//! The loaded part of the unbounded overworld: chunks are generated when
//! first needed and dropped when far from the player, stale, or too
//! many.

use crate::chunk::{
    chebyshev, chunk_of, is_local, local_of, Chunk, ChunkCoord, ChunkView, CHUNK_LOAD_RADIUS,
    CHUNK_SIZE, CHUNK_STALE_SECS, MAX_LOADED_CHUNKS,
};
use crate::grid::CoordMap;
use crate::map::block;
use crate::overworld::{generated_before, InfiniteTerrainGenerator, NoiseField};
use crate::tile::Tile;
use vstd::prelude::*;

verus! {

/// True when one of `chunks` is the chunk at `coord`.
pub open spec fn is_loaded(chunks: Seq<Chunk>, coord: (int, int)) -> bool {
    exists|i: int| 0 <= i < chunks.len() && (#[trigger] chunks[i]).coord@ == coord
}

/// The place in `chunks` of the chunk at `coord`.
pub open spec fn index_of(chunks: Seq<Chunk>, coord: (int, int)) -> int {
    choose|i: int| 0 <= i < chunks.len() && (#[trigger] chunks[i]).coord@ == coord
}

/// No two of `chunks` have the same coordinates.
pub open spec fn distinct(chunks: Seq<Chunk>) -> bool {
    forall|i: int, j: int|
        0 <= i < j < chunks.len() ==> (#[trigger] chunks[i]).coord@ != (#[trigger] chunks[j]).coord@
}

/// The chunks by their coordinates.
pub open spec fn loaded_map(chunks: Seq<Chunk>) -> Map<(int, int), ChunkView> {
    Map::new(|c: (int, int)| is_loaded(chunks, c), |c: (int, int)| chunks[index_of(chunks, c)]@)
}

/// In a list without repeated coordinates, each chunk is the one found
/// under its coordinates.
pub proof fn lemma_loaded_index(chunks: Seq<Chunk>, i: int)
    requires
        distinct(chunks),
        0 <= i < chunks.len(),
    ensures
        is_loaded(chunks, chunks[i].coord@),
        index_of(chunks, chunks[i].coord@) == i,
        loaded_map(chunks).contains_key(chunks[i].coord@),
        loaded_map(chunks)[chunks[i].coord@] == chunks[i]@,
{
    let j = index_of(chunks, chunks[i].coord@);
    assert(chunks[j].coord@ == chunks[i].coord@);
    if j < i {
        assert(chunks[j].coord@ != chunks[i].coord@);
    } else if i < j {
        assert(chunks[i].coord@ != chunks[j].coord@);
    }
}

/// Adding a chunk with new coordinates adds it to the map.
pub proof fn lemma_loaded_push(chunks: Seq<Chunk>, chunk: Chunk)
    requires
        distinct(chunks),
        !is_loaded(chunks, chunk.coord@),
    ensures
        distinct(chunks.push(chunk)),
        loaded_map(chunks.push(chunk)) == loaded_map(chunks).insert(chunk.coord@, chunk@),
{
    let after = chunks.push(chunk);
    assert forall|i: int, j: int| 0 <= i < j < after.len() implies (#[trigger] after[i]).coord@
        != (#[trigger] after[j]).coord@ by {
        if j == chunks.len() {
            assert(after[i] == chunks[i]);
        } else {
            assert(after[i] == chunks[i] && after[j] == chunks[j]);
        }
    }
    assert forall|c: (int, int)| is_loaded(after, c) <==> (is_loaded(chunks, c) || c
        == chunk.coord@) by {
        if is_loaded(after, c) {
            let i = choose|i: int| 0 <= i < after.len() && (#[trigger] after[i]).coord@ == c;
            if i < chunks.len() {
                assert(chunks[i].coord@ == c);
            }
        }
        if is_loaded(chunks, c) {
            let i = choose|i: int| 0 <= i < chunks.len() && (#[trigger] chunks[i]).coord@ == c;
            assert(after[i].coord@ == c);
        }
        if c == chunk.coord@ {
            assert(after[chunks.len() as int].coord@ == c);
        }
    }
    assert forall|c: (int, int)| is_loaded(after, c) implies loaded_map(after)[c] == loaded_map(
        chunks,
    ).insert(chunk.coord@, chunk@)[c] by {
        let i = index_of(after, c);
        lemma_loaded_index(after, i);
        if i < chunks.len() {
            assert(after[i] == chunks[i]);
            lemma_loaded_index(chunks, i);
        }
    }
    assert(loaded_map(after) =~= loaded_map(chunks).insert(chunk.coord@, chunk@));
}

/// Replacing a chunk by one with the same coordinates replaces it in the
/// map.
pub proof fn lemma_loaded_update(chunks: Seq<Chunk>, i: int, chunk: Chunk)
    requires
        distinct(chunks),
        0 <= i < chunks.len(),
        chunk.coord@ == chunks[i].coord@,
    ensures
        distinct(chunks.update(i, chunk)),
        loaded_map(chunks.update(i, chunk)) == loaded_map(chunks).insert(chunk.coord@, chunk@),
{
    let after = chunks.update(i, chunk);
    assert forall|a: int, b: int| 0 <= a < b < after.len() implies (#[trigger] after[a]).coord@
        != (#[trigger] after[b]).coord@ by {
        assert(after[a].coord@ == chunks[a].coord@);
        assert(after[b].coord@ == chunks[b].coord@);
    }
    assert forall|c: (int, int)| is_loaded(after, c) <==> is_loaded(chunks, c) by {
        if is_loaded(after, c) {
            let k = choose|k: int| 0 <= k < after.len() && (#[trigger] after[k]).coord@ == c;
            assert(chunks[k].coord@ == c);
        }
        if is_loaded(chunks, c) {
            let k = choose|k: int| 0 <= k < chunks.len() && (#[trigger] chunks[k]).coord@ == c;
            assert(after[k].coord@ == c);
        }
    }
    lemma_loaded_index(chunks, i);
    assert forall|c: (int, int)| is_loaded(after, c) implies loaded_map(after)[c] == loaded_map(
        chunks,
    ).insert(chunk.coord@, chunk@)[c] by {
        let k = index_of(after, c);
        lemma_loaded_index(after, k);
        if k != i {
            assert(after[k] == chunks[k]);
            lemma_loaded_index(chunks, k);
        }
    }
    assert(loaded_map(after) =~= loaded_map(chunks).insert(chunk.coord@, chunk@));
}

/// Taking a chunk out of the list takes it out of the map.
pub proof fn lemma_loaded_remove(chunks: Seq<Chunk>, i: int)
    requires
        distinct(chunks),
        0 <= i < chunks.len(),
    ensures
        distinct(chunks.remove(i)),
        loaded_map(chunks.remove(i)) == loaded_map(chunks).remove(chunks[i].coord@),
{
    let after = chunks.remove(i);
    let gone = chunks[i].coord@;
    assert forall|a: int| 0 <= a < after.len() implies #[trigger] after[a] == chunks[if a < i {
        a
    } else {
        a + 1
    }] by {}
    assert forall|a: int, b: int| 0 <= a < b < after.len() implies (#[trigger] after[a]).coord@
        != (#[trigger] after[b]).coord@ by {
        let a0 = if a < i {
            a
        } else {
            a + 1
        };
        let b0 = if b < i {
            b
        } else {
            b + 1
        };
        assert(after[a] == chunks[a0] && after[b] == chunks[b0]);
    }
    assert forall|c: (int, int)| is_loaded(after, c) <==> (is_loaded(chunks, c) && c != gone) by {
        if is_loaded(after, c) {
            let k = choose|k: int| 0 <= k < after.len() && (#[trigger] after[k]).coord@ == c;
            let k0 = if k < i {
                k
            } else {
                k + 1
            };
            assert(after[k] == chunks[k0]);
            assert(chunks[k0].coord@ == c);
            if k0 < i {
                assert(chunks[k0].coord@ != chunks[i].coord@);
            } else {
                assert(chunks[i].coord@ != chunks[k0].coord@);
            }
        }
        if is_loaded(chunks, c) && c != gone {
            let k = choose|k: int| 0 <= k < chunks.len() && (#[trigger] chunks[k]).coord@ == c;
            let k1 = if k < i {
                k
            } else {
                k - 1
            };
            assert(after[k1] == chunks[k]);
            assert(after[k1].coord@ == c);
        }
    }
    assert forall|c: (int, int)| is_loaded(after, c) implies loaded_map(after)[c] == loaded_map(
        chunks,
    ).remove(gone)[c] by {
        let k = index_of(after, c);
        lemma_loaded_index(after, k);
        let k0 = if k < i {
            k
        } else {
            k + 1
        };
        assert(after[k] == chunks[k0]);
        lemma_loaded_index(chunks, k0);
    }
    assert(loaded_map(after) =~= loaded_map(chunks).remove(gone));
}

/// A list without repeated coordinates has as many chunks as its map
/// has keys.
pub proof fn lemma_loaded_len(chunks: Seq<Chunk>)
    requires
        distinct(chunks),
    ensures
        loaded_map(chunks).dom().finite(),
        loaded_map(chunks).dom().len() == chunks.len(),
    decreases chunks.len(),
{
    if chunks.len() == 0 {
        assert(loaded_map(chunks).dom() =~= Set::<(int, int)>::empty());
    } else {
        let front = chunks.drop_last();
        let last = chunks.last();
        assert(chunks =~= front.push(last));
        assert(distinct(front)) by {
            assert forall|a: int, b: int| 0 <= a < b < front.len() implies (#[trigger] front[a]).coord@
                != (#[trigger] front[b]).coord@ by {
                assert(front[a] == chunks[a] && front[b] == chunks[b]);
            }
        }
        assert(!is_loaded(front, last.coord@)) by {
            if is_loaded(front, last.coord@) {
                let k = choose|k: int| 0 <= k < front.len() && (#[trigger] front[k]).coord@
                    == last.coord@;
                assert(front[k] == chunks[k]);
                assert(chunks[k].coord@ != chunks[chunks.len() - 1].coord@);
            }
        }
        lemma_loaded_len(front);
        lemma_loaded_push(front, last);
        assert(loaded_map(chunks).dom() =~= loaded_map(front).dom().insert(last.coord@));
    }
}

/// What a chunk manager is, as mathematical values.
pub struct ManagerView {
    pub chunks: Map<(int, int), ChunkView>,
    pub player_chunk: (int, int),
    pub seed: u32,
    /// The tiles of the world by position, as the generator makes them.
    pub world: spec_fn(int, int) -> Tile,
}

/// The chunk of a world position.
pub open spec fn chunk_at(p: (int, int)) -> (int, int) {
    (chunk_of(p.0), chunk_of(p.1))
}

/// The chunk at `c` holds one of the world positions `cells`.
pub open spec fn chunk_under(cells: Set<(int, int)>, c: (int, int)) -> bool {
    exists|p: (int, int)| cells.contains(p) && #[trigger] chunk_at(p) == c
}

/// One more position brings its chunk and no other.
pub proof fn lemma_chunk_under_insert(cells: Set<(int, int)>, p: (int, int), c: (int, int))
    ensures
        chunk_under(cells.insert(p), c) <==> chunk_under(cells, c) || c == chunk_at(p),
{
    if chunk_under(cells.insert(p), c) {
        let q = choose|q: (int, int)| cells.insert(p).contains(q) && #[trigger] chunk_at(q) == c;
        if q != p {
            assert(cells.contains(q) && chunk_at(q) == c);
        }
    }
    if chunk_under(cells, c) {
        let q = choose|q: (int, int)| cells.contains(q) && #[trigger] chunk_at(q) == c;
        assert(cells.insert(p).contains(q) && chunk_at(q) == c);
    }
    if c == chunk_at(p) {
        assert(cells.insert(p).contains(p) && chunk_at(p) == c);
    }
}

/// A chunk is ready: it is the generated chunk of the world of `seed` at
/// `coord`, with a tile at each of its places and nowhere else.
pub open spec fn ready(chunk: ChunkView, coord: (int, int), seed: u32) -> bool {
    &&& chunk.coord == coord
    &&& chunk.generated
    &&& chunk.well_formed()
    &&& complete(chunk)
    &&& chunk_of(i32::MIN as int) <= coord.0 <= chunk_of(i32::MAX as int)
    &&& chunk_of(i32::MIN as int) <= coord.1 <= chunk_of(i32::MAX as int)
}

/// Every place of the chunk has a tile.
pub open spec fn complete(chunk: ChunkView) -> bool {
    forall|p: (int, int)| is_local(p) ==> #[trigger] chunk.tiles.contains_key(p)
}

impl ManagerView {
    /// Every loaded chunk is ready.
    pub open spec fn well_formed(self) -> bool {
        forall|c: (int, int)| #[trigger]
            self.chunks.contains_key(c) ==> ready(self.chunks[c], c, self.seed)
    }

    /// The tile at a world position, if its chunk is loaded.
    pub open spec fn tile_at(self, world: (int, int)) -> Option<Tile> {
        let c = (chunk_of(world.0), chunk_of(world.1));
        if self.chunks.contains_key(c) {
            self.chunks[c].tile_at((local_of(world.0), local_of(world.1)))
        } else {
            None
        }
    }

    /// `later` has every chunk of `self`, with the same tiles; only the
    /// times of access may differ.
    pub open spec fn kept_in(self, later: ManagerView) -> bool {
        &&& later.player_chunk == self.player_chunk
        &&& later.seed == self.seed
        &&& later.world == self.world
        &&& forall|c: (int, int)| #[trigger]
            self.chunks.contains_key(c) ==> later.chunks.contains_key(c) && later.chunks[c].tiles
                == self.chunks[c].tiles && later.chunks[c].generated == self.chunks[c].generated
    }

    /// `later` and `result` are what reading the tile at `world` at the
    /// time `now` leaves and returns: the chunk of the position is loaded,
    /// no other chunk is added, none is dropped or changed, and the
    /// result is the tile of the position.
    pub open spec fn fetched(
        self,
        world: (int, int),
        now: nat,
        later: ManagerView,
        result: Option<Tile>,
    ) -> bool {
        let c = (chunk_of(world.0), chunk_of(world.1));
        &&& self.kept_in(later)
        &&& later.chunks.dom() == self.chunks.dom().insert(c)
        &&& later.well_formed()
        &&& later.chunks[c].last_accessed == now
        &&& !self.chunks.contains_key(c) ==> generated_before(
            later.chunks[c].tiles,
            self.world,
            c,
            CHUNK_SIZE as int,
            0,
        )
        &&& forall|k: (int, int)| #[trigger]
            self.chunks.contains_key(k) && k != c ==> later.chunks[k] == self.chunks[k]
        &&& result == later.tile_at(world)
        &&& result is Some
    }

    /// `later` is `self` after the tiles at the world positions `cells`
    /// were read: the chunks of the positions are loaded and no others
    /// are added, none is dropped, the chunks that were loaded hold the
    /// tiles they held, and each new chunk holds the tiles of the world.
    pub open spec fn read_over(self, cells: Set<(int, int)>, later: ManagerView) -> bool {
        &&& self.kept_in(later)
        &&& later.well_formed()
        &&& forall|c: (int, int)| #[trigger]
            later.chunks.contains_key(c) <==> self.chunks.contains_key(c) || chunk_under(cells, c)
        &&& forall|c: (int, int)| #[trigger]
            later.chunks.contains_key(c) && !self.chunks.contains_key(c) ==> generated_before(
                later.chunks[c].tiles,
                self.world,
                c,
                CHUNK_SIZE as int,
                0,
            )
    }

    /// The same manager with the player in another chunk.
    pub open spec fn moved_to(self, chunk: (int, int)) -> ManagerView {
        ManagerView { player_chunk: chunk, ..self }
    }

    /// The chunk at `c` holds world positions and is within the load
    /// radius of the player's chunk.
    pub open spec fn due(self, c: (int, int)) -> bool {
        &&& chebyshev(self.player_chunk, c) <= CHUNK_LOAD_RADIUS
        &&& chunk_of(i32::MIN as int) <= c.0 <= chunk_of(i32::MAX as int)
        &&& chunk_of(i32::MIN as int) <= c.1 <= chunk_of(i32::MAX as int)
    }

    /// `later` is `self` with the chunks around the player loaded at the
    /// time `now`: those that were loaded are as before, the others are
    /// new.
    pub open spec fn surrounded(self, now: nat, later: ManagerView) -> bool {
        &&& later.player_chunk == self.player_chunk
        &&& later.seed == self.seed
        &&& later.world == self.world
        &&& later.well_formed()
        &&& forall|c: (int, int)| #[trigger]
            later.chunks.contains_key(c) <==> self.chunks.contains_key(c) || self.due(c)
        &&& forall|c: (int, int)| #[trigger]
            self.chunks.contains_key(c) ==> later.chunks[c] == self.chunks[c]
        &&& forall|c: (int, int)| #[trigger]
            later.chunks.contains_key(c) && !self.chunks.contains_key(c)
                ==> later.chunks[c].last_accessed == now && generated_before(
                later.chunks[c].tiles,
                self.world,
                c,
                CHUNK_SIZE as int,
                0,
            )
    }

    /// The chunk at `c` is dropped at the time `now` whatever the number
    /// of chunks: it is more than one beyond the load radius from the
    /// player's chunk, or was not accessed for `CHUNK_STALE_SECS`.
    pub open spec fn expired(self, c: (int, int), now: nat) -> bool {
        chebyshev(self.player_chunk, c) > CHUNK_LOAD_RADIUS + 1 || now
            - self.chunks[c].last_accessed > CHUNK_STALE_SECS
    }

    /// `later` is `self` after the chunks that are far or stale at the
    /// time `now` are dropped, and then, as long as more than
    /// `MAX_LOADED_CHUNKS` are left, one that was accessed no later than
    /// any other. The chunks that stay are unchanged.
    pub open spec fn trimmed(self, now: nat, later: ManagerView) -> bool {
        &&& later.player_chunk == self.player_chunk
        &&& later.seed == self.seed
        &&& later.world == self.world
        &&& forall|c: (int, int)| #[trigger]
            later.chunks.contains_key(c) ==> self.chunks.contains_key(c) && !self.expired(c, now)
                && later.chunks[c] == self.chunks[c]
        &&& forall|c: (int, int), k: (int, int)|
            self.chunks.contains_key(c) && !self.expired(c, now) && !#[trigger] later.chunks.contains_key(
                c,
            ) && #[trigger] later.chunks.contains_key(k) ==> self.chunks[c].last_accessed
                <= later.chunks[k].last_accessed
        &&& later.chunks.dom().finite()
        &&& later.chunks.dom().len() <= MAX_LOADED_CHUNKS
        &&& (exists|c: (int, int)|
            self.chunks.contains_key(c) && !self.expired(c, now) && !#[trigger] later.chunks.contains_key(
                c,
            )) ==> later.chunks.dom().len() == MAX_LOADED_CHUNKS
    }
}

/// Reading the same tile twice, with nothing else done in between, gives
/// the same tile both times, the second read loads and changes no tiles,
/// and the chunk stays generated.
pub proof fn lemma_fetch_is_idempotent(
    s0: ManagerView,
    s1: ManagerView,
    s2: ManagerView,
    world: (int, int),
    t1: nat,
    t2: nat,
    r1: Option<Tile>,
    r2: Option<Tile>,
)
    requires
        s0.fetched(world, t1, s1, r1),
        s1.fetched(world, t2, s2, r2),
    ensures
        r1 == r2,
        s2.chunks.dom() == s1.chunks.dom(),
        forall|c: (int, int)| #[trigger]
            s1.chunks.contains_key(c) ==> s2.chunks[c].tiles == s1.chunks[c].tiles,
        forall|c: (int, int)| #[trigger]
            s1.chunks.contains_key(c) ==> s1.chunks[c].generated && s2.chunks[c].generated,
{
    let c = (chunk_of(world.0), chunk_of(world.1));
    assert(s1.chunks.contains_key(c));
    assert(s2.chunks.dom() =~= s1.chunks.dom());
    assert forall|k: (int, int)| #[trigger] s1.chunks.contains_key(k) implies s1.chunks[k].generated
        && s2.chunks[k].generated by {
        assert(s2.chunks.contains_key(k));
    }
}

/// The loaded chunks of an unbounded world, the generator of its tiles
/// and the chunk the player is in.
pub struct ChunkManager<N: NoiseField> {
    pub chunks: Vec<Chunk>,
    pub terrain_generator: InfiniteTerrainGenerator<N>,
    pub player_chunk: ChunkCoord,
}

impl<N: NoiseField> View for ChunkManager<N> {
    type V = ManagerView;

    open spec fn view(&self) -> ManagerView {
        ManagerView {
            chunks: loaded_map(self.chunks@),
            player_chunk: self.player_chunk@,
            seed: self.terrain_generator.seed,
            world: self.terrain_generator.world(),
        }
    }
}

impl<N: NoiseField> ChunkManager<N> {
    /// No chunk is loaded twice, and every loaded chunk is ready.
    pub open spec fn well_formed(&self) -> bool {
        distinct(self.chunks@) && self@.well_formed()
    }

    /// A manager of the world of `seed` with no chunk loaded and the
    /// player in the chunk at the origin.
    pub fn new(seed: u32) -> (manager: Self)
        ensures
            manager.well_formed(),
            manager@.chunks == Map::<(int, int), ChunkView>::empty(),
            manager@.player_chunk == (0int, 0int),
            manager@.seed == seed,
            manager.terrain_generator == InfiniteTerrainGenerator::<N>::seeded(seed),
    {
        let manager = ChunkManager {
            chunks: Vec::new(),
            terrain_generator: InfiniteTerrainGenerator::new(seed),
            player_chunk: ChunkCoord::new(0, 0),
        };
        assert(manager@.chunks =~= Map::<(int, int), ChunkView>::empty());
        manager
    }

    /// The place in the list of the chunk at `coord`, if it is loaded.
    pub fn find_chunk(&self, coord: ChunkCoord) -> (found: Option<usize>)
        ensures
            match found {
                Some(i) => i < self.chunks@.len() && self.chunks@[i as int].coord == coord,
                None => !is_loaded(self.chunks@, coord@),
            },
    {
        let mut i: usize = 0;
        while i < self.chunks.len()
            invariant
                i <= self.chunks@.len(),
                forall|j: int| 0 <= j < i ==> (#[trigger] self.chunks@[j]).coord@ != coord@,
            decreases self.chunks.len() - i,
        {
            if self.chunks[i].coord.x == coord.x && self.chunks[i].coord.y == coord.y {
                return Some(i);
            }
            i = i + 1;
        }
        None
    }

    /// The loaded chunks.
    pub fn get_loaded_chunks(&self) -> (chunks: &Vec<Chunk>)
        ensures
            chunks == self.chunks,
    {
        &self.chunks
    }

    /// Loads and generates the chunk at `coord`, unless it is loaded.
    pub fn ensure_chunk_loaded(&mut self, coord: ChunkCoord, now: u64) -> (at: usize)
        requires
            old(self).well_formed(),
            coord.in_world(),
        ensures
            final(self).well_formed(),
            old(self)@.kept_in(final(self)@),
            final(self)@.chunks.dom() == old(self)@.chunks.dom().insert(coord@),
            old(self)@.chunks.contains_key(coord@) ==> final(self)@ == old(self)@,
            !old(self)@.chunks.contains_key(coord@) ==> final(self)@.chunks == old(self)@.chunks.insert(
                coord@,
                final(self)@.chunks[coord@],
            ) && final(self)@.chunks[coord@].last_accessed == now && generated_before(
                final(self)@.chunks[coord@].tiles,
                old(self)@.world,
                coord@,
                CHUNK_SIZE as int,
                0,
            ),
            at < final(self).chunks@.len(),
            final(self).chunks@[at as int].coord == coord,
    {
        match self.find_chunk(coord) {
            Some(i) => {
                proof {
                    lemma_loaded_index(self.chunks@, i as int);
                    assert(self@.chunks.dom().insert(coord@) =~= self@.chunks.dom());
                }
                i
            },
            None => {
                let mut chunk = Chunk::new(coord, now);
                chunk.generate(&self.terrain_generator, now);
                proof {
                    lemma_loaded_push(self.chunks@, chunk);
                }
                self.chunks.push(chunk);
                proof {
                    lemma_loaded_index(self.chunks@, self.chunks@.len() - 1);
                    assert(self@.chunks.dom() =~= old(self)@.chunks.dom().insert(coord@));
                }
                self.chunks.len() - 1
            },
        }
    }

    /// The tile at a world position. The chunk of the position is
    /// generated first if it is not loaded; a loaded chunk is never
    /// generated again.
    pub fn get_tile(&mut self, world_x: i32, world_y: i32, now: u64) -> (tile: Option<Tile>)
        requires
            old(self).well_formed(),
        ensures
            final(self).well_formed(),
            old(self)@.fetched((world_x as int, world_y as int), now as nat, final(self)@, tile),
    {
        let coord = ChunkCoord::from_world_pos(world_x, world_y);
        let (local_x, local_y) = Chunk::world_to_local(world_x, world_y);
        let i = self.ensure_chunk_loaded(coord, now);
        let ghost mid = self.chunks@;
        let ghost mid_view = self@;
        proof {
            lemma_loaded_index(mid, i as int);
        }
        let tile = self.chunks[i].get_tile(local_x, local_y, now);
        proof {
            assert(self.chunks@ =~= mid.update(i as int, self.chunks@[i as int]));
            lemma_loaded_update(mid, i as int, self.chunks@[i as int]);
            lemma_loaded_index(self.chunks@, i as int);
            assert(self@.chunks.dom() =~= mid_view.chunks.dom());
            assert(self@.well_formed()) by {
                assert forall|c: (int, int)| #[trigger] self@.chunks.contains_key(c) implies ready(
                    self@.chunks[c],
                    c,
                    self@.seed,
                ) by {
                    assert(mid_view.chunks.contains_key(c));
                }
            }
        }
        tile
    }

    /// Sets the tile at a world position; the chunk of the position is
    /// generated first if it is not loaded, and then holds the tiles of
    /// the world at its other places.
    pub fn set_tile(&mut self, world_x: i32, world_y: i32, tile: Tile, now: u64)
        requires
            old(self).well_formed(),
        ensures
            final(self).well_formed(),
            final(self)@.tile_at((world_x as int, world_y as int)) == Some(tile),
            final(self)@.chunks.dom() == old(self)@.chunks.dom().insert(
                (chunk_of(world_x as int), chunk_of(world_y as int)),
            ),
            forall|k: (int, int)| #[trigger]
                old(self)@.chunks.contains_key(k) && k != (
                    chunk_of(world_x as int),
                    chunk_of(world_y as int),
                ) ==> final(self)@.chunks[k] == old(self)@.chunks[k],
            forall|p: (int, int)|
                p != (local_of(world_x as int), local_of(world_y as int)) && old(
                    self,
                )@.chunks.contains_key((chunk_of(world_x as int), chunk_of(world_y as int)))
                    ==> #[trigger] final(self)@.chunks[(
                    chunk_of(world_x as int),
                    chunk_of(world_y as int),
                )].tile_at(p) == old(self)@.chunks[(
                    chunk_of(world_x as int),
                    chunk_of(world_y as int),
                )].tile_at(p),
            forall|p: (int, int)|
                is_local(p) && p != (local_of(world_x as int), local_of(world_y as int)) && !old(
                    self,
                )@.chunks.contains_key((chunk_of(world_x as int), chunk_of(world_y as int)))
                    ==> #[trigger] final(self)@.chunks[(
                    chunk_of(world_x as int),
                    chunk_of(world_y as int),
                )].tile_at(p) == Some(
                    (old(self)@.world)(
                        chunk_of(world_x as int) * CHUNK_SIZE + p.0,
                        chunk_of(world_y as int) * CHUNK_SIZE + p.1,
                    ),
                ),
            final(self)@.world == old(self)@.world,
            final(self)@.seed == old(self)@.seed,
            final(self)@.player_chunk == old(self)@.player_chunk,
    {
        let coord = ChunkCoord::from_world_pos(world_x, world_y);
        let (local_x, local_y) = Chunk::world_to_local(world_x, world_y);
        let i = self.ensure_chunk_loaded(coord, now);
        let ghost mid = self.chunks@;
        let ghost mid_view = self@;
        proof {
            lemma_loaded_index(mid, i as int);
        }
        self.chunks[i].set_tile(local_x, local_y, tile, now);
        proof {
            assert(self.chunks@ =~= mid.update(i as int, self.chunks@[i as int]));
            lemma_loaded_update(mid, i as int, self.chunks@[i as int]);
            lemma_loaded_index(self.chunks@, i as int);
            assert(self@.chunks.dom() =~= mid_view.chunks.dom());
            assert(self@.well_formed()) by {
                assert forall|c: (int, int)| #[trigger] self@.chunks.contains_key(c) implies ready(
                    self@.chunks[c],
                    c,
                    self@.seed,
                ) by {
                    assert(mid_view.chunks.contains_key(c));
                }
            }
        }
    }

    /// Loads the chunks within the load radius of the player's chunk.
    pub fn load_chunks_around_player(&mut self, now: u64)
        requires
            old(self).well_formed(),
        ensures
            final(self).well_formed(),
            old(self)@.surrounded(now as nat, final(self)@),
    {
        let around = self.player_chunk.neighbors_within_radius(CHUNK_LOAD_RADIUS);
        let ghost start = self@;
        let mut i: usize = 0;
        while i < around.len()
            invariant
                i <= around@.len(),
                self.well_formed(),
                self@.player_chunk == start.player_chunk,
                self@.seed == start.seed,
                self@.world == start.world,
                start == old(self)@,
                forall|c: ChunkCoord| #[trigger]
                    around@.contains(c) <==> chebyshev(start.player_chunk, c@) <= CHUNK_LOAD_RADIUS,
                forall|c: (int, int)| #[trigger]
                    self@.chunks.contains_key(c) <==> start.chunks.contains_key(c) || (start.due(c)
                        && exists|j: int| 0 <= j < i && (#[trigger] around@[j])@ == c),
                forall|c: (int, int)| #[trigger]
                    start.chunks.contains_key(c) ==> self@.chunks[c] == start.chunks[c],
                forall|c: (int, int)| #[trigger]
                    self@.chunks.contains_key(c) && !start.chunks.contains_key(c)
                        ==> self@.chunks[c].last_accessed == now && generated_before(
                        self@.chunks[c].tiles,
                        start.world,
                        c,
                        CHUNK_SIZE as int,
                        0,
                    ),
            decreases around.len() - i,
        {
            let coord = around[i];
            let ghost before = self@;
            assert(around@.contains(coord));
            if coord.x >= -0x400_0000 && coord.x <= 0x3FF_FFFF && coord.y >= -0x400_0000 && coord.y
                <= 0x3FF_FFFF {
                self.ensure_chunk_loaded(coord, now);
            }
            i = i + 1;
            proof {
                assert forall|c: (int, int)| #[trigger]
                    self@.chunks.contains_key(c) <==> start.chunks.contains_key(c) || (start.due(c)
                        && exists|j: int| 0 <= j < i && (#[trigger] around@[j])@ == c) by {
                    if start.due(c) && exists|j: int| 0 <= j < i && (#[trigger] around@[j])@ == c {
                        let j = choose|j: int| 0 <= j < i && (#[trigger] around@[j])@ == c;
                        if j < i - 1 {
                            assert(before.chunks.contains_key(c));
                        }
                    }
                    if self@.chunks.contains_key(c) && !before.chunks.contains_key(c) {
                        assert(c == coord@);
                        assert(around@[i - 1]@ == c);
                    }
                    if before.chunks.contains_key(c) && !start.chunks.contains_key(c) {
                        let j = choose|j: int| 0 <= j < i - 1 && (#[trigger] around@[j])@ == c;
                        assert(0 <= j < i && around@[j]@ == c);
                    }
                }
            }
        }
        proof {
            assert forall|c: (int, int)| #[trigger]
                self@.chunks.contains_key(c) <==> start.chunks.contains_key(c) || start.due(c) by {
                if start.due(c) {
                    let coord = ChunkCoord { x: c.0 as i32, y: c.1 as i32 };
                    assert(coord@ == c);
                    assert(around@.contains(coord));
                    let j = choose|j: int| 0 <= j < around@.len() && around@[j] == coord;
                    assert(around@[j]@ == c);
                }
            }
        }
    }

    /// The place of a chunk that was accessed no later than any other.
    fn oldest_chunk(&self) -> (at: usize)
        requires
            self.chunks@.len() > 0,
        ensures
            at < self.chunks@.len(),
            forall|j: int|
                0 <= j < self.chunks@.len() ==> self.chunks@[at as int].last_accessed <= (
                #[trigger] self.chunks@[j]).last_accessed,
    {
        let mut at: usize = 0;
        let mut i: usize = 1;
        while i < self.chunks.len()
            invariant
                1 <= i <= self.chunks@.len(),
                at < i,
                forall|j: int|
                    0 <= j < i ==> self.chunks@[at as int].last_accessed <= (
                    #[trigger] self.chunks@[j]).last_accessed,
            decreases self.chunks.len() - i,
        {
            if self.chunks[i].last_accessed < self.chunks[at].last_accessed {
                at = i;
            }
            i = i + 1;
        }
        at
    }

    /// Drops the chunks that are far from the player or stale, and then
    /// the oldest ones while more than `MAX_LOADED_CHUNKS` are left.
    pub fn unload_distant_chunks(&mut self, now: u64)
        requires
            old(self).well_formed(),
        ensures
            final(self).well_formed(),
            old(self)@.trimmed(now as nat, final(self)@),
            final(self).chunks@.len() <= MAX_LOADED_CHUNKS,
    {
        let ghost start = self@;
        let mut i: usize = 0;
        while i < self.chunks.len()
            invariant
                i <= self.chunks@.len(),
                self.well_formed(),
                self@.player_chunk == start.player_chunk,
                self@.seed == start.seed,
                self@.world == start.world,
                start == old(self)@,
                start.well_formed(),
                forall|c: (int, int)| #[trigger]
                    self@.chunks.contains_key(c) ==> start.chunks.contains_key(c) && self@.chunks[c]
                        == start.chunks[c],
                forall|c: (int, int)| #[trigger]
                    start.chunks.contains_key(c) && !start.expired(c, now as nat)
                        ==> self@.chunks.contains_key(c),
                forall|j: int|
                    0 <= j < i ==> !start.expired((#[trigger] self.chunks@[j]).coord@, now as nat),
            decreases self.chunks.len() - i,
        {
            let ghost list = self.chunks@;
            let ghost before = self@;
            proof {
                lemma_loaded_index(list, i as int);
            }
            let distance = self.player_chunk.distance_to(&self.chunks[i].coord);
            let last = self.chunks[i].last_accessed;
            let stale = now > last && now - last > CHUNK_STALE_SECS;
            if distance > CHUNK_LOAD_RADIUS + 1 || stale {
                proof {
                    lemma_loaded_remove(list, i as int);
                }
                self.chunks.remove(i);
                proof {
                    assert(self@.well_formed()) by {
                        assert forall|c: (int, int)| #[trigger]
                            self@.chunks.contains_key(c) implies ready(
                            self@.chunks[c],
                            c,
                            self@.seed,
                        ) by {
                            assert(before.chunks.contains_key(c));
                        }
                    }
                    assert forall|j: int| 0 <= j < i implies !start.expired(
                        (#[trigger] self.chunks@[j]).coord@,
                        now as nat,
                    ) by {
                        assert(self.chunks@[j] == list[j]);
                    }
                    assert forall|c: (int, int)| #[trigger]
                        self@.chunks.contains_key(c) implies start.chunks.contains_key(c)
                        && self@.chunks[c] == start.chunks[c] by {
                        assert(before.chunks.contains_key(c));
                    }
                    assert forall|c: (int, int)| #[trigger]
                        start.chunks.contains_key(c) && !start.expired(
                            c,
                            now as nat,
                        ) implies self@.chunks.contains_key(c) by {
                        assert(before.chunks.contains_key(c));
                        assert(before.chunks[c] == start.chunks[c]);
                    }
                }
            } else {
                proof {
                    let c = list[i as int].coord@;
                    assert(before.chunks.contains_key(c));
                    assert(before.chunks[c] == start.chunks[c]);
                    assert(before.chunks[c] == list[i as int]@);
                    assert(start.chunks[c].last_accessed == last);
                    assert(distance > CHUNK_LOAD_RADIUS + 1 <==> chebyshev(
                        start.player_chunk,
                        c,
                    ) > CHUNK_LOAD_RADIUS + 1);
                    assert(!start.expired(c, now as nat));
                }
                i = i + 1;
            }
        }
        let ghost survivors = self@;
        let ghost mut dropped_any = false;
        proof {
            assert forall|c: (int, int)| #[trigger]
                survivors.chunks.contains_key(c) implies !start.expired(c, now as nat) by {
                let j = index_of(self.chunks@, c);
                lemma_loaded_index(self.chunks@, j);
            }
        }
        while self.chunks.len() > MAX_LOADED_CHUNKS
            invariant
                self.well_formed(),
                self@.player_chunk == start.player_chunk,
                self@.seed == start.seed,
                self@.world == start.world,
                forall|c: (int, int)| #[trigger]
                    self@.chunks.contains_key(c) ==> survivors.chunks.contains_key(c)
                        && self@.chunks[c] == survivors.chunks[c],
                forall|c: (int, int), k: (int, int)|
                    survivors.chunks.contains_key(c) && !#[trigger] self@.chunks.contains_key(c)
                        && #[trigger] self@.chunks.contains_key(k)
                        ==> survivors.chunks[c].last_accessed <= self@.chunks[k].last_accessed,
                dropped_any ==> self.chunks@.len() >= MAX_LOADED_CHUNKS,
                !dropped_any ==> self@ == survivors,
            decreases self.chunks@.len(),
        {
            let ghost list = self.chunks@;
            let ghost before = self@;
            let at = self.oldest_chunk();
            proof {
                lemma_loaded_index(list, at as int);
                lemma_loaded_remove(list, at as int);
                assert forall|k: (int, int)| #[trigger]
                    before.chunks.contains_key(k) implies list[at as int].last_accessed
                    <= before.chunks[k].last_accessed by {
                    let j = index_of(list, k);
                    lemma_loaded_index(list, j);
                }
            }
            self.chunks.remove(at);
            proof {
                dropped_any = true;
                assert forall|c: (int, int)| #[trigger]
                    self@.chunks.contains_key(c) implies survivors.chunks.contains_key(c)
                    && self@.chunks[c] == survivors.chunks[c] by {
                    assert(before.chunks.contains_key(c));
                }
                assert(self@.well_formed()) by {
                    assert forall|c: (int, int)| #[trigger] self@.chunks.contains_key(c) implies ready(
                        self@.chunks[c],
                        c,
                        self@.seed,
                    ) by {
                        assert(before.chunks.contains_key(c));
                    }
                }
                assert forall|c: (int, int), k: (int, int)|
                    survivors.chunks.contains_key(c) && !#[trigger] self@.chunks.contains_key(c)
                        && #[trigger] self@.chunks.contains_key(k) implies survivors.chunks[c].last_accessed
                    <= self@.chunks[k].last_accessed by {
                    assert(before.chunks.contains_key(k));
                    if before.chunks.contains_key(c) {
                        assert(c == list[at as int].coord@);
                    }
                }
            }
        }
        proof {
            lemma_loaded_len(self.chunks@);
            let later = self@;
            assert forall|c: (int, int), k: (int, int)|
                start.chunks.contains_key(c) && !start.expired(c, now as nat) && !#[trigger] later.chunks.contains_key(
                    c,
                ) && #[trigger] later.chunks.contains_key(k) implies start.chunks[c].last_accessed
                <= later.chunks[k].last_accessed by {
                assert(survivors.chunks.contains_key(c));
            }
            if exists|c: (int, int)|
                start.chunks.contains_key(c) && !start.expired(c, now as nat) && !#[trigger] later.chunks.contains_key(
                    c,
                ) {
                let c = choose|c: (int, int)|
                    start.chunks.contains_key(c) && !start.expired(c, now as nat) && !#[trigger] later.chunks.contains_key(
                        c,
                    );
                assert(survivors.chunks.contains_key(c));
                assert(dropped_any);
            }
        }
    }

    /// Follows the player to a world position. When that takes the
    /// player into another chunk, the chunks around it are loaded and
    /// those that are far, stale or too many are dropped.
    pub fn update_player_position(&mut self, player_x: i32, player_y: i32, now: u64)
        requires
            old(self).well_formed(),
        ensures
            final(self).well_formed(),
            final(self)@.player_chunk == (chunk_of(player_x as int), chunk_of(player_y as int)),
            final(self)@.player_chunk == old(self)@.player_chunk ==> final(self)@ == old(self)@,
            final(self)@.player_chunk != old(self)@.player_chunk ==> exists|mid: ManagerView|
                #![trigger mid.trimmed(now as nat, final(self)@)]
                old(self)@.moved_to(final(self)@.player_chunk).surrounded(now as nat, mid)
                    && mid.trimmed(now as nat, final(self)@),
    {
        let coord = ChunkCoord::from_world_pos(player_x, player_y);
        if coord.x != self.player_chunk.x || coord.y != self.player_chunk.y {
            self.player_chunk = coord;
            assert(self@ == old(self)@.moved_to(coord@));
            self.load_chunks_around_player(now);
            let ghost mid = self@;
            self.unload_distant_chunks(now);
            assert(mid.trimmed(now as nat, self@));
        }
    }

    /// The tiles of the world positions from `(min_x, min_y)` to
    /// `(max_x, max_y)`, both included; their chunks are loaded as
    /// needed.
    pub fn get_tiles_in_area(&mut self, min_x: i32, min_y: i32, max_x: i32, max_y: i32, now: u64) -> (tiles:
        CoordMap<Tile>)
        requires
            old(self).well_formed(),
        ensures
            final(self).well_formed(),
            old(self)@.kept_in(final(self)@),
            old(self)@.read_over(
                block(min_x as int, max_x + 1, min_y as int, max_y + 1),
                final(self)@,
            ),
            tiles@.dom() == block(min_x as int, max_x + 1, min_y as int, max_y + 1),
            forall|p: (int, int)| #[trigger]
                tiles@.contains_key(p) ==> final(self)@.tile_at(p) == Some(tiles@[p]),
    {
        let mut tiles: CoordMap<Tile> = CoordMap::new();
        let mut x: i64 = min_x as i64;
        assert(tiles@.dom() =~= block(min_x as int, x as int, min_y as int, max_y + 1));
        assert(old(self)@.read_over(tiles@.dom(), self@));
        while x <= max_x as i64
            invariant
                min_x <= x,
                x <= max_x + 1 || (max_x < min_x && x == min_x),
                self.well_formed(),
                old(self)@.kept_in(self@),
                old(self)@.read_over(tiles@.dom(), self@),
                tiles@.dom() == block(min_x as int, x as int, min_y as int, max_y + 1),
                forall|p: (int, int)| #[trigger]
                    tiles@.contains_key(p) ==> self@.tile_at(p) == Some(tiles@[p]),
            decreases max_x + 1 - x,
        {
            let ghost column_start = tiles@;
            let mut y: i64 = min_y as i64;
            while y <= max_y as i64
                invariant
                    min_x <= x <= max_x,
                    min_y <= y,
                    y <= max_y + 1 || (max_y < min_y && y == min_y),
                    self.well_formed(),
                    old(self)@.kept_in(self@),
                    old(self)@.read_over(tiles@.dom(), self@),
                    tiles@.dom() == block(min_x as int, x as int, min_y as int, max_y + 1).union(
                        block(x as int, x + 1, min_y as int, y as int),
                    ),
                    forall|p: (int, int)| #[trigger]
                        tiles@.contains_key(p) ==> self@.tile_at(p) == Some(tiles@[p]),
                decreases max_y + 1 - y,
            {
                let ghost before = self@;
                let ghost had = tiles@;
                let found = self.get_tile(x as i32, y as i32, now);
                if let Some(tile) = found {
                    tiles.insert(x as i32, y as i32, tile);
                }
                proof {
                    let here = (x as int, y as int);
                    assert(tiles@.dom() =~= had.dom().insert(here));
                    assert forall|c: (int, int)| #[trigger]
                        self@.chunks.contains_key(c) <==> old(self)@.chunks.contains_key(c)
                            || chunk_under(tiles@.dom(), c) by {
                        lemma_chunk_under_insert(had.dom(), here, c);
                        assert(before.chunks.contains_key(c) <==> old(self)@.chunks.contains_key(c)
                            || chunk_under(had.dom(), c));
                    }
                    assert forall|c: (int, int)| #[trigger]
                        self@.chunks.contains_key(c) && !old(self)@.chunks.contains_key(
                            c,
                        ) implies generated_before(
                        self@.chunks[c].tiles,
                        old(self)@.world,
                        c,
                        CHUNK_SIZE as int,
                        0,
                    ) by {
                        if before.chunks.contains_key(c) {
                            assert(self@.chunks[c].tiles == before.chunks[c].tiles);
                        }
                    }
                    assert forall|p: (int, int)| #[trigger] tiles@.contains_key(p) implies self@.tile_at(
                        p,
                    ) == Some(tiles@[p]) by {
                        if p != (x as int, y as int) {
                            assert(had.contains_key(p));
                            let c = (chunk_of(p.0), chunk_of(p.1));
                            assert(before.chunks.contains_key(c));
                        }
                    }
                    assert(tiles@.dom() =~= block(
                        min_x as int,
                        x as int,
                        min_y as int,
                        max_y + 1,
                    ).union(block(x as int, x + 1, min_y as int, y + 1)));
                }
                y = y + 1;
            }
            x = x + 1;
            assert(tiles@.dom() =~= block(min_x as int, x as int, min_y as int, max_y + 1));
        }
        assert(tiles@.dom() =~= block(min_x as int, max_x + 1, min_y as int, max_y + 1));
        tiles
    }
}

} // verus!
