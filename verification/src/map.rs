//! The level map: a sparse grid of tiles with its rooms.

use crate::grid::CoordMap;
use crate::tile::{Room, Tile};
use std::collections::HashMap;
use vstd::prelude::*;
use vstd::std_specs::hash::*;

verus! {

broadcast use vstd::std_specs::hash::group_hash_axioms;

/// True of the cells of a `width` by `height` map.
pub open spec fn in_bounds(p: (int, int), width: int, height: int) -> bool {
    0 <= p.0 < width && 0 <= p.1 < height
}

/// True of the cells of a map that are not on its one-cell border.
pub open spec fn interior(p: (int, int), width: int, height: int) -> bool {
    0 < p.0 < width - 1 && 0 < p.1 < height - 1
}

/// The cells `(x, y)` with `x0 <= x < x1` and `y0 <= y < y1`.
pub open spec fn block(x0: int, x1: int, y0: int, y1: int) -> Set<(int, int)> {
    Set::new(|p: (int, int)| x0 <= p.0 < x1 && y0 <= p.1 < y1)
}

/// `base` with every cell of `region` set to `value`.
pub open spec fn painted<V>(base: Map<(int, int), V>, region: Set<(int, int)>, value: V) -> Map<
    (int, int),
    V,
> {
    Map::new(
        |p: (int, int)| base.contains_key(p) || region.contains(p),
        |p: (int, int)|
            if region.contains(p) {
                value
            } else {
                base[p]
            },
    )
}

/// Sets every cell of the block to `value`.
pub fn paint_block<V: Copy>(cells: &mut CoordMap<V>, x0: i32, x1: i32, y0: i32, y1: i32, value: V)
    ensures
        final(cells)@ == painted(old(cells)@, block(x0 as int, x1 as int, y0 as int, y1 as int), value),
{
    let ghost base = cells@;
    let mut x: i32 = x0;
    while x < x1
        invariant
            x0 <= x,
            x <= x1 || (x1 < x0 && x == x0),
            cells@ == painted(base, block(x0 as int, x as int, y0 as int, y1 as int), value),
        decreases x1 - x,
    {
        let ghost rows = cells@;
        let mut y: i32 = y0;
        while y < y1
            invariant
                x0 <= x < x1,
                y0 <= y,
                y <= y1 || (y1 < y0 && y == y0),
                rows == painted(base, block(x0 as int, x as int, y0 as int, y1 as int), value),
                cells@ == painted(rows, block(x as int, x + 1, y0 as int, y as int), value),
            decreases y1 - y,
        {
            cells.insert(x, y, value);
            y = y + 1;
            assert(cells@ =~= painted(rows, block(x as int, x + 1, y0 as int, y as int), value));
        }
        proof {
            let column = block(x as int, x + 1, y0 as int, y as int);
            let before = block(x0 as int, x as int, y0 as int, y1 as int);
            let after = block(x0 as int, x + 1, y0 as int, y1 as int);
            assert forall|p: (int, int)| after.contains(p) == (before.contains(p)
                || column.contains(p)) by {}
            assert(cells@ =~= painted(base, after, value));
        }
        x = x + 1;
    }
    proof {
        let done = block(x0 as int, x as int, y0 as int, y1 as int);
        let all = block(x0 as int, x1 as int, y0 as int, y1 as int);
        assert forall|p: (int, int)| done.contains(p) == all.contains(p) by {}
        assert(cells@ =~= painted(base, all, value));
    }
}

/// What a map is, as mathematical values.
#[verifier::ext_equal]
pub struct GameMapView {
    pub width: int,
    pub height: int,
    pub tiles: Map<(int, int), Tile>,
    pub rooms: Seq<Room>,
    pub room_positions: Map<(int, int), u32>,
    pub visible_tiles: Map<(int, int), bool>,
    pub explored_tiles: Map<(int, int), bool>,
    pub illuminated_areas: Map<u32, bool>,
}

/// A level: tiles by cell, the rooms, and for each cell of a room the id
/// of that room. A cell without a tile is void.
pub struct GameMap {
    pub width: i32,
    pub height: i32,
    pub tiles: CoordMap<Tile>,
    pub rooms: Vec<Room>,
    pub room_positions: CoordMap<u32>,
    pub visible_tiles: CoordMap<bool>,
    pub explored_tiles: CoordMap<bool>,
    pub illuminated_areas: HashMap<u32, bool>,
}

impl View for GameMap {
    type V = GameMapView;

    open spec fn view(&self) -> GameMapView {
        GameMapView {
            width: self.width as int,
            height: self.height as int,
            tiles: self.tiles@,
            rooms: self.rooms@,
            room_positions: self.room_positions@,
            visible_tiles: self.visible_tiles@,
            explored_tiles: self.explored_tiles@,
            illuminated_areas: self.illuminated_areas@,
        }
    }
}

impl GameMapView {
    /// Every tile lies within the declared bounds, and only cells with a
    /// tile belong to a room.
    pub open spec fn well_formed(self) -> bool {
        &&& forall|p: (int, int)| #[trigger]
            self.tiles.contains_key(p) ==> in_bounds(p, self.width, self.height)
        &&& forall|p: (int, int)| #[trigger]
            self.room_positions.contains_key(p) ==> self.tiles.contains_key(p)
    }

    /// The map with other tiles.
    pub open spec fn with_tiles(self, tiles: Map<(int, int), Tile>) -> GameMapView {
        GameMapView { tiles, ..self }
    }

    /// True when the cell `p` holds `tile`.
    pub open spec fn holds(self, p: (int, int), tile: Tile) -> bool {
        self.tiles.contains_key(p) && self.tiles[p] == tile
    }

    /// The tile at `p`, if the cell is not void.
    pub open spec fn tile_at(self, p: (int, int)) -> Option<Tile> {
        if self.tiles.contains_key(p) {
            Some(self.tiles[p])
        } else {
            None
        }
    }

    /// The id of the room that owns `p`, if one does.
    pub open spec fn room_at(self, p: (int, int)) -> Option<u32> {
        if self.room_positions.contains_key(p) {
            Some(self.room_positions[p])
        } else {
            None
        }
    }
}

impl GameMap {
    /// An empty map of the given size: every cell is void.
    pub fn new(width: i32, height: i32) -> (map: GameMap)
        ensures
            map@.width == width,
            map@.height == height,
            map@.tiles == Map::<(int, int), Tile>::empty(),
            map@.rooms == Seq::<Room>::empty(),
            map@.room_positions == Map::<(int, int), u32>::empty(),
            map@.visible_tiles == Map::<(int, int), bool>::empty(),
            map@.explored_tiles == Map::<(int, int), bool>::empty(),
            map@.illuminated_areas == Map::<u32, bool>::empty(),
            map@.well_formed(),
    {
        GameMap {
            width,
            height,
            tiles: CoordMap::new(),
            rooms: Vec::new(),
            room_positions: CoordMap::new(),
            visible_tiles: CoordMap::new(),
            explored_tiles: CoordMap::new(),
            illuminated_areas: HashMap::new(),
        }
    }

    /// The tile at `(x, y)`, if the cell is not void.
    pub fn tile(&self, x: i32, y: i32) -> (tile: Option<Tile>)
        ensures
            tile == self@.tile_at((x as int, y as int)),
    {
        match self.tiles.get(x, y) {
            Some(t) => Some(*t),
            None => None,
        }
    }

    /// True when `(x, y)` holds `tile`.
    pub fn tile_is(&self, x: i32, y: i32, tile: Tile) -> (holds: bool)
        ensures
            holds == self@.holds((x as int, y as int), tile),
    {
        match self.tiles.get(x, y) {
            Some(t) => *t == tile,
            None => false,
        }
    }

    /// True when `(x, y)` is not on the map's border, nor outside it.
    pub fn is_interior(&self, x: i32, y: i32) -> (inside: bool)
        ensures
            inside == interior((x as int, y as int), self@.width, self@.height),
    {
        0 < x && (x as i64) < (self.width as i64) - 1 && 0 < y && (y as i64) < (self.height as i64)
            - 1
    }

    /// The id of the room that owns `(x, y)`, if one does.
    pub fn room_id_at(&self, x: i32, y: i32) -> (id: Option<u32>)
        ensures
            id == self@.room_at((x as int, y as int)),
    {
        match self.room_positions.get(x, y) {
            Some(id) => Some(*id),
            None => None,
        }
    }
}

} // verus!
