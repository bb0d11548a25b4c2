//! The graph of rooms that doors connect.

use crate::doors::cells_of;
use crate::dungeon::DungeonGenerator;
use crate::map::{in_bounds, GameMap, GameMapView};
use crate::tile::{Room, Tile};
use vstd::prelude::*;

verus! {

/// True when the cell `p` belongs to the room `id`.
pub open spec fn owned_by(positions: Map<(int, int), u32>, p: (int, int), id: u32) -> bool {
    positions.contains_key(p) && positions[p] == id
}

/// True when a cell next to `p` belongs to the room `id`.
pub open spec fn room_beside(positions: Map<(int, int), u32>, p: (int, int), id: u32) -> bool {
    ||| owned_by(positions, (p.0 - 1, p.1), id)
    ||| owned_by(positions, (p.0 + 1, p.1), id)
    ||| owned_by(positions, (p.0, p.1 - 1), id)
    ||| owned_by(positions, (p.0, p.1 + 1), id)
}

/// True when `d` is a door with both rooms next to it.
pub open spec fn door_joins(
    tiles: Map<(int, int), Tile>,
    positions: Map<(int, int), u32>,
    d: (int, int),
    a: u32,
    b: u32,
) -> bool {
    tiles.contains_key(d) && tiles[d] == Tile::Door && room_beside(positions, d, a) && room_beside(
        positions,
        d,
        b,
    )
}

/// True when some door has both rooms, which differ, next to it.
pub open spec fn linked(
    tiles: Map<(int, int), Tile>,
    positions: Map<(int, int), u32>,
    a: u32,
    b: u32,
) -> bool {
    a != b && exists|d: (int, int)| door_joins(tiles, positions, d, a, b)
}

/// The room lists exactly the rooms it shares a door with, each once.
pub open spec fn lists_links(map: GameMapView, room: Room) -> bool {
    &&& room.connected_rooms@.no_duplicates()
    &&& forall|b: u32| #[trigger]
        room.connected_rooms@.contains(b) <==> linked(map.tiles, map.room_positions, room.id, b)
}

/// True when `p` comes before `q` as the map is read row by row.
pub open spec fn precedes(p: (int, int), q: (int, int)) -> bool {
    p.1 < q.1 || (p.1 == q.1 && p.0 < q.0)
}

/// True when `list` holds `id`.
pub fn contains_id(list: &Vec<u32>, id: u32) -> (found: bool)
    ensures
        found == list@.contains(id),
{
    let mut i: usize = 0;
    while i < list.len()
        invariant
            i <= list.len(),
            forall|j: int| 0 <= j < i ==> list@[j] != id,
        decreases list.len() - i,
    {
        if list[i] == id {
            return true;
        }
        i = i + 1;
    }
    false
}

impl GameMap {
    /// The cells of the map that hold `tile`, row by row.
    pub fn cells_holding(&self, tile: Tile) -> (found: Vec<(i32, i32)>)
        ensures
            forall|p: (int, int)|
                cells_of(found@).contains(p) <==> in_bounds(p, self@.width, self@.height)
                    && self@.holds(p, tile),
            forall|i: int, j: int|
                0 <= i < j < found@.len() ==> precedes(
                    #[trigger] cells_of(found@)[i],
                    #[trigger] cells_of(found@)[j],
                ),
    {
        let mut found: Vec<(i32, i32)> = Vec::new();
        let mut y: i32 = 0;
        while y < self.height
            invariant
                0 <= y,
                y <= self.height || self.height < 0,
                forall|p: (int, int)|
                    cells_of(found@).contains(p) <==> in_bounds(p, self@.width, self@.height)
                        && self@.holds(p, tile) && p.1 < y,
                forall|i: int, j: int|
                    0 <= i < j < found@.len() ==> precedes(
                        #[trigger] cells_of(found@)[i],
                        #[trigger] cells_of(found@)[j],
                    ),
                forall|i: int| 0 <= i < found@.len() ==> (#[trigger] cells_of(found@)[i]).1 < y,
            decreases self.height - y,
        {
            let mut x: i32 = 0;
            while x < self.width
                invariant
                    0 <= x,
                    x <= self.width || self.width < 0,
                    0 <= y < self.height,
                    forall|p: (int, int)|
                        cells_of(found@).contains(p) <==> in_bounds(p, self@.width, self@.height)
                            && self@.holds(p, tile) && (p.1 < y || (p.1 == y && p.0 < x)),
                    forall|i: int, j: int|
                        0 <= i < j < found@.len() ==> precedes(
                            #[trigger] cells_of(found@)[i],
                            #[trigger] cells_of(found@)[j],
                        ),
                    forall|i: int|
                        0 <= i < found@.len() ==> precedes(
                            #[trigger] cells_of(found@)[i],
                            (x as int, y as int),
                        ),
                decreases self.width - x,
            {
                if self.tile_is(x, y, tile) {
                    let ghost before = cells_of(found@);
                    found.push((x, y));
                    proof {
                        let here = (x as int, y as int);
                        assert(cells_of(found@) =~= before.push(here));
                        assert forall|p: (int, int)|
                            cells_of(found@).contains(p) <==> in_bounds(
                                p,
                                self@.width,
                                self@.height,
                            ) && self@.holds(p, tile) && (p.1 < y || (p.1 == y && p.0 < x + 1)) by {
                            if cells_of(found@).contains(p) {
                                let i = choose|i: int|
                                    0 <= i < cells_of(found@).len() && cells_of(found@)[i] == p;
                                if i < before.len() {
                                    assert(before[i] == p);
                                    assert(before.contains(p));
                                }
                            }
                            if before.contains(p) {
                                let i = choose|i: int| 0 <= i < before.len() && before[i] == p;
                                assert(cells_of(found@)[i] == p);
                            }
                            if p == here {
                                assert(cells_of(found@)[before.len() as int] == p);
                            }
                        }
                    }
                }
                x = x + 1;
            }
            y = y + 1;
        }
        found
    }

    /// The id of the room that owns `(x, y)`, if one does; none for a
    /// position that is no cell.
    fn owner_at(&self, x: i64, y: i64) -> (id: Option<u32>)
        ensures
            id == self@.room_at((x as int, y as int)),
    {
        proof {
            self.room_positions.lemma_dom();
        }
        if i32::MIN as i64 <= x && x <= i32::MAX as i64 && i32::MIN as i64 <= y && y
            <= i32::MAX as i64 {
            self.room_id_at(x as i32, y as i32)
        } else {
            assert(!self@.room_positions.contains_key((x as int, y as int)));
            None
        }
    }

    /// The ids of the rooms that own the four cells next to `(x, y)`.
    pub fn rooms_beside(&self, x: i32, y: i32) -> (ids: Vec<u32>)
        ensures
            forall|id: u32|
                ids@.contains(id) <==> room_beside(self@.room_positions, (x as int, y as int), id),
    {
        let mut ids: Vec<u32> = Vec::new();
        let a = self.owner_at(x as i64 - 1, y as i64);
        let b = self.owner_at(x as i64 + 1, y as i64);
        let c = self.owner_at(x as i64, y as i64 - 1);
        let d = self.owner_at(x as i64, y as i64 + 1);
        if let Some(id) = a {
            ids.push(id);
        }
        let ghost s1 = ids@;
        if let Some(id) = b {
            ids.push(id);
        }
        let ghost s2 = ids@;
        if let Some(id) = c {
            ids.push(id);
        }
        let ghost s3 = ids@;
        if let Some(id) = d {
            ids.push(id);
        }
        proof {
            let p = (x as int, y as int);
            let pos = self@.room_positions;
            assert forall|id: u32| ids@.contains(id) <==> room_beside(pos, p, id) by {
                if ids@.contains(id) {
                    let i = choose|i: int| 0 <= i < ids@.len() && ids@[i] == id;
                }
                if owned_by(pos, (p.0 - 1, p.1), id) {
                    assert(ids@[0] == id);
                }
                if owned_by(pos, (p.0 + 1, p.1), id) {
                    assert(ids@[s1.len() as int] == id);
                }
                if owned_by(pos, (p.0, p.1 - 1), id) {
                    assert(ids@[s2.len() as int] == id);
                }
                if owned_by(pos, (p.0, p.1 + 1), id) {
                    assert(ids@[s3.len() as int] == id);
                }
            }
        }
        ids
    }
}

impl DungeonGenerator {
    /// The ids of the rooms that share a door with the room `id`, each
    /// once.
    fn links_of(map: &GameMap, doors: &Vec<(i32, i32)>, id: u32) -> (links: Vec<u32>)
        requires
            forall|p: (int, int)|
                cells_of(doors@).contains(p) <==> in_bounds(p, map@.width, map@.height)
                    && map@.holds(p, Tile::Door),
            map@.well_formed(),
        ensures
            links@.no_duplicates(),
            forall|b: u32| links@.contains(b) <==> linked(map@.tiles, map@.room_positions, id, b),
    {
        let mut links: Vec<u32> = Vec::new();
        let mut j: usize = 0;
        while j < doors.len()
            invariant
                j <= doors.len(),
                links@.no_duplicates(),
                forall|p: (int, int)|
                    cells_of(doors@).contains(p) <==> in_bounds(p, map@.width, map@.height)
                        && map@.holds(p, Tile::Door),
                forall|b: u32|
                    #[trigger] links@.contains(b) <==> b != id && exists|i: int|
                        0 <= i < j && door_joins(map@.tiles, map@.room_positions, #[trigger] cells_of(doors@)[i], id, b),
            decreases doors.len() - j,
        {
            let d = doors[j];
            let ghost cell = (d.0 as int, d.1 as int);
            assert(cells_of(doors@)[j as int] == cell);
            assert(cells_of(doors@).contains(cell));
            let around = map.rooms_beside(d.0, d.1);
            let ghost before = links@;
            if contains_id(&around, id) {
                let mut m: usize = 0;
                while m < around.len()
                    invariant
                        m <= around.len(),
                        links@.no_duplicates(),
                        forall|b: u32|
                            #[trigger] links@.contains(b) <==> before.contains(b) || (b != id
                                && exists|i: int| 0 <= i < m && #[trigger] around@[i] == b),
                    decreases around.len() - m,
                {
                    let b = around[m];
                    let ghost prior = links@;
                    if b != id && !contains_id(&links, b) {
                        links.push(b);
                        assert(links@ =~= prior.push(b));
                        assert forall|c: u32| links@.contains(c) <==> prior.contains(c) || c
                            == b by {
                            if links@.contains(c) {
                                let i = choose|i: int| 0 <= i < links@.len() && links@[i] == c;
                                if i < prior.len() {
                                    assert(prior[i] == c);
                                }
                            }
                            if prior.contains(c) {
                                let i = choose|i: int| 0 <= i < prior.len() && prior[i] == c;
                                assert(links@[i] == c);
                            }
                            if c == b {
                                assert(links@[prior.len() as int] == c);
                            }
                        }
                    }
                    m = m + 1;
                    assert(forall|c: u32| prior.contains(c) ==> #[trigger] links@.contains(c));
                    assert(forall|c: u32| #[trigger]
                        links@.contains(c) ==> prior.contains(c) || (c == b && b != id));
                    assert(b != id ==> links@.contains(b));
                    assert forall|c: u32|
                        links@.contains(c) <==> before.contains(c) || (c != id && exists|i: int|
                            0 <= i < m && #[trigger] around@[i] == c) by {
                        if before.contains(c) {
                            assert(prior.contains(c));
                            assert(links@.contains(c));
                        }
                        if c != id && exists|i: int| 0 <= i < m && #[trigger] around@[i] == c {
                            let i = choose|i: int| 0 <= i < m && #[trigger] around@[i] == c;
                            if i == m - 1 {
                                assert(c == b);
                            } else {
                                assert(0 <= i < m - 1 && around@[i] == c);
                                assert(prior.contains(c));
                            }
                            assert(links@.contains(c));
                        }
                        if links@.contains(c) && !before.contains(c) {
                            if prior.contains(c) {
                                let i = choose|i: int| 0 <= i < m - 1 && #[trigger] around@[i] == c;
                                assert(0 <= i < m && around@[i] == c);
                            } else {
                                assert(c == b);
                                assert(around@[m - 1] == c);
                            }
                        }
                    }
                }
            }
            j = j + 1;
            assert forall|b: u32|
                links@.contains(b) <==> b != id && exists|i: int|
                    0 <= i < j && door_joins(map@.tiles, map@.room_positions, #[trigger] cells_of(doors@)[i], id, b) by {
                let joins_here = door_joins(map@.tiles, map@.room_positions, cell, id, b);
                if b != id && exists|i: int|
                    0 <= i < j && door_joins(map@.tiles, map@.room_positions, #[trigger] cells_of(doors@)[i], id, b) {
                    let i = choose|i: int|
                        0 <= i < j && door_joins(map@.tiles, map@.room_positions, #[trigger] cells_of(doors@)[i], id, b);
                    if i == j - 1 {
                        assert(joins_here);
                        assert(around@.contains(b));
                        let n = choose|n: int| 0 <= n < around@.len() && around@[n] == b;
                        assert(around@[n] == b);
                    }
                }
                if links@.contains(b) && !before.contains(b) {
                    let n = choose|n: int| 0 <= n < around@.len() && #[trigger] around@[n] == b;
                    assert(around@.contains(b));
                    assert(door_joins(map@.tiles, map@.room_positions, cells_of(doors@)[j - 1], id, b));
                }
                if before.contains(b) {
                    let i = choose|i: int|
                        0 <= i < j - 1 && door_joins(map@.tiles, map@.room_positions, #[trigger] cells_of(doors@)[i], id, b);
                    assert(door_joins(map@.tiles, map@.room_positions, cells_of(doors@)[i], id, b));
                }
            }
        }
        proof {
            assert forall|b: u32| links@.contains(b) <==> linked(map@.tiles, map@.room_positions, id, b) by {
                if linked(map@.tiles, map@.room_positions, id, b) {
                    let d = choose|d: (int, int)| door_joins(map@.tiles, map@.room_positions, d, id, b);
                    assert(map@.tiles.contains_key(d));
                    assert(cells_of(doors@).contains(d));
                    let i = choose|i: int| 0 <= i < cells_of(doors@).len() && cells_of(doors@)[i] == d;
                    assert(door_joins(map@.tiles, map@.room_positions, cells_of(doors@)[i], id, b));
                }
            }
        }
        links
    }

    /// Gives every room the ids of the rooms it shares a door with: two
    /// rooms are connected when cells of both lie next to one door.
    pub fn update_room_connections(rooms: &mut Vec<Room>, map: &GameMap)
        requires
            map@.well_formed(),
        ensures
            final(rooms)@.len() == old(rooms)@.len(),
            forall|i: int|
                0 <= i < old(rooms)@.len() ==> {
                    let before = old(rooms)@[i];
                    let after = #[trigger] final(rooms)@[i];
                    &&& after.rect() == before.rect()
                    &&& after.id == before.id
                    &&& after.room_type == before.room_type
                    &&& after.is_illuminated == before.is_illuminated
                    &&& after.connected_rooms@.no_duplicates()
                    &&& forall|b: u32|
                        after.connected_rooms@.contains(b) <==> linked(map@.tiles, map@.room_positions, before.id, b)
                },
    {
        let doors = map.cells_holding(Tile::Door);
        let mut updated: Vec<Room> = Vec::new();
        let mut i: usize = 0;
        while i < rooms.len()
            invariant
                i <= rooms.len(),
                rooms@ == old(rooms)@,
                updated@.len() == i,
                map@.well_formed(),
                forall|p: (int, int)|
                    cells_of(doors@).contains(p) <==> in_bounds(p, map@.width, map@.height)
                        && map@.holds(p, Tile::Door),
                forall|k: int|
                    0 <= k < i ==> {
                        let before = old(rooms)@[k];
                        let after = #[trigger] updated@[k];
                        &&& after.rect() == before.rect()
                        &&& after.id == before.id
                        &&& after.room_type == before.room_type
                        &&& after.is_illuminated == before.is_illuminated
                        &&& after.connected_rooms@.no_duplicates()
                        &&& forall|b: u32|
                            after.connected_rooms@.contains(b) <==> linked(map@.tiles, map@.room_positions, before.id, b)
                    },
            decreases rooms.len() - i,
        {
            let room = &rooms[i];
            let links = Self::links_of(map, &doors, room.id);
            updated.push(
                Room {
                    x: room.x,
                    y: room.y,
                    width: room.width,
                    height: room.height,
                    id: room.id,
                    room_type: room.room_type,
                    is_illuminated: room.is_illuminated,
                    connected_rooms: links,
                },
            );
            i = i + 1;
        }
        *rooms = updated;
    }
}

} // verus!
