//! Door placement on the ring of cells around each room.

use crate::bsp::room_sites;
use crate::dungeon::{beside, holds, DungeonGenerator};
use crate::map::{interior, GameMap};
use crate::tile::{Rect, Room, Tile};
use vstd::prelude::*;

verus! {

/// Doors of one room are kept more than this many steps apart.
pub const DOOR_SPACING: i64 = 3;

/// A place for a door: a cell on the ring around a room, and the step
/// from it into the room.
pub struct DoorSlot {
    pub cell: (int, int),
    pub inward: (int, int),
}

impl DoorSlot {
    /// The cell of the room behind the door.
    pub open spec fn inside(self) -> (int, int) {
        (self.cell.0 + self.inward.0, self.cell.1 + self.inward.1)
    }

    /// The cell in front of the door.
    pub open spec fn outside(self) -> (int, int) {
        (self.cell.0 - self.inward.0, self.cell.1 - self.inward.1)
    }

    /// One of the two cells beside the door, along the room's wall.
    pub open spec fn side_a(self) -> (int, int) {
        (self.cell.0 + self.inward.1, self.cell.1 + self.inward.0)
    }

    /// The other cell beside the door.
    pub open spec fn side_b(self) -> (int, int) {
        (self.cell.0 - self.inward.1, self.cell.1 - self.inward.0)
    }
}

/// The number of door slots around `rect`: none for an empty rectangle.
pub open spec fn ring_len(rect: Rect) -> int {
    if rect.width >= 1 && rect.height >= 1 {
        2 * rect.width + 2 * rect.height
    } else {
        0
    }
}

/// The `k`-th slot around `rect`: first the row above it from left to
/// right, then the row below it, then the column to its left from top to
/// bottom, then the column to its right.
pub open spec fn slot(rect: Rect, k: int) -> DoorSlot {
    if k < rect.width {
        DoorSlot { cell: (rect.x + k, rect.y - 1), inward: (0, 1) }
    } else if k < 2 * rect.width {
        DoorSlot { cell: (rect.x + k - rect.width, rect.y + rect.height), inward: (0, -1) }
    } else if k < 2 * rect.width + rect.height {
        DoorSlot { cell: (rect.x - 1, rect.y + k - 2 * rect.width), inward: (1, 0) }
    } else {
        DoorSlot {
            cell: (rect.x + rect.width, rect.y + k - 2 * rect.width - rect.height),
            inward: (-1, 0),
        }
    }
}

/// True when a wall or a corridor stands at `p`.
pub open spec fn solid_or_dug(tiles: Map<(int, int), Tile>, p: (int, int)) -> bool {
    holds(tiles, p, Tile::Wall) || holds(tiles, p, Tile::Corridor)
}

/// True when one can walk on `p`: it is floor or corridor.
pub open spec fn open_cell(tiles: Map<(int, int), Tile>, p: (int, int)) -> bool {
    holds(tiles, p, Tile::Floor) || holds(tiles, p, Tile::Corridor)
}

/// A door belongs at the slot: the cell is inside the border and holds a
/// wall or a corridor, a floor of the room `id` lies behind it, a
/// corridor in front of it, and walls on both sides.
pub open spec fn qualifies(
    tiles: Map<(int, int), Tile>,
    positions: Map<(int, int), u32>,
    id: u32,
    width: int,
    height: int,
    s: DoorSlot,
) -> bool {
    &&& interior(s.cell, width, height)
    &&& solid_or_dug(tiles, s.cell)
    &&& holds(tiles, s.inside(), Tile::Floor)
    &&& positions.contains_key(s.inside())
    &&& positions[s.inside()] == id
    &&& holds(tiles, s.outside(), Tile::Corridor)
    &&& holds(tiles, s.side_a(), Tile::Wall)
    &&& holds(tiles, s.side_b(), Tile::Wall)
}

/// The number of steps between two cells.
pub open spec fn manhattan(a: (int, int), b: (int, int)) -> int {
    (if a.0 >= b.0 {
        a.0 - b.0
    } else {
        b.0 - a.0
    }) + (if a.1 >= b.1 {
        a.1 - b.1
    } else {
        b.1 - a.1
    })
}

/// The cells of a list of positions.
pub open spec fn cells_of(list: Seq<(i32, i32)>) -> Seq<(int, int)> {
    list.map_values(|c: (i32, i32)| (c.0 as int, c.1 as int))
}

/// True when one of `placed` is within `DOOR_SPACING` steps of `cell`.
pub open spec fn crowded(placed: Seq<(int, int)>, cell: (int, int)) -> bool {
    exists|i: int| 0 <= i < placed.len() && manhattan(#[trigger] placed[i], cell) <= DOOR_SPACING
}

/// The door cell stands in a breach one cell wide: walls on two opposite
/// sides, and floor or corridor on each of the other two.
pub open spec fn encased(tiles: Map<(int, int), Tile>, p: (int, int)) -> bool {
    let west = (p.0 - 1, p.1);
    let east = (p.0 + 1, p.1);
    let north = (p.0, p.1 - 1);
    let south = (p.0, p.1 + 1);
    ||| {
        &&& holds(tiles, west, Tile::Wall)
        &&& holds(tiles, east, Tile::Wall)
        &&& open_cell(tiles, north)
        &&& open_cell(tiles, south)
    }
    ||| {
        &&& holds(tiles, north, Tile::Wall)
        &&& holds(tiles, south, Tile::Wall)
        &&& open_cell(tiles, west)
        &&& open_cell(tiles, east)
    }
}

/// The tiles and the doors placed once the slots from `k` on have been
/// visited in order: a door is placed at each slot that qualifies and is
/// not crowded by a door placed before it.
pub open spec fn scanned(
    tiles: Map<(int, int), Tile>,
    positions: Map<(int, int), u32>,
    id: u32,
    width: int,
    height: int,
    rect: Rect,
    k: int,
    placed: Seq<(int, int)>,
) -> (Map<(int, int), Tile>, Seq<(int, int)>)
    decreases ring_len(rect) - k,
{
    if k < 0 || k >= ring_len(rect) {
        (tiles, placed)
    } else {
        let s = slot(rect, k);
        if qualifies(tiles, positions, id, width, height, s) && !crowded(placed, s.cell) {
            scanned(
                tiles.insert(s.cell, Tile::Door),
                positions,
                id,
                width,
                height,
                rect,
                k + 1,
                placed.push(s.cell),
            )
        } else {
            scanned(tiles, positions, id, width, height, rect, k + 1, placed)
        }
    }
}

/// The number of cells next to `p` that are floor or corridor.
pub open spec fn openings(tiles: Map<(int, int), Tile>, p: (int, int)) -> int {
    (if open_cell(tiles, (p.0 - 1, p.1)) {
        1int
    } else {
        0int
    }) + (if open_cell(tiles, (p.0 + 1, p.1)) {
        1int
    } else {
        0int
    }) + (if open_cell(tiles, (p.0, p.1 - 1)) {
        1int
    } else {
        0int
    }) + (if open_cell(tiles, (p.0, p.1 + 1)) {
        1int
    } else {
        0int
    })
}

/// A door can be forced at the slot: the cell is inside the border and
/// holds a wall or a corridor, a floor lies behind it, and no door
/// stands next to it.
pub open spec fn forcible(
    tiles: Map<(int, int), Tile>,
    width: int,
    height: int,
    s: DoorSlot,
) -> bool {
    &&& interior(s.cell, width, height)
    &&& solid_or_dug(tiles, s.cell)
    &&& holds(tiles, s.inside(), Tile::Floor)
    &&& !beside(tiles, s.cell, Tile::Door)
}

/// The slot at which a door is forced, among those from `k` on and the
/// one found so far: the first of those with the most openings.
pub open spec fn best_slot(
    tiles: Map<(int, int), Tile>,
    width: int,
    height: int,
    rect: Rect,
    k: int,
    best: Option<int>,
) -> Option<int>
    decreases ring_len(rect) - k,
{
    if k < 0 || k >= ring_len(rect) {
        best
    } else {
        let s = slot(rect, k);
        let better = forcible(tiles, width, height, s) && match best {
            Some(b) => openings(tiles, slot(rect, b).cell) < openings(tiles, s.cell),
            None => true,
        };
        best_slot(
            tiles,
            width,
            height,
            rect,
            k + 1,
            if better {
                Some(k)
            } else {
                best
            },
        )
    }
}

/// The tiles after the doors of one room are placed, and the cell of the
/// door that had to be forced, if one was.
pub open spec fn with_room_doors(
    tiles: Map<(int, int), Tile>,
    positions: Map<(int, int), u32>,
    width: int,
    height: int,
    rect: Rect,
    id: u32,
) -> (Map<(int, int), Tile>, Option<(int, int)>) {
    let (t1, placed) = scanned(
        tiles,
        positions,
        id,
        width,
        height,
        rect,
        0,
        Seq::<(int, int)>::empty(),
    );
    if placed.len() > 0 {
        (t1, None)
    } else {
        match best_slot(t1, width, height, rect, 0, None) {
            Some(k) => (t1.insert(slot(rect, k).cell, Tile::Door), Some(slot(rect, k).cell)),
            None => (t1, None),
        }
    }
}

/// The tiles after the doors of the rooms from `i` on are placed, room
/// by room, and the forced doors, those in `forced` first.
pub open spec fn with_doors(
    tiles: Map<(int, int), Tile>,
    positions: Map<(int, int), u32>,
    width: int,
    height: int,
    rooms: Seq<(Rect, u32)>,
    i: int,
    forced: Seq<(int, int)>,
) -> (Map<(int, int), Tile>, Seq<(int, int)>)
    decreases rooms.len() - i,
{
    if i < 0 || i >= rooms.len() {
        (tiles, forced)
    } else {
        let (t1, f) = with_room_doors(tiles, positions, width, height, rooms[i].0, rooms[i].1);
        with_doors(
            t1,
            positions,
            width,
            height,
            rooms,
            i + 1,
            match f {
                Some(cell) => forced.push(cell),
                None => forced,
            },
        )
    }
}

/// Every door is encased, but for those of `exempt`.
pub open spec fn doors_encased(tiles: Map<(int, int), Tile>, exempt: Set<(int, int)>) -> bool {
    forall|p: (int, int)| #[trigger]
        holds(tiles, p, Tile::Door) ==> encased(tiles, p) || exempt.contains(p)
}

/// `after` is `before` with doors in place of some walls and corridors.
pub open spec fn only_doors_added(
    before: Map<(int, int), Tile>,
    after: Map<(int, int), Tile>,
) -> bool {
    &&& after.dom() == before.dom()
    &&& forall|p: (int, int)| #[trigger]
        before.contains_key(p) ==> after[p] == before[p] || (after[p] == Tile::Door
            && solid_or_dug(before, p))
}

/// Placing a door at a slot that qualifies keeps every door encased.
pub proof fn lemma_qualified_door(
    tiles: Map<(int, int), Tile>,
    positions: Map<(int, int), u32>,
    id: u32,
    width: int,
    height: int,
    s: DoorSlot,
    exempt: Set<(int, int)>,
)
    requires
        doors_encased(tiles, exempt),
        qualifies(tiles, positions, id, width, height, s),
        s.inward == (0int, 1int) || s.inward == (0int, -1int) || s.inward == (1int, 0int)
            || s.inward == (-1int, 0int),
    ensures
        doors_encased(tiles.insert(s.cell, Tile::Door), exempt),
        only_doors_added(tiles, tiles.insert(s.cell, Tile::Door)),
{
    let after = tiles.insert(s.cell, Tile::Door);
    assert forall|p: (int, int)| #[trigger] holds(after, p, Tile::Door) implies encased(after, p)
        || exempt.contains(p) by {
        if p == s.cell {
            assert(encased(after, p));
        } else {
            assert(holds(tiles, p, Tile::Door));
            if encased(tiles, p) {
                assert(encased(after, p));
            }
        }
    }
    assert(after.dom() =~= tiles.dom());
}

/// Forcing a door at a slot where that is possible keeps every other
/// door encased.
pub proof fn lemma_forced_door(
    tiles: Map<(int, int), Tile>,
    width: int,
    height: int,
    s: DoorSlot,
    exempt: Set<(int, int)>,
)
    requires
        doors_encased(tiles, exempt),
        forcible(tiles, width, height, s),
    ensures
        doors_encased(tiles.insert(s.cell, Tile::Door), exempt.insert(s.cell)),
        only_doors_added(tiles, tiles.insert(s.cell, Tile::Door)),
{
    let after = tiles.insert(s.cell, Tile::Door);
    assert forall|p: (int, int)| #[trigger] holds(after, p, Tile::Door) implies encased(after, p)
        || exempt.insert(s.cell).contains(p) by {
        if p != s.cell {
            assert(holds(tiles, p, Tile::Door));
            if encased(tiles, p) {
                assert(encased(after, p));
            }
        }
    }
    assert(after.dom() =~= tiles.dom());
}

/// `only_doors_added` composes.
pub proof fn lemma_only_doors_added_trans(
    a: Map<(int, int), Tile>,
    b: Map<(int, int), Tile>,
    c: Map<(int, int), Tile>,
)
    requires
        only_doors_added(a, b),
        only_doors_added(b, c),
    ensures
        only_doors_added(a, c),
{
    assert forall|p: (int, int)| #[trigger] a.contains_key(p) implies c[p] == a[p] || (c[p]
        == Tile::Door && solid_or_dug(a, p)) by {
        assert(b.contains_key(p));
    }
}

/// Scanning the slots of a room keeps every door encased.
pub proof fn lemma_scanned_encased(
    tiles: Map<(int, int), Tile>,
    positions: Map<(int, int), u32>,
    id: u32,
    width: int,
    height: int,
    rect: Rect,
    k: int,
    placed: Seq<(int, int)>,
    exempt: Set<(int, int)>,
)
    requires
        doors_encased(tiles, exempt),
    ensures
        doors_encased(scanned(tiles, positions, id, width, height, rect, k, placed).0, exempt),
        only_doors_added(tiles, scanned(tiles, positions, id, width, height, rect, k, placed).0),
    decreases ring_len(rect) - k,
{
    if k < 0 || k >= ring_len(rect) {
    } else {
        let s = slot(rect, k);
        if qualifies(tiles, positions, id, width, height, s) && !crowded(placed, s.cell) {
            lemma_qualified_door(tiles, positions, id, width, height, s, exempt);
            let t1 = tiles.insert(s.cell, Tile::Door);
            lemma_scanned_encased(
                t1,
                positions,
                id,
                width,
                height,
                rect,
                k + 1,
                placed.push(s.cell),
                exempt,
            );
            lemma_only_doors_added_trans(
                tiles,
                t1,
                scanned(t1, positions, id, width, height, rect, k + 1, placed.push(s.cell)).0,
            );
        } else {
            lemma_scanned_encased(tiles, positions, id, width, height, rect, k + 1, placed, exempt);
        }
    }
}

/// The slot that `best_slot` picks is one where a door can be forced.
pub proof fn lemma_best_slot_forcible(
    tiles: Map<(int, int), Tile>,
    width: int,
    height: int,
    rect: Rect,
    k: int,
    best: Option<int>,
)
    requires
        best matches Some(b) ==> forcible(tiles, width, height, slot(rect, b)),
    ensures
        best_slot(tiles, width, height, rect, k, best) matches Some(b) ==> forcible(
            tiles,
            width,
            height,
            slot(rect, b),
        ),
    decreases ring_len(rect) - k,
{
    if k < 0 || k >= ring_len(rect) {
    } else {
        let s = slot(rect, k);
        let better = forcible(tiles, width, height, s) && match best {
            Some(b) => openings(tiles, slot(rect, b).cell) < openings(tiles, s.cell),
            None => true,
        };
        lemma_best_slot_forcible(
            tiles,
            width,
            height,
            rect,
            k + 1,
            if better {
                Some(k)
            } else {
                best
            },
        );
    }
}

/// Placing all doors keeps every door encased, but for the forced ones.
pub proof fn lemma_with_doors_encased(
    tiles: Map<(int, int), Tile>,
    positions: Map<(int, int), u32>,
    width: int,
    height: int,
    rooms: Seq<(Rect, u32)>,
    i: int,
    forced: Seq<(int, int)>,
    exempt: Set<(int, int)>,
)
    requires
        doors_encased(tiles, exempt.union(forced.to_set())),
    ensures
        doors_encased(
            with_doors(tiles, positions, width, height, rooms, i, forced).0,
            exempt.union(with_doors(tiles, positions, width, height, rooms, i, forced).1.to_set()),
        ),
        only_doors_added(tiles, with_doors(tiles, positions, width, height, rooms, i, forced).0),
    decreases rooms.len() - i,
{
    if i < 0 || i >= rooms.len() {
    } else {
        let rect = rooms[i].0;
        let id = rooms[i].1;
        let all = exempt.union(forced.to_set());
        let (t1, placed) = scanned(
            tiles,
            positions,
            id,
            width,
            height,
            rect,
            0,
            Seq::<(int, int)>::empty(),
        );
        lemma_scanned_encased(
            tiles,
            positions,
            id,
            width,
            height,
            rect,
            0,
            Seq::<(int, int)>::empty(),
            all,
        );
        let (t2, f) = with_room_doors(tiles, positions, width, height, rect, id);
        let next = match f {
            Some(cell) => forced.push(cell),
            None => forced,
        };
        match f {
            Some(cell) => {
                let k = best_slot(t1, width, height, rect, 0, None).unwrap();
                lemma_best_slot_forcible(t1, width, height, rect, 0, None);
                lemma_forced_door(t1, width, height, slot(rect, k), all);
                assert(exempt.union(next.to_set()) =~= all.insert(cell)) by {
                    assert forall|p: (int, int)| next.to_set().contains(p) <==> (
                    forced.to_set().contains(p) || p == cell) by {
                        if next.to_set().contains(p) {
                            let j = choose|j: int| 0 <= j < next.len() && next[j] == p;
                            if j < forced.len() {
                                assert(forced[j] == p);
                            }
                        }
                        if forced.to_set().contains(p) {
                            let j = choose|j: int| 0 <= j < forced.len() && forced[j] == p;
                            assert(next[j] == p);
                        }
                        if p == cell {
                            assert(next[forced.len() as int] == p);
                        }
                    }
                }
                lemma_only_doors_added_trans(tiles, t1, t2);
            },
            None => {
                assert(t2 == t1);
            },
        }
        lemma_with_doors_encased(t2, positions, width, height, rooms, i + 1, next, exempt);
        lemma_only_doors_added_trans(
            tiles,
            t2,
            with_doors(t2, positions, width, height, rooms, i + 1, next).0,
        );
    }
}

/// The `k`-th slot around `rect`: its cell and the step into the room.
fn slot_at(rect: Rect, k: i64) -> (s: (i64, i64, i32, i32))
    requires
        0 <= k < ring_len(rect),
    ensures
        slot(rect, k as int) == (DoorSlot {
            cell: (s.0 as int, s.1 as int),
            inward: (s.2 as int, s.3 as int),
        }),
        (s.2 == 0 && (s.3 == 1 || s.3 == -1)) || (s.3 == 0 && (s.2 == 1 || s.2 == -1)),
{
    let x: i64 = rect.x as i64;
    let y: i64 = rect.y as i64;
    let w: i64 = rect.width as i64;
    let h: i64 = rect.height as i64;
    if k < w {
        (x + k, y - 1, 0, 1)
    } else if k < 2 * w {
        (x + k - w, y + h, 0, -1)
    } else if k < 2 * w + h {
        (x - 1, y + k - 2 * w, 1, 0)
    } else {
        (x + w, y + k - 2 * w - h, -1, 0)
    }
}

/// The number of slots around `rect`.
fn ring_size(rect: Rect) -> (n: i64)
    ensures
        n == ring_len(rect),
{
    if rect.width >= 1 && rect.height >= 1 {
        2 * (rect.width as i64) + 2 * (rect.height as i64)
    } else {
        0
    }
}

/// True when a wall or a corridor stands at `(x, y)`.
fn solid_or_dug_at(map: &GameMap, x: i32, y: i32) -> (found: bool)
    ensures
        found == solid_or_dug(map@.tiles, (x as int, y as int)),
{
    map.tile_is(x, y, Tile::Wall) || map.tile_is(x, y, Tile::Corridor)
}

/// True when `(x, y)` is floor or corridor.
fn open_at(map: &GameMap, x: i32, y: i32) -> (found: bool)
    ensures
        found == open_cell(map@.tiles, (x as int, y as int)),
{
    map.tile_is(x, y, Tile::Floor) || map.tile_is(x, y, Tile::Corridor)
}

/// True when a door belongs at the slot.
fn qualifies_at(map: &GameMap, id: u32, s: (i64, i64, i32, i32)) -> (fits: bool)
    requires
        (s.2 == 0 && (s.3 == 1 || s.3 == -1)) || (s.3 == 0 && (s.2 == 1 || s.2 == -1)),
    ensures
        fits == qualifies(
            map@.tiles,
            map@.room_positions,
            id,
            map@.width,
            map@.height,
            DoorSlot { cell: (s.0 as int, s.1 as int), inward: (s.2 as int, s.3 as int) },
        ),
{
    if !(0 < s.0 && s.0 < map.width as i64 - 1 && 0 < s.1 && s.1 < map.height as i64 - 1) {
        return false;
    }
    let x: i32 = s.0 as i32;
    let y: i32 = s.1 as i32;
    let dx: i32 = s.2;
    let dy: i32 = s.3;
    let owner = map.room_id_at(x + dx, y + dy);
    let owned = match owner {
        Some(o) => o == id,
        None => false,
    };
    solid_or_dug_at(map, x, y) && map.tile_is(x + dx, y + dy, Tile::Floor) && owned && map.tile_is(
        x - dx,
        y - dy,
        Tile::Corridor,
    ) && map.tile_is(x + dy, y + dx, Tile::Wall) && map.tile_is(x - dy, y - dx, Tile::Wall)
}

/// True when a door can be forced at the slot.
fn forcible_at(map: &GameMap, s: (i64, i64, i32, i32)) -> (fits: bool)
    requires
        (s.2 == 0 && (s.3 == 1 || s.3 == -1)) || (s.3 == 0 && (s.2 == 1 || s.2 == -1)),
    ensures
        fits == forcible(
            map@.tiles,
            map@.width,
            map@.height,
            DoorSlot { cell: (s.0 as int, s.1 as int), inward: (s.2 as int, s.3 as int) },
        ),
{
    if !(0 < s.0 && s.0 < map.width as i64 - 1 && 0 < s.1 && s.1 < map.height as i64 - 1) {
        return false;
    }
    let x: i32 = s.0 as i32;
    let y: i32 = s.1 as i32;
    let door_near = map.tile_is(x - 1, y, Tile::Door) || map.tile_is(x + 1, y, Tile::Door)
        || map.tile_is(x, y - 1, Tile::Door) || map.tile_is(x, y + 1, Tile::Door);
    solid_or_dug_at(map, x, y) && map.tile_is(x + s.2, y + s.3, Tile::Floor) && !door_near
}

/// The number of cells next to `(x, y)` that are floor or corridor.
fn openings_at(map: &GameMap, x: i32, y: i32) -> (n: u8)
    requires
        i32::MIN < x < i32::MAX,
        i32::MIN < y < i32::MAX,
    ensures
        n == openings(map@.tiles, (x as int, y as int)),
{
    let mut n: u8 = 0;
    if open_at(map, x - 1, y) {
        n = n + 1;
    }
    if open_at(map, x + 1, y) {
        n = n + 1;
    }
    if open_at(map, x, y - 1) {
        n = n + 1;
    }
    if open_at(map, x, y + 1) {
        n = n + 1;
    }
    n
}

/// True when one of `placed` is within `DOOR_SPACING` steps of `(x, y)`.
fn is_crowded(placed: &Vec<(i32, i32)>, x: i32, y: i32) -> (found: bool)
    ensures
        found == crowded(cells_of(placed@), (x as int, y as int)),
{
    let mut i: usize = 0;
    while i < placed.len()
        invariant
            i <= placed.len(),
            forall|j: int|
                0 <= j < i ==> manhattan(#[trigger] cells_of(placed@)[j], (x as int, y as int))
                    > DOOR_SPACING,
        decreases placed.len() - i,
    {
        let c = placed[i];
        let dx: i64 = if c.0 >= x {
            c.0 as i64 - x as i64
        } else {
            x as i64 - c.0 as i64
        };
        let dy: i64 = if c.1 >= y {
            c.1 as i64 - y as i64
        } else {
            y as i64 - c.1 as i64
        };
        assert(cells_of(placed@)[i as int] == (c.0 as int, c.1 as int));
        if dx + dy <= DOOR_SPACING {
            return true;
        }
        i = i + 1;
    }
    false
}

impl DungeonGenerator {
    /// Places the doors of one room: one at each slot around it that
    /// qualifies, unless a door of the room placed before is within
    /// `DOOR_SPACING` steps. If no slot qualifies, a door is forced at
    /// the first of the slots with the most openings, where one can be;
    /// its cell is returned.
    pub fn add_room_doors(map: &mut GameMap, room: &Room) -> (forced: Option<(i32, i32)>)
        ensures
            final(map)@ == old(map)@.with_tiles(
                with_room_doors(
                    old(map)@.tiles,
                    old(map)@.room_positions,
                    old(map)@.width,
                    old(map)@.height,
                    room.rect(),
                    room.id,
                ).0,
            ),
            match with_room_doors(
                old(map)@.tiles,
                old(map)@.room_positions,
                old(map)@.width,
                old(map)@.height,
                room.rect(),
                room.id,
            ).1 {
                Some(cell) => forced matches Some(c) && (c.0 as int, c.1 as int) == cell,
                None => forced is None,
            },
    {
        let ghost start = map@;
        let rect = room.bounds();
        let n: i64 = ring_size(rect);
        let mut placed: Vec<(i32, i32)> = Vec::new();
        let mut k: i64 = 0;
        assert(cells_of(placed@) =~= Seq::<(int, int)>::empty());
        while k < n
            invariant
                0 <= k <= n,
                n == ring_len(rect),
                rect == room.rect(),
                map@ == start.with_tiles(map@.tiles),
                scanned(
                    map@.tiles,
                    start.room_positions,
                    room.id,
                    start.width,
                    start.height,
                    rect,
                    k as int,
                    cells_of(placed@),
                ) == scanned(
                    start.tiles,
                    start.room_positions,
                    room.id,
                    start.width,
                    start.height,
                    rect,
                    0,
                    Seq::<(int, int)>::empty(),
                ),
            decreases n - k,
        {
            let s = slot_at(rect, k);
            if qualifies_at(map, room.id, s) {
                let x: i32 = s.0 as i32;
                let y: i32 = s.1 as i32;
                if !is_crowded(&placed, x, y) {
                    let ghost before = cells_of(placed@);
                    map.tiles.insert(x, y, Tile::Door);
                    placed.push((x, y));
                    assert(cells_of(placed@) =~= before.push((x as int, y as int)));
                }
            }
            k = k + 1;
        }
        if placed.len() > 0 {
            return None;
        }
        let ghost t1 = map@.tiles;
        let mut best: Option<(i64, i64)> = None;
        let mut best_openings: u8 = 0;
        let ghost mut best_k: Option<int> = None;
        let mut j: i64 = 0;
        while j < n
            invariant
                0 <= j <= n,
                n == ring_len(rect),
                map@.tiles == t1,
                map@ == start.with_tiles(map@.tiles),
                match best_k {
                    Some(b) => best == Some((slot(rect, b).cell.0 as i64, slot(rect, b).cell.1 as i64))
                        && best_openings == openings(t1, slot(rect, b).cell) && interior(
                        slot(rect, b).cell,
                        start.width,
                        start.height,
                    ),
                    None => best is None,
                },
                best_slot(t1, start.width, start.height, rect, j as int, best_k) == best_slot(
                    t1,
                    start.width,
                    start.height,
                    rect,
                    0,
                    None,
                ),
            decreases n - j,
        {
            let s = slot_at(rect, j);
            if forcible_at(map, s) {
                let x: i32 = s.0 as i32;
                let y: i32 = s.1 as i32;
                let score = openings_at(map, x, y);
                let better = match best {
                    Some(_) => best_openings < score,
                    None => true,
                };
                if better {
                    best = Some((s.0, s.1));
                    best_openings = score;
                    proof {
                        best_k = Some(j as int);
                    }
                }
            }
            j = j + 1;
        }
        match best {
            Some(cell) => {
                let x: i32 = cell.0 as i32;
                let y: i32 = cell.1 as i32;
                map.tiles.insert(x, y, Tile::Door);
                Some((x, y))
            },
            None => None,
        }
    }

    /// Places the doors of all rooms, in order, and returns the cells of
    /// the doors that had to be forced. Every other door it places stands
    /// in a breach one cell wide.
    pub fn add_doors(map: &mut GameMap, rooms: &Vec<Room>) -> (forced: Vec<(i32, i32)>)
        ensures
            final(map)@ == old(map)@.with_tiles(
                with_doors(
                    old(map)@.tiles,
                    old(map)@.room_positions,
                    old(map)@.width,
                    old(map)@.height,
                    room_sites(rooms@),
                    0,
                    Seq::<(int, int)>::empty(),
                ).0,
            ),
            cells_of(forced@) == with_doors(
                old(map)@.tiles,
                old(map)@.room_positions,
                old(map)@.width,
                old(map)@.height,
                room_sites(rooms@),
                0,
                Seq::<(int, int)>::empty(),
            ).1,
            only_doors_added(old(map)@.tiles, final(map)@.tiles),
            forall|p: (int, int)| #[trigger]
                holds(final(map)@.tiles, p, Tile::Door) ==> encased(final(map)@.tiles, p) || holds(
                    old(map)@.tiles,
                    p,
                    Tile::Door,
                ) || cells_of(forced@).contains(p),
    {
        let ghost start = map@;
        let ghost sites = room_sites(rooms@);
        let mut forced: Vec<(i32, i32)> = Vec::new();
        let mut i: usize = 0;
        assert(cells_of(forced@) =~= Seq::<(int, int)>::empty());
        while i < rooms.len()
            invariant
                i <= rooms.len(),
                sites == room_sites(rooms@),
                map@ == start.with_tiles(map@.tiles),
                with_doors(
                    map@.tiles,
                    start.room_positions,
                    start.width,
                    start.height,
                    sites,
                    i as int,
                    cells_of(forced@),
                ) == with_doors(
                    start.tiles,
                    start.room_positions,
                    start.width,
                    start.height,
                    sites,
                    0,
                    Seq::<(int, int)>::empty(),
                ),
            decreases rooms.len() - i,
        {
            let ghost before = cells_of(forced@);
            assert(sites[i as int] == (rooms@[i as int].rect(), rooms@[i as int].id));
            match Self::add_room_doors(map, &rooms[i]) {
                Some(cell) => {
                    forced.push(cell);
                    assert(cells_of(forced@) =~= before.push((cell.0 as int, cell.1 as int)));
                },
                None => {},
            }
            i = i + 1;
        }
        proof {
            let exempt = Set::new(|p: (int, int)| holds(start.tiles, p, Tile::Door));
            assert(exempt.union(Seq::<(int, int)>::empty().to_set()) =~= exempt);
            lemma_with_doors_encased(
                start.tiles,
                start.room_positions,
                start.width,
                start.height,
                sites,
                0,
                Seq::<(int, int)>::empty(),
                exempt,
            );
            assert forall|p: (int, int)| #[trigger]
                holds(map@.tiles, p, Tile::Door) implies encased(map@.tiles, p) || holds(
                start.tiles,
                p,
                Tile::Door,
            ) || cells_of(forced@).contains(p) by {
                if !encased(map@.tiles, p) {
                    assert(exempt.union(cells_of(forced@).to_set()).contains(p));
                }
            }
        }
        forced
    }
}

} // verus!
