//! Every room that the partition yields ends with a door.

use crate::bsp::BSPNode;
use crate::doors::{
    best_slot, forcible, qualifies, ring_len, scanned, slot, solid_or_dug, with_doors,
    with_room_doors, crowded,
};
use crate::dungeon::{
    adjacent, beside, dug, holds, line_cells, room_cells, touching, with_corridor, with_corridors,
};
use crate::layout::{
    carved, dungeon_corridors, dungeon_room_positions, dungeon_rooms, dungeon_tiles, dungeon_tree,
    lemma_carved_owners, lemma_carved_plain, lemma_corridors_plain, lemma_dungeon_corridors_plain,
    lemma_dungeon_room_owners, lemma_dungeon_rooms_apart, wall_grid, with_exit,
};
use crate::map::{in_bounds, interior, painted};
use crate::rng::lcg_step;
use crate::tile::{Rect, Tile};
use vstd::prelude::*;

verus! {

/// True of the cells on the ring of door slots around `rect`.
pub open spec fn on_ring(rect: Rect, p: (int, int)) -> bool {
    exists|k: int| 0 <= k < ring_len(rect) && (#[trigger] slot(rect, k)).cell == p
}

/// A door stands on the ring around `rect`.
pub open spec fn has_door(tiles: Map<(int, int), Tile>, rect: Rect) -> bool {
    exists|k: int|
        0 <= k < ring_len(rect) && holds(tiles, (#[trigger] slot(rect, k)).cell, Tile::Door)
}

/// `after` is `before` but for doors in place of walls and corridors on
/// the ring around `rect`.
pub open spec fn changed_on_ring(
    before: Map<(int, int), Tile>,
    after: Map<(int, int), Tile>,
    rect: Rect,
) -> bool {
    &&& after.dom() == before.dom()
    &&& forall|p: (int, int)| #[trigger]
        before.contains_key(p) ==> after[p] == before[p] || (after[p] == Tile::Door && solid_or_dug(
            before,
            p,
        ) && on_ring(rect, p))
}

/// Every floor lies in a room.
pub open spec fn floor_in_rooms(
    tiles: Map<(int, int), Tile>,
    rooms: Seq<(Rect, u32)>,
    width: int,
    height: int,
) -> bool {
    forall|p: (int, int)| #[trigger]
        holds(tiles, p, Tile::Floor) ==> exists|j: int|
            0 <= j < rooms.len() && #[trigger] room_cells(rooms[j].0, width, height).contains(p)
}

/// The same cells are floor in both.
pub open spec fn same_floor(before: Map<(int, int), Tile>, after: Map<(int, int), Tile>) -> bool {
    forall|p: (int, int)| #[trigger] holds(after, p, Tile::Floor) <==> holds(before, p, Tile::Floor)
}

/// Scanning the slots of a room changes cells of its ring only, and
/// leaves a door there if it places one.
pub proof fn lemma_scanned_effect(
    tiles: Map<(int, int), Tile>,
    positions: Map<(int, int), u32>,
    id: u32,
    width: int,
    height: int,
    rect: Rect,
    k: int,
    placed: Seq<(int, int)>,
)
    requires
        0 <= k,
    ensures
        changed_on_ring(tiles, scanned(tiles, positions, id, width, height, rect, k, placed).0, rect),
        scanned(tiles, positions, id, width, height, rect, k, placed).1.len() >= placed.len(),
        scanned(tiles, positions, id, width, height, rect, k, placed).1.len() > placed.len()
            ==> has_door(scanned(tiles, positions, id, width, height, rect, k, placed).0, rect),
        scanned(tiles, positions, id, width, height, rect, k, placed).1.len() == placed.len()
            ==> scanned(tiles, positions, id, width, height, rect, k, placed).0 == tiles,
    decreases ring_len(rect) - k,
{
    if k >= ring_len(rect) {
    } else {
        let s = slot(rect, k);
        if qualifies(tiles, positions, id, width, height, s) && !crowded(placed, s.cell) {
            let t1 = tiles.insert(s.cell, Tile::Door);
            lemma_scanned_effect(t1, positions, id, width, height, rect, k + 1, placed.push(s.cell));
            let r = scanned(t1, positions, id, width, height, rect, k + 1, placed.push(s.cell));
            assert(t1.contains_key(s.cell));
            assert(holds(r.0, slot(rect, k).cell, Tile::Door));
            assert(r.0.dom() =~= tiles.dom());
            assert forall|p: (int, int)| #[trigger] tiles.contains_key(p) implies r.0[p] == tiles[p]
                || (r.0[p] == Tile::Door && solid_or_dug(tiles, p) && on_ring(rect, p)) by {
                assert(t1.contains_key(p));
                if p == s.cell {
                    assert(slot(rect, k).cell == p);
                }
            }
        } else {
            lemma_scanned_effect(tiles, positions, id, width, height, rect, k + 1, placed);
        }
    }
}

/// The slot at which a door is forced is one of the ring where a door
/// can be forced, and there is one if a door can be forced anywhere on
/// the ring.
pub proof fn lemma_best_slot_effect(
    tiles: Map<(int, int), Tile>,
    width: int,
    height: int,
    rect: Rect,
    k: int,
    best: Option<int>,
)
    requires
        0 <= k,
        best matches Some(b) ==> 0 <= b < ring_len(rect) && forcible(
            tiles,
            width,
            height,
            slot(rect, b),
        ),
    ensures
        best_slot(tiles, width, height, rect, k, best) matches Some(b) ==> 0 <= b < ring_len(rect)
            && forcible(tiles, width, height, slot(rect, b)),
        best is Some ==> best_slot(tiles, width, height, rect, k, best) is Some,
        forall|j: int|
            k <= j < ring_len(rect) && forcible(tiles, width, height, #[trigger] slot(rect, j))
                ==> best_slot(tiles, width, height, rect, k, best) is Some,
    decreases ring_len(rect) - k,
{
    if k >= ring_len(rect) {
    } else {
        let s = slot(rect, k);
        let better = forcible(tiles, width, height, s) && match best {
            Some(b) => crate::doors::openings(tiles, slot(rect, b).cell) < crate::doors::openings(
                tiles,
                s.cell,
            ),
            None => true,
        };
        let next = if better {
            Some(k)
        } else {
            best
        };
        lemma_best_slot_effect(tiles, width, height, rect, k + 1, next);
    }
}

/// Placing the doors of a room changes cells of its ring only, and
/// leaves a door there if a door can be forced somewhere on the ring.
pub proof fn lemma_room_doors_effect(
    tiles: Map<(int, int), Tile>,
    positions: Map<(int, int), u32>,
    width: int,
    height: int,
    rect: Rect,
    id: u32,
)
    ensures
        changed_on_ring(
            tiles,
            with_room_doors(tiles, positions, width, height, rect, id).0,
            rect,
        ),
        (exists|j: int|
            0 <= j < ring_len(rect) && forcible(tiles, width, height, #[trigger] slot(rect, j)))
            ==> has_door(with_room_doors(tiles, positions, width, height, rect, id).0, rect),
{
    let none = Seq::<(int, int)>::empty();
    lemma_scanned_effect(tiles, positions, id, width, height, rect, 0, none);
    let (t1, placed) = scanned(tiles, positions, id, width, height, rect, 0, none);
    let result = with_room_doors(tiles, positions, width, height, rect, id).0;
    if placed.len() > 0 {
    } else {
        assert(t1 == tiles);
        lemma_best_slot_effect(tiles, width, height, rect, 0, None);
        match best_slot(tiles, width, height, rect, 0, None) {
            Some(k) => {
                let cell = slot(rect, k).cell;
                assert(tiles.contains_key(cell));
                assert(result == tiles.insert(cell, Tile::Door));
                assert(result.dom() =~= tiles.dom());
                assert(holds(result, slot(rect, k).cell, Tile::Door));
                assert forall|p: (int, int)| #[trigger] tiles.contains_key(p) implies result[p]
                    == tiles[p] || (result[p] == Tile::Door && solid_or_dug(tiles, p) && on_ring(
                    rect,
                    p,
                )) by {
                    if p == cell {
                        assert(slot(rect, k).cell == p);
                    }
                }
            },
            None => {},
        }
    }
}

/// The ring of a room is away from the first slot of a room that is four
/// cells or more apart: no cell of the ring is the cell of that slot,
/// the cell behind it, or next to it.
pub proof fn lemma_ring_far(a: Rect, b: Rect, p: (int, int))
    requires
        a.apart(b, 4),
        1 <= a.width,
        1 <= a.height,
        1 <= b.width,
        1 <= b.height,
        on_ring(a, p),
    ensures
        p != slot(b, 0).cell,
        p != slot(b, 0).inside(),
        !adjacent(p, slot(b, 0).cell),
{
    let k = choose|k: int| 0 <= k < ring_len(a) && (#[trigger] slot(a, k)).cell == p;
    assert(a.x - 1 <= p.0 <= a.x + a.width);
    assert(a.y - 1 <= p.1 <= a.y + a.height);
}

/// A door can still be forced at the first slot of a room after the
/// doors of a room four cells or more apart are placed.
pub proof fn lemma_forcible_kept(
    before: Map<(int, int), Tile>,
    after: Map<(int, int), Tile>,
    width: int,
    height: int,
    a: Rect,
    b: Rect,
)
    requires
        changed_on_ring(before, after, a),
        a.apart(b, 4),
        1 <= a.width,
        1 <= a.height,
        1 <= b.width,
        1 <= b.height,
        forcible(before, width, height, slot(b, 0)),
    ensures
        forcible(after, width, height, slot(b, 0)),
{
    let s = slot(b, 0);
    let c = s.cell;
    assert forall|p: (int, int)|
        (p == c || p == s.inside() || adjacent(p, c)) && before.contains_key(p) implies after[p]
        == before[p] by {
        if on_ring(a, p) {
            lemma_ring_far(a, b, p);
        }
    }
    assert(before.contains_key(c) && before.contains_key(s.inside()));
    assert(after.contains_key(c) && after.contains_key(s.inside()));
    assert(!beside(after, c, Tile::Door)) by {
        let n1 = (c.0 - 1, c.1);
        let n2 = (c.0 + 1, c.1);
        let n3 = (c.0, c.1 - 1);
        let n4 = (c.0, c.1 + 1);
        assert(adjacent(n1, c) && adjacent(n2, c) && adjacent(n3, c) && adjacent(n4, c));
        assert(after.contains_key(n1) == before.contains_key(n1));
        assert(after.contains_key(n2) == before.contains_key(n2));
        assert(after.contains_key(n3) == before.contains_key(n3));
        assert(after.contains_key(n4) == before.contains_key(n4));
    }
}

/// A door on a ring stays when doors are placed elsewhere.
pub proof fn lemma_door_kept(
    before: Map<(int, int), Tile>,
    after: Map<(int, int), Tile>,
    a: Rect,
    b: Rect,
)
    requires
        changed_on_ring(before, after, a),
        has_door(before, b),
    ensures
        has_door(after, b),
{
    let k = choose|k: int|
        0 <= k < ring_len(b) && holds(before, (#[trigger] slot(b, k)).cell, Tile::Door);
    assert(holds(after, slot(b, k).cell, Tile::Door));
}

/// The rooms are at least one cell long and wide and four cells apart.
pub open spec fn spaced(rooms: Seq<(Rect, u32)>) -> bool {
    &&& forall|i: int| 0 <= i < rooms.len() ==> 1 <= (#[trigger] rooms[i]).0.width && 1 <= rooms[i].0.height
    &&& forall|i: int, j: int|
        0 <= i < j < rooms.len() ==> (#[trigger] rooms[i]).0.apart((#[trigger] rooms[j]).0, 4)
}

/// After the doors of all rooms are placed, every room has a door on
/// its ring, where a door could be forced at the first slot of every
/// room that is still to come.
pub proof fn lemma_all_rooms_get_doors(
    tiles: Map<(int, int), Tile>,
    positions: Map<(int, int), u32>,
    width: int,
    height: int,
    rooms: Seq<(Rect, u32)>,
    i: int,
    forced: Seq<(int, int)>,
)
    requires
        0 <= i,
        spaced(rooms),
        forall|m: int|
            i <= m < rooms.len() ==> forcible(tiles, width, height, slot((#[trigger] rooms[m]).0, 0)),
        forall|m: int| 0 <= m < i && m < rooms.len() ==> has_door(tiles, (#[trigger] rooms[m]).0),
    ensures
        forall|m: int|
            0 <= m < rooms.len() ==> has_door(
                with_doors(tiles, positions, width, height, rooms, i, forced).0,
                (#[trigger] rooms[m]).0,
            ),
    decreases rooms.len() - i,
{
    if i >= rooms.len() {
    } else {
        let rect = rooms[i].0;
        lemma_room_doors_effect(tiles, positions, width, height, rect, rooms[i].1);
        let (t1, f) = with_room_doors(tiles, positions, width, height, rect, rooms[i].1);
        assert(0 <= 0 < ring_len(rect) && forcible(tiles, width, height, slot(rect, 0)));
        assert(has_door(t1, rect));
        let next = match f {
            Some(cell) => forced.push(cell),
            None => forced,
        };
        assert forall|m: int| i + 1 <= m < rooms.len() implies forcible(
            t1,
            width,
            height,
            slot((#[trigger] rooms[m]).0, 0),
        ) by {
            assert(rooms[i].0.apart(rooms[m].0, 4));
            lemma_forcible_kept(tiles, t1, width, height, rect, rooms[m].0);
        }
        assert forall|m: int| 0 <= m < i + 1 && m < rooms.len() implies has_door(
            t1,
            (#[trigger] rooms[m]).0,
        ) by {
            if m < i {
                lemma_door_kept(tiles, t1, rect, rooms[m].0);
            }
        }
        lemma_all_rooms_get_doors(t1, positions, width, height, rooms, i + 1, next);
    }
}

/// Carving rooms makes floor in rooms only.
pub proof fn lemma_carved_floor_in_rooms(
    tiles: Map<(int, int), Tile>,
    positions: Map<(int, int), u32>,
    width: int,
    height: int,
    rooms: Seq<(Rect, u32)>,
    i: int,
)
    requires
        0 <= i,
        floor_in_rooms(tiles, rooms, width, height),
    ensures
        floor_in_rooms(carved(tiles, positions, width, height, rooms, i).0, rooms, width, height),
    decreases rooms.len() - i,
{
    if i >= rooms.len() {
    } else {
        let cells = room_cells(rooms[i].0, width, height);
        let t1 = painted(tiles, cells, Tile::Floor);
        assert forall|p: (int, int)| #[trigger] holds(t1, p, Tile::Floor) implies exists|j: int|
            0 <= j < rooms.len() && #[trigger] room_cells(rooms[j].0, width, height).contains(p) by {
            if cells.contains(p) {
                assert(room_cells(rooms[i].0, width, height).contains(p));
            } else {
                assert(holds(tiles, p, Tile::Floor));
            }
        }
        lemma_carved_floor_in_rooms(
            t1,
            painted(positions, cells, rooms[i].1),
            width,
            height,
            rooms,
            i + 1,
        );
    }
}

/// A corridor makes no floor and takes none away.
pub proof fn lemma_corridor_same_floor(
    tiles: Map<(int, int), Tile>,
    width: int,
    height: int,
    from: (int, int),
    to: (int, int),
    row_first: bool,
)
    ensures
        same_floor(tiles, with_corridor(tiles, width, height, from, to, row_first)),
{
    let first = if row_first {
        line_cells(from.0, from.1, to.0, from.1)
    } else {
        line_cells(from.0, from.1, from.0, to.1)
    };
    let second = if row_first {
        line_cells(to.0, from.1, to.0, to.1)
    } else {
        line_cells(from.0, to.1, to.0, to.1)
    };
    let a = dug(tiles, width, height, first);
    let b = dug(a, width, height, second);
    let c = dug(b, width, height, touching(b, from));
    let d = dug(c, width, height, touching(c, to));
    assert forall|p: (int, int)| #[trigger] holds(d, p, Tile::Floor) <==> holds(
        tiles,
        p,
        Tile::Floor,
    ) by {
        assert(holds(a, p, Tile::Floor) <==> holds(tiles, p, Tile::Floor));
        assert(holds(b, p, Tile::Floor) <==> holds(a, p, Tile::Floor));
        assert(holds(c, p, Tile::Floor) <==> holds(b, p, Tile::Floor));
        assert(holds(d, p, Tile::Floor) <==> holds(c, p, Tile::Floor));
    }
}

/// The corridors of a tree make no floor and take none away.
pub proof fn lemma_corridors_same_floor(
    node: BSPNode,
    tiles: Map<(int, int), Tile>,
    width: int,
    height: int,
    state: u32,
)
    ensures
        same_floor(tiles, with_corridors(node, tiles, width, height, state).0),
    decreases node,
{
    match (node.left, node.right) {
        (Some(l), Some(r)) => {
            lemma_corridors_same_floor(*l, tiles, width, height, state);
            let (t1, s1) = with_corridors(*l, tiles, width, height, state);
            lemma_corridors_same_floor(*r, t1, width, height, s1);
            let (t2, s2) = with_corridors(*r, t1, width, height, s1);
            let s3 = lcg_step(s2);
            lemma_corridor_same_floor(
                t2,
                width,
                height,
                l.connection_center(),
                r.connection_center(),
                s3 % 2 == 0,
            );
            let result = with_corridors(node, tiles, width, height, state).0;
            assert forall|p: (int, int)| #[trigger] holds(result, p, Tile::Floor) <==> holds(
                tiles,
                p,
                Tile::Floor,
            ) by {
                assert(holds(t1, p, Tile::Floor) <==> holds(tiles, p, Tile::Floor));
                assert(holds(t2, p, Tile::Floor) <==> holds(t1, p, Tile::Floor));
            }
        },
        _ => {},
    }
}

/// Every room that the partition of a generated dungeon yields has a
/// door on the ring of cells around it.
pub proof fn lemma_dungeon_rooms_have_doors(width: int, height: int, seed: u32)
    requires
        i32::MIN <= width <= i32::MAX,
        i32::MIN <= height <= i32::MAX,
        dungeon_tree(width, height, seed).0.rooms_of().len() > 0,
    ensures
        forall|m: int|
            0 <= m < dungeon_rooms(width, height, seed).len() ==> has_door(
                dungeon_tiles(width, height, seed),
                (#[trigger] dungeon_rooms(width, height, seed)[m]).0,
            ),
{
    let (tree, state) = dungeon_tree(width, height, seed);
    let rooms = dungeon_rooms(width, height, seed);
    assert(rooms == tree.rooms_of());
    lemma_dungeon_rooms_apart(width, height, seed);
    lemma_dungeon_room_owners(width, height, seed);
    lemma_dungeon_corridors_plain(width, height, seed);
    tree.lemma_rooms_apart();
    let t0 = wall_grid(width, height);
    let no_owners = Map::<(int, int), u32>::empty();
    assert(floor_in_rooms(t0, rooms, width, height));
    lemma_carved_floor_in_rooms(t0, no_owners, width, height, rooms, 0);
    lemma_carved_owners(t0, no_owners, width, height, rooms, 0);
    let (t1, positions) = carved(t0, no_owners, width, height, rooms, 0);
    lemma_corridors_same_floor(tree, t1, width, height, state);
    let t2 = dungeon_corridors(width, height, seed);
    assert(t2 == with_corridors(tree, t1, width, height, state).0);
    lemma_carved_plain(t0, no_owners, width, height, rooms, 0);
    lemma_corridors_plain(tree, t1, width, height, state);
    assert(spaced(rooms));
    assert forall|m: int| 0 <= m < rooms.len() implies forcible(
        t2,
        width,
        height,
        slot((#[trigger] rooms[m]).0, 0),
    ) by {
        let rect = rooms[m].0;
        let s = slot(rect, 0);
        let c = s.cell;
        let inside = s.inside();
        assert(rect.within(tree.rect(), 2));
        assert(rect.covers(inside));
        assert(interior(inside, width, height));
        assert(room_cells(rect, width, height).contains(inside));
        assert(holds(t1, inside, Tile::Floor));
        assert(holds(t2, inside, Tile::Floor));
        assert(interior(c, width, height));
        assert(in_bounds(c, width, height));
        assert(t0.contains_key(c));
        assert(t1.dom().contains(c)) by {
            lemma_full_carved(t0, no_owners, width, height, rooms, 0, c);
        }
        assert(t2.contains_key(c));
        if holds(t2, c, Tile::Floor) {
            assert(holds(t1, c, Tile::Floor));
            let j = choose|j: int|
                0 <= j < rooms.len() && #[trigger] room_cells(rooms[j].0, width, height).contains(c);
            if j < m {
                assert(rooms[j].0.apart(rooms[m].0, 4));
            } else if m < j {
                assert(rooms[m].0.apart(rooms[j].0, 4));
            }
        }
        assert(solid_or_dug(t2, c));
        assert(!beside(t2, c, Tile::Door));
    }
    lemma_all_rooms_get_doors(
        t2,
        dungeon_room_positions(width, height, seed),
        width,
        height,
        rooms,
        0,
        Seq::<(int, int)>::empty(),
    );
    let t3 = with_doors(
        t2,
        dungeon_room_positions(width, height, seed),
        width,
        height,
        rooms,
        0,
        Seq::<(int, int)>::empty(),
    ).0;
    let t4 = with_exit(t3, rooms);
    assert(t4 == dungeon_tiles(width, height, seed));
    assert forall|m: int| 0 <= m < rooms.len() implies has_door(t4, (#[trigger] rooms[m]).0) by {
        let k = choose|k: int|
            0 <= k < ring_len(rooms[m].0) && holds(t3, (#[trigger] slot(rooms[m].0, k)).cell, Tile::Door);
        assert(holds(t4, slot(rooms[m].0, k).cell, Tile::Door));
    }
}

/// Carving rooms keeps a cell that has a tile.
pub proof fn lemma_full_carved(
    tiles: Map<(int, int), Tile>,
    positions: Map<(int, int), u32>,
    width: int,
    height: int,
    rooms: Seq<(Rect, u32)>,
    i: int,
    p: (int, int),
)
    requires
        tiles.contains_key(p),
    ensures
        carved(tiles, positions, width, height, rooms, i).0.contains_key(p),
    decreases rooms.len() - i,
{
    if i < 0 || i >= rooms.len() {
    } else {
        let cells = room_cells(rooms[i].0, width, height);
        lemma_full_carved(
            painted(tiles, cells, Tile::Floor),
            painted(positions, cells, rooms[i].1),
            width,
            height,
            rooms,
            i + 1,
            p,
        );
    }
}

} // verus!
