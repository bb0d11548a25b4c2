//! What a generated dungeon is, as a function of its size and seed.

use crate::bsp::BSPNode;
use crate::doors::{doors_encased, with_doors};
use crate::dungeon::{beside, dug, holds, room_cells, touching, with_corridor, with_corridors};
use crate::map::{block, in_bounds, interior, painted};
use crate::tile::{Rect, Tile};
use vstd::prelude::*;

verus! {

/// Rooms are at least this long on each side.
pub const MIN_ROOM_SIZE: i32 = 5;

/// Rooms are at most this long on each side.
pub const MAX_ROOM_SIZE: i32 = 8;

/// Where the fallback room starts and how long it is along a side of
/// the map with `length` cells: `wanted` cells from the third on where
/// they fit inside the border, else all cells inside the border.
pub open spec fn fallback_side(length: int, wanted: int) -> (int, int) {
    if length >= wanted + 3 {
        (2, wanted)
    } else if length >= 3 {
        (1, length - 2)
    } else {
        (1, 0)
    }
}

/// The room that a level gets when its partition yields none: six by
/// four cells where the map has the space, and always inside its
/// border.
pub open spec fn fallback_room(width: int, height: int) -> Rect {
    Rect {
        x: fallback_side(width, 6).0 as i32,
        y: fallback_side(height, 4).0 as i32,
        width: fallback_side(width, 6).1 as i32,
        height: fallback_side(height, 4).1 as i32,
    }
}

/// The shortest side a partition may have, by the size of the map.
pub open spec fn partition_min_size(width: int, height: int) -> int {
    if width >= 80 && height >= 40 {
        12
    } else {
        10
    }
}

/// The depth to which the map is partitioned, by its size.
pub open spec fn partition_depth(width: int, height: int) -> int {
    if width >= 80 && height >= 40 {
        5
    } else {
        3
    }
}

/// The root of the partition: the map without its one-cell border.
pub open spec fn root_node(width: int, height: int) -> BSPNode {
    BSPNode {
        x: 1,
        y: 1,
        width: (if width >= 2 {
            width - 2
        } else {
            0
        }) as i32,
        height: (if height >= 2 {
            height - 2
        } else {
            0
        }) as i32,
        left: None,
        right: None,
        room: None,
        id: 0,
    }
}

/// The partition tree of the dungeon with its rooms, and the generator
/// state once the rooms are created.
pub open spec fn dungeon_tree(width: int, height: int, seed: u32) -> (BSPNode, u32) {
    let (tree, next_id, state) = root_node(width, height).partitioned(
        1,
        partition_min_size(width, height),
        partition_depth(width, height),
        seed,
    );
    tree.with_rooms(MIN_ROOM_SIZE as int, MAX_ROOM_SIZE as int, state)
}

/// The rooms found, or the fallback room alone if there are none.
pub open spec fn with_fallback(found: Seq<(Rect, u32)>, width: int, height: int) -> Seq<
    (Rect, u32),
> {
    if found.len() == 0 {
        seq![(fallback_room(width, height), 0u32)]
    } else {
        found
    }
}

/// The rectangles and ids of the dungeon's rooms, in order.
pub open spec fn dungeon_rooms(width: int, height: int, seed: u32) -> Seq<(Rect, u32)> {
    with_fallback(dungeon_tree(width, height, seed).0.rooms_of(), width, height)
}

/// The tiles and room owners after the rooms from `i` on are carved, in
/// order.
pub open spec fn carved(
    tiles: Map<(int, int), Tile>,
    positions: Map<(int, int), u32>,
    width: int,
    height: int,
    rooms: Seq<(Rect, u32)>,
    i: int,
) -> (Map<(int, int), Tile>, Map<(int, int), u32>)
    decreases rooms.len() - i,
{
    if i < 0 || i >= rooms.len() {
        (tiles, positions)
    } else {
        carved(
            painted(tiles, room_cells(rooms[i].0, width, height), Tile::Floor),
            painted(positions, room_cells(rooms[i].0, width, height), rooms[i].1),
            width,
            height,
            rooms,
            i + 1,
        )
    }
}

/// How far in from the corner of a room the exit lies along a side of
/// the given length: one step, or none where the side is a single cell.
pub open spec fn exit_inset(length: int) -> int {
    if length == 1 {
        0
    } else {
        1
    }
}

/// The cell where the level is entered and left: one step in from the
/// corner of the first room.
pub open spec fn exit_cell(rooms: Seq<(Rect, u32)>) -> (int, int) {
    (
        rooms[0].0.x + exit_inset(rooms[0].0.width as int),
        rooms[0].0.y + exit_inset(rooms[0].0.height as int),
    )
}

/// `tiles` with the exit in the first room, where that cell is a floor
/// with no door next to it.
pub open spec fn with_exit(tiles: Map<(int, int), Tile>, rooms: Seq<(Rect, u32)>) -> Map<
    (int, int),
    Tile,
> {
    if rooms.len() > 0 && holds(tiles, exit_cell(rooms), Tile::Floor) && !beside(
        tiles,
        exit_cell(rooms),
        Tile::Door,
    ) {
        tiles.insert(exit_cell(rooms), Tile::DungeonExit)
    } else {
        tiles
    }
}

/// A map of the given size that is all wall.
pub open spec fn wall_grid(width: int, height: int) -> Map<(int, int), Tile> {
    painted(Map::<(int, int), Tile>::empty(), block(0, width, 0, height), Tile::Wall)
}

/// The tiles of the dungeon before doors are placed.
pub open spec fn dungeon_corridors(width: int, height: int, seed: u32) -> Map<(int, int), Tile> {
    let (tree, state) = dungeon_tree(width, height, seed);
    let rooms = dungeon_rooms(width, height, seed);
    let (t1, positions) = carved(
        wall_grid(width, height),
        Map::<(int, int), u32>::empty(),
        width,
        height,
        rooms,
        0,
    );
    with_corridors(tree, t1, width, height, state).0
}

/// For each cell of a room of the dungeon, the id of the room.
pub open spec fn dungeon_room_positions(width: int, height: int, seed: u32) -> Map<
    (int, int),
    u32,
> {
    carved(
        wall_grid(width, height),
        Map::<(int, int), u32>::empty(),
        width,
        height,
        dungeon_rooms(width, height, seed),
        0,
    ).1
}

/// The cells of the doors that had to be forced, in order.
pub open spec fn dungeon_forced_doors(width: int, height: int, seed: u32) -> Seq<(int, int)> {
    with_doors(
        dungeon_corridors(width, height, seed),
        dungeon_room_positions(width, height, seed),
        width,
        height,
        dungeon_rooms(width, height, seed),
        0,
        Seq::<(int, int)>::empty(),
    ).1
}

/// The tiles of the dungeon of the given size and seed.
pub open spec fn dungeon_tiles(width: int, height: int, seed: u32) -> Map<(int, int), Tile> {
    with_exit(
        with_doors(
            dungeon_corridors(width, height, seed),
            dungeon_room_positions(width, height, seed),
            width,
            height,
            dungeon_rooms(width, height, seed),
            0,
            Seq::<(int, int)>::empty(),
        ).0,
        dungeon_rooms(width, height, seed),
    )
}

/// Every tile lies on the map and is wall, floor or corridor.
pub open spec fn plain(tiles: Map<(int, int), Tile>, width: int, height: int) -> bool {
    forall|p: (int, int)| #[trigger]
        tiles.contains_key(p) ==> in_bounds(p, width, height) && (tiles[p] == Tile::Wall
            || tiles[p] == Tile::Floor || tiles[p] == Tile::Corridor)
}

/// Every cell with an owner holds a tile.
pub open spec fn owners_tiled(
    tiles: Map<(int, int), Tile>,
    positions: Map<(int, int), u32>,
) -> bool {
    forall|p: (int, int)| #[trigger] positions.contains_key(p) ==> tiles.contains_key(p)
}

/// Carving rooms keeps the tiles plain and the owners on tiles.
pub proof fn lemma_carved_plain(
    tiles: Map<(int, int), Tile>,
    positions: Map<(int, int), u32>,
    width: int,
    height: int,
    rooms: Seq<(Rect, u32)>,
    i: int,
)
    requires
        plain(tiles, width, height),
        owners_tiled(tiles, positions),
    ensures
        plain(carved(tiles, positions, width, height, rooms, i).0, width, height),
        owners_tiled(
            carved(tiles, positions, width, height, rooms, i).0,
            carved(tiles, positions, width, height, rooms, i).1,
        ),
    decreases rooms.len() - i,
{
    if i < 0 || i >= rooms.len() {
    } else {
        let t1 = painted(tiles, room_cells(rooms[i].0, width, height), Tile::Floor);
        let owners = painted(positions, room_cells(rooms[i].0, width, height), rooms[i].1);
        assert(plain(t1, width, height));
        assert(owners_tiled(t1, owners));
        lemma_carved_plain(t1, owners, width, height, rooms, i + 1);
    }
}

/// Digging a corridor keeps the tiles plain and on the same cells.
pub proof fn lemma_corridor_plain(
    tiles: Map<(int, int), Tile>,
    width: int,
    height: int,
    from: (int, int),
    to: (int, int),
    row_first: bool,
)
    requires
        plain(tiles, width, height),
    ensures
        plain(with_corridor(tiles, width, height, from, to, row_first), width, height),
        with_corridor(tiles, width, height, from, to, row_first).dom() == tiles.dom(),
{
    let a = if row_first {
        dug(tiles, width, height, crate::dungeon::line_cells(from.0, from.1, to.0, from.1))
    } else {
        dug(tiles, width, height, crate::dungeon::line_cells(from.0, from.1, from.0, to.1))
    };
    let t1 = if row_first {
        dug(a, width, height, crate::dungeon::line_cells(to.0, from.1, to.0, to.1))
    } else {
        dug(a, width, height, crate::dungeon::line_cells(from.0, to.1, to.0, to.1))
    };
    let t2 = dug(t1, width, height, touching(t1, from));
    let t3 = dug(t2, width, height, touching(t2, to));
    assert(a.dom() =~= tiles.dom());
    assert(t1.dom() =~= tiles.dom());
    assert(t2.dom() =~= tiles.dom());
    assert(t3.dom() =~= tiles.dom());
    assert(plain(a, width, height));
    assert(plain(t1, width, height));
    assert(plain(t2, width, height));
    assert(plain(t3, width, height));
}

/// Digging the corridors of a tree keeps the tiles plain and on the same
/// cells.
pub proof fn lemma_corridors_plain(
    node: BSPNode,
    tiles: Map<(int, int), Tile>,
    width: int,
    height: int,
    state: u32,
)
    requires
        plain(tiles, width, height),
    ensures
        plain(with_corridors(node, tiles, width, height, state).0, width, height),
        with_corridors(node, tiles, width, height, state).0.dom() == tiles.dom(),
    decreases node,
{
    match (node.left, node.right) {
        (Some(l), Some(r)) => {
            lemma_corridors_plain(*l, tiles, width, height, state);
            let (t1, s1) = with_corridors(*l, tiles, width, height, state);
            lemma_corridors_plain(*r, t1, width, height, s1);
            let (t2, s2) = with_corridors(*r, t1, width, height, s1);
            let s3 = crate::rng::lcg_step(s2);
            lemma_corridor_plain(
                t2,
                width,
                height,
                l.connection_center(),
                r.connection_center(),
                s3 % 2 == 0,
            );
        },
        _ => {},
    }
}

/// Placing the exit keeps every door encased.
pub proof fn lemma_exit_keeps_encased(
    tiles: Map<(int, int), Tile>,
    rooms: Seq<(Rect, u32)>,
    exempt: Set<(int, int)>,
)
    requires
        doors_encased(tiles, exempt),
    ensures
        doors_encased(with_exit(tiles, rooms), exempt),
        with_exit(tiles, rooms).dom() == tiles.dom(),
{
    let after = with_exit(tiles, rooms);
    if after != tiles {
        let e = exit_cell(rooms);
        assert forall|p: (int, int)| #[trigger] holds(after, p, Tile::Door) implies crate::doors::encased(
            after,
            p,
        ) || exempt.contains(p) by {
            assert(holds(tiles, p, Tile::Door));
            if crate::doors::encased(tiles, p) {
                assert(crate::doors::encased(after, p));
            }
        }
        assert(after.dom() =~= tiles.dom());
    }
}

/// The dungeon before doors is plain, and its room owners stand on
/// tiles.
pub proof fn lemma_dungeon_corridors_plain(width: int, height: int, seed: u32)
    ensures
        plain(dungeon_corridors(width, height, seed), width, height),
        owners_tiled(
            dungeon_corridors(width, height, seed),
            dungeon_room_positions(width, height, seed),
        ),
{
    let (tree, state) = dungeon_tree(width, height, seed);
    let rooms = dungeon_rooms(width, height, seed);
    let t0 = wall_grid(width, height);
    let no_owners = Map::<(int, int), u32>::empty();
    assert(plain(t0, width, height));
    assert(owners_tiled(t0, no_owners));
    lemma_carved_plain(t0, no_owners, width, height, rooms, 0);
    let (t1, positions) = carved(t0, no_owners, width, height, rooms, 0);
    lemma_corridors_plain(tree, t1, width, height, state);
}

/// Every door of a generated dungeon stands in a breach one cell wide,
/// with walls on two opposite sides and floor or corridor on the other
/// two, but for the doors that had to be forced; and every tile lies
/// within the map.
pub proof fn lemma_dungeon_doors_encased(width: int, height: int, seed: u32)
    ensures
        doors_encased(
            dungeon_tiles(width, height, seed),
            dungeon_forced_doors(width, height, seed).to_set(),
        ),
        forall|p: (int, int)| #[trigger]
            dungeon_tiles(width, height, seed).contains_key(p) ==> in_bounds(p, width, height),
        owners_tiled(dungeon_tiles(width, height, seed), dungeon_room_positions(width, height, seed)),
{
    lemma_dungeon_corridors_plain(width, height, seed);
    let t2 = dungeon_corridors(width, height, seed);
    let positions = dungeon_room_positions(width, height, seed);
    let rooms = dungeon_rooms(width, height, seed);
    let none = Set::<(int, int)>::empty();
    assert(none.union(Seq::<(int, int)>::empty().to_set()) =~= none);
    assert(doors_encased(t2, none));
    crate::doors::lemma_with_doors_encased(
        t2,
        positions,
        width,
        height,
        rooms,
        0,
        Seq::<(int, int)>::empty(),
        none,
    );
    let (t3, forced) = with_doors(t2, positions, width, height, rooms, 0, Seq::<(int, int)>::empty());
    assert(none.union(forced.to_set()) =~= forced.to_set());
    lemma_exit_keeps_encased(t3, rooms, forced.to_set());
    let t4 = with_exit(t3, rooms);
    assert forall|p: (int, int)| #[trigger] t4.contains_key(p) implies in_bounds(p, width, height) by {
        assert(t3.contains_key(p));
        assert(t2.contains_key(p));
    }
    assert forall|p: (int, int)| #[trigger] positions.contains_key(p) implies t4.contains_key(p) by {
        assert(t2.contains_key(p));
        assert(t3.contains_key(p));
    }
}

/// Rooms that do not overlap own their cells: after the rooms from `i`
/// on are carved, each cell of such a room that is not on the border is
/// a floor owned by that room, and cells of none of them are as before.
pub proof fn lemma_carved_owners(
    tiles: Map<(int, int), Tile>,
    positions: Map<(int, int), u32>,
    width: int,
    height: int,
    rooms: Seq<(Rect, u32)>,
    i: int,
)
    requires
        0 <= i,
        forall|a: int, b: int|
            0 <= a < b < rooms.len() ==> !(#[trigger] rooms[a]).0.intersects((#[trigger] rooms[b]).0),
    ensures
        forall|j: int, p: (int, int)|
            i <= j < rooms.len() && #[trigger] room_cells(rooms[j].0, width, height).contains(p) ==> {
                &&& holds(carved(tiles, positions, width, height, rooms, i).0, p, Tile::Floor)
                &&& carved(tiles, positions, width, height, rooms, i).1.contains_key(p)
                &&& carved(tiles, positions, width, height, rooms, i).1[p] == rooms[j].1
            },
        forall|p: (int, int)|
            (forall|j: int|
                i <= j < rooms.len() ==> !#[trigger] room_cells(rooms[j].0, width, height).contains(
                    p,
                )) ==> {
                &&& #[trigger] carved(tiles, positions, width, height, rooms, i).1.contains_key(p)
                    == positions.contains_key(p)
                &&& positions.contains_key(p) ==> carved(
                    tiles,
                    positions,
                    width,
                    height,
                    rooms,
                    i,
                ).1[p] == positions[p]
            },
    decreases rooms.len() - i,
{
    if i >= rooms.len() {
    } else {
        let cells = room_cells(rooms[i].0, width, height);
        let t1 = painted(tiles, cells, Tile::Floor);
        let owners = painted(positions, cells, rooms[i].1);
        lemma_carved_owners(t1, owners, width, height, rooms, i + 1);
        let result = carved(tiles, positions, width, height, rooms, i);
        assert(result == carved(t1, owners, width, height, rooms, i + 1));
        assert forall|j: int, p: (int, int)|
            i <= j < rooms.len() && #[trigger] room_cells(rooms[j].0, width, height).contains(
                p,
            ) implies {
            &&& holds(result.0, p, Tile::Floor)
            &&& result.1.contains_key(p)
            &&& result.1[p] == rooms[j].1
        } by {
            if j == i {
                assert forall|m: int| i + 1 <= m < rooms.len() implies !#[trigger] room_cells(
                    rooms[m].0,
                    width,
                    height,
                ).contains(p) by {
                    assert(!rooms[i].0.intersects(rooms[m].0));
                }
                assert(result.1.contains_key(p) == owners.contains_key(p));
                lemma_carved_floor(t1, owners, width, height, rooms, i + 1, p);
            }
        }
        assert forall|p: (int, int)|
            (forall|j: int|
                i <= j < rooms.len() ==> !#[trigger] room_cells(rooms[j].0, width, height).contains(
                    p,
                )) implies {
            &&& #[trigger] result.1.contains_key(p) == positions.contains_key(p)
            &&& positions.contains_key(p) ==> result.1[p] == positions[p]
        } by {
            assert(!room_cells(rooms[i].0, width, height).contains(p));
            assert forall|j: int| i + 1 <= j < rooms.len() implies !#[trigger] room_cells(
                rooms[j].0,
                width,
                height,
            ).contains(p) by {}
            assert(result.1.contains_key(p) == owners.contains_key(p));
        }
    }
}

/// Carving rooms leaves a floor a floor.
pub proof fn lemma_carved_floor(
    tiles: Map<(int, int), Tile>,
    positions: Map<(int, int), u32>,
    width: int,
    height: int,
    rooms: Seq<(Rect, u32)>,
    i: int,
    p: (int, int),
)
    requires
        holds(tiles, p, Tile::Floor),
    ensures
        holds(carved(tiles, positions, width, height, rooms, i).0, p, Tile::Floor),
    decreases rooms.len() - i,
{
    if i < 0 || i >= rooms.len() {
    } else {
        let cells = room_cells(rooms[i].0, width, height);
        lemma_carved_floor(
            painted(tiles, cells, Tile::Floor),
            painted(positions, cells, rooms[i].1),
            width,
            height,
            rooms,
            i + 1,
            p,
        );
    }
}

/// No two rooms of a generated dungeon overlap, and any two are at least
/// four cells apart. Where the map has cells inside its border, each
/// room is at least one cell long and wide.
pub proof fn lemma_dungeon_rooms_apart(width: int, height: int, seed: u32)
    requires
        i32::MIN <= width <= i32::MAX,
        i32::MIN <= height <= i32::MAX,
    ensures
        dungeon_rooms(width, height, seed).len() >= 1,
        dungeon_tree(width, height, seed).0.well_formed(),
        forall|i: int|
            0 <= i < dungeon_rooms(width, height, seed).len() ==> 0 <= (#[trigger] dungeon_rooms(
                width,
                height,
                seed,
            )[i]).0.width && 0 <= dungeon_rooms(width, height, seed)[i].0.height,
        width >= 3 && height >= 3 ==> forall|i: int|
            0 <= i < dungeon_rooms(width, height, seed).len() ==> 1 <= (#[trigger] dungeon_rooms(
                width,
                height,
                seed,
            )[i]).0.width && 1 <= dungeon_rooms(width, height, seed)[i].0.height,
        forall|i: int, j: int|
            0 <= i < j < dungeon_rooms(width, height, seed).len() ==> {
                &&& !(#[trigger] dungeon_rooms(width, height, seed)[i]).0.intersects(
                    (#[trigger] dungeon_rooms(width, height, seed)[j]).0,
                )
                &&& dungeon_rooms(width, height, seed)[i].0.apart(
                    dungeon_rooms(width, height, seed)[j].0,
                    4,
                )
            },
{
    let root = root_node(width, height);
    let min_size = partition_min_size(width, height);
    let depth = partition_depth(width, height);
    root.lemma_partitioned_well_formed(1, min_size, depth, seed);
    let (tree, next_id, state) = root.partitioned(1, min_size, depth, seed);
    tree.lemma_with_rooms_well_formed(MIN_ROOM_SIZE as int, MAX_ROOM_SIZE as int, state);
    let full = tree.with_rooms(MIN_ROOM_SIZE as int, MAX_ROOM_SIZE as int, state).0;
    full.lemma_rooms_apart();
}

/// The rooms that the partition of a generated dungeon yields are
/// between `MIN_ROOM_SIZE` and `MAX_ROOM_SIZE` cells long and wide.
pub proof fn lemma_dungeon_room_sizes(width: int, height: int, seed: u32)
    requires
        i32::MIN <= width <= i32::MAX,
        i32::MIN <= height <= i32::MAX,
    ensures
        forall|i: int|
            0 <= i < dungeon_tree(width, height, seed).0.rooms_of().len() ==> {
                &&& MIN_ROOM_SIZE <= (#[trigger] dungeon_rooms(width, height, seed)[i]).0.width
                    <= MAX_ROOM_SIZE
                &&& MIN_ROOM_SIZE <= dungeon_rooms(width, height, seed)[i].0.height <= MAX_ROOM_SIZE
            },
{
    let root = root_node(width, height);
    let min_size = partition_min_size(width, height);
    let depth = partition_depth(width, height);
    root.lemma_partitioned_well_formed(1, min_size, depth, seed);
    root.lemma_partitioned_bare(1, min_size, depth, seed);
    let (tree, next_id, state) = root.partitioned(1, min_size, depth, seed);
    tree.lemma_with_rooms_sizes(MIN_ROOM_SIZE as int, MAX_ROOM_SIZE as int, state);
}

/// No two rooms of a generated dungeon have the same id.
pub proof fn lemma_dungeon_room_ids_distinct(width: int, height: int, seed: u32)
    requires
        i32::MIN <= width <= i32::MAX,
        i32::MIN <= height <= i32::MAX,
    ensures
        forall|i: int, j: int|
            0 <= i < j < dungeon_rooms(width, height, seed).len() ==> (#[trigger] dungeon_rooms(
                width,
                height,
                seed,
            )[i]).1 != (#[trigger] dungeon_rooms(width, height, seed)[j]).1,
{
    let root = root_node(width, height);
    let min_size = partition_min_size(width, height);
    let depth = partition_depth(width, height);
    root.lemma_partitioned_well_formed(1, min_size, depth, seed);
    root.lemma_partitioned_ids(1, min_size, depth, seed);
    let (tree, next_id, state) = root.partitioned(1, min_size, depth, seed);
    tree.lemma_with_rooms_well_formed(MIN_ROOM_SIZE as int, MAX_ROOM_SIZE as int, state);
    tree.lemma_with_rooms_ids(MIN_ROOM_SIZE as int, MAX_ROOM_SIZE as int, state, 1);
    let full = tree.with_rooms(MIN_ROOM_SIZE as int, MAX_ROOM_SIZE as int, state).0;
    full.lemma_room_ids_distinct(1);
}

/// The rooms of a generated dungeon own their cells: every room lies
/// inside the border of the map, each of its cells is owned by it, and
/// no other cell has an owner.
pub proof fn lemma_dungeon_room_owners(width: int, height: int, seed: u32)
    requires
        i32::MIN <= width <= i32::MAX,
        i32::MIN <= height <= i32::MAX,
    ensures
        forall|i: int, p: (int, int)|
            0 <= i < dungeon_rooms(width, height, seed).len() && #[trigger] room_cells(
                dungeon_rooms(width, height, seed)[i].0,
                width,
                height,
            ).contains(p) ==> crate::rooms::owned_by(
                dungeon_room_positions(width, height, seed),
                p,
                dungeon_rooms(width, height, seed)[i].1,
            ),
        forall|p: (int, int)| #[trigger]
            dungeon_room_positions(width, height, seed).contains_key(p) ==> exists|i: int|
                0 <= i < dungeon_rooms(width, height, seed).len() && #[trigger] room_cells(
                    dungeon_rooms(width, height, seed)[i].0,
                    width,
                    height,
                ).contains(p),
        forall|i: int, p: (int, int)|
            0 <= i < dungeon_rooms(width, height, seed).len() && #[trigger] dungeon_rooms(
                width,
                height,
                seed,
            )[i].0.covers(p) ==> interior(p, width, height),
{
    let rooms = dungeon_rooms(width, height, seed);
    lemma_dungeon_rooms_apart(width, height, seed);
    let t0 = wall_grid(width, height);
    let no_owners = Map::<(int, int), u32>::empty();
    lemma_carved_owners(t0, no_owners, width, height, rooms, 0);
    let positions = dungeon_room_positions(width, height, seed);
    assert forall|p: (int, int)| #[trigger] positions.contains_key(p) implies exists|i: int|
        0 <= i < rooms.len() && #[trigger] room_cells(rooms[i].0, width, height).contains(p) by {
        if forall|j: int|
            0 <= j < rooms.len() ==> !#[trigger] room_cells(rooms[j].0, width, height).contains(p) {
            assert(positions.contains_key(p) == no_owners.contains_key(p));
        }
    }
    let tree = dungeon_tree(width, height, seed).0;
    if tree.rooms_of().len() > 0 {
        tree.lemma_rooms_apart();
        assert forall|i: int, p: (int, int)|
            0 <= i < rooms.len() && #[trigger] rooms[i].0.covers(p) implies interior(
            p,
            width,
            height,
        ) by {
            assert(rooms[i] == tree.rooms_of()[i]);
            assert(tree.rooms_of()[i].0.within(tree.rect(), crate::bsp::ROOM_MARGIN as int));
        }
    } else {
        assert(rooms[0].0 == fallback_room(width, height));
    }
}

} // verus!
