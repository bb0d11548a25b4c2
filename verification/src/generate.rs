//! Generation of whole dungeon levels, their seeds and spawn points.

use crate::bsp::{room_sites, BSPNode};
use crate::doors::encased;
use crate::dungeon::{beside, DungeonGenerator};
use crate::layout::{
    carved, dungeon_corridors, dungeon_forced_doors, dungeon_room_positions, dungeon_rooms,
    dungeon_tiles, dungeon_tree, exit_cell, fallback_room, fallback_side, with_fallback,
    lemma_dungeon_doors_encased, lemma_dungeon_room_ids_distinct, lemma_dungeon_rooms_apart,
    with_exit, MAX_ROOM_SIZE,
    MIN_ROOM_SIZE,
};
use crate::map::{in_bounds, paint_block, GameMap, GameMapView};
use crate::rng::SeededRng;
use crate::rooms::{lists_links, precedes};
use crate::tile::{Rect, Room, Tile};
use crate::connectivity::{lemma_dungeon_connected, rooms_connected};
use vstd::prelude::*;

verus! {

/// Width of the dungeon behind an entrance.
pub const DUNGEON_WIDTH: i32 = 80;

/// Height of the dungeon behind an entrance.
pub const DUNGEON_HEIGHT: i32 = 50;

/// The seed of `generate_dungeon`.
pub const DEFAULT_SEED: u32 = 12345;

/// The 32-bit pattern of a signed number, as an unsigned one.
pub open spec fn unsigned(x: int) -> u32 {
    (if x >= 0 {
        x
    } else {
        x + 0x1_0000_0000
    }) as u32
}

/// The product of two 32-bit numbers, reduced to 32 bits.
pub open spec fn wrapping_product(a: u32, b: u32) -> u32 {
    ((a as int * b as int) % 0x1_0000_0000) as u32
}

/// The sum of two 32-bit numbers, reduced to 32 bits.
pub open spec fn wrapping_sum(a: u32, b: u32) -> u32 {
    ((a as int + b as int) % 0x1_0000_0000) as u32
}

/// The last mixing steps of the seed of a dungeon.
pub open spec fn finalized(combined: u32) -> u32 {
    let s1 = combined ^ 0x9E3779B9u32;
    let s2 = s1 ^ (s1 >> 16u32);
    let s3 = wrapping_product(s2, 0x85EBCA6Bu32);
    let s4 = s3 ^ (s3 >> 13u32);
    let s5 = wrapping_product(s4, 0xC2B2AE35u32);
    let s6 = s5 ^ (s5 >> 16u32);
    if s6 == 0 {
        1u32
    } else {
        s6
    }
}

/// The seed of the dungeon behind the entrance at `(x, y)`.
pub open spec fn dungeon_seed(x: int, y: int) -> u32 {
    finalized(
        wrapping_sum(
            wrapping_product(unsigned(x), 73856093u32),
            wrapping_product(unsigned(y), 19349663u32),
        ),
    )
}

/// `map` is the dungeon of the given size and seed: its tiles, rooms and
/// room owners are those of the layout, nothing of it is lit or
/// explored, no two rooms overlap or share an id, every door is encased
/// or was forced, every room lists the rooms it shares a door with, and
/// where the map has cells inside its border one can walk from the
/// first room to every room.
pub open spec fn is_dungeon(map: GameMapView, width: int, height: int, seed: u32) -> bool {
    &&& map.width == width
    &&& map.height == height
    &&& map.tiles == dungeon_tiles(width, height, seed)
    &&& room_sites(map.rooms) == dungeon_rooms(width, height, seed)
    &&& map.room_positions == dungeon_room_positions(width, height, seed)
    &&& map.visible_tiles == Map::<(int, int), bool>::empty()
    &&& map.explored_tiles == Map::<(int, int), bool>::empty()
    &&& map.illuminated_areas == Map::<u32, bool>::empty()
    &&& map.well_formed()
    &&& map.rooms.len() >= 1
    &&& forall|i: int|
        0 <= i < map.rooms.len() ==> (#[trigger] map.rooms[i]).room_type
            == crate::tile::RoomType::Rectangle && !map.rooms[i].is_illuminated && lists_links(
            map,
            map.rooms[i],
        )
    &&& forall|i: int, j: int|
        0 <= i < j < map.rooms.len() ==> !(#[trigger] map.rooms[i]).rect().intersects(
            (#[trigger] map.rooms[j]).rect(),
        ) && map.rooms[i].id != map.rooms[j].id
    &&& forall|p: (int, int)| #[trigger]
        map.holds(p, Tile::Door) ==> encased(map.tiles, p) || dungeon_forced_doors(
            width,
            height,
            seed,
        ).contains(p)
    &&& width >= 3 && height >= 3 ==> rooms_connected(map.tiles, room_sites(map.rooms))
}

/// `p` is the first cell of the map, read row by row, that holds `tile`.
pub open spec fn first_holding(map: GameMapView, tile: Tile, p: (int, int)) -> bool {
    &&& in_bounds(p, map.width, map.height)
    &&& map.holds(p, tile)
    &&& forall|q: (int, int)|
        in_bounds(q, map.width, map.height) && #[trigger] map.holds(q, tile) ==> !precedes(q, p)
}

/// No cell of the map holds `tile`.
pub open spec fn none_holding(map: GameMapView, tile: Tile) -> bool {
    forall|q: (int, int)| in_bounds(q, map.width, map.height) ==> !#[trigger] map.holds(q, tile)
}

/// The spawn point of a map with neither exit nor floor.
pub open spec fn default_spawn() -> (int, int) {
    (6, 8)
}

fn to_unsigned(x: i32) -> (u: u32)
    ensures
        u == unsigned(x as int),
{
    if x >= 0 {
        x as u32
    } else {
        (x as i64 + 0x1_0000_0000i64) as u32
    }
}

fn product32(a: u32, b: u32) -> (p: u32)
    ensures
        p == wrapping_product(a, b),
{
    assert((a as u64) * (b as u64) <= 0xFFFF_FFFFu64 * 0xFFFF_FFFFu64) by (nonlinear_arith)
        requires
            a <= 0xFFFF_FFFFu64,
            b <= 0xFFFF_FFFFu64,
    ;
    let wide: u64 = (a as u64) * (b as u64);
    (wide % 0x1_0000_0000u64) as u32
}

fn sum32(a: u32, b: u32) -> (s: u32)
    ensures
        s == wrapping_sum(a, b),
{
    let wide: u64 = (a as u64) + (b as u64);
    (wide % 0x1_0000_0000u64) as u32
}

impl GameMap {
    /// The first cell of the map, read row by row, that holds `tile`.
    pub fn first_cell_holding(&self, tile: Tile) -> (found: Option<(i32, i32)>)
        ensures
            match found {
                Some(p) => first_holding(self@, tile, (p.0 as int, p.1 as int)),
                None => none_holding(self@, tile),
            },
    {
        let mut y: i32 = 0;
        while y < self.height
            invariant
                0 <= y,
                forall|q: (int, int)|
                    in_bounds(q, self@.width, self@.height) && q.1 < y ==> !#[trigger] self@.holds(
                        q,
                        tile,
                    ),
            decreases self.height - y,
        {
            let mut x: i32 = 0;
            while x < self.width
                invariant
                    0 <= x,
                    0 <= y < self.height,
                    forall|q: (int, int)|
                        in_bounds(q, self@.width, self@.height) && precedes(q, (x as int, y as int))
                            ==> !#[trigger] self@.holds(q, tile),
                decreases self.width - x,
            {
                if self.tile_is(x, y, tile) {
                    return Some((x, y));
                }
                x = x + 1;
            }
            y = y + 1;
        }
        None
    }
}

impl DungeonGenerator {
    /// Puts the exit one step in from the corner of the first room (on
    /// the corner along a side of one cell), if that cell is a floor
    /// with no door next to it.
    pub fn place_exit(map: &mut GameMap, rooms: &Vec<Room>)
        ensures
            final(map)@ == old(map)@.with_tiles(with_exit(old(map)@.tiles, room_sites(rooms@))),
    {
        proof {
            map.tiles.lemma_dom();
        }
        if rooms.len() == 0 {
            return ;
        }
        let first = &rooms[0];
        assert(room_sites(rooms@)[0] == (first.rect(), first.id));
        let right: i32 = if first.width == 1 {
            0
        } else {
            1
        };
        let down: i32 = if first.height == 1 {
            0
        } else {
            1
        };
        if first.x > i32::MAX - right || first.y > i32::MAX - down {
            assert(!crate::grid::is_cell(exit_cell(room_sites(rooms@))));
            assert(!map.tiles@.contains_key(exit_cell(room_sites(rooms@))));
            return ;
        }
        let x: i32 = first.x + right;
        let y: i32 = first.y + down;
        if !map.tile_is(x, y, Tile::Floor) {
            return ;
        }
        let door_near = (x > i32::MIN && map.tile_is(x - 1, y, Tile::Door)) || (x < i32::MAX
            && map.tile_is(x + 1, y, Tile::Door)) || (y > i32::MIN && map.tile_is(
            x,
            y - 1,
            Tile::Door,
        )) || (y < i32::MAX && map.tile_is(x, y + 1, Tile::Door));
        proof {
            let t = map.tiles@;
            assert(t.contains_key((x - 1, y as int)) ==> crate::grid::is_cell((x - 1, y as int)));
            assert(t.contains_key((x + 1, y as int)) ==> crate::grid::is_cell((x + 1, y as int)));
            assert(t.contains_key((x as int, y - 1)) ==> crate::grid::is_cell((x as int, y - 1)));
            assert(t.contains_key((x as int, y + 1)) ==> crate::grid::is_cell((x as int, y + 1)));
            assert(door_near == beside(t, (x as int, y as int), Tile::Door));
        }
        if !door_near {
            map.tiles.insert(x, y, Tile::DungeonExit);
        }
    }

    /// Partitions the interior of a map of the given size and creates
    /// the rooms in the leaves.
    pub fn plant_tree(width: i32, height: i32, rng: &mut SeededRng) -> (tree: BSPNode)
        ensures
            tree == dungeon_tree(width as int, height as int, old(rng).state).0,
            final(rng).state == dungeon_tree(width as int, height as int, old(rng).state).1,
            tree.well_formed(),
    {
        let ghost seed = rng.state;
        let inner_width: i32 = if width >= 2 {
            width - 2
        } else {
            0
        };
        let inner_height: i32 = if height >= 2 {
            height - 2
        } else {
            0
        };
        let mut root = BSPNode::new(1, 1, inner_width, inner_height, 0);
        let mut next_id: u32 = 1;
        let large = width >= 80 && height >= 40;
        let min_size: i32 = if large {
            12
        } else {
            10
        };
        let max_depth: i32 = if large {
            5
        } else {
            3
        };
        let ghost bare = root;
        Self::split_node_recursive(&mut root, &mut next_id, min_size, max_depth, rng);
        proof {
            lemma_dungeon_rooms_apart(width as int, height as int, seed);
            bare.lemma_partitioned_well_formed(1, min_size as int, max_depth as int, seed);
            root.lemma_well_formed_rects();
        }
        root.create_rooms(MIN_ROOM_SIZE, MAX_ROOM_SIZE, rng);
        root
    }

    /// Where the fallback room starts and how long it is along a side of
    /// the map with `length` cells.
    pub fn fallback_side(length: i32, wanted: i32) -> (side: (i32, i32))
        ensures
            (side.0 as int, side.1 as int) == fallback_side(length as int, wanted as int),
    {
        if wanted <= i32::MAX - 3 && length >= wanted + 3 {
            (2, wanted)
        } else if length >= 3 {
            (1, length - 2)
        } else {
            (1, 0)
        }
    }

    /// The rooms of the tree, or the fallback room of a map of the given
    /// size if it has none.
    pub fn collect_rooms(tree: &BSPNode, width: i32, height: i32) -> (rooms: Vec<Room>)
        ensures
            room_sites(rooms@) == with_fallback(tree.rooms_of(), width as int, height as int),
            rooms@.len() >= 1,
            forall|i: int| 0 <= i < rooms@.len() ==> (#[trigger] rooms@[i]).fresh(),
    {
        let mut rooms: Vec<Room> = Vec::new();
        tree.get_rooms(&mut rooms);
        assert(room_sites(rooms@) =~= tree.rooms_of());
        if rooms.len() == 0 {
            let across = Self::fallback_side(width, 6);
            let down = Self::fallback_side(height, 4);
            rooms.push(
                Room::new(Rect { x: across.0, y: down.0, width: across.1, height: down.1 }, 0),
            );
            assert(room_sites(rooms@) =~= seq![
                (fallback_room(width as int, height as int), 0u32),
            ]);
        }
        rooms
    }

    /// Carves the rooms, in order.
    pub fn carve_rooms(map: &mut GameMap, rooms: &Vec<Room>)
        ensures
            final(map)@ == (GameMapView {
                tiles: carved(
                    old(map)@.tiles,
                    old(map)@.room_positions,
                    old(map)@.width,
                    old(map)@.height,
                    room_sites(rooms@),
                    0,
                ).0,
                room_positions: carved(
                    old(map)@.tiles,
                    old(map)@.room_positions,
                    old(map)@.width,
                    old(map)@.height,
                    room_sites(rooms@),
                    0,
                ).1,
                ..old(map)@
            }),
    {
        let ghost start = map@;
        let ghost sites = room_sites(rooms@);
        let mut i: usize = 0;
        while i < rooms.len()
            invariant
                i <= rooms.len(),
                sites == room_sites(rooms@),
                map@ == (GameMapView {
                    tiles: map@.tiles,
                    room_positions: map@.room_positions,
                    ..start
                }),
                carved(
                    map@.tiles,
                    map@.room_positions,
                    start.width,
                    start.height,
                    sites,
                    i as int,
                ) == carved(start.tiles, start.room_positions, start.width, start.height, sites, 0),
            decreases rooms.len() - i,
        {
            assert(sites[i as int] == (rooms@[i as int].rect(), rooms@[i as int].id));
            Self::carve_room(map, &rooms[i]);
            i = i + 1;
        }
    }

    /// Builds the dungeon of the given size from `seed`: walls
    /// everywhere, rooms in the leaves of a partition of the map's
    /// interior, corridors between sibling subtrees, doors where corridors
    /// meet rooms, the exit in the first room, and for each room the rooms
    /// it shares a door with.
    pub fn generate_dungeon_with_seed(width: i32, height: i32, seed: u32) -> (map: GameMap)
        ensures
            is_dungeon(map@, width as int, height as int, seed),
            map@.width == width,
            map@.height == height,
            map@.tiles == dungeon_tiles(width as int, height as int, seed),
            room_sites(map@.rooms) == dungeon_rooms(width as int, height as int, seed),
            map@.room_positions == dungeon_room_positions(width as int, height as int, seed),
            map@.visible_tiles == Map::<(int, int), bool>::empty(),
            map@.explored_tiles == Map::<(int, int), bool>::empty(),
            map@.illuminated_areas == Map::<u32, bool>::empty(),
            map@.well_formed(),
            map@.rooms.len() >= 1,
            forall|i: int, j: int|
                0 <= i < j < map@.rooms.len() ==> !(#[trigger] map@.rooms[i]).rect().intersects(
                    (#[trigger] map@.rooms[j]).rect(),
                ),
            forall|p: (int, int)| #[trigger]
                map@.holds(p, Tile::Door) ==> encased(map@.tiles, p) || dungeon_forced_doors(
                    width as int,
                    height as int,
                    seed,
                ).contains(p),
            forall|i: int| 0 <= i < map@.rooms.len() ==> lists_links(map@, #[trigger] map@.rooms[i]),
            forall|i: int, j: int|
                0 <= i < j < map@.rooms.len() ==> (#[trigger] map@.rooms[i]).id != (
                #[trigger] map@.rooms[j]).id,
            width >= 3 && height >= 3 ==> rooms_connected(map@.tiles, room_sites(map@.rooms)),
    {
        let ghost w = width as int;
        let ghost h = height as int;
        let mut rng = SeededRng::new(seed);
        let mut map = GameMap::new(width, height);
        paint_block(&mut map.tiles, 0, width, 0, height, Tile::Wall);
        let root = Self::plant_tree(width, height, &mut rng);
        let mut rooms = Self::collect_rooms(&root, width, height);
        let ghost collected = rooms@;
        let ghost sites = room_sites(rooms@);
        assert(sites == dungeon_rooms(w, h, seed));
        Self::carve_rooms(&mut map, &rooms);
        root.connect_children(&mut map, &mut rng);
        assert(map@.tiles == dungeon_corridors(w, h, seed));
        assert(map@.room_positions == dungeon_room_positions(w, h, seed));
        let forced = Self::add_doors(&mut map, &rooms);
        Self::place_exit(&mut map, &rooms);
        assert(map@.tiles == dungeon_tiles(w, h, seed));
        proof {
            lemma_dungeon_doors_encased(w, h, seed);
            lemma_dungeon_rooms_apart(w, h, seed);
            lemma_dungeon_room_ids_distinct(w, h, seed);
            if w >= 3 && h >= 3 {
                lemma_dungeon_connected(w, h, seed);
            }
        }
        assert(map@.well_formed());
        Self::update_room_connections(&mut rooms, &map);
        proof {
            assert(room_sites(rooms@) =~= sites);
            assert forall|a: int, b: int| 0 <= a < b < rooms@.len() implies !(#[trigger] rooms@[a]).rect().intersects(
                (#[trigger] rooms@[b]).rect(),
            ) && rooms@[a].id != rooms@[b].id by {
                assert(sites[a] == (rooms@[a].rect(), rooms@[a].id));
                assert(sites[b] == (rooms@[b].rect(), rooms@[b].id));
            }
            assert forall|i: int| 0 <= i < rooms@.len() implies (#[trigger] rooms@[i]).room_type
                == crate::tile::RoomType::Rectangle && !rooms@[i].is_illuminated by {
                assert(collected[i].fresh());
            }
        }
        map.rooms = rooms;
        proof {
            let forced_cells = dungeon_forced_doors(w, h, seed);
            assert forall|p: (int, int)| #[trigger] map@.holds(p, Tile::Door) implies encased(
                map@.tiles,
                p,
            ) || forced_cells.contains(p) by {
                assert(crate::dungeon::holds(map@.tiles, p, Tile::Door));
                if !encased(map@.tiles, p) {
                    assert(forced_cells.to_set().contains(p));
                }
            }
        }
        map
    }

    /// The dungeon of the given size for the default seed.
    pub fn generate_dungeon(width: i32, height: i32) -> (map: GameMap)
        ensures
            is_dungeon(map@, width as int, height as int, DEFAULT_SEED),
            map@.width == width,
            map@.height == height,
            map@.tiles == dungeon_tiles(width as int, height as int, DEFAULT_SEED),
            room_sites(map@.rooms) == dungeon_rooms(width as int, height as int, DEFAULT_SEED),
            map@.room_positions == dungeon_room_positions(
                width as int,
                height as int,
                DEFAULT_SEED,
            ),
            map@.well_formed(),
    {
        Self::generate_dungeon_with_seed(width, height, DEFAULT_SEED)
    }

    /// The dungeon behind the overworld entrance at the given cell. The
    /// same entrance always leads to the same dungeon.
    pub fn generate_dungeon_for_entrance(entrance_x: i32, entrance_y: i32) -> (map: GameMap)
        ensures
            is_dungeon(
                map@,
                DUNGEON_WIDTH as int,
                DUNGEON_HEIGHT as int,
                dungeon_seed(entrance_x as int, entrance_y as int),
            ),
            map@.width == DUNGEON_WIDTH,
            map@.height == DUNGEON_HEIGHT,
            map@.tiles == dungeon_tiles(
                DUNGEON_WIDTH as int,
                DUNGEON_HEIGHT as int,
                dungeon_seed(entrance_x as int, entrance_y as int),
            ),
            room_sites(map@.rooms) == dungeon_rooms(
                DUNGEON_WIDTH as int,
                DUNGEON_HEIGHT as int,
                dungeon_seed(entrance_x as int, entrance_y as int),
            ),
            map@.room_positions == dungeon_room_positions(
                DUNGEON_WIDTH as int,
                DUNGEON_HEIGHT as int,
                dungeon_seed(entrance_x as int, entrance_y as int),
            ),
            map@.well_formed(),
    {
        let seed = Self::generate_dungeon_seed(entrance_x, entrance_y);
        Self::generate_dungeon_with_seed(DUNGEON_WIDTH, DUNGEON_HEIGHT, seed)
    }

    /// The seed of the dungeon behind the entrance at the given cell: the
    /// coordinates are multiplied by fixed odd constants, added, and
    /// mixed by shifts and products. It is never zero.
    pub fn generate_dungeon_seed(entrance_x: i32, entrance_y: i32) -> (seed: u32)
        ensures
            seed == dungeon_seed(entrance_x as int, entrance_y as int),
            seed != 0,
    {
        let x_part = product32(to_unsigned(entrance_x), 73856093u32);
        let y_part = product32(to_unsigned(entrance_y), 19349663u32);
        let combined = sum32(x_part, y_part);
        let s1: u32 = combined ^ 0x9E3779B9u32;
        let s2: u32 = s1 ^ (s1 >> 16u32);
        let s3: u32 = product32(s2, 0x85EBCA6Bu32);
        let s4: u32 = s3 ^ (s3 >> 13u32);
        let s5: u32 = product32(s4, 0xC2B2AE35u32);
        let s6: u32 = s5 ^ (s5 >> 16u32);
        if s6 == 0 {
            1
        } else {
            s6
        }
    }

    /// Where a player stands in a dungeon of which nothing is known.
    pub fn get_default_spawn_position() -> (p: (i32, i32))
        ensures
            (p.0 as int, p.1 as int) == default_spawn(),
    {
        (6, 8)
    }

    /// Where a player enters the map: the exit, if the map has one; else
    /// the first floor, reading row by row; else the default position.
    pub fn get_safe_spawn_position(map: &GameMap) -> (p: (i32, i32))
        ensures
            !none_holding(map@, Tile::DungeonExit) ==> first_holding(
                map@,
                Tile::DungeonExit,
                (p.0 as int, p.1 as int),
            ),
            none_holding(map@, Tile::DungeonExit) && !none_holding(map@, Tile::Floor)
                ==> first_holding(map@, Tile::Floor, (p.0 as int, p.1 as int)),
            none_holding(map@, Tile::DungeonExit) && none_holding(map@, Tile::Floor) ==> (
            p.0 as int,
            p.1 as int,
            ) == default_spawn(),
    {
        if let Some(exit) = map.first_cell_holding(Tile::DungeonExit) {
            return exit;
        }
        if let Some(floor) = map.first_cell_holding(Tile::Floor) {
            return floor;
        }
        Self::get_default_spawn_position()
    }
}

} // verus!
