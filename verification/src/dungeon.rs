//! Assembly of a dungeon level from a partition tree: rooms, corridors,
//! doors, the exit and the graph of connected rooms.

use crate::bsp::BSPNode;
use crate::map::{block, interior, paint_block, painted, GameMap, GameMapView};
use crate::rng::{lcg_step, SeededRng};
use crate::tile::{Rect, Room, Tile};
use vstd::prelude::*;

verus! {

/// True when `v` lies between `a` and `b`, whichever of them is smaller.
pub open spec fn between(v: int, a: int, b: int) -> bool {
    (a <= v <= b) || (b <= v <= a)
}

/// The cells of the path that runs along row `y1` from column `x1` to
/// column `x2`, and then along column `x2` from row `y1` to row `y2`.
pub open spec fn line_cells(x1: int, y1: int, x2: int, y2: int) -> Set<(int, int)> {
    Set::new(
        |p: (int, int)| (p.1 == y1 && between(p.0, x1, x2)) || (p.0 == x2 && between(p.1, y1, y2)),
    )
}

/// `tiles` after digging at `cells`: each of them that holds a wall and is
/// not on the border becomes a corridor; nothing else changes.
pub open spec fn dug(
    tiles: Map<(int, int), Tile>,
    width: int,
    height: int,
    cells: Set<(int, int)>,
) -> Map<(int, int), Tile> {
    Map::new(
        |p: (int, int)| tiles.contains_key(p),
        |p: (int, int)|
            if cells.contains(p) && interior(p, width, height) && tiles[p] == Tile::Wall {
                Tile::Corridor
            } else {
                tiles[p]
            },
    )
}

/// True when `a` and `b` share a side.
pub open spec fn adjacent(a: (int, int), b: (int, int)) -> bool {
    ||| (a.0 == b.0 - 1 && a.1 == b.1)
    ||| (a.0 == b.0 + 1 && a.1 == b.1)
    ||| (a.0 == b.0 && a.1 == b.1 - 1)
    ||| (a.0 == b.0 && a.1 == b.1 + 1)
}

/// True when `p` holds `tile`.
pub open spec fn holds(tiles: Map<(int, int), Tile>, p: (int, int), tile: Tile) -> bool {
    tiles.contains_key(p) && tiles[p] == tile
}

/// True when a cell next to `p` holds `tile`.
pub open spec fn beside(tiles: Map<(int, int), Tile>, p: (int, int), tile: Tile) -> bool {
    ||| holds(tiles, (p.0 - 1, p.1), tile)
    ||| holds(tiles, (p.0 + 1, p.1), tile)
    ||| holds(tiles, (p.0, p.1 - 1), tile)
    ||| holds(tiles, (p.0, p.1 + 1), tile)
}

/// The cells next to `point` that have a floor next to them.
pub open spec fn touching(tiles: Map<(int, int), Tile>, point: (int, int)) -> Set<(int, int)> {
    Set::new(|n: (int, int)| adjacent(n, point) && beside(tiles, n, Tile::Floor))
}

/// The cells of `rect` that are not on the map's border.
pub open spec fn room_cells(rect: Rect, width: int, height: int) -> Set<(int, int)> {
    Set::new(|p: (int, int)| rect.covers(p) && interior(p, width, height))
}

/// `tiles` with an L-shaped corridor from `from` to `to`: along the row
/// of `from` first when `row_first`, along its column otherwise; then the
/// walls around both ends that have a floor next to them are dug too.
pub open spec fn with_corridor(
    tiles: Map<(int, int), Tile>,
    width: int,
    height: int,
    from: (int, int),
    to: (int, int),
    row_first: bool,
) -> Map<(int, int), Tile> {
    let t1 = if row_first {
        dug(
            dug(tiles, width, height, line_cells(from.0, from.1, to.0, from.1)),
            width,
            height,
            line_cells(to.0, from.1, to.0, to.1),
        )
    } else {
        dug(
            dug(tiles, width, height, line_cells(from.0, from.1, from.0, to.1)),
            width,
            height,
            line_cells(from.0, to.1, to.0, to.1),
        )
    };
    let t2 = dug(t1, width, height, touching(t1, from));
    dug(t2, width, height, touching(t2, to))
}

/// The tiles after the corridors of the tree are dug, children before
/// parents and the first child before the second, and the generator
/// state afterwards.
pub open spec fn with_corridors(
    node: BSPNode,
    tiles: Map<(int, int), Tile>,
    width: int,
    height: int,
    state: u32,
) -> (Map<(int, int), Tile>, u32)
    decreases node,
{
    match (node.left, node.right) {
        (Some(l), Some(r)) => {
            let (t1, s1) = with_corridors(*l, tiles, width, height, state);
            let (t2, s2) = with_corridors(*r, t1, width, height, s1);
            let s3 = lcg_step(s2);
            (
                with_corridor(
                    t2,
                    width,
                    height,
                    l.connection_center(),
                    r.connection_center(),
                    s3 % 2 == 0,
                ),
                s3,
            )
        },
        _ => (tiles, state),
    }
}

/// Builds dungeon levels.
pub struct DungeonGenerator;

impl DungeonGenerator {
    /// Splits `node` and then its children, down to `max_depth` levels.
    /// With a `min_size` below zero a cut could fall outside the node, and
    /// the cuts of such children outside the range of `i32`.
    pub fn split_node_recursive(
        node: &mut BSPNode,
        next_id: &mut u32,
        min_size: i32,
        max_depth: i32,
        rng: &mut SeededRng,
    )
        requires
            old(node).rect_ok(),
            0 <= min_size,
        ensures
            (*final(node), *final(next_id), final(rng).state) == old(node).partitioned(
                *old(next_id),
                min_size as int,
                max_depth as int,
                old(rng).state,
            ),
        decreases max_depth,
    {
        if max_depth <= 0 || !node.can_split(min_size) {
            return ;
        }
        let ghost start = *node;
        let ghost id0 = *next_id;
        let ghost s0 = rng.state;
        if node.split(next_id, min_size, rng) {
            proof {
                start.lemma_cut_in_range(min_size as int, s0);
            }
            match &mut node.left {
                Some(l) => {
                    Self::split_node_recursive(l, next_id, min_size, max_depth - 1, rng);
                },
                None => {},
            }
            match &mut node.right {
                Some(r) => {
                    Self::split_node_recursive(r, next_id, min_size, max_depth - 1, rng);
                },
                None => {},
            }
        }
    }

    /// Digs at one cell.
    fn dig_cell(map: &mut GameMap, x: i32, y: i32)
        ensures
            final(map)@ == old(map)@.with_tiles(
                dug(old(map)@.tiles, old(map)@.width, old(map)@.height, set![(x as int, y as int)]),
            ),
    {
        if map.is_interior(x, y) && map.tile_is(x, y, Tile::Wall) {
            map.tiles.insert(x, y, Tile::Corridor);
        }
        assert(map@.tiles =~= dug(
            old(map)@.tiles,
            old(map)@.width,
            old(map)@.height,
            set![(x as int, y as int)],
        ));
    }

    /// Turns the cells of the room that are not on the border into floor
    /// and records the room as their owner.
    pub fn carve_room(map: &mut GameMap, room: &Room)
        ensures
            final(map)@ == (GameMapView {
                tiles: painted(
                    old(map)@.tiles,
                    room_cells(room.rect(), old(map)@.width, old(map)@.height),
                    Tile::Floor,
                ),
                room_positions: painted(
                    old(map)@.room_positions,
                    room_cells(room.rect(), old(map)@.width, old(map)@.height),
                    room.id,
                ),
                ..old(map)@
            }),
    {
        let ghost cells = room_cells(room.rect(), map@.width, map@.height);
        let x0: i32 = if room.x < 1 {
            1
        } else {
            room.x
        };
        let y0: i32 = if room.y < 1 {
            1
        } else {
            room.y
        };
        let right: i64 = room.x as i64 + room.width as i64;
        let bottom: i64 = room.y as i64 + room.height as i64;
        let x_end: i64 = if right < map.width as i64 - 1 {
            right
        } else {
            map.width as i64 - 1
        };
        let y_end: i64 = if bottom < map.height as i64 - 1 {
            bottom
        } else {
            map.height as i64 - 1
        };
        if x_end <= x0 as i64 || y_end <= y0 as i64 {
            assert(cells =~= Set::<(int, int)>::empty());
            assert(map@.tiles =~= painted(map@.tiles, cells, Tile::Floor));
            assert(map@.room_positions =~= painted(map@.room_positions, cells, room.id));
            return ;
        }
        let x1: i32 = x_end as i32;
        let y1: i32 = y_end as i32;
        assert(cells =~= block(x0 as int, x1 as int, y0 as int, y1 as int));
        paint_block(&mut map.tiles, x0, x1, y0, y1, Tile::Floor);
        paint_block(&mut map.room_positions, x0, x1, y0, y1, room.id);
    }

    /// Digs along row `y1` from `x1` to `x2`, then along column `x2` from
    /// `y1` to `y2`.
    pub fn carve_corridor_line(map: &mut GameMap, x1: i32, y1: i32, x2: i32, y2: i32)
        ensures
            final(map)@ == old(map)@.with_tiles(
                dug(
                    old(map)@.tiles,
                    old(map)@.width,
                    old(map)@.height,
                    line_cells(x1 as int, y1 as int, x2 as int, y2 as int),
                ),
            ),
    {
        let ghost start = map@;
        let ghost w = map@.width;
        let ghost h = map@.height;
        let mut x: i32 = x1;
        while x != x2
            invariant
                between(x as int, x1 as int, x2 as int),
                map@ == start.with_tiles(map@.tiles),
                map@.tiles =~= dug(
                    start.tiles,
                    w,
                    h,
                    Set::new(
                        |p: (int, int)| p.1 == y1 && between(p.0, x1 as int, x as int) && p.0 != x,
                    ),
                ),
                w == start.width,
                h == start.height,
            decreases
                    (if x2 >= x {
                        x2 - x
                    } else {
                        x - x2
                    }),
        {
            let ghost before = map@;
            Self::dig_cell(map, x, y1);
            let ghost here = x as int;
            if x < x2 {
                x = x + 1;
            } else {
                x = x - 1;
            }
            assert(map@.tiles =~= dug(
                start.tiles,
                w,
                h,
                Set::new(
                    |p: (int, int)| p.1 == y1 && between(p.0, x1 as int, x as int) && p.0 != x,
                ),
            ));
        }
        let ghost row_done = map@;
        let mut y: i32 = y1;
        while y != y2
            invariant
                x == x2,
                between(y as int, y1 as int, y2 as int),
                map@ == start.with_tiles(map@.tiles),
                map@.tiles =~= dug(
                    start.tiles,
                    w,
                    h,
                    Set::new(
                        |p: (int, int)|
                            (p.1 == y1 && between(p.0, x1 as int, x2 as int) && p.0 != x2) || (p.0
                                == x2 && between(p.1, y1 as int, y as int) && p.1 != y),
                    ),
                ),
                w == start.width,
                h == start.height,
            decreases
                    (if y2 >= y {
                        y2 - y
                    } else {
                        y - y2
                    }),
        {
            Self::dig_cell(map, x2, y);
            if y < y2 {
                y = y + 1;
            } else {
                y = y - 1;
            }
            assert(map@.tiles =~= dug(
                start.tiles,
                w,
                h,
                Set::new(
                    |p: (int, int)|
                        (p.1 == y1 && between(p.0, x1 as int, x2 as int) && p.0 != x2) || (p.0
                            == x2 && between(p.1, y1 as int, y as int) && p.1 != y),
                ),
            ));
        }
        Self::dig_cell(map, x2, y2);
        assert(map@.tiles =~= dug(
            start.tiles,
            w,
            h,
            line_cells(x1 as int, y1 as int, x2 as int, y2 as int),
        ));
    }

    /// True when a cell next to `(x, y)` holds a floor.
    fn floor_beside(map: &GameMap, x: i32, y: i32) -> (found: bool)
        requires
            i32::MIN < x < i32::MAX,
            i32::MIN < y < i32::MAX,
        ensures
            found == beside(map@.tiles, (x as int, y as int), Tile::Floor),
    {
        map.tile_is(x - 1, y, Tile::Floor) || map.tile_is(x + 1, y, Tile::Floor) || map.tile_is(
            x,
            y - 1,
            Tile::Floor,
        ) || map.tile_is(x, y + 1, Tile::Floor)
    }

    /// Digs at `(x, y)` if a floor lies next to it.
    fn dig_if_touching(map: &mut GameMap, x: i64, y: i64)
        ensures
            final(map)@ == old(map)@.with_tiles(final(map)@.tiles),
            final(map)@.tiles == dug(
                old(map)@.tiles,
                old(map)@.width,
                old(map)@.height,
                Set::new(
                    |p: (int, int)| p == (x as int, y as int) && beside(old(map)@.tiles, p, Tile::Floor),
                ),
            ),
    {
        if 0 < x && x < map.width as i64 - 1 && 0 < y && y < map.height as i64 - 1 {
            let cx: i32 = x as i32;
            let cy: i32 = y as i32;
            if map.tile_is(cx, cy, Tile::Wall) && Self::floor_beside(map, cx, cy) {
                map.tiles.insert(cx, cy, Tile::Corridor);
            }
        }
        assert(map@.tiles =~= dug(
            old(map)@.tiles,
            old(map)@.width,
            old(map)@.height,
            Set::new(
                |p: (int, int)| p == (x as int, y as int) && beside(old(map)@.tiles, p, Tile::Floor),
            ),
        ));
    }

    /// Makes the end of a corridor touch the room beside it: each wall
    /// next to `point` that has a floor next to it is dug.
    pub fn ensure_room_connection(map: &mut GameMap, point: (i32, i32))
        ensures
            final(map)@ == old(map)@.with_tiles(
                dug(
                    old(map)@.tiles,
                    old(map)@.width,
                    old(map)@.height,
                    touching(old(map)@.tiles, (point.0 as int, point.1 as int)),
                ),
            ),
    {
        let ghost t0 = map@.tiles;
        let x: i64 = point.0 as i64;
        let y: i64 = point.1 as i64;
        Self::dig_if_touching(map, x - 1, y);
        Self::dig_if_touching(map, x + 1, y);
        Self::dig_if_touching(map, x, y - 1);
        Self::dig_if_touching(map, x, y + 1);
        assert(map@.tiles =~= dug(
            t0,
            old(map)@.width,
            old(map)@.height,
            touching(t0, (point.0 as int, point.1 as int)),
        ));
    }

    /// Digs an L-shaped corridor between two points; a draw decides
    /// whether it leaves `from` along its row or along its column.
    pub fn carve_l_shaped_corridor(
        map: &mut GameMap,
        from: (i32, i32),
        to: (i32, i32),
        rng: &mut SeededRng,
    )
        ensures
            final(rng).state == lcg_step(old(rng).state),
            final(map)@ == old(map)@.with_tiles(
                with_corridor(
                    old(map)@.tiles,
                    old(map)@.width,
                    old(map)@.height,
                    (from.0 as int, from.1 as int),
                    (to.0 as int, to.1 as int),
                    lcg_step(old(rng).state) % 2 == 0,
                ),
            ),
    {
        let (x1, y1) = from;
        let (x2, y2) = to;
        let row_first = rng.next_bool();
        if row_first {
            Self::carve_corridor_line(map, x1, y1, x2, y1);
            Self::carve_corridor_line(map, x2, y1, x2, y2);
        } else {
            Self::carve_corridor_line(map, x1, y1, x1, y2);
            Self::carve_corridor_line(map, x1, y2, x2, y2);
        }
        Self::ensure_room_connection(map, (x1, y1));
        Self::ensure_room_connection(map, (x2, y2));
    }
}

impl BSPNode {
    /// Connects the two subtrees of every node that has children with a
    /// corridor between their connection points, children first.
    pub fn connect_children(&self, map: &mut GameMap, rng: &mut SeededRng)
        requires
            self.well_formed(),
        ensures
            final(map)@ == old(map)@.with_tiles(
                with_corridors(
                    *self,
                    old(map)@.tiles,
                    old(map)@.width,
                    old(map)@.height,
                    old(rng).state,
                ).0,
            ),
            final(rng).state == with_corridors(
                *self,
                old(map)@.tiles,
                old(map)@.width,
                old(map)@.height,
                old(rng).state,
            ).1,
        decreases *self,
    {
        if let Some(l) = &self.left {
            if let Some(r) = &self.right {
                l.connect_children(map, rng);
                r.connect_children(map, rng);
                let a = l.get_connection_center();
                let b = r.get_connection_center();
                DungeonGenerator::carve_l_shaped_corridor(map, a, b, rng);
            }
        }
    }
}

} // verus!
