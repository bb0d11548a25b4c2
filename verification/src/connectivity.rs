//! Which cells of a dungeon can be walked to from which.

use crate::bsp::BSPNode;
use crate::doors::with_doors;
use crate::dungeon::{
    adjacent, between, dug, holds, line_cells, touching, with_corridor, with_corridors,
};
use crate::layout::{
    carved, dungeon_corridors, dungeon_rooms, dungeon_tiles, dungeon_tree, lemma_carved_plain,
    lemma_corridors_plain, lemma_dungeon_corridors_plain, lemma_dungeon_room_owners,
    lemma_dungeon_rooms_apart, plain, wall_grid, exit_cell, with_exit,
};
use crate::map::{in_bounds, interior};
use crate::rng::lcg_step;
use crate::tile::{Rect, Tile};
use vstd::prelude::*;

verus! {

/// True of the cells one can walk on: floor, corridor, door and exit.
pub open spec fn walkable_cell(tiles: Map<(int, int), Tile>, p: (int, int)) -> bool {
    ||| holds(tiles, p, Tile::Floor)
    ||| holds(tiles, p, Tile::Corridor)
    ||| holds(tiles, p, Tile::Door)
    ||| holds(tiles, p, Tile::DungeonExit)
}

/// Every cell of the path can be walked on, and each is next to the one
/// before.
pub open spec fn is_route(tiles: Map<(int, int), Tile>, path: Seq<(int, int)>) -> bool {
    &&& path.len() >= 1
    &&& forall|i: int| 0 <= i < path.len() ==> walkable_cell(tiles, #[trigger] path[i])
    &&& forall|i: int| 1 <= i < path.len() ==> adjacent(path[i - 1], #[trigger] path[i])
}

/// One can walk from `a` to `b`.
pub open spec fn joined(tiles: Map<(int, int), Tile>, a: (int, int), b: (int, int)) -> bool {
    exists|path: Seq<(int, int)>| #[trigger] is_route(tiles, path) && path[0] == a && path.last() == b
}

/// One can walk from the middle of the first room to the middle of every
/// room.
pub open spec fn rooms_connected(tiles: Map<(int, int), Tile>, rooms: Seq<(Rect, u32)>) -> bool {
    forall|i: int|
        0 <= i < rooms.len() ==> joined(tiles, rooms[0].0.center(), (#[trigger] rooms[i]).0.center())
}

/// Every cell of the map has a tile.
pub open spec fn full(tiles: Map<(int, int), Tile>, width: int, height: int) -> bool {
    forall|p: (int, int)| in_bounds(p, width, height) ==> #[trigger] tiles.contains_key(p)
}

/// What can be walked on in `before` can be walked on in `after`.
pub open spec fn keeps_walkable(before: Map<(int, int), Tile>, after: Map<(int, int), Tile>) -> bool {
    forall|p: (int, int)| #[trigger] walkable_cell(before, p) ==> walkable_cell(after, p)
}

/// A cell one can walk on is joined to itself.
pub proof fn lemma_joined_self(tiles: Map<(int, int), Tile>, a: (int, int))
    requires
        walkable_cell(tiles, a),
    ensures
        joined(tiles, a, a),
{
    let path = seq![a];
    assert(is_route(tiles, path) && path[0] == a && path.last() == a);
}

/// A walk can go on to a cell next to its end.
pub proof fn lemma_joined_step(
    tiles: Map<(int, int), Tile>,
    a: (int, int),
    b: (int, int),
    c: (int, int),
)
    requires
        joined(tiles, a, b),
        adjacent(b, c),
        walkable_cell(tiles, c),
    ensures
        joined(tiles, a, c),
{
    let path = choose|path: Seq<(int, int)>| #[trigger]
        is_route(tiles, path) && path[0] == a && path.last() == b;
    let longer = path.push(c);
    assert forall|i: int| 0 <= i < longer.len() implies walkable_cell(tiles, #[trigger] longer[i]) by {
        if i < path.len() {
            assert(longer[i] == path[i]);
        }
    }
    assert forall|i: int| 1 <= i < longer.len() implies adjacent(
        longer[i - 1],
        #[trigger] longer[i],
    ) by {
        if i < path.len() {
            assert(longer[i] == path[i] && longer[i - 1] == path[i - 1]);
        } else {
            assert(longer[i - 1] == path.last());
        }
    }
    assert(is_route(tiles, longer) && longer[0] == a && longer.last() == c);
}

/// A walk stays a walk where every cell one could walk on stays so.
pub proof fn lemma_joined_kept(
    before: Map<(int, int), Tile>,
    after: Map<(int, int), Tile>,
    a: (int, int),
    b: (int, int),
)
    requires
        keeps_walkable(before, after),
        joined(before, a, b),
    ensures
        joined(after, a, b),
{
    let path = choose|path: Seq<(int, int)>| #[trigger]
        is_route(before, path) && path[0] == a && path.last() == b;
    assert forall|i: int| 0 <= i < path.len() implies walkable_cell(after, #[trigger] path[i]) by {
        assert(walkable_cell(before, path[i]));
    }
    assert(is_route(after, path));
}

/// Two walks, the second starting where the first ends, make one.
pub proof fn lemma_joined_on(
    tiles: Map<(int, int), Tile>,
    a: (int, int),
    b: (int, int),
    c: (int, int),
)
    requires
        joined(tiles, a, b),
        joined(tiles, b, c),
    ensures
        joined(tiles, a, c),
{
    let first = choose|path: Seq<(int, int)>| #[trigger]
        is_route(tiles, path) && path[0] == a && path.last() == b;
    let second = choose|path: Seq<(int, int)>| #[trigger]
        is_route(tiles, path) && path[0] == b && path.last() == c;
    let whole = first + second.skip(1);
    assert forall|i: int| 0 <= i < whole.len() implies walkable_cell(tiles, #[trigger] whole[i]) by {
        if i < first.len() {
            assert(whole[i] == first[i]);
        } else {
            assert(whole[i] == second[i - first.len() + 1]);
        }
    }
    assert forall|i: int| 1 <= i < whole.len() implies adjacent(whole[i - 1], #[trigger] whole[i]) by {
        if i < first.len() {
            assert(whole[i] == first[i] && whole[i - 1] == first[i - 1]);
        } else if i == first.len() {
            assert(whole[i] == second[1]);
            assert(whole[i - 1] == first.last());
        } else {
            assert(whole[i] == second[i - first.len() + 1]);
            assert(whole[i - 1] == second[i - first.len()]);
        }
    }
    assert(whole[0] == first[0]);
    if second.len() == 1 {
        assert(whole.last() == first.last());
    } else {
        assert(whole.last() == second.last());
    }
    assert(is_route(tiles, whole) && whole[0] == a && whole.last() == c);
}

/// A walk goes on along a row whose cells can be walked on.
pub proof fn lemma_joined_along_row(
    tiles: Map<(int, int), Tile>,
    a: (int, int),
    x1: int,
    x2: int,
    y: int,
)
    requires
        joined(tiles, a, (x1, y)),
        forall|x: int| between(x, x1, x2) ==> #[trigger] walkable_cell(tiles, (x, y)),
    ensures
        joined(tiles, a, (x2, y)),
    decreases
            (if x2 >= x1 {
                x2 - x1
            } else {
                x1 - x2
            }),
{
    if x1 != x2 {
        let next = if x2 > x1 {
            x1 + 1
        } else {
            x1 - 1
        };
        assert(between(next, x1, x2));
        assert(walkable_cell(tiles, (next, y)));
        lemma_joined_step(tiles, a, (x1, y), (next, y));
        assert forall|x: int| between(x, next, x2) implies #[trigger] walkable_cell(tiles, (x, y)) by {
            assert(between(x, x1, x2));
        }
        lemma_joined_along_row(tiles, a, next, x2, y);
    }
}

/// A walk goes on along a column whose cells can be walked on.
pub proof fn lemma_joined_along_column(
    tiles: Map<(int, int), Tile>,
    a: (int, int),
    x: int,
    y1: int,
    y2: int,
)
    requires
        joined(tiles, a, (x, y1)),
        forall|y: int| between(y, y1, y2) ==> #[trigger] walkable_cell(tiles, (x, y)),
    ensures
        joined(tiles, a, (x, y2)),
    decreases
            (if y2 >= y1 {
                y2 - y1
            } else {
                y1 - y2
            }),
{
    if y1 != y2 {
        let next = if y2 > y1 {
            y1 + 1
        } else {
            y1 - 1
        };
        assert(between(next, y1, y2));
        assert(walkable_cell(tiles, (x, next)));
        lemma_joined_step(tiles, a, (x, y1), (x, next));
        assert forall|y: int| between(y, next, y2) implies #[trigger] walkable_cell(tiles, (x, y)) by {
            assert(between(y, y1, y2));
        }
        lemma_joined_along_column(tiles, a, x, next, y2);
    }
}

/// Inside a rectangle whose cells can all be walked on, one can walk
/// from any cell to any other.
pub proof fn lemma_joined_inside(
    tiles: Map<(int, int), Tile>,
    rect: Rect,
    a: (int, int),
    b: (int, int),
)
    requires
        rect.covers(a),
        rect.covers(b),
        forall|p: (int, int)| rect.covers(p) ==> #[trigger] walkable_cell(tiles, p),
    ensures
        joined(tiles, a, b),
{
    lemma_joined_self(tiles, a);
    assert forall|x: int| between(x, a.0, b.0) implies #[trigger] walkable_cell(tiles, (x, a.1)) by {
        assert(rect.covers((x, a.1)));
    }
    lemma_joined_along_row(tiles, a, a.0, b.0, a.1);
    assert forall|y: int| between(y, a.1, b.1) implies #[trigger] walkable_cell(tiles, (b.0, y)) by {
        assert(rect.covers((b.0, y)));
    }
    lemma_joined_along_column(tiles, a, b.0, a.1, b.1);
}

/// Digging keeps what can be walked on, and makes the cells dug at that
/// are inside the border walkable, where the map is full and plain.
pub proof fn lemma_dug_walkable(
    tiles: Map<(int, int), Tile>,
    width: int,
    height: int,
    cells: Set<(int, int)>,
)
    requires
        plain(tiles, width, height),
        full(tiles, width, height),
    ensures
        keeps_walkable(tiles, dug(tiles, width, height, cells)),
        plain(dug(tiles, width, height, cells), width, height),
        full(dug(tiles, width, height, cells), width, height),
        forall|p: (int, int)|
            cells.contains(p) && interior(p, width, height) ==> #[trigger] walkable_cell(
                dug(tiles, width, height, cells),
                p,
            ),
{
    let after = dug(tiles, width, height, cells);
    assert forall|p: (int, int)| cells.contains(p) && interior(p, width, height) implies #[trigger] walkable_cell(
        after,
        p,
    ) by {
        assert(in_bounds(p, width, height));
        assert(tiles.contains_key(p));
    }
    assert forall|p: (int, int)| #[trigger] after.contains_key(p) implies in_bounds(p, width, height)
        && (after[p] == Tile::Wall || after[p] == Tile::Floor || after[p] == Tile::Corridor) by {
        assert(tiles.contains_key(p));
    }
}

/// An L-shaped corridor joins its two ends, where both are inside the
/// border and the map is full and plain.
pub proof fn lemma_corridor_joins(
    tiles: Map<(int, int), Tile>,
    width: int,
    height: int,
    from: (int, int),
    to: (int, int),
    row_first: bool,
)
    requires
        plain(tiles, width, height),
        full(tiles, width, height),
        interior(from, width, height),
        interior(to, width, height),
    ensures
        joined(with_corridor(tiles, width, height, from, to, row_first), from, to),
        keeps_walkable(tiles, with_corridor(tiles, width, height, from, to, row_first)),
        full(with_corridor(tiles, width, height, from, to, row_first), width, height),
{
    let corner = if row_first {
        (to.0, from.1)
    } else {
        (from.0, to.1)
    };
    let first = if row_first {
        line_cells(from.0, from.1, to.0, from.1)
    } else {
        line_cells(from.0, from.1, from.0, to.1)
    };
    let second = if row_first {
        line_cells(to.0, from.1, to.0, to.1)
    } else {
        line_cells(from.0, to.1, to.0, to.1)
    };
    let a = dug(tiles, width, height, first);
    lemma_dug_walkable(tiles, width, height, first);
    let t1 = dug(a, width, height, second);
    lemma_dug_walkable(a, width, height, second);
    let t2 = dug(t1, width, height, touching(t1, from));
    lemma_dug_walkable(t1, width, height, touching(t1, from));
    let t3 = dug(t2, width, height, touching(t2, to));
    lemma_dug_walkable(t2, width, height, touching(t2, to));
    assert(t3 == with_corridor(tiles, width, height, from, to, row_first));
    assert(first.contains(from));
    assert(walkable_cell(a, from));
    assert(walkable_cell(t1, from));
    lemma_joined_self(t1, from);
    if row_first {
        assert forall|x: int| between(x, from.0, to.0) implies #[trigger] walkable_cell(t1, (x, from.1)) by {
            let p = (x, from.1);
            assert(first.contains(p));
            assert(interior(p, width, height));
            assert(walkable_cell(a, p));
        }
        lemma_joined_along_row(t1, from, from.0, to.0, from.1);
        assert forall|y: int| between(y, from.1, to.1) implies #[trigger] walkable_cell(t1, (to.0, y)) by {
            let p = (to.0, y);
            assert(second.contains(p));
            assert(interior(p, width, height));
        }
        lemma_joined_along_column(t1, from, to.0, from.1, to.1);
    } else {
        assert forall|y: int| between(y, from.1, to.1) implies #[trigger] walkable_cell(t1, (from.0, y)) by {
            let p = (from.0, y);
            assert(first.contains(p));
            assert(interior(p, width, height));
            assert(walkable_cell(a, p));
        }
        lemma_joined_along_column(t1, from, from.0, from.1, to.1);
        assert forall|x: int| between(x, from.0, to.0) implies #[trigger] walkable_cell(t1, (x, to.1)) by {
            let p = (x, to.1);
            assert(second.contains(p));
            assert(interior(p, width, height));
        }
        lemma_joined_along_row(t1, from, from.0, to.0, to.1);
    }
    assert(joined(t1, from, to));
    lemma_joined_kept(t1, t2, from, to);
    lemma_joined_kept(t2, t3, from, to);
    assert(keeps_walkable(tiles, t3)) by {
        assert forall|p: (int, int)| #[trigger] walkable_cell(tiles, p) implies walkable_cell(
            t3,
            p,
        ) by {
            assert(walkable_cell(a, p));
            assert(walkable_cell(t1, p));
            assert(walkable_cell(t2, p));
        }
    }
}

/// Digging the corridors of a tree keeps what can be walked on, and the
/// map full.
pub proof fn lemma_corridors_keep_walkable(
    node: BSPNode,
    tiles: Map<(int, int), Tile>,
    width: int,
    height: int,
    state: u32,
)
    requires
        plain(tiles, width, height),
        full(tiles, width, height),
    ensures
        keeps_walkable(tiles, with_corridors(node, tiles, width, height, state).0),
        full(with_corridors(node, tiles, width, height, state).0, width, height),
        plain(with_corridors(node, tiles, width, height, state).0, width, height),
    decreases node,
{
    lemma_corridors_plain(node, tiles, width, height, state);
    let result = with_corridors(node, tiles, width, height, state).0;
    assert(result.dom() == tiles.dom());
    assert forall|p: (int, int)| in_bounds(p, width, height) implies #[trigger] result.contains_key(
        p,
    ) by {
        assert(tiles.contains_key(p));
    }
    match (node.left, node.right) {
        (Some(l), Some(r)) => {
            lemma_corridors_keep_walkable(*l, tiles, width, height, state);
            let (t1, s1) = with_corridors(*l, tiles, width, height, state);
            lemma_corridors_keep_walkable(*r, t1, width, height, s1);
            let (t2, s2) = with_corridors(*r, t1, width, height, s1);
            let s3 = lcg_step(s2);
            let from = l.connection_center();
            let to = r.connection_center();
            let row_first = s3 % 2 == 0;
            let first = if row_first {
                line_cells(from.0, from.1, to.0, from.1)
            } else {
                line_cells(from.0, from.1, from.0, to.1)
            };
            let second = if row_first {
                line_cells(to.0, from.1, to.0, to.1)
            } else {
                line_cells(from.0, to.1, to.0, to.1)
            };
            let a = dug(t2, width, height, first);
            lemma_dug_walkable(t2, width, height, first);
            let b = dug(a, width, height, second);
            lemma_dug_walkable(a, width, height, second);
            let c = dug(b, width, height, touching(b, from));
            lemma_dug_walkable(b, width, height, touching(b, from));
            let d = dug(c, width, height, touching(c, to));
            lemma_dug_walkable(c, width, height, touching(c, to));
            assert(d == result);
            assert forall|p: (int, int)| #[trigger] walkable_cell(tiles, p) implies walkable_cell(
                result,
                p,
            ) by {
                assert(walkable_cell(t1, p));
                assert(walkable_cell(t2, p));
                assert(walkable_cell(a, p));
                assert(walkable_cell(b, p));
                assert(walkable_cell(c, p));
            }
        },
        _ => {},
    }
}

/// The rooms of the tree lie inside the border of the map.
pub open spec fn rooms_inside(node: BSPNode, width: int, height: int) -> bool {
    forall|i: int, p: (int, int)|
        0 <= i < node.rooms_of().len() && #[trigger] node.rooms_of()[i].0.covers(p) ==> interior(
            p,
            width,
            height,
        )
}

/// The middle of every room of the tree can be walked on.
pub open spec fn middles_open(node: BSPNode, tiles: Map<(int, int), Tile>) -> bool {
    forall|i: int|
        0 <= i < node.rooms_of().len() ==> walkable_cell(
            tiles,
            (#[trigger] node.rooms_of()[i]).0.center(),
        )
}

/// The corridors of a tree join the middle of its first room to the
/// middle of each of its rooms.
pub proof fn lemma_rooms_joined(
    node: BSPNode,
    tiles: Map<(int, int), Tile>,
    width: int,
    height: int,
    state: u32,
)
    requires
        node.well_formed(),
        rooms_inside(node, width, height),
        middles_open(node, tiles),
        plain(tiles, width, height),
        full(tiles, width, height),
    ensures
        rooms_connected(with_corridors(node, tiles, width, height, state).0, node.rooms_of()),
    decreases node,
{
    node.lemma_rooms_apart();
    let rooms = node.rooms_of();
    let result = with_corridors(node, tiles, width, height, state).0;
    lemma_corridors_keep_walkable(node, tiles, width, height, state);
    match (node.left, node.right) {
        (Some(l), Some(r)) => {
            let a = l.rooms_of();
            let b = r.rooms_of();
            assert(rooms =~= a + b);
            l.lemma_rooms_apart();
            r.lemma_rooms_apart();
            assert(rooms_inside(*l, width, height)) by {
                assert forall|i: int, p: (int, int)|
                    0 <= i < a.len() && #[trigger] a[i].0.covers(p) implies interior(
                    p,
                    width,
                    height,
                ) by {
                    assert(rooms[i] == a[i]);
                    assert(rooms[i].0.covers(p));
                }
            }
            assert(rooms_inside(*r, width, height)) by {
                assert forall|i: int, p: (int, int)|
                    0 <= i < b.len() && #[trigger] b[i].0.covers(p) implies interior(
                    p,
                    width,
                    height,
                ) by {
                    assert(rooms[a.len() + i] == b[i]);
                    assert(rooms[a.len() + i].0.covers(p));
                }
            }
            assert(middles_open(*l, tiles)) by {
                assert forall|i: int| 0 <= i < a.len() implies walkable_cell(
                    tiles,
                    (#[trigger] a[i]).0.center(),
                ) by {
                    assert(rooms[i] == a[i]);
                }
            }
            lemma_corridors_keep_walkable(*l, tiles, width, height, state);
            let (t1, s1) = with_corridors(*l, tiles, width, height, state);
            assert(middles_open(*r, t1)) by {
                assert forall|i: int| 0 <= i < b.len() implies walkable_cell(
                    t1,
                    (#[trigger] b[i]).0.center(),
                ) by {
                    assert(rooms[a.len() + i] == b[i]);
                    assert(walkable_cell(tiles, b[i].0.center()));
                }
            }
            lemma_corridors_keep_walkable(*r, t1, width, height, s1);
            let (t2, s2) = with_corridors(*r, t1, width, height, s1);
            let s3 = lcg_step(s2);
            let from = l.connection_center();
            let to = r.connection_center();
            assert(result == with_corridor(t2, width, height, from, to, s3 % 2 == 0));
            lemma_rooms_joined(*l, tiles, width, height, state);
            lemma_rooms_joined(*r, t1, width, height, s1);
            lemma_walls_kept_by_corridor(t2, width, height, from, to, s3 % 2 == 0);
            if a.len() > 0 && b.len() > 0 {
                assert(rooms[0] == a[0]);
                assert(rooms[a.len() as int] == b[0]);
                assert(a[0].0.covers(from));
                assert(b[0].0.covers(to));
                lemma_corridor_joins(t2, width, height, from, to, s3 % 2 == 0);
            }
            assert forall|i: int| 0 <= i < rooms.len() implies joined(
                result,
                rooms[0].0.center(),
                (#[trigger] rooms[i]).0.center(),
            ) by {
                if i < a.len() {
                    assert(rooms[i] == a[i] && rooms[0] == a[0]);
                    lemma_joined_kept(t1, t2, a[0].0.center(), a[i].0.center());
                    lemma_joined_kept(t2, result, a[0].0.center(), a[i].0.center());
                } else {
                    let j = i - a.len();
                    assert(rooms[i] == b[j]);
                    lemma_joined_kept(t2, result, b[0].0.center(), b[j].0.center());
                    if a.len() > 0 {
                        lemma_joined_on(result, from, to, b[j].0.center());
                    } else {
                        assert(rooms[0] == b[0]);
                    }
                }
            }
        },
        _ => {
            assert(rooms.len() <= 1);
            assert(result == tiles);
            if rooms.len() == 1 {
                lemma_joined_self(tiles, rooms[0].0.center());
            }
        },
    }
}

/// A corridor keeps what can be walked on, whatever its ends.
pub proof fn lemma_walls_kept_by_corridor(
    tiles: Map<(int, int), Tile>,
    width: int,
    height: int,
    from: (int, int),
    to: (int, int),
    row_first: bool,
)
    requires
        plain(tiles, width, height),
        full(tiles, width, height),
    ensures
        keeps_walkable(tiles, with_corridor(tiles, width, height, from, to, row_first)),
{
    let first = if row_first {
        line_cells(from.0, from.1, to.0, from.1)
    } else {
        line_cells(from.0, from.1, from.0, to.1)
    };
    let second = if row_first {
        line_cells(to.0, from.1, to.0, to.1)
    } else {
        line_cells(from.0, to.1, to.0, to.1)
    };
    let a = dug(tiles, width, height, first);
    lemma_dug_walkable(tiles, width, height, first);
    let b = dug(a, width, height, second);
    lemma_dug_walkable(a, width, height, second);
    let c = dug(b, width, height, touching(b, from));
    lemma_dug_walkable(b, width, height, touching(b, from));
    let d = dug(c, width, height, touching(c, to));
    lemma_dug_walkable(c, width, height, touching(c, to));
    assert forall|p: (int, int)| #[trigger] walkable_cell(tiles, p) implies walkable_cell(d, p) by {
        assert(walkable_cell(a, p));
        assert(walkable_cell(b, p));
        assert(walkable_cell(c, p));
    }
}

/// Carving rooms keeps the map full.
pub proof fn lemma_carved_full(
    tiles: Map<(int, int), Tile>,
    positions: Map<(int, int), u32>,
    width: int,
    height: int,
    rooms: Seq<(Rect, u32)>,
    i: int,
)
    requires
        full(tiles, width, height),
    ensures
        full(carved(tiles, positions, width, height, rooms, i).0, width, height),
    decreases rooms.len() - i,
{
    if i < 0 || i >= rooms.len() {
    } else {
        let cells = crate::dungeon::room_cells(rooms[i].0, width, height);
        let t1 = crate::map::painted(tiles, cells, Tile::Floor);
        assert(full(t1, width, height)) by {
            assert forall|p: (int, int)| in_bounds(p, width, height) implies #[trigger] t1.contains_key(
                p,
            ) by {
                assert(tiles.contains_key(p));
            }
        }
        lemma_carved_full(
            t1,
            crate::map::painted(positions, cells, rooms[i].1),
            width,
            height,
            rooms,
            i + 1,
        );
    }
}

/// In a generated dungeon one can walk from the first room, which holds
/// the exit, to every room: a path of floor, corridor, door and exit
/// cells leads from its middle to the middle of each room. A map with no
/// cell inside its border has nothing to walk on.
pub proof fn lemma_dungeon_connected(width: int, height: int, seed: u32)
    requires
        3 <= width <= i32::MAX,
        3 <= height <= i32::MAX,
    ensures
        rooms_connected(dungeon_tiles(width, height, seed), dungeon_rooms(width, height, seed)),
        forall|i: int, p: (int, int)|
            0 <= i < dungeon_rooms(width, height, seed).len() && #[trigger] dungeon_rooms(
                width,
                height,
                seed,
            )[i].0.covers(p) ==> walkable_cell(dungeon_tiles(width, height, seed), p),
{
    let (tree, state) = dungeon_tree(width, height, seed);
    let rooms = dungeon_rooms(width, height, seed);
    lemma_dungeon_rooms_apart(width, height, seed);
    lemma_dungeon_room_owners(width, height, seed);
    let t0 = wall_grid(width, height);
    let no_owners = Map::<(int, int), u32>::empty();
    assert(plain(t0, width, height));
    assert(full(t0, width, height));
    lemma_carved_plain(t0, no_owners, width, height, rooms, 0);
    lemma_carved_full(t0, no_owners, width, height, rooms, 0);
    crate::layout::lemma_carved_owners(t0, no_owners, width, height, rooms, 0);
    let (t1, positions) = carved(t0, no_owners, width, height, rooms, 0);
    assert forall|i: int| 0 <= i < rooms.len() implies walkable_cell(
        t1,
        (#[trigger] rooms[i]).0.center(),
    ) by {
        let c = rooms[i].0.center();
        assert(rooms[i].0.covers(c));
        assert(interior(c, width, height));
        assert(crate::dungeon::room_cells(rooms[i].0, width, height).contains(c));
    }
    lemma_corridors_keep_walkable(tree, t1, width, height, state);
    let t2 = dungeon_corridors(width, height, seed);
    if tree.rooms_of().len() > 0 {
        assert(rooms == tree.rooms_of());
        assert(rooms_inside(tree, width, height));
        assert(middles_open(tree, t1));
        lemma_rooms_joined(tree, t1, width, height, state);
    } else {
        assert(rooms.len() == 1);
        assert(walkable_cell(t2, rooms[0].0.center()));
        lemma_joined_self(t2, rooms[0].0.center());
    }
    assert(rooms_connected(t2, rooms));
    lemma_dungeon_corridors_plain(width, height, seed);
    let none = Set::<(int, int)>::empty();
    assert(none.union(Seq::<(int, int)>::empty().to_set()) =~= none);
    crate::doors::lemma_with_doors_encased(
        t2,
        positions,
        width,
        height,
        rooms,
        0,
        Seq::<(int, int)>::empty(),
        none,
    );
    let t3 = with_doors(t2, positions, width, height, rooms, 0, Seq::<(int, int)>::empty()).0;
    assert(keeps_walkable(t2, t3)) by {
        assert forall|p: (int, int)| #[trigger] walkable_cell(t2, p) implies walkable_cell(t3, p) by {
            assert(t2.contains_key(p));
        }
    }
    let t4 = with_exit(t3, rooms);
    assert(keeps_walkable(t3, t4));
    assert(t4 == dungeon_tiles(width, height, seed));
    assert forall|i: int| 0 <= i < rooms.len() implies joined(
        t4,
        rooms[0].0.center(),
        (#[trigger] rooms[i]).0.center(),
    ) by {
        lemma_joined_kept(t2, t3, rooms[0].0.center(), rooms[i].0.center());
        lemma_joined_kept(t3, t4, rooms[0].0.center(), rooms[i].0.center());
    }
    assert forall|i: int, p: (int, int)|
        0 <= i < rooms.len() && #[trigger] rooms[i].0.covers(p) implies walkable_cell(t4, p) by {
        assert(interior(p, width, height));
        assert(crate::dungeon::room_cells(rooms[i].0, width, height).contains(p));
        assert(walkable_cell(t1, p));
        assert(walkable_cell(t2, p));
        assert(walkable_cell(t3, p));
    }
}

/// The tiles of the dungeon once the doors are placed, before the exit
/// is.
pub open spec fn dungeon_doors(width: int, height: int, seed: u32) -> Map<(int, int), Tile> {
    with_doors(
        dungeon_corridors(width, height, seed),
        crate::layout::dungeon_room_positions(width, height, seed),
        width,
        height,
        dungeon_rooms(width, height, seed),
        0,
        Seq::<(int, int)>::empty(),
    ).0
}

/// Corridors and doors leave the rooms alone: once the doors are placed
/// every cell of every room is floor, and no cell holds an exit.
pub proof fn lemma_rooms_stay_floor(width: int, height: int, seed: u32)
    requires
        i32::MIN <= width <= i32::MAX,
        i32::MIN <= height <= i32::MAX,
    ensures
        forall|i: int, p: (int, int)|
            0 <= i < dungeon_rooms(width, height, seed).len() && #[trigger] dungeon_rooms(
                width,
                height,
                seed,
            )[i].0.covers(p) ==> holds(dungeon_doors(width, height, seed), p, Tile::Floor),
        forall|p: (int, int)| !#[trigger] holds(dungeon_doors(width, height, seed), p, Tile::DungeonExit),
{
    let (tree, state) = dungeon_tree(width, height, seed);
    let rooms = dungeon_rooms(width, height, seed);
    lemma_dungeon_rooms_apart(width, height, seed);
    lemma_dungeon_room_owners(width, height, seed);
    let t0 = wall_grid(width, height);
    let no_owners = Map::<(int, int), u32>::empty();
    crate::layout::lemma_carved_owners(t0, no_owners, width, height, rooms, 0);
    let (t1, positions) = carved(t0, no_owners, width, height, rooms, 0);
    crate::door_laws::lemma_corridors_same_floor(tree, t1, width, height, state);
    let t2 = dungeon_corridors(width, height, seed);
    lemma_dungeon_corridors_plain(width, height, seed);
    let none = Set::<(int, int)>::empty();
    assert(none.union(Seq::<(int, int)>::empty().to_set()) =~= none);
    crate::doors::lemma_with_doors_encased(
        t2,
        positions,
        width,
        height,
        rooms,
        0,
        Seq::<(int, int)>::empty(),
        none,
    );
    let t3 = dungeon_doors(width, height, seed);
    assert forall|i: int, p: (int, int)|
        0 <= i < rooms.len() && #[trigger] rooms[i].0.covers(p) implies holds(
        t3,
        p,
        Tile::Floor,
    ) by {
        assert(interior(p, width, height));
        assert(crate::dungeon::room_cells(rooms[i].0, width, height).contains(p));
        assert(holds(t1, p, Tile::Floor));
        assert(holds(t2, p, Tile::Floor));
        assert(t2.contains_key(p));
    }
    assert forall|p: (int, int)| !#[trigger] holds(t3, p, Tile::DungeonExit) by {
        if t3.contains_key(p) {
            assert(t2.contains_key(p));
        }
    }
}

/// A generated dungeon of five cells or more each way has one exit: one
/// step in from the corner of its first room, and nowhere else.
pub proof fn lemma_dungeon_has_exit(width: int, height: int, seed: u32)
    requires
        5 <= width <= i32::MAX,
        5 <= height <= i32::MAX,
    ensures
        holds(
            dungeon_tiles(width, height, seed),
            exit_cell(dungeon_rooms(width, height, seed)),
            Tile::DungeonExit,
        ),
        exit_cell(dungeon_rooms(width, height, seed)) == (
            dungeon_rooms(width, height, seed)[0].0.x + 1,
            dungeon_rooms(width, height, seed)[0].0.y + 1,
        ),
        forall|p: (int, int)| #[trigger]
            holds(dungeon_tiles(width, height, seed), p, Tile::DungeonExit) ==> p == exit_cell(
                dungeon_rooms(width, height, seed),
            ),
{
    let rooms = dungeon_rooms(width, height, seed);
    lemma_dungeon_rooms_apart(width, height, seed);
    crate::layout::lemma_dungeon_room_sizes(width, height, seed);
    lemma_rooms_stay_floor(width, height, seed);
    let first = rooms[0].0;
    assert(3 <= first.width && 3 <= first.height);
    let e = exit_cell(rooms);
    let t3 = dungeon_doors(width, height, seed);
    assert(rooms[0].0.covers(e));
    assert(rooms[0].0.covers((e.0 - 1, e.1)));
    assert(rooms[0].0.covers((e.0 + 1, e.1)));
    assert(rooms[0].0.covers((e.0, e.1 - 1)));
    assert(rooms[0].0.covers((e.0, e.1 + 1)));
    assert(!crate::dungeon::beside(t3, e, Tile::Door));
    let t4 = with_exit(t3, rooms);
    assert(t4 == dungeon_tiles(width, height, seed));
    assert(t4 == t3.insert(e, Tile::DungeonExit));
    assert forall|p: (int, int)| #[trigger] holds(t4, p, Tile::DungeonExit) implies p == e by {
        if p != e {
            assert(holds(t3, p, Tile::DungeonExit));
        }
    }
}

/// In a generated dungeon one can walk from every cell of the first
/// room, the cell of the exit among them, to every cell of every room.
pub proof fn lemma_dungeon_reachable(
    width: int,
    height: int,
    seed: u32,
    i: int,
    from: (int, int),
    to: (int, int),
)
    requires
        3 <= width <= i32::MAX,
        3 <= height <= i32::MAX,
        0 <= i < dungeon_rooms(width, height, seed).len(),
        dungeon_rooms(width, height, seed)[0].0.covers(from),
        dungeon_rooms(width, height, seed)[i].0.covers(to),
    ensures
        joined(dungeon_tiles(width, height, seed), from, to),
{
    let rooms = dungeon_rooms(width, height, seed);
    let tiles = dungeon_tiles(width, height, seed);
    lemma_dungeon_connected(width, height, seed);
    lemma_dungeon_rooms_apart(width, height, seed);
    let first = rooms[0].0;
    let other = rooms[i].0;
    assert(first.covers(first.center()));
    assert(other.covers(other.center()));
    assert forall|p: (int, int)| first.covers(p) implies #[trigger] walkable_cell(tiles, p) by {
        assert(rooms[0].0.covers(p));
    }
    assert forall|p: (int, int)| other.covers(p) implies #[trigger] walkable_cell(tiles, p) by {
        assert(rooms[i].0.covers(p));
    }
    lemma_joined_inside(tiles, first, from, first.center());
    lemma_joined_inside(tiles, other, other.center(), to);
    lemma_joined_on(tiles, from, first.center(), other.center());
    lemma_joined_on(tiles, from, other.center(), to);
}

} // verus!
