//! What a player has explored of a dungeon, and which cells can be
//! reached through corridors and opened doors.

use crate::doors::cells_of;
use crate::dungeon::adjacent;
use crate::grid::{is_cell, CoordSet};
use crate::map::{GameMap, GameMapView};
use crate::rooms::room_beside;
use crate::tile::Tile;
use vstd::prelude::*;

verus! {

/// A passage: a floor or corridor that belongs to no room.
pub open spec fn is_passage(map: GameMapView, p: (int, int)) -> bool {
    (map.holds(p, Tile::Floor) || map.holds(p, Tile::Corridor)) && !map.room_positions.contains_key(
        p,
    )
}

/// A cell that a search walks through: a passage or an opened door.
pub open spec fn walkable(map: GameMapView, opened: Set<(int, int)>, p: (int, int)) -> bool {
    is_passage(map, p) || (map.holds(p, Tile::Door) && opened.contains(p))
}

/// Each step of the path goes to a walkable cell next to the one before.
pub open spec fn is_walk(map: GameMapView, opened: Set<(int, int)>, path: Seq<(int, int)>) -> bool {
    &&& path.len() >= 1
    &&& forall|i: int|
        1 <= i < path.len() ==> adjacent(path[i - 1], #[trigger] path[i]) && walkable(
            map,
            opened,
            path[i],
        )
}

/// A walk leads from `start` to `target`. Every cell reaches itself.
pub open spec fn reaches(
    map: GameMapView,
    opened: Set<(int, int)>,
    start: (int, int),
    target: (int, int),
) -> bool {
    exists|path: Seq<(int, int)>| #[trigger]
        is_walk(map, opened, path) && path[0] == start && path.last() == target
}

/// A cell next to `p` belongs to an explored room.
pub open spec fn explored_beside(map: GameMapView, explored: Set<u32>, p: (int, int)) -> bool {
    exists|id: u32| explored.contains(id) && #[trigger] room_beside(map.room_positions, p, id)
}

/// A walk leads from `start` to a cell next to an explored room.
pub open spec fn connected_to_explored(
    map: GameMapView,
    opened: Set<(int, int)>,
    explored: Set<u32>,
    start: (int, int),
) -> bool {
    exists|c: (int, int)| #[trigger] reaches(map, opened, start, c) && explored_beside(map, explored, c)
}

/// Every cell reaches itself.
pub proof fn lemma_reaches_self(map: GameMapView, opened: Set<(int, int)>, start: (int, int))
    ensures
        reaches(map, opened, start, start),
{
    let path = seq![start];
    assert(is_walk(map, opened, path) && path[0] == start && path.last() == start);
}

/// A walk can go on to a walkable cell next to its end.
pub proof fn lemma_reaches_step(
    map: GameMapView,
    opened: Set<(int, int)>,
    start: (int, int),
    c: (int, int),
    n: (int, int),
)
    requires
        reaches(map, opened, start, c),
        adjacent(c, n),
        walkable(map, opened, n),
    ensures
        reaches(map, opened, start, n),
{
    let path = choose|path: Seq<(int, int)>| #[trigger]
        is_walk(map, opened, path) && path[0] == start && path.last() == c;
    let longer = path.push(n);
    assert forall|i: int| 1 <= i < longer.len() implies adjacent(
        longer[i - 1],
        #[trigger] longer[i],
    ) && walkable(map, opened, longer[i]) by {
        if i < path.len() {
            assert(longer[i] == path[i] && longer[i - 1] == path[i - 1]);
        } else {
            assert(longer[i - 1] == path.last());
        }
    }
    assert(is_walk(map, opened, longer) && longer[0] == start && longer.last() == n);
}

/// A set that holds `start` and, with each cell, the walkable cells next
/// to it, holds every cell of a walk from `start`.
pub proof fn lemma_walk_stays(
    map: GameMapView,
    opened: Set<(int, int)>,
    closed: Set<(int, int)>,
    path: Seq<(int, int)>,
    i: int,
)
    requires
        is_walk(map, opened, path),
        closed.contains(path[0]),
        forall|c: (int, int), n: (int, int)|
            closed.contains(c) && #[trigger] adjacent(c, n) && walkable(map, opened, n)
                ==> #[trigger] closed.contains(n),
        0 <= i < path.len(),
    ensures
        closed.contains(path[i]),
    decreases i,
{
    if i > 0 {
        lemma_walk_stays(map, opened, closed, path, i - 1);
        assert(adjacent(path[i - 1], path[i]));
    }
}

/// With more doors opened, a walk is still a walk.
pub proof fn lemma_reaches_monotone(
    map: GameMapView,
    opened: Set<(int, int)>,
    more: Set<(int, int)>,
    start: (int, int),
    target: (int, int),
)
    requires
        opened.subset_of(more),
        reaches(map, opened, start, target),
    ensures
        reaches(map, more, start, target),
{
    let path = choose|path: Seq<(int, int)>| #[trigger]
        is_walk(map, opened, path) && path[0] == start && path.last() == target;
    assert(is_walk(map, more, path));
}

/// True when the search walks through `(x, y)`.
fn walkable_at(map: &GameMap, opened: &CoordSet, x: i32, y: i32) -> (can: bool)
    ensures
        can == walkable(map@, opened@, (x as int, y as int)),
{
    if map.tile_is(x, y, Tile::Door) {
        opened.contains(x, y)
    } else if map.tile_is(x, y, Tile::Floor) || map.tile_is(x, y, Tile::Corridor) {
        map.room_id_at(x, y).is_none()
    } else {
        false
    }
}

/// Puts the cell on the stack if the search walks through it and has not
/// been there.
fn push_if_new(
    map: &GameMap,
    opened: &CoordSet,
    visited: &CoordSet,
    stack: &mut Vec<(i32, i32)>,
    x: i64,
    y: i64,
)
    ensures
        walkable(map@, opened@, (x as int, y as int)) && !visited@.contains((x as int, y as int))
            ==> is_cell((x as int, y as int)) && final(stack)@ == old(stack)@.push(
            (x as i32, y as i32),
        ),
        !(walkable(map@, opened@, (x as int, y as int)) && !visited@.contains(
            (x as int, y as int),
        )) ==> final(stack)@ == old(stack)@,
{
    proof {
        map.tiles.lemma_dom();
    }
    if i32::MIN as i64 <= x && x <= i32::MAX as i64 && i32::MIN as i64 <= y && y <= i32::MAX as i64 {
        let cx: i32 = x as i32;
        let cy: i32 = y as i32;
        if walkable_at(map, opened, cx, cy) && !visited.contains(cx, cy) {
            stack.push((cx, cy));
        }
    } else {
        assert(!map@.tiles.contains_key((x as int, y as int)));
    }
}

/// The cells that walks from `start` through passages and opened doors
/// reach, `start` among them.
pub fn flood(map: &GameMap, opened: &CoordSet, start_x: i32, start_y: i32) -> (cells: Vec<
    (i32, i32),
>)
    ensures
        forall|c: (int, int)|
            cells_of(cells@).contains(c) <==> reaches(
                map@,
                opened@,
                (start_x as int, start_y as int),
                c,
            ),
{
    let ghost start = (start_x as int, start_y as int);
    let ghost universe = map@.tiles.dom().insert(start);
    let mut visited = CoordSet::new();
    let mut cells: Vec<(i32, i32)> = Vec::new();
    let mut stack: Vec<(i32, i32)> = Vec::new();
    stack.push((start_x, start_y));
    proof {
        map.tiles.lemma_dom();
        lemma_reaches_self(map@, opened@, start);
        assert(cells_of(stack@)[0] == start);
        assert(cells_of(cells@) =~= Seq::<(int, int)>::empty());
    }
    while stack.len() > 0
        invariant
            universe == map@.tiles.dom().insert(start),
            universe.finite(),
            start == (start_x as int, start_y as int),
            visited@.subset_of(universe),
            forall|c: (int, int)| cells_of(cells@).contains(c) <==> #[trigger] visited@.contains(c),
            forall|c: (int, int)| #[trigger] visited@.contains(c) ==> reaches(map@, opened@, start, c),
            forall|i: int|
                0 <= i < stack@.len() ==> reaches(
                    map@,
                    opened@,
                    start,
                    #[trigger] cells_of(stack@)[i],
                ),
            visited@.contains(start) || cells_of(stack@).contains(start),
            forall|c: (int, int), n: (int, int)|
                visited@.contains(c) && #[trigger] adjacent(c, n) && walkable(map@, opened@, n)
                    ==> visited@.contains(n) || cells_of(stack@).contains(n),
        decreases universe.difference(visited@).len(), stack@.len(),
    {
        let ghost stack0 = cells_of(stack@);
        let ghost visited0 = visited@;
        let top = stack.pop().unwrap();
        let ghost c = (top.0 as int, top.1 as int);
        let ghost stack1 = cells_of(stack@);
        proof {
            assert(stack0[stack0.len() - 1] == c);
            assert(stack1 =~= stack0.drop_last());
            assert forall|p: (int, int)| stack0.contains(p) implies stack1.contains(p) || p == c by {
                let i = choose|i: int| 0 <= i < stack0.len() && stack0[i] == p;
                if i < stack1.len() {
                    assert(stack1[i] == p);
                }
            }
            assert forall|i: int| 0 <= i < stack1.len() implies reaches(
                map@,
                opened@,
                start,
                #[trigger] stack1[i],
            ) by {
                assert(stack1[i] == stack0[i]);
            }
        }
        if visited.contains(top.0, top.1) {
            continue ;
        }
        visited.insert(top.0, top.1);
        let ghost listed = cells_of(cells@);
        cells.push(top);
        proof {
            assert(cells_of(cells@) =~= listed.push(c));
            assert forall|p: (int, int)| cells_of(cells@).contains(p) <==> #[trigger] visited@.contains(
                p,
            ) by {
                if cells_of(cells@).contains(p) {
                    let i = choose|i: int| 0 <= i < cells_of(cells@).len() && cells_of(cells@)[i] == p;
                    if i < listed.len() {
                        assert(listed[i] == p);
                        assert(listed.contains(p));
                    }
                }
                if listed.contains(p) {
                    let i = choose|i: int| 0 <= i < listed.len() && listed[i] == p;
                    assert(cells_of(cells@)[i] == p);
                }
                if p == c {
                    assert(cells_of(cells@)[listed.len() as int] == p);
                }
            }
            assert(universe.contains(c)) by {
                if c != start {
                    let path = choose|path: Seq<(int, int)>| #[trigger]
                        is_walk(map@, opened@, path) && path[0] == start && path.last() == c;
                    assert(path.len() > 1);
                    assert(walkable(map@, opened@, path[path.len() - 1]));
                }
            }
            assert(universe.difference(visited@) =~= universe.difference(visited0).remove(c));
        }
        let x: i64 = top.0 as i64;
        let y: i64 = top.1 as i64;
        push_if_new(map, opened, &visited, &mut stack, x - 1, y);
        let ghost s2 = cells_of(stack@);
        push_if_new(map, opened, &visited, &mut stack, x + 1, y);
        let ghost s3 = cells_of(stack@);
        push_if_new(map, opened, &visited, &mut stack, x, y - 1);
        let ghost s4 = cells_of(stack@);
        push_if_new(map, opened, &visited, &mut stack, x, y + 1);
        let ghost s5 = cells_of(stack@);
        proof {
            let n1 = (c.0 - 1, c.1);
            let n2 = (c.0 + 1, c.1);
            let n3 = (c.0, c.1 - 1);
            let n4 = (c.0, c.1 + 1);
            assert(s2 =~= stack1 || s2 =~= stack1.push(n1));
            assert(s3 =~= s2 || s3 =~= s2.push(n2));
            assert(s4 =~= s3 || s4 =~= s3.push(n3));
            assert(s5 =~= s4 || s5 =~= s4.push(n4));
            assert forall|p: (int, int)| stack1.contains(p) implies s5.contains(p) by {
                let i = choose|i: int| 0 <= i < stack1.len() && stack1[i] == p;
                assert(s2[i] == p);
                assert(s3[i] == p);
                assert(s4[i] == p);
                assert(s5[i] == p);
            }
            assert(walkable(map@, opened@, n1) && !visited@.contains(n1) ==> s5.contains(n1)) by {
                if walkable(map@, opened@, n1) && !visited@.contains(n1) {
                    let i = stack1.len() as int;
                    assert(s2[i] == n1);
                    assert(s3[i] == n1);
                    assert(s4[i] == n1);
                    assert(s5[i] == n1);
                }
            }
            assert(walkable(map@, opened@, n2) && !visited@.contains(n2) ==> s5.contains(n2)) by {
                if walkable(map@, opened@, n2) && !visited@.contains(n2) {
                    let i = s2.len() as int;
                    assert(s3[i] == n2);
                    assert(s4[i] == n2);
                    assert(s5[i] == n2);
                }
            }
            assert(walkable(map@, opened@, n3) && !visited@.contains(n3) ==> s5.contains(n3)) by {
                if walkable(map@, opened@, n3) && !visited@.contains(n3) {
                    let i = s3.len() as int;
                    assert(s4[i] == n3);
                    assert(s5[i] == n3);
                }
            }
            assert(walkable(map@, opened@, n4) && !visited@.contains(n4) ==> s5.contains(n4)) by {
                if walkable(map@, opened@, n4) && !visited@.contains(n4) {
                    let i = s4.len() as int;
                    assert(s5[i] == n4);
                }
            }
            assert forall|i: int| 0 <= i < s5.len() implies reaches(
                map@,
                opened@,
                start,
                #[trigger] s5[i],
            ) by {
                if i < stack1.len() {
                    assert(s5[i] == stack1[i]);
                } else {
                    assert(s5[i] == n1 || s5[i] == n2 || s5[i] == n3 || s5[i] == n4);
                    assert(adjacent(c, s5[i]));
                    assert(walkable(map@, opened@, s5[i]));
                    lemma_reaches_step(map@, opened@, start, c, s5[i]);
                }
            }
            assert forall|a: (int, int), n: (int, int)|
                visited@.contains(a) && #[trigger] adjacent(a, n) && walkable(
                    map@,
                    opened@,
                    n,
                ) implies visited@.contains(n) || s5.contains(n) by {
                if a == c {
                    assert(n == n1 || n == n2 || n == n3 || n == n4);
                } else {
                    assert(visited0.contains(a));
                    if !visited0.contains(n) {
                        assert(stack0.contains(n));
                    }
                }
            }
        }
    }
    proof {
        assert(cells_of(stack@).len() == 0);
        assert(visited@.contains(start));
        assert forall|a: (int, int), n: (int, int)|
            visited@.contains(a) && #[trigger] adjacent(a, n) && walkable(
                map@,
                opened@,
                n,
            ) implies #[trigger] visited@.contains(n) by {}
        assert forall|c: (int, int)|
            cells_of(cells@).contains(c) <==> reaches(map@, opened@, start, c) by {
            assert(cells_of(cells@).contains(c) <==> visited@.contains(c));
            if reaches(map@, opened@, start, c) {
                let path = choose|path: Seq<(int, int)>| #[trigger]
                    is_walk(map@, opened@, path) && path[0] == start && path.last() == c;
                lemma_walk_stays(map@, opened@, visited@, path, path.len() - 1);
            }
        }
    }
    cells
}

} // verus!
