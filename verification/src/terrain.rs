//! Bounded overworld maps: terrain by noise, rivers, villages, dungeon
//! entrances and the roads between them.

use crate::dungeon::DungeonGenerator;
use crate::generate::is_dungeon;
use crate::layout::dungeon_tiles;
use crate::doors::cells_of;
use crate::dungeon::holds;
use crate::lighting::{distance_squared, line_cell, line_length, line_point, line_steps};
use crate::map::{in_bounds, GameMap, GameMapView};
use crate::overworld::{clamped, unit_range, NoiseField, UNIT};
use crate::tile::{Rect, Room, Tile};
use vstd::prelude::*;

verus! {

/// Builds bounded maps.
pub struct TerrainGenerator;

/// The tile of the bounded overworld by elevation and moisture, each in
/// millionths: mountain above three quarters, water up to three tenths,
/// and in between grass, or tree where it is moist.
pub open spec fn overworld_tile(elevation: int, moisture: int) -> Tile {
    if elevation > 750_000 {
        Tile::Mountain
    } else if elevation > 600_000 {
        if moisture > 600_000 {
            Tile::Tree
        } else {
            Tile::Grass
        }
    } else if elevation > 300_000 {
        if moisture > 700_000 {
            Tile::Tree
        } else {
            Tile::Grass
        }
    } else {
        Tile::Water
    }
}

/// A noise value lifted from between minus one and one to between zero
/// and one.
pub open spec fn lifted(noise: int) -> int {
    (noise + UNIT) / 2
}

/// `after` has a tile where `before` has one, and each tile is as
/// before or is water where there was no mountain.
pub open spec fn watered(before: Map<(int, int), Tile>, after: Map<(int, int), Tile>) -> bool {
    &&& after.dom() == before.dom()
    &&& forall|p: (int, int)| #[trigger]
        before.contains_key(p) ==> after[p] == before[p] || (after[p] == Tile::Water && before[p]
            != Tile::Mountain)
}

/// `after` has a tile where `before` has one, and each tile is as
/// before, or a village on what was grass, or a dungeon entrance on
/// what was grass or tree.
pub open spec fn settled(before: Map<(int, int), Tile>, after: Map<(int, int), Tile>) -> bool {
    &&& after.dom() == before.dom()
    &&& forall|p: (int, int)| #[trigger]
        before.contains_key(p) ==> after[p] == before[p] || (after[p] == Tile::Village && before[p]
            == Tile::Grass) || (after[p] == Tile::DungeonEntrance && (before[p] == Tile::Grass
            || before[p] == Tile::Tree))
}

/// `after` has a tile where `before` has one, and each tile is as
/// before or is a road where there was neither water nor mountain.
pub open spec fn paved(before: Map<(int, int), Tile>, after: Map<(int, int), Tile>) -> bool {
    &&& after.dom() == before.dom()
    &&& forall|p: (int, int)| #[trigger]
        before.contains_key(p) ==> after[p] == before[p] || (after[p] == Tile::Road && before[p]
            != Tile::Water && before[p] != Tile::Mountain)
}

/// True when the road between the two cells passes `p`: a cell of the
/// line strictly between them.
pub open spec fn on_road(from: (int, int), to: (int, int), p: (int, int), steps: int) -> bool {
    exists|i: int| 0 < i < steps && #[trigger] line_point(from, to, i) == p
}

/// `tiles` with the first `steps` steps of the road from `from` to `to`:
/// each cell of the line strictly between them that holds neither water
/// nor mountain becomes road.
pub open spec fn with_road(
    tiles: Map<(int, int), Tile>,
    from: (int, int),
    to: (int, int),
    steps: int,
) -> Map<(int, int), Tile> {
    Map::new(
        |p: (int, int)| tiles.contains_key(p),
        |p: (int, int)|
            if on_road(from, to, p, steps) && tiles[p] != Tile::Water && tiles[p] != Tile::Mountain {
                Tile::Road
            } else {
                tiles[p]
            },
    )
}

/// True of the cells that roads link: villages and dungeon entrances.
pub open spec fn is_place(tiles: Map<(int, int), Tile>, p: (int, int)) -> bool {
    holds(tiles, p, Tile::Village) || holds(tiles, p, Tile::DungeonEntrance)
}

/// True when `p` comes before `q` as the map is read column by column.
pub open spec fn earlier_column(p: (int, int), q: (int, int)) -> bool {
    p.0 < q.0 || (p.0 == q.0 && p.1 < q.1)
}

/// `places` lists the villages and dungeon entrances of the map, column
/// by column, each once.
pub open spec fn lists_places(map: GameMapView, places: Seq<(int, int)>) -> bool {
    &&& forall|p: (int, int)|
        places.contains(p) <==> in_bounds(p, map.width, map.height) && is_place(map.tiles, p)
    &&& forall|i: int, j: int|
        0 <= i < j < places.len() ==> earlier_column(#[trigger] places[i], #[trigger] places[j])
}

/// The place `j` is the nearest to the place `i` among the others, and
/// the first of those that are as near.
pub open spec fn nearest_to(places: Seq<(int, int)>, i: int, j: int) -> bool {
    &&& 0 <= j < places.len()
    &&& j != i
    &&& forall|m: int|
        0 <= m < places.len() && m != i ==> distance_squared(places[i], places[j])
            < distance_squared(places[i], #[trigger] places[m]) || (distance_squared(
            places[i],
            places[j],
        ) == distance_squared(places[i], places[m]) && j <= m)
}

/// `tiles` with the road from the place `i` to the place nearest to it,
/// if there is another place.
pub open spec fn linked_from(
    tiles: Map<(int, int), Tile>,
    places: Seq<(int, int)>,
    i: int,
) -> Map<(int, int), Tile> {
    if exists|j: int| nearest_to(places, i, j) {
        let j = choose|j: int| nearest_to(places, i, j);
        with_road(tiles, places[i], places[j], line_steps(places[i], places[j]))
    } else {
        tiles
    }
}

/// `tiles` with the roads from the places from `i` on, each to the place
/// nearest to it, laid in order.
pub open spec fn with_roads(
    tiles: Map<(int, int), Tile>,
    places: Seq<(int, int)>,
    i: int,
) -> Map<(int, int), Tile>
    decreases places.len() - i,
{
    if i < 0 || i >= places.len() {
        tiles
    } else {
        with_roads(linked_from(tiles, places, i), places, i + 1)
    }
}

/// `after` has a tile where `before` has one, and each tile is as
/// before, or a village on what was grass, or a dungeon entrance on what
/// was grass or tree, or a road on what was neither water nor mountain.
pub open spec fn developed(before: Map<(int, int), Tile>, after: Map<(int, int), Tile>) -> bool {
    &&& after.dom() == before.dom()
    &&& forall|p: (int, int)| #[trigger]
        before.contains_key(p) ==> after[p] == before[p] || (after[p] == Tile::Village && before[p]
            == Tile::Grass) || (after[p] == Tile::DungeonEntrance && (before[p] == Tile::Grass
            || before[p] == Tile::Tree)) || (after[p] == Tile::Road && before[p] != Tile::Water
            && before[p] != Tile::Mountain)
}

/// True of the tiles of the overworld.
pub open spec fn is_overworld_tile(tile: Tile) -> bool {
    matches!(
        tile,
        Tile::Grass | Tile::Tree | Tile::Mountain | Tile::Water | Tile::Road | Tile::Village
            | Tile::DungeonEntrance
    )
}

/// True when water lies within three cells of `p` along both axes.
pub open spec fn water_within_three(tiles: Map<(int, int), Tile>, p: (int, int)) -> bool {
    exists|q: (int, int)|
        p.0 - 3 <= q.0 <= p.0 + 3 && p.1 - 3 <= q.1 <= p.1 + 3 && #[trigger] holds(
            tiles,
            q,
            Tile::Water,
        )
}

/// The place along a side of length `length` that a noise value picks:
/// the lifted noise times the length, rounded down.
pub open spec fn placed_along(noise: int, length: int) -> int {
    lifted(noise) * length / (UNIT as int)
}

/// The number of rivers of a map: one for every twenty columns and one
/// more.
pub open spec fn river_count(width: int) -> int {
    width / 20 + 1
}

/// The column `x`, or the nearest column of the map if it is none.
pub open spec fn kept_on_map(x: int, width: int) -> int {
    if x < 0 {
        0
    } else if x > width - 1 {
        width - 1
    } else {
        x
    }
}

/// The column of a river in the next row: one to the right where the
/// drift is above three tenths, one to the left where it is below minus
/// three tenths, and never off the map.
pub open spec fn drifted(x: int, drift: int, width: int) -> int {
    kept_on_map(
        x + (if drift > 300_000 {
            1int
        } else if drift < -300_000 {
            -1int
        } else {
            0int
        }),
        width,
    )
}

/// A river can flow from the column `x` of one row to the column `next`
/// of the row below.
pub open spec fn flows_to(x: int, next: int, width: int) -> bool {
    next == kept_on_map(x - 1, width) || next == kept_on_map(x, width) || next == kept_on_map(
        x + 1,
        width,
    )
}

/// The course of a river: a column for each row of the map, the first
/// anywhere from the left side to just past the right one, each of the
/// others at most one step to the side of the one above.
pub open spec fn is_course(course: Seq<int>, width: int, height: int) -> bool {
    &&& course.len() == height
    &&& 0 <= course[0] <= width
    &&& forall|y: int| 0 <= y < height - 1 ==> flows_to(course[y], #[trigger] course[y + 1], width)
}

/// `tiles` with the first `rows` rows of a river: the cell of its course
/// in each row becomes water unless it is mountain.
pub open spec fn with_river(
    tiles: Map<(int, int), Tile>,
    course: Seq<int>,
    rows: int,
) -> Map<(int, int), Tile> {
    Map::new(
        |p: (int, int)| tiles.contains_key(p),
        |p: (int, int)|
            if 0 <= p.1 < rows && p.0 == course[p.1] && tiles[p] != Tile::Mountain {
                Tile::Water
            } else {
                tiles[p]
            },
    )
}

/// `tiles` with the first `n` of the rivers, each down all `height` rows.
pub open spec fn with_rivers(
    tiles: Map<(int, int), Tile>,
    courses: Seq<Seq<int>>,
    n: int,
    height: int,
) -> Map<(int, int), Tile>
    decreases n,
{
    if n <= 0 {
        tiles
    } else {
        with_river(with_rivers(tiles, courses, n - 1, height), courses[n - 1], height)
    }
}

/// `after` is `before` with the rivers of a map of the given size along
/// `courses`.
pub open spec fn rivers_run(
    before: Map<(int, int), Tile>,
    after: Map<(int, int), Tile>,
    courses: Seq<Seq<int>>,
    width: int,
    height: int,
) -> bool {
    &&& courses.len() == river_count(width)
    &&& forall|i: int| 0 <= i < courses.len() ==> is_course(#[trigger] courses[i], width, height)
    &&& after == with_rivers(before, courses, courses.len() as int, height)
}

/// The first `n` rivers do not depend on the rivers after them.
pub proof fn lemma_rivers_prefix(
    tiles: Map<(int, int), Tile>,
    courses: Seq<Seq<int>>,
    course: Seq<int>,
    n: int,
    height: int,
)
    requires
        n <= courses.len(),
    ensures
        with_rivers(tiles, courses.push(course), n, height) == with_rivers(tiles, courses, n, height),
    decreases n,
{
    if n > 0 {
        lemma_rivers_prefix(tiles, courses, course, n - 1, height);
        assert(courses.push(course)[n - 1] == courses[n - 1]);
    }
}

/// The number of cells at which villages are tried.
pub open spec fn village_count(width: int) -> int {
    width / 15 + 2
}

/// The number of cells at which dungeon entrances are tried.
pub open spec fn entrance_count(width: int) -> int {
    width / 15 + 4
}

/// A cell that the noise can pick on a map of the given size.
pub open spec fn is_pick(p: (int, int), width: int, height: int) -> bool {
    0 <= p.0 <= width && 0 <= p.1 <= height
}

/// A village is founded at `p`: the cell is on the map, holds grass and
/// has water within three cells.
pub open spec fn founds_village(
    tiles: Map<(int, int), Tile>,
    width: int,
    height: int,
    p: (int, int),
) -> bool {
    p.0 < width && p.1 < height && holds(tiles, p, Tile::Grass) && water_within_three(tiles, p)
}

/// The tiles after villages are tried at the first `n` picks, in order,
/// and the villages founded.
pub open spec fn with_villages(
    tiles: Map<(int, int), Tile>,
    picks: Seq<(int, int)>,
    width: int,
    height: int,
    n: int,
) -> (Map<(int, int), Tile>, Seq<(int, int)>)
    decreases n,
{
    if n <= 0 {
        (tiles, Seq::<(int, int)>::empty())
    } else {
        let (t, villages) = with_villages(tiles, picks, width, height, n - 1);
        let p = picks[n - 1];
        if founds_village(t, width, height, p) {
            (t.insert(p, Tile::Village), villages.push(p))
        } else {
            (t, villages)
        }
    }
}

/// One of the villages is less than ten cells from `p`.
pub open spec fn near_a_village(villages: Seq<(int, int)>, p: (int, int)) -> bool {
    exists|i: int| 0 <= i < villages.len() && distance_squared(p, #[trigger] villages[i]) < 100
}

/// A dungeon entrance is opened at `p`: the cell holds grass or tree and
/// no village is near.
pub open spec fn opens_entrance(
    tiles: Map<(int, int), Tile>,
    villages: Seq<(int, int)>,
    p: (int, int),
) -> bool {
    (holds(tiles, p, Tile::Grass) || holds(tiles, p, Tile::Tree)) && !near_a_village(villages, p)
}

/// The tiles after dungeon entrances are tried at the first `n` picks,
/// in order.
pub open spec fn with_entrances(
    tiles: Map<(int, int), Tile>,
    picks: Seq<(int, int)>,
    villages: Seq<(int, int)>,
    n: int,
) -> Map<(int, int), Tile>
    decreases n,
{
    if n <= 0 {
        tiles
    } else {
        let t = with_entrances(tiles, picks, villages, n - 1);
        let p = picks[n - 1];
        if opens_entrance(t, villages, p) {
            t.insert(p, Tile::DungeonEntrance)
        } else {
            t
        }
    }
}

/// `after` are the tiles of the map `before` once villages were tried at
/// `village_picks`, then dungeon entrances at `entrance_picks`, and the
/// `places` that came of it were linked by roads.
pub open spec fn located(
    before: GameMapView,
    after: Map<(int, int), Tile>,
    village_picks: Seq<(int, int)>,
    entrance_picks: Seq<(int, int)>,
    places: Seq<(int, int)>,
) -> bool {
    let founded = with_villages(
        before.tiles,
        village_picks,
        before.width,
        before.height,
        village_picks.len() as int,
    );
    let opened = with_entrances(founded.0, entrance_picks, founded.1, entrance_picks.len() as int);
    &&& village_picks.len() == village_count(before.width)
    &&& entrance_picks.len() == entrance_count(before.width)
    &&& forall|i: int|
        0 <= i < village_picks.len() ==> is_pick(
            #[trigger] village_picks[i],
            before.width,
            before.height,
        )
    &&& forall|i: int|
        0 <= i < entrance_picks.len() ==> is_pick(
            #[trigger] entrance_picks[i],
            before.width,
            before.height,
        )
    &&& lists_places(before.with_tiles(opened), places)
    &&& after == with_roads(opened, places, 0)
}

/// The villages tried at the first `n` picks do not depend on the picks
/// after them.
pub proof fn lemma_villages_prefix(
    tiles: Map<(int, int), Tile>,
    picks: Seq<(int, int)>,
    pick: (int, int),
    width: int,
    height: int,
    n: int,
)
    requires
        n <= picks.len(),
    ensures
        with_villages(tiles, picks.push(pick), width, height, n) == with_villages(
            tiles,
            picks,
            width,
            height,
            n,
        ),
    decreases n,
{
    if n > 0 {
        lemma_villages_prefix(tiles, picks, pick, width, height, n - 1);
        assert(picks.push(pick)[n - 1] == picks[n - 1]);
    }
}

/// The entrances tried at the first `n` picks do not depend on the picks
/// after them.
pub proof fn lemma_entrances_prefix(
    tiles: Map<(int, int), Tile>,
    picks: Seq<(int, int)>,
    pick: (int, int),
    villages: Seq<(int, int)>,
    n: int,
)
    requires
        n <= picks.len(),
    ensures
        with_entrances(tiles, picks.push(pick), villages, n) == with_entrances(
            tiles,
            picks,
            villages,
            n,
        ),
    decreases n,
{
    if n > 0 {
        lemma_entrances_prefix(tiles, picks, pick, villages, n - 1);
        assert(picks.push(pick)[n - 1] == picks[n - 1]);
    }
}

/// The seed that a reading of the clock gives: its low 32 bits.
pub open spec fn clock_seed(nanos: int) -> u32 {
    (nanos % 0x1_0000_0000) as u32
}

/// The column of the river `river` in the row `y`: in the first row the
/// place along the row that the noise picks; below, one step from the
/// column above as the noise there has it.
pub open spec fn river_column<N: NoiseField>(noise: N, river: int, width: int, y: int) -> int
    decreases y,
{
    if y <= 0 {
        placed_along(clamped(noise.value((river * 10_000_000) as i64, 0i64) as int), width)
    } else {
        let above = river_column(noise, river, width, y - 1);
        drifted(
            above,
            clamped(
                noise.value(
                    (above * 100_000 + river * 100_000_000) as i64,
                    ((y - 1) * 100_000) as i64,
                ) as int,
            ),
            width,
        )
    }
}

/// The course of the river `river` down a map.
pub open spec fn river_course<N: NoiseField>(
    noise: N,
    river: int,
    width: int,
    height: int,
) -> Seq<int> {
    Seq::new(height as nat, |y: int| river_column(noise, river, width, y))
}

/// The courses of the rivers of a map.
pub open spec fn river_courses<N: NoiseField>(noise: N, width: int, height: int) -> Seq<Seq<int>> {
    Seq::new(river_count(width) as nat, |i: int| river_course(noise, i, width, height))
}

/// The cell at which the village `i` is tried.
pub open spec fn village_pick<N: NoiseField>(noise: N, i: int, width: int, height: int) -> (
    int,
    int,
) {
    (
        placed_along(clamped(noise.value((i * 1_000_000) as i64, 500_000i64) as int), width),
        placed_along(clamped(noise.value((i * 1_000_000) as i64, 1_500_000i64) as int), height),
    )
}

/// The cell at which the dungeon entrance `i` is tried.
pub open spec fn entrance_pick<N: NoiseField>(noise: N, i: int, width: int, height: int) -> (
    int,
    int,
) {
    (
        placed_along(clamped(noise.value((i * 1_000_000) as i64, 10_500_000i64) as int), width),
        placed_along(clamped(noise.value((i * 1_000_000) as i64, 11_500_000i64) as int), height),
    )
}

/// The cells at which villages are tried, in order.
pub open spec fn village_picks<N: NoiseField>(noise: N, width: int, height: int) -> Seq<(int, int)> {
    Seq::new(village_count(width) as nat, |i: int| village_pick(noise, i, width, height))
}

/// The cells at which dungeon entrances are tried, in order.
pub open spec fn entrance_picks<N: NoiseField>(noise: N, width: int, height: int) -> Seq<
    (int, int),
> {
    Seq::new(entrance_count(width) as nat, |i: int| entrance_pick(noise, i, width, height))
}

/// The tile of the land at `(x, y)`: by the elevation at a twentieth of
/// the position and the moisture at seven tenths of that.
pub open spec fn land_tile<N: NoiseField>(elevation: N, moisture: N, x: int, y: int) -> Tile {
    overworld_tile(
        lifted(clamped(elevation.value((x * 50_000) as i64, (y * 50_000) as i64) as int)),
        lifted(clamped(moisture.value((x * 35_000) as i64, (y * 35_000) as i64) as int)),
    )
}

/// The land of a bounded overworld: the fields of the seeds 42 and 123
/// give elevation and moisture.
pub open spec fn overworld_land<N: NoiseField>(width: int, height: int) -> Map<(int, int), Tile> {
    Map::new(
        |p: (int, int)| in_bounds(p, width, height),
        |p: (int, int)| land_tile(N::of_seed(42), N::of_seed(123), p.0, p.1),
    )
}

/// The land with its rivers: the field of the seed 555 gives their
/// courses.
pub open spec fn overworld_wet<N: NoiseField>(width: int, height: int) -> Map<(int, int), Tile> {
    with_rivers(
        overworld_land::<N>(width, height),
        river_courses(N::of_seed(555), width, height),
        river_count(width),
        height,
    )
}

/// Every cell of the map holds a tile, and no other cell does.
pub open spec fn fills_map(map: GameMapView) -> bool {
    forall|p: (int, int)| map.tiles.contains_key(p) <==> in_bounds(p, map.width, map.height)
}

fn clamp_noise(v: i32) -> (c: i32)
    ensures
        c == clamped(v as int),
        unit_range(c as int),
{
    if v < -UNIT {
        -UNIT
    } else if v > UNIT {
        UNIT
    } else {
        v
    }
}

fn lift(noise: i32) -> (level: i32)
    requires
        unit_range(noise as int),
    ensures
        level == lifted(noise as int),
        0 <= level <= UNIT,
{
    (noise + UNIT) / 2
}

/// The place along a side of length `length` that a noise value picks:
/// the lifted noise times the length.
fn place_along(noise: i32, length: i32) -> (at: i32)
    requires
        unit_range(noise as int),
        0 <= length,
    ensures
        at == placed_along(noise as int, length as int),
        0 <= at <= length,
{
    let lifted: i64 = (noise as i64 + UNIT as i64) / 2;
    assert(lifted * (length as i64) <= 1_000_000 * 0x7FFF_FFFF) by (nonlinear_arith)
        requires
            0 <= lifted <= 1_000_000,
            0 <= length <= 0x7FFF_FFFF,
    ;
    assert(lifted * (length as i64) >= 0) by (nonlinear_arith)
        requires
            0 <= lifted,
            0 <= length,
    ;
    let scaled: i64 = lifted * (length as i64) / 1_000_000;
    assert(scaled <= length) by {
        assert(lifted * (length as i64) <= 1_000_000 * (length as i64)) by (nonlinear_arith)
            requires
                0 <= lifted <= 1_000_000,
                0 <= length,
        ;
    }
    scaled as i32
}

/// The column of a river in the next row.
fn drift_column(x: i32, drift: i32, width: i32) -> (next: i32)
    requires
        0 <= x <= width,
        0 < width,
    ensures
        next == drifted(x as int, drift as int, width as int),
        0 <= next <= width - 1,
        flows_to(x as int, next as int, width as int),
{
    let step: i64 = if drift > 300_000 {
        1
    } else if drift < -300_000 {
        -1
    } else {
        0
    };
    let moved: i64 = x as i64 + step;
    if moved < 0 {
        0
    } else if moved > width as i64 - 1 {
        width - 1
    } else {
        moved as i32
    }
}

/// True when one of the villages is less than ten cells from `(x, y)`.
fn near_village(villages: &Vec<(i32, i32)>, x: i32, y: i32) -> (near: bool)
    ensures
        near == near_a_village(cells_of(villages@), (x as int, y as int)),
{
    let mut v: usize = 0;
    while v < villages.len()
        invariant
            v <= villages@.len(),
            forall|i: int|
                0 <= i < v ==> distance_squared(
                    (x as int, y as int),
                    #[trigger] cells_of(villages@)[i],
                ) >= 100,
        decreases villages.len() - v,
    {
        let village = villages[v];
        assert(cells_of(villages@)[v as int] == (village.0 as int, village.1 as int));
        if TerrainGenerator::squared_distance((x, y), village) < 100 {
            return true;
        }
        v = v + 1;
    }
    false
}

impl TerrainGenerator {
    /// True when the two rectangles share a cell's worth of area.
    pub fn rooms_overlap(room1: &Rect, room2: &Rect) -> (overlap: bool)
        ensures
            overlap == room1.intersects(*room2),
    {
        (room1.x as i64) < room2.x as i64 + room2.width as i64 && room1.x as i64 + room1.width as i64
            > room2.x as i64 && (room1.y as i64) < room2.y as i64 + room2.height as i64
            && room1.y as i64 + room1.height as i64 > room2.y as i64
    }

    /// The cell at the middle of a rectangle.
    pub fn room_center(room: &Rect) -> (center: (i32, i32))
        requires
            0 <= room.width,
            0 <= room.height,
            room.x + room.width <= i32::MAX,
            room.y + room.height <= i32::MAX,
        ensures
            (center.0 as int, center.1 as int) == room.center(),
    {
        (room.x + room.width / 2, room.y + room.height / 2)
    }

    /// The tile of the bounded overworld for the noise at a cell.
    pub fn generate_overworld_tile(elevation_noise: i32, moisture_noise: i32) -> (tile: Tile)
        requires
            unit_range(elevation_noise as int),
            unit_range(moisture_noise as int),
        ensures
            tile == overworld_tile(lifted(elevation_noise as int), lifted(moisture_noise as int)),
    {
        let elevation = lift(elevation_noise);
        let moisture = lift(moisture_noise);
        if elevation > 750_000 {
            Tile::Mountain
        } else if elevation > 600_000 {
            if moisture > 600_000 {
                Tile::Tree
            } else {
                Tile::Grass
            }
        } else if elevation > 300_000 {
            if moisture > 700_000 {
                Tile::Tree
            } else {
                Tile::Grass
            }
        } else {
            Tile::Water
        }
    }

    /// Lays the road between two cells: each cell of the line strictly
    /// between them that holds a tile other than water and mountain
    /// becomes road.
    pub fn draw_road(map: &mut GameMap, x1: i32, y1: i32, x2: i32, y2: i32)
        ensures
            final(map)@ == old(map)@.with_tiles(
                with_road(
                    old(map)@.tiles,
                    (x1 as int, y1 as int),
                    (x2 as int, y2 as int),
                    line_steps((x1 as int, y1 as int), (x2 as int, y2 as int)),
                ),
            ),
            paved(old(map)@.tiles, final(map)@.tiles),
    {
        let ghost start = map@;
        let ghost from = (x1 as int, y1 as int);
        let ghost to = (x2 as int, y2 as int);
        let n: u64 = line_length(x1, y1, x2, y2);
        let mut i: u64 = 1;
        assert(map@.tiles =~= with_road(start.tiles, from, to, 1));
        while i < n
            invariant
                1 <= i,
                i <= n || (n == 0 && i == 1),
                n == line_steps(from, to),
                from == (x1 as int, y1 as int),
                to == (x2 as int, y2 as int),
                map@ == start.with_tiles(map@.tiles),
                map@.tiles == with_road(start.tiles, from, to, i as int),
            decreases n - i,
        {
            let (x, y) = line_cell(x1, y1, x2, y2, i);
            let ghost here = (x as int, y as int);
            let ghost before = map@.tiles;
            match map.tile(x, y) {
                Some(tile) => {
                    if tile != Tile::Water && tile != Tile::Mountain {
                        map.tiles.insert(x, y, Tile::Road);
                    }
                },
                None => {},
            }
            proof {
                assert(line_point(from, to, i as int) == here);
                assert forall|p: (int, int)| on_road(from, to, p, i + 1) <==> on_road(
                    from,
                    to,
                    p,
                    i as int,
                ) || p == here by {
                    if on_road(from, to, p, i + 1) {
                        let k = choose|k: int| 0 < k < i + 1 && #[trigger] line_point(from, to, k) == p;
                        if k < i {
                            assert(on_road(from, to, p, i as int));
                        }
                    }
                    if on_road(from, to, p, i as int) {
                        let k = choose|k: int| 0 < k < i && #[trigger] line_point(from, to, k) == p;
                        assert(0 < k < i + 1 && line_point(from, to, k) == p);
                    }
                }
                assert(map@.tiles =~= with_road(start.tiles, from, to, i + 1));
            }
            i = i + 1;
        }
        proof {
            if n == 0 {
                assert forall|p: (int, int)| !on_road(from, to, p, 1) && !on_road(from, to, p, 0) by {}
                assert(with_road(start.tiles, from, to, 1) =~= with_road(start.tiles, from, to, 0));
            }
            assert(map@.tiles.dom() =~= start.tiles.dom());
            assert(map@.tiles == with_road(start.tiles, from, to, n as int));
            assert(map@ == start.with_tiles(with_road(start.tiles, from, to, n as int)));
        }
    }

    /// The cells that hold a village or a dungeon entrance, column by
    /// column.
    pub fn important_locations(map: &GameMap) -> (found: Vec<(i32, i32)>)
        ensures
            lists_places(map@, cells_of(found@)),
    {
        let mut found: Vec<(i32, i32)> = Vec::new();
        let mut x: i32 = 0;
        while x < map.width
            invariant
                0 <= x,
                forall|p: (int, int)|
                    cells_of(found@).contains(p) <==> in_bounds(p, map@.width, map@.height)
                        && is_place(map@.tiles, p) && p.0 < x,
                forall|i: int, j: int|
                    0 <= i < j < found@.len() ==> earlier_column(
                        #[trigger] cells_of(found@)[i],
                        #[trigger] cells_of(found@)[j],
                    ),
                forall|i: int| 0 <= i < found@.len() ==> (#[trigger] cells_of(found@)[i]).0 < x,
            decreases map.width - x,
        {
            let mut y: i32 = 0;
            while y < map.height
                invariant
                    0 <= x < map.width,
                    0 <= y,
                    forall|p: (int, int)|
                        cells_of(found@).contains(p) <==> in_bounds(p, map@.width, map@.height)
                            && is_place(map@.tiles, p) && earlier_column(p, (x as int, y as int)),
                    forall|i: int, j: int|
                        0 <= i < j < found@.len() ==> earlier_column(
                            #[trigger] cells_of(found@)[i],
                            #[trigger] cells_of(found@)[j],
                        ),
                    forall|i: int|
                        0 <= i < found@.len() ==> earlier_column(
                            #[trigger] cells_of(found@)[i],
                            (x as int, y as int),
                        ),
                decreases map.height - y,
            {
                if map.tile_is(x, y, Tile::Village) || map.tile_is(x, y, Tile::DungeonEntrance) {
                    let ghost before = cells_of(found@);
                    found.push((x, y));
                    proof {
                        let here = (x as int, y as int);
                        assert(cells_of(found@) =~= before.push(here));
                        assert forall|p: (int, int)|
                            cells_of(found@).contains(p) <==> in_bounds(
                                p,
                                map@.width,
                                map@.height,
                            ) && is_place(map@.tiles, p) && earlier_column(p, (x as int, y + 1)) by {
                            if cells_of(found@).contains(p) {
                                let i = choose|i: int|
                                    0 <= i < cells_of(found@).len() && cells_of(found@)[i] == p;
                                if i < before.len() {
                                    assert(before[i] == p);
                                    assert(before.contains(p));
                                }
                            }
                            if before.contains(p) {
                                let i = choose|i: int| 0 <= i < before.len() && before[i] == p;
                                assert(cells_of(found@)[i] == p);
                            }
                            if p == here {
                                assert(cells_of(found@)[before.len() as int] == p);
                            }
                        }
                    }
                }
                y = y + 1;
            }
            x = x + 1;
        }
        found
    }

    /// The square of the distance between two cells.
    fn squared_distance(a: (i32, i32), b: (i32, i32)) -> (d: u128)
        ensures
            d == distance_squared((a.0 as int, a.1 as int), (b.0 as int, b.1 as int)),
    {
        let ax: u128 = if b.0 >= a.0 {
            (b.0 as i64 - a.0 as i64) as u128
        } else {
            (a.0 as i64 - b.0 as i64) as u128
        };
        let ay: u128 = if b.1 >= a.1 {
            (b.1 as i64 - a.1 as i64) as u128
        } else {
            (a.1 as i64 - b.1 as i64) as u128
        };
        assert(ax * ax <= 0xFFFF_FFFF * 0xFFFF_FFFF) by (nonlinear_arith)
            requires
                ax <= 0xFFFF_FFFF,
        ;
        assert(ay * ay <= 0xFFFF_FFFF * 0xFFFF_FFFF) by (nonlinear_arith)
            requires
                ay <= 0xFFFF_FFFF,
        ;
        ax * ax + ay * ay
    }

    /// The place nearest to the place `i` among the others, the first of
    /// those that are as near; none if there is no other place.
    fn nearest_place(places: &Vec<(i32, i32)>, i: usize) -> (found: Option<usize>)
        requires
            i < places@.len(),
        ensures
            match found {
                Some(k) => nearest_to(cells_of(places@), i as int, k as int),
                None => !exists|j: int| nearest_to(cells_of(places@), i as int, j),
            },
    {
        let ghost cells = cells_of(places@);
        let here = places[i];
        assert(cells[i as int] == (here.0 as int, here.1 as int));
        let mut nearest: Option<usize> = None;
        let mut nearest_distance: u128 = 0;
        let mut j: usize = 0;
        while j < places.len()
            invariant
                j <= places@.len(),
                i < places@.len(),
                cells == cells_of(places@),
                cells[i as int] == (here.0 as int, here.1 as int),
                match nearest {
                    Some(k) => {
                        &&& k < j
                        &&& k != i
                        &&& nearest_distance == distance_squared(cells[i as int], cells[k as int])
                        &&& forall|m: int|
                            0 <= m < j && m != i ==> distance_squared(cells[i as int], cells[k as int])
                                < distance_squared(cells[i as int], #[trigger] cells[m]) || (
                            distance_squared(cells[i as int], cells[k as int]) == distance_squared(
                                cells[i as int],
                                cells[m],
                            ) && k <= m)
                    },
                    None => j == 0 || (j == 1 && i == 0),
                },
            decreases places.len() - j,
        {
            if j != i {
                let there = places[j];
                assert(cells[j as int] == (there.0 as int, there.1 as int));
                let d = Self::squared_distance(here, there);
                let closer = match nearest {
                    Some(_) => d < nearest_distance,
                    None => true,
                };
                if closer {
                    nearest = Some(j);
                    nearest_distance = d;
                }
            }
            j = j + 1;
        }
        proof {
            if nearest is None {
                if exists|k: int| nearest_to(cells, i as int, k) {
                    let k = choose|k: int| nearest_to(cells, i as int, k);
                    assert(k == i);
                }
            }
        }
        nearest
    }

    /// Lays a road from each village and dungeon entrance to the nearest
    /// other one, in the order in which the map lists them column by
    /// column.
    pub fn add_roads(map: &mut GameMap)
        ensures
            final(map)@ == old(map)@.with_tiles(final(map)@.tiles),
            exists|places: Seq<(int, int)>|
                lists_places(old(map)@, places) && final(map)@.tiles == #[trigger] with_roads(
                    old(map)@.tiles,
                    places,
                    0,
                ),
            paved(old(map)@.tiles, final(map)@.tiles),
    {
        let places = Self::important_locations(map);
        let ghost start = map@;
        let ghost cells = cells_of(places@);
        let mut i: usize = 0;
        while i < places.len()
            invariant
                i <= places@.len(),
                cells == cells_of(places@),
                map@ == start.with_tiles(map@.tiles),
                paved(start.tiles, map@.tiles),
                with_roads(map@.tiles, cells, i as int) == with_roads(start.tiles, cells, 0),
            decreases places.len() - i,
        {
            let here = places[i];
            assert(cells[i as int] == (here.0 as int, here.1 as int));
            let ghost before = map@.tiles;
            match Self::nearest_place(&places, i) {
                Some(k) => {
                    let there = places[k];
                    assert(cells[k as int] == (there.0 as int, there.1 as int));
                    Self::draw_road(map, here.0, here.1, there.0, there.1);
                    proof {
                        let chosen = choose|j: int| nearest_to(cells, i as int, j);
                        assert(nearest_to(cells, i as int, chosen));
                        assert(chosen == k) by {
                            assert(cells[chosen] == cells[chosen]);
                            assert(cells[k as int] == cells[k as int]);
                        }
                        assert(map@.tiles == linked_from(before, cells, i as int));
                        assert forall|p: (int, int)| #[trigger] start.tiles.contains_key(p) implies map@.tiles[p]
                            == start.tiles[p] || (map@.tiles[p] == Tile::Road && start.tiles[p]
                            != Tile::Water && start.tiles[p] != Tile::Mountain) by {
                            assert(before.contains_key(p));
                        }
                    }
                },
                None => {
                    assert(map@.tiles == linked_from(before, cells, i as int));
                },
            }
            i = i + 1;
        }
        assert(lists_places(start, cells) && map@.tiles == with_roads(start.tiles, cells, 0));
    }

    /// Lets rivers run down the map, one for every twenty columns and one
    /// more: each starts in the first row at the column that the noise
    /// picks, takes one step down at a time and, as the noise has it,
    /// one to a side. A cell of its course becomes water unless it is
    /// mountain.
    pub fn generate_rivers<N: NoiseField>(map: &mut GameMap, river_noise: &N)
        requires
            0 < old(map).width,
            0 < old(map).height,
        ensures
            final(map)@ == old(map)@.with_tiles(final(map)@.tiles),
            rivers_run(
                old(map)@.tiles,
                final(map)@.tiles,
                river_courses(*river_noise, old(map)@.width, old(map)@.height),
                old(map)@.width,
                old(map)@.height,
            ),
            watered(old(map)@.tiles, final(map)@.tiles),
    {
        let ghost start = map@;
        let ghost w = map.width as int;
        let ghost h = map.height as int;
        let ghost mut courses: Seq<Seq<int>> = Seq::empty();
        let rivers: i32 = map.width / 20 + 1;
        let mut river: i32 = 0;
        while river < rivers
            invariant
                0 <= river <= rivers,
                rivers == river_count(w),
                w == map.width,
                h == map.height,
                0 < map.width,
                0 < map.height,
                map@ == start.with_tiles(map@.tiles),
                watered(start.tiles, map@.tiles),
                courses.len() == river,
                forall|i: int| 0 <= i < courses.len() ==> is_course(#[trigger] courses[i], w, h),
                forall|i: int|
                    0 <= i < courses.len() ==> #[trigger] courses[i] == river_course(
                        *river_noise,
                        i,
                        w,
                        h,
                    ),
                map@.tiles == with_rivers(start.tiles, courses, river as int, h),
            decreases rivers - river,
        {
            let ghost source = map@.tiles;
            let ghost mut course: Seq<int> = Seq::empty();
            let pick = clamp_noise(river_noise.sample(river as i64 * 10_000_000, 0));
            let mut x: i32 = place_along(pick, map.width);
            let mut y: i32 = 0;
            assert(map@.tiles =~= with_river(source, course, 0));
            while y < map.height
                invariant
                    0 <= y <= map.height,
                    0 <= x <= map.width,
                    y > 0 ==> x <= map.width - 1,
                    w == map.width,
                    h == map.height,
                    0 < map.width,
                    0 < map.height,
                    0 <= river,
                    map@ == start.with_tiles(map@.tiles),
                    watered(start.tiles, map@.tiles),
                    course.len() == y,
                    y > 0 ==> 0 <= course[0] <= w,
                    y > 0 ==> flows_to(course[y - 1], x as int, w),
                    forall|r: int| 0 <= r < y - 1 ==> flows_to(course[r], #[trigger] course[r + 1], w),
                    forall|r: int|
                        0 <= r < y ==> #[trigger] course[r] == river_column(
                            *river_noise,
                            river as int,
                            w,
                            r,
                        ),
                    x == river_column(*river_noise, river as int, w, y as int),
                    map@.tiles == with_river(source, course, y as int),
                decreases map.height - y,
            {
                let ghost before = map@.tiles;
                let ghost above = course;
                match map.tile(x, y) {
                    Some(tile) => {
                        if tile != Tile::Mountain {
                            map.tiles.insert(x, y, Tile::Water);
                        }
                    },
                    None => {},
                }
                proof {
                    course = above.push(x as int);
                    assert(map@.tiles.dom() =~= start.tiles.dom());
                    assert forall|p: (int, int)| #[trigger] start.tiles.contains_key(p) implies map@.tiles[p]
                        == start.tiles[p] || (map@.tiles[p] == Tile::Water && start.tiles[p]
                        != Tile::Mountain) by {
                        assert(before.contains_key(p));
                    }
                    assert forall|r: int| 0 <= r < y implies flows_to(
                        course[r],
                        #[trigger] course[r + 1],
                        w,
                    ) by {
                        if r < y - 1 {
                            assert(course[r] == above[r] && course[r + 1] == above[r + 1]);
                        } else {
                            assert(course[r] == above[y - 1]);
                        }
                    }
                    assert forall|r: int| 0 <= r < y + 1 implies #[trigger] course[r] == river_column(
                        *river_noise,
                        river as int,
                        w,
                        r,
                    ) by {
                        if r < y {
                            assert(course[r] == above[r]);
                        }
                    }
                    assert(map@.tiles =~= with_river(source, course, y + 1)) by {
                        assert forall|p: (int, int)| source.contains_key(p) implies map@.tiles[p]
                            == with_river(source, course, y + 1)[p] by {
                            if 0 <= p.1 < y {
                                assert(course[p.1] == above[p.1]);
                            }
                        }
                    }
                }
                let drift = clamp_noise(
                    river_noise.sample(
                        x as i64 * 100_000 + river as i64 * 100_000_000,
                        y as i64 * 100_000,
                    ),
                );
                y = y + 1;
                x = drift_column(x, drift, map.width);
            }
            proof {
                assert(is_course(course, w, h));
                assert(course =~= river_course(*river_noise, river as int, w, h));
                lemma_rivers_prefix(start.tiles, courses, course, river as int, h);
                let longer = courses.push(course);
                assert(longer[river as int] == course);
                assert forall|i: int| 0 <= i < longer.len() implies #[trigger] longer[i]
                    == river_course(*river_noise, i, w, h) by {
                    if i < courses.len() {
                        assert(longer[i] == courses[i]);
                    }
                }
                assert forall|i: int| 0 <= i < longer.len() implies is_course(
                    #[trigger] longer[i],
                    w,
                    h,
                ) by {
                    if i < courses.len() {
                        assert(longer[i] == courses[i]);
                    }
                }
                courses = longer;
            }
            river = river + 1;
        }
        assert(courses =~= river_courses(*river_noise, w, h));
        assert(rivers_run(start.tiles, map@.tiles, courses, w, h));
    }

    /// True when water lies within three cells of `(x, y)` along both
    /// axes.
    pub fn water_near(map: &GameMap, x: i32, y: i32) -> (near: bool)
        ensures
            near == water_within_three(map@.tiles, (x as int, y as int)),
    {
        proof {
            map.tiles.lemma_dom();
        }
        let ghost here = (x as int, y as int);
        let mut dx: i64 = -3;
        while dx <= 3
            invariant
                -3 <= dx <= 4,
                here == (x as int, y as int),
                forall|q: (int, int)| #[trigger] map@.tiles.contains_key(q) ==> crate::grid::is_cell(q),
                forall|q: (int, int)|
                    here.0 - 3 <= q.0 < here.0 + dx && here.1 - 3 <= q.1 <= here.1 + 3 ==> !#[trigger] holds(
                        map@.tiles,
                        q,
                        Tile::Water,
                    ),
            decreases 4 - dx,
        {
            let mut dy: i64 = -3;
            while dy <= 3
                invariant
                    -3 <= dx <= 3,
                    -3 <= dy <= 4,
                    here == (x as int, y as int),
                    forall|q: (int, int)| #[trigger]
                        map@.tiles.contains_key(q) ==> crate::grid::is_cell(q),
                    forall|q: (int, int)|
                        here.0 - 3 <= q.0 < here.0 + dx && here.1 - 3 <= q.1 <= here.1 + 3 ==> !#[trigger] holds(
                            map@.tiles,
                            q,
                            Tile::Water,
                        ),
                    forall|q: (int, int)|
                        q.0 == here.0 + dx && here.1 - 3 <= q.1 < here.1 + dy ==> !#[trigger] holds(
                            map@.tiles,
                            q,
                            Tile::Water,
                        ),
                decreases 4 - dy,
            {
                let cx: i64 = x as i64 + dx;
                let cy: i64 = y as i64 + dy;
                if i32::MIN as i64 <= cx && cx <= i32::MAX as i64 && i32::MIN as i64 <= cy && cy
                    <= i32::MAX as i64 {
                    if map.tile_is(cx as i32, cy as i32, Tile::Water) {
                        assert(holds(map@.tiles, (cx as int, cy as int), Tile::Water));
                        return true;
                    }
                } else {
                    assert(!map@.tiles.contains_key((cx as int, cy as int)));
                }
                dy = dy + 1;
            }
            dx = dx + 1;
        }
        false
    }

    /// Founds villages on grass near water and opens dungeon entrances on
    /// grass and among trees, ten cells or more from every village
    /// founded, at the cells that the noise picks; then lays the roads.
    pub fn add_special_locations<N: NoiseField>(
        map: &mut GameMap,
        village_noise: &N,
        dungeon_noise: &N,
    )
        requires
            0 < old(map).width,
            0 < old(map).height,
        ensures
            final(map)@ == old(map)@.with_tiles(final(map)@.tiles),
            exists|places: Seq<(int, int)>| #[trigger]
                located(
                    old(map)@,
                    final(map)@.tiles,
                    village_picks(*village_noise, old(map)@.width, old(map)@.height),
                    entrance_picks(*dungeon_noise, old(map)@.width, old(map)@.height),
                    places,
                ),
            developed(old(map)@.tiles, final(map)@.tiles),
    {
        let ghost start = map@;
        let ghost w = map.width as int;
        let ghost h = map.height as int;
        let ghost mut tried: Seq<(int, int)> = Seq::empty();
        let mut villages: Vec<(i32, i32)> = Vec::new();
        let tries: i32 = map.width / 15 + 2;
        let mut i: i32 = 0;
        assert(cells_of(villages@) =~= Seq::<(int, int)>::empty());
        while i < tries
            invariant
                0 <= i <= tries,
                tries == village_count(w),
                w == map.width,
                h == map.height,
                0 < map.width,
                0 < map.height,
                map@ == start.with_tiles(map@.tiles),
                settled(start.tiles, map@.tiles),
                tried.len() == i,
                forall|m: int| 0 <= m < tried.len() ==> is_pick(#[trigger] tried[m], w, h),
                forall|m: int|
                    0 <= m < tried.len() ==> #[trigger] tried[m] == village_pick(
                        *village_noise,
                        m,
                        w,
                        h,
                    ),
                (map@.tiles, cells_of(villages@)) == with_villages(
                    start.tiles,
                    tried,
                    w,
                    h,
                    i as int,
                ),
            decreases tries - i,
        {
            let vx = place_along(
                clamp_noise(village_noise.sample(i as i64 * 1_000_000, 500_000)),
                map.width,
            );
            let vy = place_along(
                clamp_noise(village_noise.sample(i as i64 * 1_000_000, 1_500_000)),
                map.height,
            );
            let ghost pick = (vx as int, vy as int);
            let ghost before = map@.tiles;
            let ghost founded = cells_of(villages@);
            if vx < map.width && vy < map.height && map.tile_is(vx, vy, Tile::Grass)
                && Self::water_near(map, vx, vy) {
                map.tiles.insert(vx, vy, Tile::Village);
                villages.push((vx, vy));
                proof {
                    assert(cells_of(villages@) =~= founded.push(pick));
                    assert(map@.tiles.dom() =~= start.tiles.dom());
                    assert forall|p: (int, int)| #[trigger] start.tiles.contains_key(p) implies map@.tiles[p]
                        == start.tiles[p] || (map@.tiles[p] == Tile::Village && start.tiles[p]
                        == Tile::Grass) || (map@.tiles[p] == Tile::DungeonEntrance && (
                    start.tiles[p] == Tile::Grass || start.tiles[p] == Tile::Tree)) by {
                        assert(before.contains_key(p));
                    }
                }
            }
            proof {
                lemma_villages_prefix(start.tiles, tried, pick, w, h, i as int);
                let longer = tried.push(pick);
                assert(longer[i as int] == pick);
                assert(pick == village_pick(*village_noise, i as int, w, h));
                assert forall|m: int| 0 <= m < longer.len() implies #[trigger] longer[m]
                    == village_pick(*village_noise, m, w, h) by {
                    if m < tried.len() {
                        assert(longer[m] == tried[m]);
                    }
                }
                assert forall|m: int| 0 <= m < longer.len() implies is_pick(
                    #[trigger] longer[m],
                    w,
                    h,
                ) by {
                    if m < tried.len() {
                        assert(longer[m] == tried[m]);
                    }
                }
                tried = longer;
            }
            i = i + 1;
        }
        let ghost settled_tiles = map@.tiles;
        let ghost founded = cells_of(villages@);
        let ghost mut opened_at: Seq<(int, int)> = Seq::empty();
        let dungeon_count: i32 = tries + 2;
        let mut k: i32 = 0;
        while k < dungeon_count
            invariant
                0 <= k <= dungeon_count,
                dungeon_count == entrance_count(w),
                w == map.width,
                h == map.height,
                0 < map.width,
                0 < map.height,
                map@ == start.with_tiles(map@.tiles),
                settled(start.tiles, map@.tiles),
                founded == cells_of(villages@),
                opened_at.len() == k,
                forall|m: int|
                    0 <= m < opened_at.len() ==> is_pick(#[trigger] opened_at[m], w, h),
                forall|m: int|
                    0 <= m < opened_at.len() ==> #[trigger] opened_at[m] == entrance_pick(
                        *dungeon_noise,
                        m,
                        w,
                        h,
                    ),
                map@.tiles == with_entrances(settled_tiles, opened_at, founded, k as int),
            decreases dungeon_count - k,
        {
            let dx = place_along(
                clamp_noise(dungeon_noise.sample(k as i64 * 1_000_000, 10_500_000)),
                map.width,
            );
            let dy = place_along(
                clamp_noise(dungeon_noise.sample(k as i64 * 1_000_000, 11_500_000)),
                map.height,
            );
            let ghost pick = (dx as int, dy as int);
            let ghost before = map@.tiles;
            if (map.tile_is(dx, dy, Tile::Grass) || map.tile_is(dx, dy, Tile::Tree)) && !near_village(
                &villages,
                dx,
                dy,
            ) {
                map.tiles.insert(dx, dy, Tile::DungeonEntrance);
                proof {
                    assert(map@.tiles.dom() =~= start.tiles.dom());
                    assert forall|p: (int, int)| #[trigger] start.tiles.contains_key(p) implies map@.tiles[p]
                        == start.tiles[p] || (map@.tiles[p] == Tile::Village && start.tiles[p]
                        == Tile::Grass) || (map@.tiles[p] == Tile::DungeonEntrance && (
                    start.tiles[p] == Tile::Grass || start.tiles[p] == Tile::Tree)) by {
                        assert(before.contains_key(p));
                    }
                }
            }
            proof {
                lemma_entrances_prefix(settled_tiles, opened_at, pick, founded, k as int);
                let longer = opened_at.push(pick);
                assert(longer[k as int] == pick);
                assert(pick == entrance_pick(*dungeon_noise, k as int, w, h));
                assert forall|m: int| 0 <= m < longer.len() implies #[trigger] longer[m]
                    == entrance_pick(*dungeon_noise, m, w, h) by {
                    if m < opened_at.len() {
                        assert(longer[m] == opened_at[m]);
                    }
                }
                assert forall|m: int| 0 <= m < longer.len() implies is_pick(
                    #[trigger] longer[m],
                    w,
                    h,
                ) by {
                    if m < opened_at.len() {
                        assert(longer[m] == opened_at[m]);
                    }
                }
                opened_at = longer;
            }
            k = k + 1;
        }
        let ghost opened = map@.tiles;
        let ghost mid = map@;
        Self::add_roads(map);
        proof {
            assert forall|p: (int, int)| #[trigger] start.tiles.contains_key(p) implies map@.tiles[p]
                == start.tiles[p] || (map@.tiles[p] == Tile::Village && start.tiles[p]
                == Tile::Grass) || (map@.tiles[p] == Tile::DungeonEntrance && (start.tiles[p]
                == Tile::Grass || start.tiles[p] == Tile::Tree)) || (map@.tiles[p] == Tile::Road
                && start.tiles[p] != Tile::Water && start.tiles[p] != Tile::Mountain) by {
                assert(opened.contains_key(p));
            }
            let places = choose|places: Seq<(int, int)>|
                lists_places(mid, places) && map@.tiles == #[trigger] with_roads(opened, places, 0);
            assert(mid == start.with_tiles(opened));
            assert(tried =~= village_picks(*village_noise, w, h));
            assert(opened_at =~= entrance_picks(*dungeon_noise, w, h));
            assert(located(start, map@.tiles, tried, opened_at, places));
        }
    }

    /// A bounded overworld of the given size: terrain by elevation and
    /// moisture noise, then rivers, villages, dungeon entrances and
    /// roads. Every cell of the map gets a tile; the map has no rooms.
    pub fn generate_overworld<N: NoiseField>(width: i32, height: i32) -> (map: GameMap)
        ensures
            map@.width == width,
            map@.height == height,
            fills_map(map@),
            width > 0 && height > 0 ==> exists|places: Seq<(int, int)>| #[trigger]
                located(
                    map@.with_tiles(overworld_wet::<N>(width as int, height as int)),
                    map@.tiles,
                    village_picks(N::of_seed(888), width as int, height as int),
                    entrance_picks(N::of_seed(999), width as int, height as int),
                    places,
                ),
            width <= 0 || height <= 0 ==> map@.tiles == Map::<(int, int), Tile>::empty(),
            forall|p: (int, int)| #[trigger]
                map@.tiles.contains_key(p) ==> is_overworld_tile(map@.tiles[p]),
            map@.well_formed(),
            map@.rooms == Seq::<Room>::empty(),
            map@.room_positions == Map::<(int, int), u32>::empty(),
            map@.visible_tiles == Map::<(int, int), bool>::empty(),
            map@.explored_tiles == Map::<(int, int), bool>::empty(),
    {
        let mut map = GameMap::new(width, height);
        let ghost start = map@;
        let elevation_noise = N::with_seed(42);
        let moisture_noise = N::with_seed(123);
        let mut x: i32 = 0;
        while x < width
            invariant
                0 <= x,
                map@ == start.with_tiles(map@.tiles),
                start.width == width,
                start.height == height,
                forall|p: (int, int)|
                    #[trigger] map@.tiles.contains_key(p) <==> in_bounds(
                        p,
                        width as int,
                        height as int,
                    ) && p.0 < x,
                forall|p: (int, int)| #[trigger]
                    map@.tiles.contains_key(p) ==> is_overworld_tile(map@.tiles[p]),
                elevation_noise == N::of_seed(42),
                moisture_noise == N::of_seed(123),
                forall|p: (int, int)| #[trigger]
                    map@.tiles.contains_key(p) ==> map@.tiles[p] == land_tile(
                        elevation_noise,
                        moisture_noise,
                        p.0,
                        p.1,
                    ),
            decreases width - x,
        {
            let mut y: i32 = 0;
            assert forall|p: (int, int)| #[trigger]
                map@.tiles.contains_key(p) <==> in_bounds(p, width as int, height as int) && (p.0
                    < x || (p.0 == x && p.1 < y)) by {}
            while y < height
                invariant
                    0 <= x < width,
                    0 <= y,
                    map@ == start.with_tiles(map@.tiles),
                    start.width == width,
                    start.height == height,
                    forall|p: (int, int)|
                        #[trigger] map@.tiles.contains_key(p) <==> in_bounds(
                            p,
                            width as int,
                            height as int,
                        ) && (p.0 < x || (p.0 == x && p.1 < y)),
                    forall|p: (int, int)| #[trigger]
                        map@.tiles.contains_key(p) ==> is_overworld_tile(map@.tiles[p]),
                    elevation_noise == N::of_seed(42),
                    moisture_noise == N::of_seed(123),
                    forall|p: (int, int)| #[trigger]
                        map@.tiles.contains_key(p) ==> map@.tiles[p] == land_tile(
                            elevation_noise,
                            moisture_noise,
                            p.0,
                            p.1,
                        ),
                decreases height - y,
            {
                let elevation = clamp_noise(
                    elevation_noise.sample(x as i64 * 50_000, y as i64 * 50_000),
                );
                let moisture = clamp_noise(
                    moisture_noise.sample(x as i64 * 35_000, y as i64 * 35_000),
                );
                let tile = Self::generate_overworld_tile(elevation, moisture);
                let ghost before = map@.tiles;
                map.tiles.insert(x, y, tile);
                proof {
                    assert(tile == land_tile(elevation_noise, moisture_noise, x as int, y as int));
                    assert forall|p: (int, int)| #[trigger]
                        map@.tiles.contains_key(p) implies map@.tiles[p] == land_tile(
                        elevation_noise,
                        moisture_noise,
                        p.0,
                        p.1,
                    ) by {
                        if p != (x as int, y as int) {
                            assert(before.contains_key(p));
                        }
                    }
                }
                y = y + 1;
            }
            x = x + 1;
        }
        if width > 0 && height > 0 {
            let river_noise = N::with_seed(555);
            let village_noise = N::with_seed(888);
            let dungeon_noise = N::with_seed(999);
            let ghost land = map@.tiles;
            assert(land =~= overworld_land::<N>(width as int, height as int));
            Self::generate_rivers(&mut map, &river_noise);
            let ghost wet = map@.tiles;
            let ghost rivers = map@;
            assert(wet.dom() == land.dom());
            assert(wet == overworld_wet::<N>(width as int, height as int));
            Self::add_special_locations(&mut map, &village_noise, &dungeon_noise);
            assert(map@.tiles.dom() == land.dom());
            proof {
                let places = choose|places: Seq<(int, int)>| #[trigger]
                    located(
                        rivers,
                        map@.tiles,
                        village_picks(village_noise, width as int, height as int),
                        entrance_picks(dungeon_noise, width as int, height as int),
                        places,
                    );
                assert(rivers == map@.with_tiles(wet));
                assert(located(
                    map@.with_tiles(overworld_wet::<N>(width as int, height as int)),
                    map@.tiles,
                    village_picks(N::of_seed(888), width as int, height as int),
                    entrance_picks(N::of_seed(999), width as int, height as int),
                    places,
                ));
            }
            assert forall|p: (int, int)| #[trigger] map@.tiles.contains_key(p) implies is_overworld_tile(
                map@.tiles[p],
            ) by {
                assert(land.contains_key(p));
                assert(wet.contains_key(p));
            }
        } else {
            assert(map@.tiles =~= Map::<(int, int), Tile>::empty());
        }
        map
    }

    /// A dungeon of the given size whose seed is drawn from the clock:
    /// the low 32 bits of `nanos`, the nanoseconds since the start of
    /// 1970 as the caller has read them.
    pub fn generate_dungeon(width: i32, height: i32, nanos: u128) -> (map: GameMap)
        ensures
            is_dungeon(map@, width as int, height as int, clock_seed(nanos as int)),
            map@.width == width,
            map@.height == height,
            map@.tiles == dungeon_tiles(width as int, height as int, clock_seed(nanos as int)),
            map@.well_formed(),
    {
        let seed: u32 = (nanos % 0x1_0000_0000u128) as u32;
        DungeonGenerator::generate_dungeon_with_seed(width, height, seed)
    }

    /// The dungeon of the given size for a seed.
    pub fn generate_dungeon_with_seed(width: i32, height: i32, seed: u32) -> (map: GameMap)
        ensures
            is_dungeon(map@, width as int, height as int, seed),
            map@.width == width,
            map@.height == height,
            map@.tiles == dungeon_tiles(width as int, height as int, seed),
            map@.well_formed(),
    {
        DungeonGenerator::generate_dungeon_with_seed(width, height, seed)
    }
}

} // verus!
