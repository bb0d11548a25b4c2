//! The rules of play: movement, what a player sees of a dungeon, and
//! what opening a door reveals.

use crate::chunk_manager::ChunkManager;
use crate::constants::GameConstants;
use crate::doors::cells_of;
use crate::dungeon::DungeonGenerator;
use crate::generate::{
    default_spawn, dungeon_seed, is_dungeon, none_holding, DEFAULT_SEED, DUNGEON_HEIGHT,
    DUNGEON_WIDTH,
};
use crate::grid::CoordMap;
use crate::layout::{dungeon_room_positions, dungeon_rooms, dungeon_tiles};
use crate::map::{block, in_bounds};
use crate::overworld::NoiseField;
use crate::explore::{
    connected_to_explored, explored_beside, flood, is_passage, lemma_reaches_monotone, reaches,
};
use crate::generate::first_holding;
use crate::grid::CoordSet;
use crate::map::{GameMap, GameMapView};
use crate::protocol::NetworkPlayer;
use crate::rooms::room_beside;
use crate::terrain::{
    entrance_picks, fills_map, located, overworld_wet, village_picks, TerrainGenerator,
};
use crate::tile::{Room, Tile};
use std::collections::HashSet;
use vstd::prelude::*;
use vstd::std_specs::hash::*;

verus! {

broadcast use vstd::std_specs::hash::group_hash_axioms;

/// A player on a map, with what it has explored of the dungeon it is in.
pub struct Player {
    pub x: i32,
    pub y: i32,
    pub hp: i32,
    pub max_hp: i32,
    pub symbol: char,
    /// The overworld entrance through which the dungeon was entered.
    pub dungeon_entrance_pos: Option<(i32, i32)>,
    pub opened_doors: CoordSet,
    pub explored_rooms: HashSet<u32>,
}

/// The rules of play.
pub struct GameLogic;

/// True of the tiles a player can step on.
pub open spec fn passable(tile: Tile) -> bool {
    matches!(
        tile,
        Tile::Floor | Tile::Corridor | Tile::Grass | Tile::Road | Tile::Tree | Tile::Village
            | Tile::DungeonEntrance | Tile::Door | Tile::DungeonExit
    )
}

/// What a player sees of the cell `p`, by the doors it opened and the
/// rooms it explored. Nothing outside the map is seen. The exit is
/// always seen. On a map without rooms every cell is seen. A cell of a
/// room is seen when the room is explored; a passage, when a walk
/// through passages and opened doors leads from it to a cell next to an
/// explored room; a door, when it is opened or next to an explored
/// room. No other cell is seen.
pub open spec fn tile_visible(
    map: GameMapView,
    opened: Set<(int, int)>,
    explored: Set<u32>,
    p: (int, int),
) -> bool {
    if !in_bounds(p, map.width, map.height) {
        false
    } else if map.holds(p, Tile::DungeonExit) {
        true
    } else if map.rooms.len() == 0 {
        true
    } else if map.room_positions.contains_key(p) {
        explored.contains(map.room_positions[p])
    } else {
        ||| (map.holds(p, Tile::Floor) || map.holds(p, Tile::Corridor)) && connected_to_explored(
            map,
            opened,
            explored,
            p,
        )
        ||| map.holds(p, Tile::Door) && (opened.contains(p) || explored_beside(map, explored, p))
    }
}

/// The rooms that a walk from `start` through passages and opened doors
/// comes next to.
pub open spec fn revealed_from(
    map: GameMapView,
    opened: Set<(int, int)>,
    start: (int, int),
    id: u32,
) -> bool {
    exists|c: (int, int)| #[trigger]
        reaches(map, opened, start, c) && room_beside(map.room_positions, c, id)
}

/// The room in which a visit of the dungeon starts: the one that owns
/// the first exit of the map, read row by row.
pub open spec fn starts_in(map: GameMapView, id: u32) -> bool {
    exists|p: (int, int)| #[trigger]
        first_holding(map, Tile::DungeonExit, p) && map.room_at(p) == Some(id)
}

/// What is seen stays seen: with more doors opened and more rooms
/// explored, every cell that was visible is visible still. The rooms a
/// player has explored only grow until a new visit begins, so a room
/// once explored stays visible during the visit, wherever the player
/// stands.
pub proof fn lemma_visibility_monotone(
    map: GameMapView,
    opened: Set<(int, int)>,
    explored: Set<u32>,
    more_opened: Set<(int, int)>,
    more_explored: Set<u32>,
    p: (int, int),
)
    requires
        opened.subset_of(more_opened),
        explored.subset_of(more_explored),
        tile_visible(map, opened, explored, p),
    ensures
        tile_visible(map, more_opened, more_explored, p),
{
    if map.rooms.len() != 0 && !map.room_positions.contains_key(p) {
        if connected_to_explored(map, opened, explored, p) {
            let c = choose|c: (int, int)| #[trigger]
                reaches(map, opened, p, c) && explored_beside(map, explored, c);
            lemma_reaches_monotone(map, opened, more_opened, p, c);
            let id = choose|id: u32|
                explored.contains(id) && #[trigger] room_beside(map.room_positions, c, id);
            assert(more_explored.contains(id) && room_beside(map.room_positions, c, id));
            assert(reaches(map, more_opened, p, c) && explored_beside(map, more_explored, c));
        }
        if explored_beside(map, explored, p) {
            let id = choose|id: u32|
                explored.contains(id) && #[trigger] room_beside(map.room_positions, p, id);
            assert(more_explored.contains(id) && room_beside(map.room_positions, p, id));
        }
    }
}

/// True when one of `ids` is explored.
fn any_explored(ids: &Vec<u32>, explored: &HashSet<u32>) -> (found: bool)
    ensures
        found == exists|i: int| 0 <= i < ids@.len() && explored@.contains(#[trigger] ids@[i]),
{
    let mut i: usize = 0;
    while i < ids.len()
        invariant
            i <= ids@.len(),
            forall|j: int| 0 <= j < i ==> !explored@.contains(#[trigger] ids@[j]),
        decreases ids.len() - i,
    {
        if explored.contains(&ids[i]) {
            return true;
        }
        i = i + 1;
    }
    false
}

impl GameLogic {
    /// True of the tiles a player can step on: floor, corridor, door and
    /// exit in a dungeon; grass, road, tree, village and dungeon entrance
    /// in the overworld.
    pub fn is_movement_valid(tile: Tile) -> (valid: bool)
        ensures
            valid == passable(tile),
    {
        match tile {
            Tile::Floor | Tile::Corridor | Tile::Grass | Tile::Road | Tile::Tree | Tile::Village
            | Tile::DungeonEntrance | Tile::Door | Tile::DungeonExit => true,
            _ => false,
        }
    }

    /// True when a cell next to `(x, y)` belongs to an explored room.
    pub fn is_corridor_visible(map: &GameMap, explored: &HashSet<u32>, x: i32, y: i32) -> (seen: bool)
        ensures
            seen == explored_beside(map@, explored@, (x as int, y as int)),
    {
        let ids = map.rooms_beside(x, y);
        let found = any_explored(&ids, explored);
        proof {
            let p = (x as int, y as int);
            if found {
                let i = choose|i: int| 0 <= i < ids@.len() && explored@.contains(#[trigger] ids@[i]);
                assert(ids@.contains(ids@[i]));
                assert(explored@.contains(ids@[i]) && room_beside(map@.room_positions, p, ids@[i]));
            }
            if explored_beside(map@, explored@, p) {
                let id = choose|id: u32|
                    explored@.contains(id) && #[trigger] room_beside(map@.room_positions, p, id);
                assert(ids@.contains(id));
                let i = choose|i: int| 0 <= i < ids@.len() && ids@[i] == id;
                assert(explored@.contains(ids@[i]));
            }
        }
        found
    }

    /// True when the cell next to the door at `(x, y)` belongs to an
    /// explored room, or is a passage next to one.
    pub fn door_connects_to_explored_area(
        map: &GameMap,
        player: &Player,
        door_x: i32,
        door_y: i32,
    ) -> (connects: bool)
        ensures
            connects == (explored_beside(
                map@,
                player.explored_rooms@,
                (door_x as int, door_y as int),
            ) || passage_seen(map@, player.explored_rooms@, (door_x - 1, door_y as int))
                || passage_seen(map@, player.explored_rooms@, (door_x + 1, door_y as int))
                || passage_seen(map@, player.explored_rooms@, (door_x as int, door_y - 1))
                || passage_seen(map@, player.explored_rooms@, (door_x as int, door_y + 1))),
    {
        let x: i64 = door_x as i64;
        let y: i64 = door_y as i64;
        Self::is_corridor_visible(map, &player.explored_rooms, door_x, door_y)
            || Self::passage_seen_at(map, &player.explored_rooms, x - 1, y) || Self::passage_seen_at(
            map,
            &player.explored_rooms,
            x + 1,
            y,
        ) || Self::passage_seen_at(map, &player.explored_rooms, x, y - 1) || Self::passage_seen_at(
            map,
            &player.explored_rooms,
            x,
            y + 1,
        )
    }

    /// True when `(x, y)` is a passage next to an explored room.
    fn passage_seen_at(map: &GameMap, explored: &HashSet<u32>, x: i64, y: i64) -> (seen: bool)
        ensures
            seen == passage_seen(map@, explored@, (x as int, y as int)),
    {
        proof {
            map.tiles.lemma_dom();
        }
        if i32::MIN as i64 <= x && x <= i32::MAX as i64 && i32::MIN as i64 <= y && y
            <= i32::MAX as i64 {
            let cx: i32 = x as i32;
            let cy: i32 = y as i32;
            (map.tile_is(cx, cy, Tile::Floor) || map.tile_is(cx, cy, Tile::Corridor))
                && map.room_id_at(cx, cy).is_none() && Self::is_corridor_visible(
                map,
                explored,
                cx,
                cy,
            )
        } else {
            assert(!map@.tiles.contains_key((x as int, y as int)));
            false
        }
    }

    /// True when a walk through passages and opened doors leads from
    /// `(x, y)` to a cell next to an explored room.
    pub fn is_corridor_connected_to_explored_area(
        map: &GameMap,
        opened: &CoordSet,
        explored: &HashSet<u32>,
        start_x: i32,
        start_y: i32,
    ) -> (connected: bool)
        ensures
            connected == connected_to_explored(
                map@,
                opened@,
                explored@,
                (start_x as int, start_y as int),
            ),
    {
        let ghost start = (start_x as int, start_y as int);
        let cells = flood(map, opened, start_x, start_y);
        let mut i: usize = 0;
        while i < cells.len()
            invariant
                i <= cells@.len(),
                start == (start_x as int, start_y as int),
                forall|j: int|
                    0 <= j < i ==> !explored_beside(map@, explored@, #[trigger] cells_of(cells@)[j]),
                forall|c: (int, int)|
                    cells_of(cells@).contains(c) <==> reaches(map@, opened@, start, c),
            decreases cells.len() - i,
        {
            let c = cells[i];
            assert(cells_of(cells@)[i as int] == (c.0 as int, c.1 as int));
            if Self::is_corridor_visible(map, explored, c.0, c.1) {
                proof {
                    let cell = (c.0 as int, c.1 as int);
                    assert(cells_of(cells@).contains(cell));
                    assert(reaches(map@, opened@, start, cell));
                    assert(explored_beside(map@, explored@, cell));
                    assert(connected_to_explored(map@, opened@, explored@, start));
                }
                return true;
            }
            i = i + 1;
        }
        proof {
            if connected_to_explored(map@, opened@, explored@, start) {
                let c = choose|c: (int, int)| #[trigger]
                    reaches(map@, opened@, start, c) && explored_beside(map@, explored@, c);
                assert(cells_of(cells@).contains(c));
                let j = choose|j: int| 0 <= j < cells_of(cells@).len() && cells_of(cells@)[j] == c;
                assert(!explored_beside(map@, explored@, cells_of(cells@)[j]));
            }
        }
        false
    }

    /// What is seen of `(x, y)` with these opened doors and explored
    /// rooms.
    pub fn tile_visible_with(
        map: &GameMap,
        opened: &CoordSet,
        explored: &HashSet<u32>,
        x: i32,
        y: i32,
    ) -> (seen: bool)
        ensures
            seen == tile_visible(map@, opened@, explored@, (x as int, y as int)),
    {
        if x < 0 || y < 0 || x >= map.width || y >= map.height {
            return false;
        }
        if map.tile_is(x, y, Tile::DungeonExit) {
            return true;
        }
        if map.rooms.len() == 0 {
            return true;
        }
        if let Some(id) = map.room_id_at(x, y) {
            return explored.contains(&id);
        }
        if map.tile_is(x, y, Tile::Floor) || map.tile_is(x, y, Tile::Corridor) {
            return Self::is_corridor_connected_to_explored_area(map, opened, explored, x, y);
        }
        if map.tile_is(x, y, Tile::Door) {
            return opened.contains(x, y) || Self::is_corridor_visible(map, explored, x, y);
        }
        false
    }

    /// What the player sees of `(x, y)` from what it has explored, not
    /// from where it stands.
    pub fn is_tile_visible(map: &GameMap, player: &Player, x: i32, y: i32) -> (seen: bool)
        ensures
            seen == tile_visible(
                map@,
                player.opened_doors@,
                player.explored_rooms@,
                (x as int, y as int),
            ),
    {
        Self::tile_visible_with(map, &player.opened_doors, &player.explored_rooms, x, y)
    }

    /// What the player of a server sees of `(x, y)`.
    pub fn is_tile_visible_network_player(map: &GameMap, player: &NetworkPlayer, x: i32, y: i32) -> (seen:
        bool)
        ensures
            seen == tile_visible(
                map@,
                player.opened_doors@,
                player.explored_rooms@,
                (x as int, y as int),
            ),
    {
        Self::tile_visible_with(map, &player.opened_doors, &player.explored_rooms, x, y)
    }

    /// Marks as explored every room that a walk from `(x, y)` through
    /// passages and opened doors comes next to.
    pub fn reveal_rooms_from(
        map: &GameMap,
        opened: &CoordSet,
        explored: &mut HashSet<u32>,
        start_x: i32,
        start_y: i32,
    )
        ensures
            forall|id: u32|
                final(explored)@.contains(id) <==> old(explored)@.contains(id) || revealed_from(
                    map@,
                    opened@,
                    (start_x as int, start_y as int),
                    id,
                ),
    {
        let ghost start = (start_x as int, start_y as int);
        let ghost before = explored@;
        let cells = flood(map, opened, start_x, start_y);
        let mut i: usize = 0;
        while i < cells.len()
            invariant
                i <= cells@.len(),
                forall|c: (int, int)|
                    cells_of(cells@).contains(c) <==> reaches(map@, opened@, start, c),
                forall|id: u32|
                    #[trigger] explored@.contains(id) <==> before.contains(id) || exists|j: int|
                        0 <= j < i && room_beside(
                            map@.room_positions,
                            #[trigger] cells_of(cells@)[j],
                            id,
                        ),
            decreases cells.len() - i,
        {
            let c = cells[i];
            let ghost cell = (c.0 as int, c.1 as int);
            assert(cells_of(cells@)[i as int] == cell);
            let ids = map.rooms_beside(c.0, c.1);
            let ghost at_cell = explored@;
            let mut k: usize = 0;
            while k < ids.len()
                invariant
                    k <= ids@.len(),
                    forall|id: u32|
                        #[trigger] explored@.contains(id) <==> at_cell.contains(id) || exists|m: int|
                            0 <= m < k && #[trigger] ids@[m] == id,
                decreases ids.len() - k,
            {
                let ghost prior = explored@;
                explored.insert(ids[k]);
                k = k + 1;
                proof {
                    assert forall|id: u32| #[trigger]
                        explored@.contains(id) <==> at_cell.contains(id) || exists|m: int|
                            0 <= m < k && #[trigger] ids@[m] == id by {
                        if explored@.contains(id) && !at_cell.contains(id) {
                            if prior.contains(id) {
                                let m = choose|m: int| 0 <= m < k - 1 && #[trigger] ids@[m] == id;
                                assert(0 <= m < k && ids@[m] == id);
                            } else {
                                assert(ids@[k - 1] == id);
                            }
                        }
                        if exists|m: int| 0 <= m < k && #[trigger] ids@[m] == id {
                            let m = choose|m: int| 0 <= m < k && #[trigger] ids@[m] == id;
                            if m < k - 1 {
                                assert(prior.contains(id));
                            }
                        }
                    }
                }
            }
            i = i + 1;
            proof {
                assert forall|id: u32| #[trigger]
                    explored@.contains(id) <==> before.contains(id) || exists|j: int|
                        0 <= j < i && room_beside(
                            map@.room_positions,
                            #[trigger] cells_of(cells@)[j],
                            id,
                        ) by {
                    if explored@.contains(id) && !before.contains(id) {
                        if at_cell.contains(id) {
                            let j = choose|j: int|
                                0 <= j < i - 1 && room_beside(
                                    map@.room_positions,
                                    #[trigger] cells_of(cells@)[j],
                                    id,
                                );
                            assert(0 <= j < i && room_beside(
                                map@.room_positions,
                                cells_of(cells@)[j],
                                id,
                            ));
                        } else {
                            let m = choose|m: int| 0 <= m < ids@.len() && #[trigger] ids@[m] == id;
                            assert(ids@.contains(id));
                            assert(room_beside(map@.room_positions, cells_of(cells@)[i - 1], id));
                        }
                    }
                    if exists|j: int|
                        0 <= j < i && room_beside(
                            map@.room_positions,
                            #[trigger] cells_of(cells@)[j],
                            id,
                        ) {
                        let j = choose|j: int|
                            0 <= j < i && room_beside(
                                map@.room_positions,
                                #[trigger] cells_of(cells@)[j],
                                id,
                            );
                        if j < i - 1 {
                            assert(at_cell.contains(id));
                        } else {
                            assert(ids@.contains(id));
                            let m = choose|m: int| 0 <= m < ids@.len() && ids@[m] == id;
                            assert(ids@[m] == id);
                        }
                        assert(explored@.contains(id));
                    }
                }
            }
        }
        proof {
            assert forall|id: u32|
                explored@.contains(id) <==> before.contains(id) || revealed_from(
                    map@,
                    opened@,
                    start,
                    id,
                ) by {
                if revealed_from(map@, opened@, start, id) {
                    let c = choose|c: (int, int)| #[trigger]
                        reaches(map@, opened@, start, c) && room_beside(map@.room_positions, c, id);
                    assert(cells_of(cells@).contains(c));
                    let j = choose|j: int| 0 <= j < cells_of(cells@).len() && cells_of(cells@)[j] == c;
                    assert(room_beside(map@.room_positions, cells_of(cells@)[j], id));
                }
                if explored@.contains(id) && !before.contains(id) {
                    let j = choose|j: int|
                        0 <= j < i && room_beside(
                            map@.room_positions,
                            #[trigger] cells_of(cells@)[j],
                            id,
                        );
                    let c = cells_of(cells@)[j];
                    assert(cells_of(cells@).contains(c));
                    assert(reaches(map@, opened@, start, c) && room_beside(
                        map@.room_positions,
                        c,
                        id,
                    ));
                }
            }
        }
    }

    /// Marks as explored every room that a walk from `(x, y)` through
    /// passages and the doors the player has opened comes next to.
    pub fn reveal_connected_corridors(map: &GameMap, player: &mut Player, start_x: i32, start_y: i32)
        ensures
            final(player).opened_doors@ == old(player).opened_doors@,
            forall|id: u32|
                final(player).explored_rooms@.contains(id) <==> old(player).explored_rooms@.contains(id) || revealed_from(
                    map@,
                    old(player).opened_doors@,
                    (start_x as int, start_y as int),
                    id,
                ),
            final(player).x == old(player).x,
            final(player).y == old(player).y,
            final(player).hp == old(player).hp,
            final(player).max_hp == old(player).max_hp,
            final(player).symbol == old(player).symbol,
            final(player).dungeon_entrance_pos == old(player).dungeon_entrance_pos,
    {
        Self::reveal_rooms_from(
            map,
            &player.opened_doors,
            &mut player.explored_rooms,
            start_x,
            start_y,
        );
    }

    /// Opens the door at `(x, y)`: it is recorded as opened, and every
    /// room that a walk from it through passages and opened doors comes
    /// next to is explored, the rooms next to the door among them.
    /// Nothing happens, and the result is false, where there is no door.
    pub fn open_door(map: &GameMap, player: &mut Player, x: i32, y: i32) -> (opened: bool)
        ensures
            opened == map@.holds((x as int, y as int), Tile::Door),
            !opened ==> final(player).opened_doors@ == old(player).opened_doors@ && final(player).explored_rooms@ == old(player).explored_rooms@,
            opened ==> final(player).opened_doors@ == old(player).opened_doors@.insert(
                (x as int, y as int),
            ),
            opened ==> forall|id: u32|
                final(player).explored_rooms@.contains(id) <==> old(player).explored_rooms@.contains(id) || revealed_from(
                    map@,
                    final(player).opened_doors@,
                    (x as int, y as int),
                    id,
                ),
            old(player).opened_doors@.subset_of(final(player).opened_doors@),
            old(player).explored_rooms@.subset_of(final(player).explored_rooms@),
            final(player).x == old(player).x,
            final(player).y == old(player).y,
            final(player).hp == old(player).hp,
            final(player).max_hp == old(player).max_hp,
            final(player).symbol == old(player).symbol,
            final(player).dungeon_entrance_pos == old(player).dungeon_entrance_pos,
    {
        if !map.tile_is(x, y, Tile::Door) {
            return false;
        }
        player.opened_doors.insert(x, y);
        Self::reveal_connected_corridors(map, player, x, y);
        true
    }

    /// Begins a visit of a dungeon: no door is opened, and only the room
    /// with the exit is explored.
    pub fn begin_exploration(map: &GameMap, opened: &mut CoordSet, explored: &mut HashSet<u32>)
        ensures
            final(opened)@ == Set::<(int, int)>::empty(),
            forall|id: u32| final(explored)@.contains(id) <==> starts_in(map@, id),
    {
        opened.clear();
        explored.clear();
        let exit = map.first_cell_holding(Tile::DungeonExit);
        match exit {
            Some(e) => {
                let ghost cell = (e.0 as int, e.1 as int);
                if let Some(id) = map.room_id_at(e.0, e.1) {
                    explored.insert(id);
                }
                proof {
                    assert forall|id: u32| explored@.contains(id) <==> starts_in(map@, id) by {
                        if starts_in(map@, id) {
                            let p = choose|p: (int, int)| #[trigger]
                                first_holding(map@, Tile::DungeonExit, p) && map@.room_at(p) == Some(
                                    id,
                                );
                            assert(!crate::rooms::precedes(p, cell));
                            assert(!crate::rooms::precedes(cell, p));
                            assert(p == cell);
                        }
                        if explored@.contains(id) {
                            assert(first_holding(map@, Tile::DungeonExit, cell) && map@.room_at(cell)
                                == Some(id));
                        }
                    }
                }
            },
            None => {
                proof {
                    assert forall|id: u32| explored@.contains(id) <==> starts_in(map@, id) by {
                        if starts_in(map@, id) {
                            let p = choose|p: (int, int)| #[trigger]
                                first_holding(map@, Tile::DungeonExit, p) && map@.room_at(p) == Some(
                                    id,
                                );
                            assert(map@.holds(p, Tile::DungeonExit));
                        }
                    }
                }
            },
        }
    }

    /// Begins the player's visit of a dungeon: what was explored of the
    /// dungeon before is forgotten.
    pub fn initialize_dungeon_exploration(map: &GameMap, player: &mut Player)
        ensures
            final(player).opened_doors@ == Set::<(int, int)>::empty(),
            forall|id: u32| final(player).explored_rooms@.contains(id) <==> starts_in(map@, id),
            final(player).x == old(player).x,
            final(player).y == old(player).y,
            final(player).hp == old(player).hp,
            final(player).max_hp == old(player).max_hp,
            final(player).symbol == old(player).symbol,
            final(player).dungeon_entrance_pos == old(player).dungeon_entrance_pos,
    {
        Self::begin_exploration(map, &mut player.opened_doors, &mut player.explored_rooms);
    }

    /// Begins the visit of a dungeon of a player of a server.
    pub fn initialize_network_player_dungeon_exploration(map: &GameMap, player: &mut NetworkPlayer)
        ensures
            final(player).opened_doors@ == Set::<(int, int)>::empty(),
            forall|id: u32| final(player).explored_rooms@.contains(id) <==> starts_in(map@, id),
            final(player).x == old(player).x,
            final(player).y == old(player).y,
            final(player).hp == old(player).hp,
    {
        Self::begin_exploration(map, &mut player.opened_doors, &mut player.explored_rooms);
    }
}

/// What the player is told when a tile cannot be stepped on.
pub open spec fn blocked_message(tile: Tile) -> Seq<char> {
    match tile {
        Tile::Wall => "You can't move through a wall."@,
        Tile::Mountain => "You can't move through a mountain."@,
        Tile::Water => "You can't swim across the water."@,
        _ => "You can't move there."@,
    }
}

/// What the player is told on stepping on a tile, if anything.
pub open spec fn interaction_message(tile: Tile) -> Option<Seq<char>> {
    match tile {
        Tile::Tree => Some("You push through the thick forest."@),
        Tile::Village => Some("You visit the village. The locals greet you warmly."@),
        Tile::DungeonEntrance => Some(
            "You stand before a dark dungeon entrance. Press 'e' to enter."@,
        ),
        Tile::DungeonExit => Some(
            "You are at the dungeon entrance/exit. Press 'x' to exit to the overworld."@,
        ),
        _ => None,
    }
}

/// What the player is told on opening a door.
pub open spec fn door_message() -> Seq<char> {
    "You open the door and reveal new areas!"@
}

/// What a step of a player came to.
pub struct MoveOutcome {
    /// The player stands on the cell it stepped to.
    pub moved: bool,
    /// The step opened a door.
    pub opened_door: bool,
    /// What the player is told.
    pub message: Option<String>,
}

/// The text of an optional message.
pub open spec fn message_text(message: Option<String>) -> Option<Seq<char>> {
    match message {
        Some(text) => Some(text@),
        None => None,
    }
}

impl GameLogic {
    /// What the player is told when it cannot step on `tile`.
    pub fn get_blocked_movement_message(tile: Tile) -> (message: String)
        ensures
            message@ == blocked_message(tile),
    {
        match tile {
            Tile::Wall => "You can't move through a wall.".to_owned(),
            Tile::Mountain => "You can't move through a mountain.".to_owned(),
            Tile::Water => "You can't swim across the water.".to_owned(),
            _ => "You can't move there.".to_owned(),
        }
    }

    /// What the player is told on stepping on `tile`, if anything.
    pub fn get_tile_interaction_message(tile: Tile) -> (message: Option<String>)
        ensures
            message_text(message) == interaction_message(tile),
    {
        match tile {
            Tile::Tree => Some("You push through the thick forest.".to_owned()),
            Tile::Village => Some("You visit the village. The locals greet you warmly.".to_owned()),
            Tile::DungeonEntrance => Some(
                "You stand before a dark dungeon entrance. Press 'e' to enter.".to_owned(),
            ),
            Tile::DungeonExit => Some(
                "You are at the dungeon entrance/exit. Press 'x' to exit to the overworld.".to_owned(),
            ),
            _ => None,
        }
    }

    /// Takes one step with the player on a map. The player moves if the
    /// cell it steps to holds a tile that can be stepped on; a door it
    /// steps on is opened. Else the player stays where it is and is told
    /// why.
    pub fn move_player(map: &GameMap, player: &mut Player, dx: i32, dy: i32) -> (outcome: MoveOutcome)
        ensures
            outcome.moved == match map@.tile_at((old(player).x + dx, old(player).y + dy)) {
                Some(tile) => passable(tile),
                None => false,
            },
            outcome.moved ==> final(player).x == old(player).x + dx && final(player).y == old(player).y + dy,
            !outcome.moved ==> final(player).x == old(player).x && final(player).y == old(player).y
                && final(player).opened_doors@ == old(player).opened_doors@ && final(player).explored_rooms@ == old(player).explored_rooms@,
            outcome.opened_door == map@.holds(
                (old(player).x + dx, old(player).y + dy),
                Tile::Door,
            ),
            message_text(outcome.message) == match map@.tile_at(
                (old(player).x + dx, old(player).y + dy),
            ) {
                Some(Tile::Door) => Some(door_message()),
                Some(tile) => if passable(tile) {
                    interaction_message(tile)
                } else {
                    Some(blocked_message(tile))
                },
                None => Some(blocked_message(Tile::Empty)),
            },
            outcome.opened_door ==> final(player).opened_doors@ == old(player).opened_doors@.insert(
                (old(player).x + dx, old(player).y + dy),
            ) && forall|id: u32|
                final(player).explored_rooms@.contains(id) <==> old(player).explored_rooms@.contains(id) || revealed_from(
                    map@,
                    final(player).opened_doors@,
                    (old(player).x + dx, old(player).y + dy),
                    id,
                ),
            outcome.moved && !outcome.opened_door ==> final(player).opened_doors@ == old(player).opened_doors@ && final(player).explored_rooms@ == old(player).explored_rooms@,
            final(player).hp == old(player).hp,
            final(player).max_hp == old(player).max_hp,
    {
        proof {
            map.tiles.lemma_dom();
        }
        let target_x: i64 = player.x as i64 + dx as i64;
        let target_y: i64 = player.y as i64 + dy as i64;
        if target_x < i32::MIN as i64 || target_x > i32::MAX as i64 || target_y < i32::MIN as i64
            || target_y > i32::MAX as i64 {
            assert(!map@.tiles.contains_key((target_x as int, target_y as int)));
            return MoveOutcome {
                moved: false,
                opened_door: false,
                message: Some(Self::get_blocked_movement_message(Tile::Empty)),
            };
        }
        let x: i32 = target_x as i32;
        let y: i32 = target_y as i32;
        match map.tile(x, y) {
            None => MoveOutcome {
                moved: false,
                opened_door: false,
                message: Some(Self::get_blocked_movement_message(Tile::Empty)),
            },
            Some(tile) => {
                if !Self::is_movement_valid(tile) {
                    return MoveOutcome {
                        moved: false,
                        opened_door: false,
                        message: Some(Self::get_blocked_movement_message(tile)),
                    };
                }
                player.x = x;
                player.y = y;
                if Self::open_door(map, player, x, y) {
                    MoveOutcome {
                        moved: true,
                        opened_door: true,
                        message: Some("You open the door and reveal new areas!".to_owned()),
                    }
                } else {
                    MoveOutcome {
                        moved: true,
                        opened_door: false,
                        message: Self::get_tile_interaction_message(tile),
                    }
                }
            },
        }
    }

    /// The bounded overworld of the game: `OVERWORLD_WIDTH` by
    /// `OVERWORLD_HEIGHT` cells of the terrain generator's overworld.
    pub fn generate_overworld_map<N: NoiseField>() -> (map: GameMap)
        ensures
            map@.width == GameConstants::OVERWORLD_WIDTH,
            map@.height == GameConstants::OVERWORLD_HEIGHT,
            fills_map(map@),
            exists|places: Seq<(int, int)>| #[trigger]
                located(
                    map@.with_tiles(
                        overworld_wet::<N>(
                            GameConstants::OVERWORLD_WIDTH as int,
                            GameConstants::OVERWORLD_HEIGHT as int,
                        ),
                    ),
                    map@.tiles,
                    village_picks(
                        N::of_seed(888),
                        GameConstants::OVERWORLD_WIDTH as int,
                        GameConstants::OVERWORLD_HEIGHT as int,
                    ),
                    entrance_picks(
                        N::of_seed(999),
                        GameConstants::OVERWORLD_WIDTH as int,
                        GameConstants::OVERWORLD_HEIGHT as int,
                    ),
                    places,
                ),
            map@.well_formed(),
            map@.rooms == Seq::<Room>::empty(),
            map@.room_positions == Map::<(int, int), u32>::empty(),
    {
        TerrainGenerator::generate_overworld::<N>(
            GameConstants::OVERWORLD_WIDTH,
            GameConstants::OVERWORLD_HEIGHT,
        )
    }

    /// The dungeon of the default size and seed.
    pub fn generate_dungeon_map() -> (map: GameMap)
        ensures
            is_dungeon(map@, DUNGEON_WIDTH as int, DUNGEON_HEIGHT as int, DEFAULT_SEED),
            map@.width == DUNGEON_WIDTH,
            map@.height == DUNGEON_HEIGHT,
            map@.tiles == dungeon_tiles(DUNGEON_WIDTH as int, DUNGEON_HEIGHT as int, DEFAULT_SEED),
            map@.well_formed(),
    {
        DungeonGenerator::generate_dungeon(GameConstants::DUNGEON_WIDTH, GameConstants::DUNGEON_HEIGHT)
    }

    /// The dungeon behind the overworld entrance at the given cell.
    pub fn generate_dungeon_map_for_entrance(entrance_x: i32, entrance_y: i32) -> (map: GameMap)
        ensures
            is_dungeon(
                map@,
                DUNGEON_WIDTH as int,
                DUNGEON_HEIGHT as int,
                dungeon_seed(entrance_x as int, entrance_y as int),
            ),
            map@.width == DUNGEON_WIDTH,
            map@.height == DUNGEON_HEIGHT,
            map@.tiles == dungeon_tiles(
                DUNGEON_WIDTH as int,
                DUNGEON_HEIGHT as int,
                dungeon_seed(entrance_x as int, entrance_y as int),
            ),
            map@.well_formed(),
    {
        DungeonGenerator::generate_dungeon_for_entrance(entrance_x, entrance_y)
    }

    /// The seed of the dungeon behind the entrance at the given cell.
    pub fn generate_dungeon_seed(entrance_x: i32, entrance_y: i32) -> (seed: u32)
        ensures
            seed == dungeon_seed(entrance_x as int, entrance_y as int),
            seed != 0,
    {
        DungeonGenerator::generate_dungeon_seed(entrance_x, entrance_y)
    }

    /// The dungeon of the default size for a seed.
    pub fn generate_dungeon_map_with_seed(seed: u32) -> (map: GameMap)
        ensures
            is_dungeon(map@, DUNGEON_WIDTH as int, DUNGEON_HEIGHT as int, seed),
            map@.width == DUNGEON_WIDTH,
            map@.height == DUNGEON_HEIGHT,
            map@.tiles == dungeon_tiles(DUNGEON_WIDTH as int, DUNGEON_HEIGHT as int, seed),
            crate::bsp::room_sites(map@.rooms) == dungeon_rooms(
                DUNGEON_WIDTH as int,
                DUNGEON_HEIGHT as int,
                seed,
            ),
            map@.room_positions == dungeon_room_positions(
                DUNGEON_WIDTH as int,
                DUNGEON_HEIGHT as int,
                seed,
            ),
            map@.well_formed(),
    {
        DungeonGenerator::generate_dungeon_with_seed(
            GameConstants::DUNGEON_WIDTH,
            GameConstants::DUNGEON_HEIGHT,
            seed,
        )
    }

    /// Where a player stands in a dungeon of which nothing is known.
    pub fn get_dungeon_spawn_position() -> (p: (i32, i32))
        ensures
            (p.0 as int, p.1 as int) == default_spawn(),
    {
        DungeonGenerator::get_default_spawn_position()
    }

    /// Where a player enters the dungeon: the exit, if the map has one;
    /// else the first floor, reading row by row; else the default
    /// position.
    pub fn get_safe_dungeon_spawn_position(map: &GameMap) -> (p: (i32, i32))
        ensures
            !none_holding(map@, Tile::DungeonExit) ==> first_holding(
                map@,
                Tile::DungeonExit,
                (p.0 as int, p.1 as int),
            ),
            none_holding(map@, Tile::DungeonExit) && !none_holding(map@, Tile::Floor)
                ==> first_holding(map@, Tile::Floor, (p.0 as int, p.1 as int)),
            none_holding(map@, Tile::DungeonExit) && none_holding(map@, Tile::Floor) ==> (
            p.0 as int,
            p.1 as int,
            ) == default_spawn(),
    {
        DungeonGenerator::get_safe_spawn_position(map)
    }

    /// Where a player enters the overworld.
    pub fn get_overworld_spawn_position() -> (p: (i32, i32))
        ensures
            p == (GameConstants::OVERWORLD_SPAWN_X, GameConstants::OVERWORLD_SPAWN_Y),
    {
        (GameConstants::OVERWORLD_SPAWN_X, GameConstants::OVERWORLD_SPAWN_Y)
    }

    /// True when a dungeon entrance is at `(x, y)`.
    pub fn is_at_dungeon_entrance(map: &GameMap, x: i32, y: i32) -> (there: bool)
        ensures
            there == map@.holds((x as int, y as int), Tile::DungeonEntrance),
    {
        map.tile_is(x, y, Tile::DungeonEntrance)
    }

    /// True when the dungeon exit is at `(x, y)`.
    pub fn is_at_dungeon_exit(map: &GameMap, x: i32, y: i32) -> (there: bool)
        ensures
            there == map@.holds((x as int, y as int), Tile::DungeonExit),
    {
        map.tile_is(x, y, Tile::DungeonExit)
    }

    /// Keeps the last `max_count` messages.
    pub fn limit_messages(messages: &mut Vec<String>, max_count: usize)
        ensures
            old(messages)@.len() <= max_count ==> final(messages)@ == old(messages)@,
            old(messages)@.len() > max_count ==> final(messages)@ == old(messages)@.skip(
                old(messages)@.len() - max_count,
            ),
    {
        let ghost all = messages@;
        while messages.len() > max_count
            invariant
                messages@.len() <= all.len(),
                messages@ == all.skip(all.len() - messages@.len()),
                all == old(messages)@,
                all.len() <= max_count ==> messages@ == all,
                all.len() > max_count ==> messages@.len() >= max_count,
            decreases messages@.len(),
        {
            let ghost before = messages@;
            messages.remove(0);
            assert(messages@ =~= all.skip(all.len() - messages@.len()));
        }
        assert(all.skip(0) =~= all);
    }

    /// A manager of the chunks of the world of `seed`.
    pub fn create_chunk_manager<N: NoiseField>(seed: u32) -> (manager: ChunkManager<N>)
        ensures
            manager.well_formed(),
            manager@.chunks == Map::<(int, int), crate::chunk::ChunkView>::empty(),
            manager@.player_chunk == (0int, 0int),
            manager@.seed == seed,
            manager.terrain_generator == crate::overworld::InfiniteTerrainGenerator::<N>::seeded(seed),
    {
        ChunkManager::new(seed)
    }

    /// True when a dungeon entrance is at the world position; the chunk
    /// of the position is loaded if it was not.
    pub fn is_at_chunk_dungeon_entrance<N: NoiseField>(
        manager: &mut ChunkManager<N>,
        x: i32,
        y: i32,
        now: u64,
    ) -> (there: bool)
        requires
            old(manager).well_formed(),
        ensures
            final(manager).well_formed(),
            old(manager)@.fetched(
                (x as int, y as int),
                now as nat,
                final(manager)@,
                final(manager)@.tile_at((x as int, y as int)),
            ),
            there == (final(manager)@.tile_at((x as int, y as int)) == Some(Tile::DungeonEntrance)),
    {
        match manager.get_tile(x, y, now) {
            Some(Tile::DungeonEntrance) => true,
            _ => false,
        }
    }

    /// The tiles of the part of the world that is `width` wide and
    /// `height` high around a center, half of each to every side.
    pub fn get_viewport_tiles<N: NoiseField>(
        manager: &mut ChunkManager<N>,
        center_x: i32,
        center_y: i32,
        width: i32,
        height: i32,
        now: u64,
    ) -> (tiles: CoordMap<Tile>)
        requires
            old(manager).well_formed(),
            0 <= width,
            0 <= height,
            i32::MIN <= center_x - width / 2,
            center_x + width / 2 <= i32::MAX,
            i32::MIN <= center_y - height / 2,
            center_y + height / 2 <= i32::MAX,
        ensures
            final(manager).well_formed(),
            old(manager)@.read_over(
                block(
                    center_x - width / 2,
                    center_x + width / 2 + 1,
                    center_y - height / 2,
                    center_y + height / 2 + 1,
                ),
                final(manager)@,
            ),
            tiles@.dom() == block(
                center_x - width / 2,
                center_x + width / 2 + 1,
                center_y - height / 2,
                center_y + height / 2 + 1,
            ),
            forall|p: (int, int)| #[trigger]
                tiles@.contains_key(p) ==> final(manager)@.tile_at(p) == Some(tiles@[p]),
    {
        let min_x = center_x - width / 2;
        let min_y = center_y - height / 2;
        let max_x = center_x + width / 2;
        let max_y = center_y + height / 2;
        manager.get_tiles_in_area(min_x, min_y, max_x, max_y, now)
    }
}

/// What a player can be asked and told, whether it plays on a client or
/// is known to a server.
pub trait PlayerOperations {
    /// Where the player stands.
    spec fn position(&self) -> (i32, i32);

    /// The health of the player.
    spec fn health(&self) -> i32;

    fn get_position(&self) -> (p: (i32, i32))
        ensures
            p == self.position(),
    ;

    fn set_position(&mut self, x: i32, y: i32)
        ensures
            final(self).position() == (x, y),
            final(self).health() == old(self).health(),
    ;

    fn get_hp(&self) -> (hp: i32)
        ensures
            hp == self.health(),
    ;

    fn set_hp(&mut self, hp: i32)
        ensures
            final(self).health() == hp,
            final(self).position() == old(self).position(),
    ;
}

impl PlayerOperations for Player {
    open spec fn position(&self) -> (i32, i32) {
        (self.x, self.y)
    }

    open spec fn health(&self) -> i32 {
        self.hp
    }

    fn get_position(&self) -> (p: (i32, i32)) {
        (self.x, self.y)
    }

    fn set_position(&mut self, x: i32, y: i32) {
        self.x = x;
        self.y = y;
    }

    fn get_hp(&self) -> (hp: i32) {
        self.hp
    }

    fn set_hp(&mut self, hp: i32) {
        self.hp = hp;
    }
}

impl PlayerOperations for NetworkPlayer {
    open spec fn position(&self) -> (i32, i32) {
        (self.x, self.y)
    }

    open spec fn health(&self) -> i32 {
        self.hp
    }

    fn get_position(&self) -> (p: (i32, i32)) {
        (self.x, self.y)
    }

    fn set_position(&mut self, x: i32, y: i32) {
        self.x = x;
        self.y = y;
    }

    fn get_hp(&self) -> (hp: i32) {
        self.hp
    }

    fn set_hp(&mut self, hp: i32) {
        self.hp = hp;
    }
}

impl Player {
    /// A player in full health at `(x, y)` that has explored nothing.
    pub fn new(x: i32, y: i32) -> (player: Player)
        ensures
            player.x == x,
            player.y == y,
            player.hp == GameConstants::DEFAULT_HP,
            player.max_hp == GameConstants::DEFAULT_MAX_HP,
            player.symbol == GameConstants::PLAYER_SYMBOL,
            player.dungeon_entrance_pos is None,
            player.opened_doors@ == Set::<(int, int)>::empty(),
            player.explored_rooms@ == Set::<u32>::empty(),
    {
        Player {
            x,
            y,
            hp: GameConstants::DEFAULT_HP,
            max_hp: GameConstants::DEFAULT_MAX_HP,
            symbol: GameConstants::PLAYER_SYMBOL,
            dungeon_entrance_pos: None,
            opened_doors: CoordSet::new(),
            explored_rooms: HashSet::new(),
        }
    }
}

/// True when `p` is a passage next to an explored room.
pub open spec fn passage_seen(map: GameMapView, explored: Set<u32>, p: (int, int)) -> bool {
    is_passage(map, p) && explored_beside(map, explored, p)
}

} // verus!
