//! Maps as they travel between server and client: tiles keyed by the
//! text of their cell.

use crate::coord_text::{
    coord_text, coord_to_string, coord_value, lemma_coord_text_roundtrip, string_to_coord,
};
use crate::game_logic::GameLogic;
use crate::grid::is_cell;
use crate::map::{in_bounds, GameMap, GameMapView};
use crate::rooms::precedes;
use crate::tile::{Room, Tile};
use vstd::prelude::*;

verus! {

/// A map whose tiles are keyed by text. Where a key occurs twice, the
/// first entry counts for a lookup.
pub struct NetworkGameMap {
    pub width: i32,
    pub height: i32,
    pub tiles: Vec<(String, Tile)>,
}

/// The tile of the first entry with the given key.
pub open spec fn lookup(entries: Seq<(String, Tile)>, key: Seq<char>) -> Option<Tile>
    decreases entries.len(),
{
    if entries.len() == 0 {
        None
    } else if entries[0].0@ == key {
        Some(entries[0].1)
    } else {
        lookup(entries.skip(1), key)
    }
}

/// The tiles by cell that the first `k` entries give: each entry whose
/// key is the text of a cell puts its tile there, a later entry over an
/// earlier one; other entries are skipped.
pub open spec fn decoded(entries: Seq<(String, Tile)>, k: int) -> Map<(int, int), Tile>
    decreases k,
{
    if k <= 0 {
        Map::<(int, int), Tile>::empty()
    } else {
        match coord_value(entries[k - 1].0@) {
            Some(p) => decoded(entries, k - 1).insert(p, entries[k - 1].1),
            None => decoded(entries, k - 1),
        }
    }
}

/// A lookup in a list with one more entry finds what it found before,
/// or else the new entry if that has the key.
pub proof fn lemma_lookup_push(entries: Seq<(String, Tile)>, entry: (String, Tile), key: Seq<char>)
    ensures
        lookup(entries.push(entry), key) == match lookup(entries, key) {
            Some(t) => Some(t),
            None => if entry.0@ == key {
                Some(entry.1)
            } else {
                None
            },
        },
    decreases entries.len(),
{
    let longer = entries.push(entry);
    if entries.len() == 0 {
        assert(longer.len() == 1 && longer[0] == entry);
        assert(longer.skip(1) =~= Seq::<(String, Tile)>::empty());
        assert(lookup(longer.skip(1), key) is None);
        assert(lookup(entries, key) is None);
    } else {
        assert(longer[0] == entries[0]);
        assert(longer.skip(1) =~= entries.skip(1).push(entry));
        if entries[0].0@ != key {
            lemma_lookup_push(entries.skip(1), entry, key);
            assert(lookup(longer, key) == lookup(longer.skip(1), key));
            assert(lookup(entries, key) == lookup(entries.skip(1), key));
        } else {
            assert(lookup(longer, key) == Some(entries[0].1));
            assert(lookup(entries, key) == Some(entries[0].1));
        }
    }
}

/// Two cells with the same text are the same cell.
pub proof fn lemma_coord_text_injective(p: (int, int), q: (int, int))
    requires
        is_cell(p),
        is_cell(q),
        coord_text(p.0, p.1) == coord_text(q.0, q.1),
    ensures
        p == q,
{
    lemma_coord_text_roundtrip(p.0, p.1);
    lemma_coord_text_roundtrip(q.0, q.1);
}

/// The cells of a map that hold a tile.
pub open spec fn tiled_cells(map: GameMapView) -> Set<(int, int)> {
    Set::new(|p: (int, int)| in_bounds(p, map.width, map.height) && map.tiles.contains_key(p))
}

/// Both keys are the text of a cell, and the cell of the first comes
/// before that of the second, row by row.
pub open spec fn key_precedes(first: Seq<char>, second: Seq<char>) -> bool {
    &&& coord_value(first) is Some
    &&& coord_value(second) is Some
    &&& precedes(coord_value(first).unwrap(), coord_value(second).unwrap())
}

/// Each key is the text of a cell of a map of the given size, and no
/// two keys are the same.
pub open spec fn canonical(entries: Seq<(String, Tile)>, width: int, height: int) -> bool {
    &&& forall|i: int|
        0 <= i < entries.len() ==> exists|p: (int, int)|
            is_cell(p) && in_bounds(p, width, height) && (#[trigger] entries[i]).0@ == coord_text(
                p.0,
                p.1,
            )
    &&& forall|i: int, j: int|
        0 <= i < j < entries.len() ==> (#[trigger] entries[i]).0@ != (#[trigger] entries[j]).0@
}

/// A lookup finds nothing where no entry has the key.
pub proof fn lemma_lookup_none(entries: Seq<(String, Tile)>, key: Seq<char>)
    requires
        forall|i: int| 0 <= i < entries.len() ==> (#[trigger] entries[i]).0@ != key,
    ensures
        lookup(entries, key) is None,
    decreases entries.len(),
{
    if entries.len() > 0 {
        let rest = entries.skip(1);
        assert forall|i: int| 0 <= i < rest.len() implies (#[trigger] rest[i]).0@ != key by {
            assert(rest[i] == entries[i + 1]);
        }
        lemma_lookup_none(rest, key);
    }
}

/// Where the keys are the texts of cells, each once, the map that the
/// first `k` entries give has at each cell what a lookup among them
/// finds for the text of the cell.
pub proof fn lemma_decoded_is_lookup(
    entries: Seq<(String, Tile)>,
    width: int,
    height: int,
    k: int,
    p: (int, int),
)
    requires
        canonical(entries, width, height),
        0 <= k <= entries.len(),
        is_cell(p),
    ensures
        lookup(entries.subrange(0, k), coord_text(p.0, p.1)) == (if decoded(
            entries,
            k,
        ).contains_key(p) {
            Some(decoded(entries, k)[p])
        } else {
            None
        }),
    decreases k,
{
    let key = coord_text(p.0, p.1);
    if k == 0 {
        assert(entries.subrange(0, 0) =~= Seq::<(String, Tile)>::empty());
    } else {
        let entry = entries[k - 1];
        let before = entries.subrange(0, k - 1);
        assert(entries.subrange(0, k) =~= before.push(entry));
        lemma_lookup_push(before, entry, key);
        lemma_decoded_is_lookup(entries, width, height, k - 1, p);
        let q = choose|q: (int, int)|
            is_cell(q) && in_bounds(q, width, height) && entry.0@ == coord_text(q.0, q.1);
        lemma_coord_text_roundtrip(q.0, q.1);
        assert(coord_value(entry.0@) == Some(q));
        if entry.0@ == key {
            lemma_coord_text_injective(p, q);
            assert forall|i: int| 0 <= i < before.len() implies (#[trigger] before[i]).0@ != key by {
                assert(before[i] == entries[i]);
                assert(entries[i].0@ != entries[k - 1].0@);
            }
            lemma_lookup_none(before, key);
        } else {
            assert(p != q);
        }
    }
}

/// A map that went to the network and came back has the tiles of its
/// cells, and no others.
pub proof fn lemma_network_round_trip(
    entries: Seq<(String, Tile)>,
    tiles: Map<(int, int), Tile>,
    width: int,
    height: int,
)
    requires
        canonical(entries, width, height),
        forall|p: (int, int)|
            is_cell(p) ==> #[trigger] lookup(entries, coord_text(p.0, p.1)) == (if in_bounds(
                p,
                width,
                height,
            ) && tiles.contains_key(p) {
                Some(tiles[p])
            } else {
                None
            }),
    ensures
        decoded(entries, entries.len() as int) == tiles.restrict(
            Set::new(|p: (int, int)| is_cell(p) && in_bounds(p, width, height)),
        ),
{
    let back = decoded(entries, entries.len() as int);
    let kept = tiles.restrict(Set::new(|p: (int, int)| is_cell(p) && in_bounds(p, width, height)));
    assert(entries.subrange(0, entries.len() as int) =~= entries);
    lemma_decoded_cells(entries, width, height, entries.len() as int);
    assert forall|p: (int, int)| #[trigger] back.contains_key(p) implies kept.contains_key(p)
        && kept[p] == back[p] by {
        assert(is_cell(p));
        lemma_decoded_is_lookup(entries, width, height, entries.len() as int, p);
        assert(lookup(entries, coord_text(p.0, p.1)) is Some);
    }
    assert forall|p: (int, int)| #[trigger] kept.contains_key(p) implies back.contains_key(p) by {
        assert(is_cell(p) && in_bounds(p, width, height) && tiles.contains_key(p));
        lemma_decoded_is_lookup(entries, width, height, entries.len() as int, p);
        assert(lookup(entries, coord_text(p.0, p.1)) is Some);
    }
    assert(back.dom() =~= kept.dom());
    assert(back =~= kept);
}

/// Where the keys are the texts of cells, the map that the entries give
/// has tiles at cells only.
pub proof fn lemma_decoded_cells(entries: Seq<(String, Tile)>, width: int, height: int, k: int)
    requires
        canonical(entries, width, height),
        0 <= k <= entries.len(),
    ensures
        forall|p: (int, int)| #[trigger] decoded(entries, k).contains_key(p) ==> is_cell(p),
    decreases k,
{
    if k > 0 {
        lemma_decoded_cells(entries, width, height, k - 1);
        let entry = entries[k - 1];
        let q = choose|q: (int, int)|
            is_cell(q) && in_bounds(q, width, height) && entry.0@ == coord_text(q.0, q.1);
        lemma_coord_text_roundtrip(q.0, q.1);
        assert(coord_value(entry.0@) == Some(q));
        assert(decoded(entries, k) == decoded(entries, k - 1).insert(q, entry.1));
        assert forall|p: (int, int)| #[trigger] decoded(entries, k).contains_key(p) implies is_cell(
            p,
        ) by {
            if p != q {
                assert(decoded(entries, k - 1).contains_key(p));
            }
        }
    }
}

impl NetworkGameMap {
    /// The tile at `(x, y)`: that of the first entry whose key is the
    /// text of the cell.
    pub fn get_tile(&self, x: i32, y: i32) -> (tile: Option<&Tile>)
        ensures
            match tile {
                Some(t) => lookup(self.tiles@, coord_text(x as int, y as int)) == Some(*t),
                None => lookup(self.tiles@, coord_text(x as int, y as int)) is None,
            },
    {
        let key = coord_to_string(x, y);
        let mut i: usize = 0;
        assert(self.tiles@.skip(0) =~= self.tiles@);
        while i < self.tiles.len()
            invariant
                i <= self.tiles@.len(),
                key@ == coord_text(x as int, y as int),
                lookup(self.tiles@.skip(i as int), key@) == lookup(self.tiles@, key@),
            decreases self.tiles.len() - i,
        {
            let ghost rest = self.tiles@.skip(i as int);
            assert(rest[0] == self.tiles@[i as int]);
            assert(rest.skip(1) =~= self.tiles@.skip(i + 1));
            if self.tiles[i].0 == key {
                return Some(&self.tiles[i].1);
            }
            i = i + 1;
        }
        None
    }
}

impl GameLogic {
    /// The map with its tiles keyed by text: one entry for each cell of
    /// the map that holds a tile, row by row and from the left in each.
    pub fn game_map_to_network(map: &GameMap) -> (net: NetworkGameMap)
        ensures
            net.width == map.width,
            net.height == map.height,
            canonical(net.tiles@, map@.width, map@.height),
            net.tiles@.len() == tiled_cells(map@).len(),
            forall|i: int, j: int|
                0 <= i < j < net.tiles@.len() ==> key_precedes(
                    (#[trigger] net.tiles@[i]).0@,
                    (#[trigger] net.tiles@[j]).0@,
                ),
            forall|p: (int, int)|
                is_cell(p) ==> #[trigger] lookup(net.tiles@, coord_text(p.0, p.1)) == (if in_bounds(
                    p,
                    map@.width,
                    map@.height,
                ) {
                    map@.tile_at(p)
                } else {
                    None
                }),
    {
        let mut entries: Vec<(String, Tile)> = Vec::new();
        let ghost mut done: Set<(int, int)> = Set::empty();
        let mut y: i32 = 0;
        while y < map.height
            invariant
                0 <= y,
                y <= map.height || map.height < 0,
                canonical(entries@, map@.width, map@.height),
                done.finite(),
                done.len() == entries@.len(),
                forall|p: (int, int)|
                    done.contains(p) <==> tiled_cells(map@).contains(p) && p.1 < y,
                forall|i: int, j: int|
                    0 <= i < j < entries@.len() ==> key_precedes(
                        (#[trigger] entries@[i]).0@,
                        (#[trigger] entries@[j]).0@,
                    ),
                forall|i: int|
                    0 <= i < entries@.len() ==> exists|q: (int, int)|
                        is_cell(q) && in_bounds(q, map@.width, map@.height) && q.1 < y && (
                        #[trigger] entries@[i]).0@ == coord_text(q.0, q.1),
                forall|p: (int, int)|
                    is_cell(p) ==> #[trigger] lookup(entries@, coord_text(p.0, p.1)) == (if in_bounds(
                        p,
                        map@.width,
                        map@.height,
                    ) && p.1 < y {
                        map@.tile_at(p)
                    } else {
                        None
                    }),
            decreases map.height - y,
        {
            let mut x: i32 = 0;
            while x < map.width
                invariant
                    0 <= x,
                    x <= map.width || map.width < 0,
                    0 <= y < map.height,
                    canonical(entries@, map@.width, map@.height),
                    done.finite(),
                    done.len() == entries@.len(),
                    forall|p: (int, int)|
                        done.contains(p) <==> tiled_cells(map@).contains(p) && precedes(
                            p,
                            (x as int, y as int),
                        ),
                    forall|i: int, j: int|
                        0 <= i < j < entries@.len() ==> key_precedes(
                            (#[trigger] entries@[i]).0@,
                            (#[trigger] entries@[j]).0@,
                        ),
                    forall|i: int|
                        0 <= i < entries@.len() ==> exists|q: (int, int)|
                            is_cell(q) && in_bounds(q, map@.width, map@.height) && precedes(
                                q,
                                (x as int, y as int),
                            ) && (#[trigger] entries@[i]).0@ == coord_text(q.0, q.1),
                    forall|p: (int, int)|
                        is_cell(p) ==> #[trigger] lookup(entries@, coord_text(p.0, p.1)) == (
                        if in_bounds(p, map@.width, map@.height) && precedes(
                            p,
                            (x as int, y as int),
                        ) {
                            map@.tile_at(p)
                        } else {
                            None
                        }),
                decreases map.width - x,
            {
                if let Some(tile) = map.tile(x, y) {
                    let key = coord_to_string(x, y);
                    let ghost before = entries@;
                    let ghost here = (x as int, y as int);
                    entries.push((key, tile));
                    proof {
                        assert(!done.contains(here));
                        done = done.insert(here);
                        lemma_coord_text_roundtrip(here.0, here.1);
                        assert forall|i: int, j: int|
                            0 <= i < j < entries@.len() implies key_precedes(
                            (#[trigger] entries@[i]).0@,
                            (#[trigger] entries@[j]).0@,
                        ) by {
                            if j < before.len() {
                                assert(entries@[i] == before[i] && entries@[j] == before[j]);
                            } else {
                                assert(entries@[i] == before[i]);
                                let q = choose|q: (int, int)|
                                    is_cell(q) && in_bounds(q, map@.width, map@.height) && precedes(
                                        q,
                                        (x as int, y as int),
                                    ) && before[i].0@ == coord_text(q.0, q.1);
                                lemma_coord_text_roundtrip(q.0, q.1);
                            }
                        }
                        assert forall|i: int| 0 <= i < entries@.len() implies exists|q: (int, int)|
                            is_cell(q) && in_bounds(q, map@.width, map@.height) && precedes(
                                q,
                                (x + 1, y as int),
                            ) && (#[trigger] entries@[i]).0@ == coord_text(q.0, q.1) by {
                            if i < before.len() {
                                assert(entries@[i] == before[i]);
                                let q = choose|q: (int, int)|
                                    is_cell(q) && in_bounds(q, map@.width, map@.height) && precedes(
                                        q,
                                        (x as int, y as int),
                                    ) && before[i].0@ == coord_text(q.0, q.1);
                                assert(is_cell(q) && in_bounds(q, map@.width, map@.height)
                                    && precedes(q, (x + 1, y as int)) && entries@[i].0@
                                    == coord_text(q.0, q.1));
                            } else {
                                assert(is_cell(here) && in_bounds(here, map@.width, map@.height)
                                    && precedes(here, (x + 1, y as int)) && entries@[i].0@
                                    == coord_text(here.0, here.1));
                            }
                        }
                        assert forall|i: int, j: int|
                            0 <= i < j < entries@.len() implies (#[trigger] entries@[i]).0@ != (
                        #[trigger] entries@[j]).0@ by {
                            if j < before.len() {
                                assert(entries@[i] == before[i] && entries@[j] == before[j]);
                            } else {
                                assert(entries@[i] == before[i]);
                                let q = choose|q: (int, int)|
                                    is_cell(q) && in_bounds(q, map@.width, map@.height) && precedes(
                                        q,
                                        (x as int, y as int),
                                    ) && before[i].0@ == coord_text(q.0, q.1);
                                if before[i].0@ == key@ {
                                    lemma_coord_text_injective(q, here);
                                }
                            }
                        }
                        assert forall|i: int| 0 <= i < entries@.len() implies exists|q: (int, int)|
                            is_cell(q) && in_bounds(q, map@.width, map@.height) && (
                            #[trigger] entries@[i]).0@ == coord_text(q.0, q.1) by {
                            let q = choose|q: (int, int)|
                                is_cell(q) && in_bounds(q, map@.width, map@.height) && precedes(
                                    q,
                                    (x + 1, y as int),
                                ) && entries@[i].0@ == coord_text(q.0, q.1);
                        }
                        assert forall|p: (int, int)| is_cell(p) implies #[trigger] lookup(
                            entries@,
                            coord_text(p.0, p.1),
                        ) == (if in_bounds(p, map@.width, map@.height) && precedes(
                            p,
                            (x + 1, y as int),
                        ) {
                            map@.tile_at(p)
                        } else {
                            None
                        }) by {
                            lemma_lookup_push(before, (key, tile), coord_text(p.0, p.1));
                            if coord_text(p.0, p.1) == key@ {
                                lemma_coord_text_injective(p, here);
                            }
                        }
                    }
                }
                x = x + 1;
            }
            y = y + 1;
        }
        assert(done =~= tiled_cells(map@));
        NetworkGameMap { width: map.width, height: map.height, tiles: entries }
    }

    /// The map that the entries of a network map give: an entry whose
    /// key is not the text of a cell is skipped. The map has no rooms.
    pub fn network_map_to_game(net: &NetworkGameMap) -> (map: GameMap)
        ensures
            map@ == (GameMapView {
                width: net.width as int,
                height: net.height as int,
                tiles: decoded(net.tiles@, net.tiles@.len() as int),
                rooms: Seq::<Room>::empty(),
                room_positions: Map::<(int, int), u32>::empty(),
                visible_tiles: Map::<(int, int), bool>::empty(),
                explored_tiles: Map::<(int, int), bool>::empty(),
                illuminated_areas: Map::<u32, bool>::empty(),
            }),
    {
        let mut map = GameMap::new(net.width, net.height);
        let ghost start = map@;
        let mut i: usize = 0;
        while i < net.tiles.len()
            invariant
                i <= net.tiles@.len(),
                map@ == start.with_tiles(map@.tiles),
                map@.tiles == decoded(net.tiles@, i as int),
            decreases net.tiles.len() - i,
        {
            let entry = &net.tiles[i];
            if let Some((x, y)) = string_to_coord(entry.0.as_str()) {
                map.tiles.insert(x, y, entry.1);
            }
            i = i + 1;
        }
        map
    }

    /// True when a dungeon entrance is at `(x, y)` of a network map.
    pub fn is_at_network_dungeon_entrance(net: &NetworkGameMap, x: i32, y: i32) -> (there: bool)
        ensures
            there == (lookup(net.tiles@, coord_text(x as int, y as int)) == Some(
                Tile::DungeonEntrance,
            )),
    {
        match net.get_tile(x, y) {
            Some(Tile::DungeonEntrance) => true,
            _ => false,
        }
    }
}

} // verus!
