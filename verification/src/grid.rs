//! Sparse containers keyed by integer grid coordinates.
//!
//! A cell `(x, y)` is stored under one 64-bit key, so that the hash tables of
//! the standard library can be reasoned about; callers only ever see the
//! mathematical view, a map or set over pairs of integers.

use std::collections::HashMap;
use vstd::prelude::*;
use vstd::std_specs::hash::*;

verus! {

broadcast use vstd::std_specs::hash::group_hash_axioms;

/// True of the pairs that are coordinates of a cell.
pub open spec fn is_cell(p: (int, int)) -> bool {
    i32::MIN <= p.0 <= i32::MAX && i32::MIN <= p.1 <= i32::MAX
}

/// The key under which the cell `(x, y)` is stored.
pub closed spec fn cell_key(x: int, y: int) -> int {
    (x + 0x8000_0000) * 0x1_0000_0000 + (y + 0x8000_0000)
}

/// The cell that is stored under `key`.
pub closed spec fn key_cell(key: u64) -> (int, int) {
    (key as int / 0x1_0000_0000 - 0x8000_0000, key as int % 0x1_0000_0000 - 0x8000_0000)
}

proof fn lemma_key_roundtrip(p: (int, int))
    requires
        is_cell(p),
    ensures
        0 <= cell_key(p.0, p.1) <= u64::MAX,
        key_cell(cell_key(p.0, p.1) as u64) == p,
{
}

proof fn lemma_cell_roundtrip(key: u64)
    ensures
        is_cell(key_cell(key)),
        cell_key(key_cell(key).0, key_cell(key).1) == key,
{
}

fn pack(x: i32, y: i32) -> (key: u64)
    ensures
        key == cell_key(x as int, y as int),
{
    let hi: u64 = (x as i64 + 0x8000_0000i64) as u64;
    let lo: u64 = (y as i64 + 0x8000_0000i64) as u64;
    hi * 0x1_0000_0000u64 + lo
}

/// A finite partial map from cells to values.
pub struct CoordMap<V> {
    cells: HashMap<u64, V>,
}

impl<V> View for CoordMap<V> {
    type V = Map<(int, int), V>;

    closed spec fn view(&self) -> Map<(int, int), V> {
        Map::new(
            |p: (int, int)| is_cell(p) && self.cells@.contains_key(cell_key(p.0, p.1) as u64),
            |p: (int, int)| self.cells@[cell_key(p.0, p.1) as u64],
        )
    }
}

impl<V> CoordMap<V> {
    /// Every key of the view is a cell, and there are finitely many.
    pub proof fn lemma_dom(&self)
        ensures
            self@.dom().finite(),
            forall|p: (int, int)| #[trigger] self@.contains_key(p) ==> is_cell(p),
    {
        let keys = self.cells@.dom();
        let image = keys.map(|k: u64| key_cell(k));
        assert forall|p: (int, int)| self@.dom().contains(p) <==> image.contains(p) by {
            if self@.dom().contains(p) {
                lemma_key_roundtrip(p);
                assert(keys.contains(cell_key(p.0, p.1) as u64));
            }
            if image.contains(p) {
                let k = choose|k: u64| keys.contains(k) && key_cell(k) == p;
                lemma_cell_roundtrip(k);
            }
        }
        assert(self@.dom() =~= image);
        keys.lemma_map_finite(|k: u64| key_cell(k));
    }

    pub fn new() -> (m: CoordMap<V>)
        ensures
            m@ == Map::<(int, int), V>::empty(),
    {
        let m = CoordMap { cells: HashMap::new() };
        assert(m@ =~= Map::<(int, int), V>::empty());
        m
    }

    /// The value stored at `(x, y)`, if there is one.
    pub fn get(&self, x: i32, y: i32) -> (found: Option<&V>)
        ensures
            match found {
                Some(v) => self@.contains_key((x as int, y as int)) && *v == self@[(
                    x as int,
                    y as int,
                )],
                None => !self@.contains_key((x as int, y as int)),
            },
    {
        let key = pack(x, y);
        self.cells.get(&key)
    }

    pub fn contains(&self, x: i32, y: i32) -> (found: bool)
        ensures
            found == self@.contains_key((x as int, y as int)),
    {
        let key = pack(x, y);
        self.cells.contains_key(&key)
    }

    /// Stores `value` at `(x, y)`, replacing what was there.
    pub fn insert(&mut self, x: i32, y: i32, value: V)
        ensures
            final(self)@ == old(self)@.insert((x as int, y as int), value),
    {
        let key = pack(x, y);
        self.cells.insert(key, value);
        proof {
            let target = (x as int, y as int);
            assert forall|p: (int, int)| is_cell(p) && p != target implies cell_key(p.0, p.1)
                != key by {
                lemma_key_roundtrip(p);
                lemma_key_roundtrip(target);
            }
            assert(self@ =~= old(self)@.insert(target, value));
        }
    }

    pub fn clear(&mut self)
        ensures
            final(self)@ == Map::<(int, int), V>::empty(),
    {
        self.cells.clear();
        assert(self@ =~= Map::<(int, int), V>::empty());
    }
}

/// A finite set of cells.
pub struct CoordSet {
    cells: CoordMap<()>,
}

impl View for CoordSet {
    type V = Set<(int, int)>;

    closed spec fn view(&self) -> Set<(int, int)> {
        self.cells@.dom()
    }
}

impl CoordSet {
    pub fn new() -> (s: CoordSet)
        ensures
            s@ == Set::<(int, int)>::empty(),
    {
        let s = CoordSet { cells: CoordMap::new() };
        assert(s@ =~= Set::<(int, int)>::empty());
        s
    }

    pub fn contains(&self, x: i32, y: i32) -> (found: bool)
        ensures
            found == self@.contains((x as int, y as int)),
    {
        self.cells.contains(x, y)
    }

    /// Adds `(x, y)`; true when it was not a member before.
    pub fn insert(&mut self, x: i32, y: i32) -> (added: bool)
        ensures
            final(self)@ == old(self)@.insert((x as int, y as int)),
            added == !old(self)@.contains((x as int, y as int)),
    {
        let present = self.cells.contains(x, y);
        self.cells.insert(x, y, ());
        assert(self@ =~= old(self)@.insert((x as int, y as int)));
        !present
    }

    pub fn clear(&mut self)
        ensures
            final(self)@ == Set::<(int, int)>::empty(),
    {
        self.cells.clear();
        assert(self@ =~= Set::<(int, int)>::empty());
    }
}

} // verus!
