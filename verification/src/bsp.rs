//! Binary space partition of a rectangle into leaves that can hold rooms.

use crate::rng::{lcg_step, range_value, SeededRng};
use crate::tile::{Rect, Room};
use vstd::prelude::*;

verus! {

/// The rectangle and id of each room, in order.
pub open spec fn room_sites(rooms: Seq<Room>) -> Seq<(Rect, u32)> {
    rooms.map_values(|room: Room| (room.rect(), room.id))
}

/// Cells kept free between a room and the sides of its leaf.
pub const ROOM_MARGIN: i32 = 2;

/// A node of the partition tree. A node is a leaf or has both children;
/// only a leaf can hold a room.
#[derive(Debug)]
pub struct BSPNode {
    pub x: i32,
    pub y: i32,
    pub width: i32,
    pub height: i32,
    pub left: Option<Box<BSPNode>>,
    pub right: Option<Box<BSPNode>>,
    pub room: Option<Rect>,
    pub id: u32,
}

impl BSPNode {
    /// The cells of the node.
    pub open spec fn rect(self) -> Rect {
        Rect { x: self.x, y: self.y, width: self.width, height: self.height }
    }

    /// The rectangle has non-negative sides and ends within the range of
    /// `i32`.
    pub open spec fn rect_ok(self) -> bool {
        &&& 0 <= self.width
        &&& 0 <= self.height
        &&& self.x + self.width <= i32::MAX
        &&& self.y + self.height <= i32::MAX
    }

    pub fn new(x: i32, y: i32, width: i32, height: i32, id: u32) -> (node: BSPNode)
        ensures
            node == (BSPNode { x, y, width, height, left: None, right: None, room: None, id }),
    {
        BSPNode { x, y, width, height, left: None, right: None, room: None, id }
    }

    /// Both sides are long enough for two children of `min_size` each.
    pub open spec fn splittable(self, min_size: int) -> bool {
        self.width > 2 * min_size && self.height > 2 * min_size
    }

    pub fn can_split(&self, min_size: i32) -> (can: bool)
        ensures
            can == self.splittable(min_size as int),
    {
        let twice: i64 = 2 * (min_size as i64);
        (self.width as i64) > twice && (self.height as i64) > twice
    }

    /// The split is decided by a random draw: neither side is at least
    /// 1.25 times the other.
    pub open spec fn direction_is_drawn(self) -> bool {
        4 * self.width < 5 * self.height && 4 * self.height < 5 * self.width
    }

    /// The generator state once the direction is settled.
    pub open spec fn state_after_direction(self, state: u32) -> u32 {
        if self.direction_is_drawn() {
            lcg_step(state)
        } else {
            state
        }
    }

    /// The children are stacked (top and bottom) rather than side by side.
    pub open spec fn stacked(self, state: u32) -> bool {
        if 4 * self.width >= 5 * self.height {
            false
        } else if 4 * self.height >= 5 * self.width {
            true
        } else {
            lcg_step(state) % 2 == 0
        }
    }

    /// The generator state after a successful split.
    pub open spec fn state_after_split(self, state: u32) -> u32 {
        lcg_step(self.state_after_direction(state))
    }

    /// Where the node is cut, measured from its left or top side.
    pub open spec fn cut(self, min_size: int, state: u32) -> int {
        let side = if self.stacked(state) {
            self.height as int
        } else {
            self.width as int
        };
        range_value(self.state_after_split(state), min_size, side - min_size)
    }

    /// A split with these arguments creates children.
    pub open spec fn split_succeeds(self, next_id: u32, min_size: int) -> bool {
        self.splittable(min_size) && next_id <= u32::MAX - 2
    }

    /// The first child of a successful split.
    pub open spec fn first_child(self, next_id: u32, min_size: int, state: u32) -> BSPNode {
        let cut = self.cut(min_size, state);
        if self.stacked(state) {
            BSPNode {
                x: self.x,
                y: self.y,
                width: self.width,
                height: cut as i32,
                left: None,
                right: None,
                room: None,
                id: next_id,
            }
        } else {
            BSPNode {
                x: self.x,
                y: self.y,
                width: cut as i32,
                height: self.height,
                left: None,
                right: None,
                room: None,
                id: next_id,
            }
        }
    }

    /// The second child of a successful split.
    pub open spec fn second_child(self, next_id: u32, min_size: int, state: u32) -> BSPNode {
        let cut = self.cut(min_size, state);
        if self.stacked(state) {
            BSPNode {
                x: self.x,
                y: (self.y + cut) as i32,
                width: self.width,
                height: (self.height - cut) as i32,
                left: None,
                right: None,
                room: None,
                id: (next_id + 1) as u32,
            }
        } else {
            BSPNode {
                x: (self.x + cut) as i32,
                y: self.y,
                width: (self.width - cut) as i32,
                height: self.height,
                left: None,
                right: None,
                room: None,
                id: (next_id + 1) as u32,
            }
        }
    }

    /// The node after `split`.
    pub open spec fn after_split(self, next_id: u32, min_size: int, state: u32) -> BSPNode {
        if self.split_succeeds(next_id, min_size) {
            BSPNode {
                left: Some(Box::new(self.first_child(next_id, min_size, state))),
                right: Some(Box::new(self.second_child(next_id, min_size, state))),
                ..self
            }
        } else {
            self
        }
    }

    /// The cut leaves each child at least `min_size` long and both children
    /// tile the node.
    pub proof fn lemma_cut_in_range(self, min_size: int, state: u32)
        requires
            self.splittable(min_size),
            0 <= min_size,
        ensures
            self.stacked(state) ==> min_size <= self.cut(min_size, state) <= self.height
                - min_size,
            !self.stacked(state) ==> min_size <= self.cut(min_size, state) <= self.width
                - min_size,
    {
    }

    /// Wherever the node is cut, the cut and the sides and corners of
    /// both children are within the range of `i32`. A node with valid
    /// rectangle fits for every `min_size` that is not negative.
    pub open spec fn split_fits(self, min_size: int) -> bool {
        &&& self.width - min_size <= i32::MAX
        &&& self.height - min_size <= i32::MAX
        &&& i32::MIN <= self.x + min_size
        &&& i32::MIN <= self.y + min_size
        &&& self.x + self.width - min_size <= i32::MAX
        &&& self.y + self.height - min_size <= i32::MAX
    }

    /// Cuts the node in two, if both sides are longer than twice `min_size`
    /// and two more ids can be handed out. The children take the ids
    /// `next_id` and `next_id + 1`.
    pub fn split(&mut self, next_id: &mut u32, min_size: i32, rng: &mut SeededRng) -> (done: bool)
        requires
            old(self).split_fits(min_size as int),
        ensures
            done == old(self).split_succeeds(*old(next_id), min_size as int),
            *final(self) == old(self).after_split(*old(next_id), min_size as int, old(rng).state),
            done ==> *final(next_id) == *old(next_id) + 2,
            done ==> final(rng).state == old(self).state_after_split(old(rng).state),
            !done ==> *final(next_id) == *old(next_id) && final(rng).state == old(rng).state,
    {
        if !self.can_split(min_size) || *next_id > u32::MAX - 2 {
            return false;
        }
        let four_w: i64 = 4 * (self.width as i64);
        let four_h: i64 = 4 * (self.height as i64);
        let five_w: i64 = 5 * (self.width as i64);
        let five_h: i64 = 5 * (self.height as i64);
        let stacked = if four_w >= five_h {
            false
        } else if four_h >= five_w {
            true
        } else {
            rng.next_bool()
        };
        let side: i32 = if stacked {
            self.height
        } else {
            self.width
        };
        let cut: i32 = rng.next_range(min_size, side - min_size);
        let first_id: u32 = *next_id;
        let second_id: u32 = first_id + 1;
        if stacked {
            self.left = Some(Box::new(BSPNode::new(self.x, self.y, self.width, cut, first_id)));
            self.right = Some(
                Box::new(
                    BSPNode::new(self.x, self.y + cut, self.width, self.height - cut, second_id),
                ),
            );
        } else {
            self.left = Some(Box::new(BSPNode::new(self.x, self.y, cut, self.height, first_id)));
            self.right = Some(
                Box::new(
                    BSPNode::new(self.x + cut, self.y, self.width - cut, self.height, second_id),
                ),
            );
        }
        *next_id = first_id + 2;
        true
    }

    /// The room that a leaf with this rectangle gets, if it is large enough,
    /// together with the generator state afterwards.
    pub open spec fn leaf_room(self, min_room: int, max_room: int, state: u32) -> (
        Option<Rect>,
        u32,
    ) {
        let max_width = if self.width - 2 * ROOM_MARGIN <= max_room {
            self.width - 2 * ROOM_MARGIN
        } else {
            max_room
        };
        let max_height = if self.height - 2 * ROOM_MARGIN <= max_room {
            self.height - 2 * ROOM_MARGIN
        } else {
            max_room
        };
        if max_width >= min_room && max_height >= min_room {
            let s1 = lcg_step(state);
            let room_width = range_value(s1, min_room, max_width + 1);
            let s2 = lcg_step(s1);
            let room_height = range_value(s2, min_room, max_height + 1);
            let slack_x = self.width - room_width - 2 * ROOM_MARGIN;
            let slack_y = self.height - room_height - 2 * ROOM_MARGIN;
            let s3 = if slack_x > 0 {
                lcg_step(s2)
            } else {
                s2
            };
            let room_x = if slack_x > 0 {
                self.x + ROOM_MARGIN + range_value(s3, 0, slack_x + 1)
            } else {
                self.x + ROOM_MARGIN
            };
            let s4 = if slack_y > 0 {
                lcg_step(s3)
            } else {
                s3
            };
            let room_y = if slack_y > 0 {
                self.y + ROOM_MARGIN + range_value(s4, 0, slack_y + 1)
            } else {
                self.y + ROOM_MARGIN
            };
            (
                Some(
                    Rect {
                        x: room_x as i32,
                        y: room_y as i32,
                        width: room_width as i32,
                        height: room_height as i32,
                    },
                ),
                s4,
            )
        } else {
            (None, state)
        }
    }

    /// The tree after `create_rooms`, and the generator state afterwards.
    pub open spec fn with_rooms(self, min_room: int, max_room: int, state: u32) -> (BSPNode, u32)
        decreases self,
    {
        match (self.left, self.right) {
            (Some(l), Some(r)) => {
                let (first, s1) = l.with_rooms(min_room, max_room, state);
                let (second, s2) = r.with_rooms(min_room, max_room, s1);
                (BSPNode { left: Some(Box::new(first)), right: Some(Box::new(second)), ..self }, s2)
            },
            _ => {
                let (room, s1) = self.leaf_room(min_room, max_room, state);
                match room {
                    Some(rect) => (BSPNode { room: Some(rect), ..self }, s1),
                    None => (self, s1),
                }
            },
        }
    }

    /// Every node of the tree has a valid rectangle.
    pub open spec fn rects_ok(self) -> bool
        decreases self,
    {
        &&& self.rect_ok()
        &&& match self.left {
            Some(l) => l.rects_ok(),
            None => true,
        }
        &&& match self.right {
            Some(r) => r.rects_ok(),
            None => true,
        }
    }

    /// Gives each leaf that is large enough a room, at least two cells from
    /// the leaf's sides. Nodes with two children get none.
    pub fn create_rooms(&mut self, min_room_size: i32, max_room_size: i32, rng: &mut SeededRng)
        requires
            old(self).rects_ok(),
            1 <= min_room_size,
        ensures
            *final(self) == old(self).with_rooms(
                min_room_size as int,
                max_room_size as int,
                old(rng).state,
            ).0,
            final(rng).state == old(self).with_rooms(
                min_room_size as int,
                max_room_size as int,
                old(rng).state,
            ).1,
        decreases *old(self),
    {
        if self.left.is_some() && self.right.is_some() {
            match &mut self.left {
                Some(l) => {
                    l.create_rooms(min_room_size, max_room_size, rng);
                },
                None => {},
            }
            match &mut self.right {
                Some(r) => {
                    r.create_rooms(min_room_size, max_room_size, rng);
                },
                None => {},
            }
        } else {
            let inner_width: i32 = self.width - 2 * ROOM_MARGIN;
            let inner_height: i32 = self.height - 2 * ROOM_MARGIN;
            let max_width: i32 = if inner_width <= max_room_size {
                inner_width
            } else {
                max_room_size
            };
            let max_height: i32 = if inner_height <= max_room_size {
                inner_height
            } else {
                max_room_size
            };
            if max_width >= min_room_size && max_height >= min_room_size {
                let room_width: i32 = rng.next_range(min_room_size, max_width + 1);
                let room_height: i32 = rng.next_range(min_room_size, max_height + 1);
                let slack_x: i32 = self.width - room_width - 2 * ROOM_MARGIN;
                let slack_y: i32 = self.height - room_height - 2 * ROOM_MARGIN;
                let room_x: i32 = if slack_x > 0 {
                    self.x + ROOM_MARGIN + rng.next_range(0, slack_x + 1)
                } else {
                    self.x + ROOM_MARGIN
                };
                let room_y: i32 = if slack_y > 0 {
                    self.y + ROOM_MARGIN + rng.next_range(0, slack_y + 1)
                } else {
                    self.y + ROOM_MARGIN
                };
                self.room = Some(
                    Rect { x: room_x, y: room_y, width: room_width, height: room_height },
                );
            }
        }
    }

    /// The rooms of the tree with the ids of their nodes: the node's own
    /// first, then those of the first child, then those of the second.
    pub open spec fn rooms_of(self) -> Seq<(Rect, u32)>
        decreases self,
    {
        let own = match self.room {
            Some(rect) => seq![(rect, self.id)],
            None => Seq::<(Rect, u32)>::empty(),
        };
        let first = match self.left {
            Some(l) => l.rooms_of(),
            None => Seq::<(Rect, u32)>::empty(),
        };
        let second = match self.right {
            Some(r) => r.rooms_of(),
            None => Seq::<(Rect, u32)>::empty(),
        };
        own + first + second
    }

    /// Appends the rooms of the tree to `rooms`.
    pub fn get_rooms(&self, rooms: &mut Vec<Room>)
        ensures
            room_sites(final(rooms)@) == room_sites(old(rooms)@) + self.rooms_of(),
            forall|i: int| 0 <= i < old(rooms)@.len() ==> final(rooms)@[i] == old(rooms)@[i],
            forall|i: int|
                old(rooms)@.len() <= i < final(rooms)@.len() ==> (#[trigger] final(rooms)@[i]).fresh(),
        decreases *self,
    {
        let ghost before = rooms@;
        if let Some(rect) = self.room {
            rooms.push(Room::new(rect, self.id));
        }
        let ghost own = rooms@;
        if let Some(l) = &self.left {
            l.get_rooms(rooms);
        }
        let ghost first = rooms@;
        if let Some(r) = &self.right {
            r.get_rooms(rooms);
        }
        proof {
            assert(room_sites(own) =~= room_sites(before) + match self.room {
                Some(rect) => seq![(rect, self.id)],
                None => Seq::<(Rect, u32)>::empty(),
            });
            assert(room_sites(rooms@) =~= room_sites(before) + self.rooms_of());
        }
    }

    /// The middle of the node's room, if it has one.
    pub fn get_room_center(&self) -> (center: Option<(i32, i32)>)
        requires
            self.room matches Some(rect) ==> 0 <= rect.width && 0 <= rect.height && rect.x
                + rect.width <= i32::MAX && rect.y + rect.height <= i32::MAX,
        ensures
            match self.room {
                Some(rect) => center matches Some(c) && (c.0 as int, c.1 as int) == rect.center(),
                None => center is None,
            },
    {
        match self.room {
            Some(rect) => Some((rect.x + rect.width / 2, rect.y + rect.height / 2)),
            None => None,
        }
    }

    /// The tree that recursive splitting to `depth` levels grows from this
    /// node, the next free id and the generator state afterwards.
    pub open spec fn partitioned(self, next_id: u32, min_size: int, depth: int, state: u32) -> (
        BSPNode,
        u32,
        u32,
    )
        decreases depth,
    {
        if depth <= 0 || !self.split_succeeds(next_id, min_size) {
            (self, next_id, state)
        } else {
            let (first, id1, s1) = self.first_child(next_id, min_size, state).partitioned(
                (next_id + 2) as u32,
                min_size,
                depth - 1,
                self.state_after_split(state),
            );
            let (second, id2, s2) = self.second_child(next_id, min_size, state).partitioned(
                id1,
                min_size,
                depth - 1,
                s1,
            );
            (
                BSPNode { left: Some(Box::new(first)), right: Some(Box::new(second)), ..self },
                id2,
                s2,
            )
        }
    }

    /// The shape that splitting and room creation keep: children come in
    /// pairs, lie side by side inside their parent without sharing a cell,
    /// and a room sits in a leaf, `ROOM_MARGIN` cells from its sides.
    pub open spec fn well_formed(self) -> bool
        decreases self,
    {
        &&& self.rect_ok()
        &&& (self.left is Some) == (self.right is Some)
        &&& match self.room {
            Some(rect) => rect.within(self.rect(), ROOM_MARGIN as int) && 1 <= rect.width && 1
                <= rect.height,
            None => true,
        }
        &&& match (self.left, self.right) {
            (Some(l), Some(r)) => {
                &&& self.room is None
                &&& l.well_formed()
                &&& r.well_formed()
                &&& l.rect().within(self.rect(), 0)
                &&& r.rect().within(self.rect(), 0)
                &&& l.rect().apart(r.rect(), 0)
            },
            _ => true,
        }
    }

    /// Splitting a bare leaf yields a well-formed tree without rooms.
    pub proof fn lemma_partitioned_well_formed(
        self,
        next_id: u32,
        min_size: int,
        depth: int,
        state: u32,
    )
        requires
            self.rect_ok(),
            self.left is None,
            self.right is None,
            self.room is None,
            0 <= min_size,
        ensures
            self.partitioned(next_id, min_size, depth, state).0.well_formed(),
            self.partitioned(next_id, min_size, depth, state).0.rect() == self.rect(),
            self.partitioned(next_id, min_size, depth, state).0.id == self.id,
            self.partitioned(next_id, min_size, depth, state).0.room is None,
        decreases depth,
    {
        if depth <= 0 || !self.split_succeeds(next_id, min_size) {
        } else {
            self.lemma_cut_in_range(min_size, state);
            let a = self.first_child(next_id, min_size, state);
            let b = self.second_child(next_id, min_size, state);
            let s0 = self.state_after_split(state);
            a.lemma_partitioned_well_formed((next_id + 2) as u32, min_size, depth - 1, s0);
            let (first, id1, s1) = a.partitioned((next_id + 2) as u32, min_size, depth - 1, s0);
            b.lemma_partitioned_well_formed(id1, min_size, depth - 1, s1);
        }
    }

    /// Room creation keeps a well-formed tree well-formed.
    pub proof fn lemma_with_rooms_well_formed(self, min_room: int, max_room: int, state: u32)
        requires
            self.well_formed(),
            1 <= min_room,
        ensures
            self.with_rooms(min_room, max_room, state).0.well_formed(),
            self.with_rooms(min_room, max_room, state).0.rect() == self.rect(),
            self.with_rooms(min_room, max_room, state).0.id == self.id,
        decreases self,
    {
        match (self.left, self.right) {
            (Some(l), Some(r)) => {
                l.lemma_with_rooms_well_formed(min_room, max_room, state);
                let (first, s1) = l.with_rooms(min_room, max_room, state);
                r.lemma_with_rooms_well_formed(min_room, max_room, s1);
            },
            _ => {},
        }
    }

    /// Splitting a bare leaf yields a tree without rooms.
    pub proof fn lemma_partitioned_bare(self, next_id: u32, min_size: int, depth: int, state: u32)
        requires
            self.left is None,
            self.right is None,
            self.room is None,
        ensures
            self.partitioned(next_id, min_size, depth, state).0.rooms_of().len() == 0,
        decreases depth,
    {
        if depth <= 0 || !self.split_succeeds(next_id, min_size) {
        } else {
            let a = self.first_child(next_id, min_size, state);
            let b = self.second_child(next_id, min_size, state);
            let s0 = self.state_after_split(state);
            a.lemma_partitioned_bare((next_id + 2) as u32, min_size, depth - 1, s0);
            let (first, id1, s1) = a.partitioned((next_id + 2) as u32, min_size, depth - 1, s0);
            b.lemma_partitioned_bare(id1, min_size, depth - 1, s1);
        }
    }

    /// The rooms that room creation puts into a tree without rooms are
    /// between `min_room` and `max_room` cells long and wide.
    pub proof fn lemma_with_rooms_sizes(self, min_room: int, max_room: int, state: u32)
        requires
            self.well_formed(),
            self.rooms_of().len() == 0,
            1 <= min_room,
        ensures
            forall|i: int|
                0 <= i < self.with_rooms(min_room, max_room, state).0.rooms_of().len() ==> {
                    &&& min_room <= (#[trigger] self.with_rooms(
                        min_room,
                        max_room,
                        state,
                    ).0.rooms_of()[i]).0.width <= max_room
                    &&& min_room <= self.with_rooms(min_room, max_room, state).0.rooms_of()[i].0.height
                        <= max_room
                },
        decreases self,
    {
        match (self.left, self.right) {
            (Some(l), Some(r)) => {
                assert(self.rooms_of() =~= l.rooms_of() + r.rooms_of());
                l.lemma_with_rooms_sizes(min_room, max_room, state);
                let (first, s1) = l.with_rooms(min_room, max_room, state);
                r.lemma_with_rooms_sizes(min_room, max_room, s1);
                let (second, s2) = r.with_rooms(min_room, max_room, s1);
                let whole = self.with_rooms(min_room, max_room, state).0;
                assert(whole.rooms_of() =~= first.rooms_of() + second.rooms_of());
                assert forall|i: int| 0 <= i < whole.rooms_of().len() implies {
                    &&& min_room <= (#[trigger] whole.rooms_of()[i]).0.width <= max_room
                    &&& min_room <= whole.rooms_of()[i].0.height <= max_room
                } by {
                    if i < first.rooms_of().len() {
                        assert(whole.rooms_of()[i] == first.rooms_of()[i]);
                    } else {
                        assert(whole.rooms_of()[i] == second.rooms_of()[i - first.rooms_of().len()]);
                    }
                }
            },
            _ => {},
        }
    }

    /// A well-formed tree has valid rectangles throughout.
    pub proof fn lemma_well_formed_rects(self)
        requires
            self.well_formed(),
        ensures
            self.rects_ok(),
        decreases self,
    {
        match (self.left, self.right) {
            (Some(l), Some(r)) => {
                l.lemma_well_formed_rects();
                r.lemma_well_formed_rects();
            },
            _ => {},
        }
    }

    /// The rooms of a well-formed tree lie inside its rectangle, and any two
    /// of them are at least four cells apart; in particular no two overlap.
    pub proof fn lemma_rooms_apart(self)
        requires
            self.well_formed(),
        ensures
            forall|i: int|
                0 <= i < self.rooms_of().len() ==> {
                    &&& (#[trigger] self.rooms_of()[i]).0.within(self.rect(), ROOM_MARGIN as int)
                    &&& 1 <= self.rooms_of()[i].0.width
                    &&& 1 <= self.rooms_of()[i].0.height
                },
            forall|i: int, j: int|
                0 <= i < j < self.rooms_of().len() ==> {
                    &&& (#[trigger] self.rooms_of()[i]).0.apart(
                        (#[trigger] self.rooms_of()[j]).0,
                        2 * ROOM_MARGIN as int,
                    )
                    &&& !self.rooms_of()[i].0.intersects(self.rooms_of()[j].0)
                },
        decreases self,
    {
        match (self.left, self.right) {
            (Some(l), Some(r)) => {
                l.lemma_rooms_apart();
                r.lemma_rooms_apart();
                let first = l.rooms_of();
                let second = r.rooms_of();
                assert(self.rooms_of() =~= first + second);
                assert forall|i: int| 0 <= i < self.rooms_of().len() implies {
                    &&& (#[trigger] self.rooms_of()[i]).0.within(self.rect(), ROOM_MARGIN as int)
                    &&& 1 <= self.rooms_of()[i].0.width
                    &&& 1 <= self.rooms_of()[i].0.height
                } by {
                    if i < first.len() {
                        assert(self.rooms_of()[i] == first[i]);
                    } else {
                        assert(self.rooms_of()[i] == second[i - first.len()]);
                    }
                }
                assert forall|i: int, j: int| 0 <= i < j < self.rooms_of().len() implies {
                    &&& (#[trigger] self.rooms_of()[i]).0.apart(
                        (#[trigger] self.rooms_of()[j]).0,
                        2 * ROOM_MARGIN as int,
                    )
                    &&& !self.rooms_of()[i].0.intersects(self.rooms_of()[j].0)
                } by {
                    if i < first.len() {
                        assert(self.rooms_of()[i] == first[i]);
                    } else {
                        assert(self.rooms_of()[i] == second[i - first.len()]);
                    }
                    if j < first.len() {
                        assert(self.rooms_of()[j] == first[j]);
                    } else {
                        assert(self.rooms_of()[j] == second[j - first.len()]);
                    }
                }
            },
            _ => {
                assert(self.rooms_of().len() <= 1);
            },
        }
    }

    /// The point at which this subtree is joined to its sibling: the
    /// middle of its first room, which the subtree's own corridors join
    /// to its other rooms; the middle of its rectangle if it has no room.
    pub open spec fn connection_center(self) -> (int, int) {
        if self.rooms_of().len() > 0 {
            self.rooms_of()[0].0.center()
        } else {
            self.rect().center()
        }
    }

    /// The connection point of a well-formed tree lies in its rectangle.
    pub proof fn lemma_center_inside(self)
        requires
            self.well_formed(),
        ensures
            self.x <= self.connection_center().0 <= self.x + self.width,
            self.y <= self.connection_center().1 <= self.y + self.height,
    {
        self.lemma_rooms_apart();
        if self.rooms_of().len() > 0 {
            let first = self.rooms_of()[0];
            assert(first.0.within(self.rect(), ROOM_MARGIN as int));
        }
    }

    /// The rectangle of the first room of the tree, if it has a room.
    pub fn first_room(&self) -> (found: Option<Rect>)
        ensures
            match found {
                Some(rect) => self.rooms_of().len() > 0 && self.rooms_of()[0].0 == rect,
                None => self.rooms_of().len() == 0,
            },
        decreases *self,
    {
        if let Some(rect) = self.room {
            return Some(rect);
        }
        if let Some(l) = &self.left {
            let sub = l.first_room();
            if sub.is_some() {
                return sub;
            }
        }
        if let Some(r) = &self.right {
            return r.first_room();
        }
        None
    }

    pub fn get_connection_center(&self) -> (center: (i32, i32))
        requires
            self.well_formed(),
        ensures
            (center.0 as int, center.1 as int) == self.connection_center(),
    {
        proof {
            self.lemma_center_inside();
            self.lemma_rooms_apart();
        }
        match self.first_room() {
            Some(rect) => {
                assert(rect.within(self.rect(), ROOM_MARGIN as int));
                (rect.x + rect.width / 2, rect.y + rect.height / 2)
            },
            None => (self.x + self.width / 2, self.y + self.height / 2),
        }
    }

    /// The number of nodes below this one.
    pub open spec fn descendants(self) -> nat
        decreases self,
    {
        match (self.left, self.right) {
            (Some(l), Some(r)) => 2 + l.descendants() + r.descendants(),
            _ => 0,
        }
    }

    /// The nodes below this one have the ids from `first` on, in the order
    /// in which recursive splitting hands them out: the two children
    /// first, then the nodes below the first child, then those below the
    /// second.
    pub open spec fn ids_from(self, first: int) -> bool
        decreases self,
    {
        match (self.left, self.right) {
            (Some(l), Some(r)) => {
                &&& l.id == first
                &&& r.id == first + 1
                &&& l.ids_from(first + 2)
                &&& r.ids_from(first + 2 + l.descendants())
            },
            _ => true,
        }
    }

    /// Recursive splitting leaves the id of the node it starts from.
    pub proof fn lemma_partitioned_keeps_id(
        self,
        next_id: u32,
        min_size: int,
        depth: int,
        state: u32,
    )
        ensures
            self.partitioned(next_id, min_size, depth, state).0.id == self.id,
        decreases depth,
    {
    }

    /// Recursive splitting hands out the ids from `next_id` on, one for
    /// each new node.
    pub proof fn lemma_partitioned_ids(self, next_id: u32, min_size: int, depth: int, state: u32)
        requires
            self.left is None,
            self.right is None,
        ensures
            self.partitioned(next_id, min_size, depth, state).0.ids_from(next_id as int),
            self.partitioned(next_id, min_size, depth, state).1 == next_id + self.partitioned(
                next_id,
                min_size,
                depth,
                state,
            ).0.descendants(),
        decreases depth,
    {
        if depth <= 0 || !self.split_succeeds(next_id, min_size) {
        } else {
            let a = self.first_child(next_id, min_size, state);
            let b = self.second_child(next_id, min_size, state);
            let s0 = self.state_after_split(state);
            a.lemma_partitioned_ids((next_id + 2) as u32, min_size, depth - 1, s0);
            let (first, id1, s1) = a.partitioned((next_id + 2) as u32, min_size, depth - 1, s0);
            b.lemma_partitioned_ids(id1, min_size, depth - 1, s1);
            a.lemma_partitioned_keeps_id((next_id + 2) as u32, min_size, depth - 1, s0);
            b.lemma_partitioned_keeps_id(id1, min_size, depth - 1, s1);
        }
    }

    /// Room creation leaves the ids and the shape of the tree.
    pub proof fn lemma_with_rooms_ids(self, min_room: int, max_room: int, state: u32, first: int)
        requires
            self.ids_from(first),
        ensures
            self.with_rooms(min_room, max_room, state).0.ids_from(first),
            self.with_rooms(min_room, max_room, state).0.descendants() == self.descendants(),
            self.with_rooms(min_room, max_room, state).0.id == self.id,
        decreases self,
    {
        match (self.left, self.right) {
            (Some(l), Some(r)) => {
                l.lemma_with_rooms_ids(min_room, max_room, state, first + 2);
                let (a, s1) = l.with_rooms(min_room, max_room, state);
                r.lemma_with_rooms_ids(min_room, max_room, s1, first + 2 + l.descendants());
            },
            _ => {},
        }
    }

    /// The rooms of a well-formed tree whose ids are in order carry the
    /// id of the root or an id of the nodes below it, and no two the
    /// same.
    pub proof fn lemma_room_ids_distinct(self, first: int)
        requires
            self.well_formed(),
            self.ids_from(first),
            self.id < first,
        ensures
            forall|i: int|
                0 <= i < self.rooms_of().len() ==> (#[trigger] self.rooms_of()[i]).1 == self.id
                    || first <= self.rooms_of()[i].1 < first + self.descendants(),
            forall|i: int, j: int|
                0 <= i < j < self.rooms_of().len() ==> (#[trigger] self.rooms_of()[i]).1 != (
                #[trigger] self.rooms_of()[j]).1,
        decreases self,
    {
        match (self.left, self.right) {
            (Some(l), Some(r)) => {
                l.lemma_room_ids_distinct(first + 2);
                r.lemma_room_ids_distinct(first + 2 + l.descendants());
                let a = l.rooms_of();
                let b = r.rooms_of();
                assert(self.rooms_of() =~= a + b);
                assert forall|i: int| 0 <= i < self.rooms_of().len() implies (
                #[trigger] self.rooms_of()[i]).1 == self.id || first <= self.rooms_of()[i].1 < first
                    + self.descendants() by {
                    if i < a.len() {
                        assert(self.rooms_of()[i] == a[i]);
                    } else {
                        assert(self.rooms_of()[i] == b[i - a.len()]);
                    }
                }
                assert forall|i: int, j: int| 0 <= i < j < self.rooms_of().len() implies (
                #[trigger] self.rooms_of()[i]).1 != (#[trigger] self.rooms_of()[j]).1 by {
                    if i < a.len() {
                        assert(self.rooms_of()[i] == a[i]);
                    } else {
                        assert(self.rooms_of()[i] == b[i - a.len()]);
                    }
                    if j < a.len() {
                        assert(self.rooms_of()[j] == a[j]);
                    } else {
                        assert(self.rooms_of()[j] == b[j - a.len()]);
                    }
                }
            },
            _ => {
                assert(self.rooms_of().len() <= 1);
            },
        }
    }
}

} // verus!
