//! Tiles, rectangles and rooms.

use vstd::prelude::*;

verus! {

/// What one cell of a level holds.
#[derive(Clone, Copy, Debug, PartialEq, Eq, Structural)]
pub enum Tile {
    Floor,
    Wall,
    Empty,
    Door,
    Corridor,
    Grass,
    Tree,
    Mountain,
    Water,
    Road,
    Village,
    DungeonEntrance,
    DungeonExit,
}

impl Tile {
    /// The glyph a terminal shows for the tile.
    pub fn to_char(self) -> (glyph: char)
        ensures
            glyph == self.glyph(),
    {
        match self {
            Tile::Floor => '.',
            Tile::Wall => '#',
            Tile::Empty => ' ',
            Tile::Door => '+',
            Tile::Corridor => ',',
            Tile::Grass => '"',
            Tile::Tree => 'T',
            Tile::Mountain => '^',
            Tile::Water => '~',
            Tile::Road => '=',
            Tile::Village => 'V',
            Tile::DungeonEntrance => 'D',
            Tile::DungeonExit => '<',
        }
    }

    pub open spec fn glyph(self) -> char {
        match self {
            Tile::Floor => '.',
            Tile::Wall => '#',
            Tile::Empty => ' ',
            Tile::Door => '+',
            Tile::Corridor => ',',
            Tile::Grass => '"',
            Tile::Tree => 'T',
            Tile::Mountain => '^',
            Tile::Water => '~',
            Tile::Road => '=',
            Tile::Village => 'V',
            Tile::DungeonEntrance => 'D',
            Tile::DungeonExit => '<',
        }
    }
}

/// The shape of a room.
#[derive(Clone, Copy, Debug, PartialEq, Eq, Structural)]
pub enum RoomType {
    Rectangle,
}

/// An axis-aligned rectangle of cells: `width` columns from `x`, `height`
/// rows from `y`.
#[derive(Clone, Copy, Debug, PartialEq, Eq, Structural)]
pub struct Rect {
    pub x: i32,
    pub y: i32,
    pub width: i32,
    pub height: i32,
}

impl Rect {
    /// True of the cells inside the rectangle.
    pub open spec fn covers(self, p: (int, int)) -> bool {
        self.x <= p.0 < self.x + self.width && self.y <= p.1 < self.y + self.height
    }

    /// True when the two rectangles share a cell's worth of area.
    pub open spec fn intersects(self, other: Rect) -> bool {
        self.x < other.x + other.width && self.x + self.width > other.x && self.y < other.y
            + other.height && self.y + self.height > other.y
    }

    /// True when at least `gap` columns or `gap` rows lie between the two.
    pub open spec fn apart(self, other: Rect, gap: int) -> bool {
        ||| self.x + self.width + gap <= other.x
        ||| other.x + other.width + gap <= self.x
        ||| self.y + self.height + gap <= other.y
        ||| other.y + other.height + gap <= self.y
    }

    /// True when `self` lies in `outer`, at least `margin` cells from each
    /// of its sides.
    pub open spec fn within(self, outer: Rect, margin: int) -> bool {
        &&& outer.x + margin <= self.x
        &&& self.x + self.width <= outer.x + outer.width - margin
        &&& outer.y + margin <= self.y
        &&& self.y + self.height <= outer.y + outer.height - margin
    }

    /// The cell at the middle of the rectangle.
    pub open spec fn center(self) -> (int, int) {
        (self.x + self.width / 2, self.y + self.height / 2)
    }
}

/// A room of a level.
#[derive(Debug)]
pub struct Room {
    pub x: i32,
    pub y: i32,
    pub width: i32,
    pub height: i32,
    pub id: u32,
    pub room_type: RoomType,
    pub is_illuminated: bool,
    pub connected_rooms: Vec<u32>,
}

impl Room {
    /// The cells of the room.
    pub open spec fn rect(self) -> Rect {
        Rect { x: self.x, y: self.y, width: self.width, height: self.height }
    }

    /// The room is dark and has no connections.
    pub open spec fn fresh(self) -> bool {
        &&& self.room_type == RoomType::Rectangle
        &&& !self.is_illuminated
        &&& self.connected_rooms@ == Seq::<u32>::empty()
    }

    /// A room over `rect`, dark and with no connections yet.
    pub fn new(rect: Rect, id: u32) -> (room: Room)
        ensures
            room.rect() == rect,
            room.id == id,
            room.fresh(),
    {
        Room {
            x: rect.x,
            y: rect.y,
            width: rect.width,
            height: rect.height,
            id,
            room_type: RoomType::Rectangle,
            is_illuminated: false,
            connected_rooms: Vec::new(),
        }
    }

    /// The room's rectangle.
    pub fn bounds(&self) -> (rect: Rect)
        ensures
            rect == self.rect(),
    {
        Rect { x: self.x, y: self.y, width: self.width, height: self.height }
    }
}

} // verus!
