//! A picture of a dungeon: one pixel for each cell.

use crate::map::{in_bounds, GameMap, GameMapView};
use crate::rooms::precedes;
use crate::tile::Tile;
use vstd::prelude::*;

verus! {

/// A picture in memory: an RGB image buffer of the `image` crate.
#[verifier::external_body]
pub struct Picture {
    buffer: image::RgbImage,
}

/// The colors of the pixels of a picture, by column and row.
pub uninterp spec fn picture_pixels(picture: Picture) -> Map<(int, int), (u8, u8, u8)>;

/// The width and the height of a picture.
pub uninterp spec fn picture_size(picture: Picture) -> (int, int);

/// The channel `c` of a color: red, green or blue.
pub open spec fn channel(color: (u8, u8, u8), c: int) -> u8 {
    if c == 0 {
        color.0
    } else if c == 1 {
        color.1
    } else {
        color.2
    }
}

/// Calls `ImageBuffer::new` of the `image` crate, which allocates a
/// buffer of three bytes for each pixel, all of them zero, and panics if
/// the number of bytes does not fit a vector: the picture has the given
/// size and all its pixels are black.
#[verifier::external_body]
fn new_picture(width: u32, height: u32) -> (picture: Picture)
    requires
        3 * width * height <= isize::MAX,
    ensures
        picture_size(picture) == (width as int, height as int),
        forall|p: (int, int)|
            #[trigger] picture_pixels(picture).contains_key(p) <==> in_bounds(
                p,
                width as int,
                height as int,
            ),
        forall|p: (int, int)|
            in_bounds(p, width as int, height as int) ==> #[trigger] picture_pixels(picture)[p] == (
                0u8,
                0u8,
                0u8,
            ),
{
    Picture { buffer: image::RgbImage::new(width, height) }
}

/// Calls `ImageBuffer::put_pixel` of the `image` crate, which panics for
/// a place outside the picture and else writes the three channels of the
/// pixel at that place: that pixel has the given color afterwards, and
/// nothing else has changed.
#[verifier::external_body]
fn put_picture_pixel(picture: &mut Picture, x: u32, y: u32, color: (u8, u8, u8))
    requires
        x < picture_size(*old(picture)).0,
        y < picture_size(*old(picture)).1,
    ensures
        picture_size(*final(picture)) == picture_size(*old(picture)),
        picture_pixels(*final(picture)) == picture_pixels(*old(picture)).insert(
            (x as int, y as int),
            color,
        ),
{
    picture.buffer.put_pixel(x, y, image::Rgb([color.0, color.1, color.2]));
}

/// Calls `ImageBuffer::into_raw` of the `image` crate, which hands out
/// the buffer of the picture: three bytes for each pixel, red, green and
/// blue, the pixels row by row.
#[verifier::external_body]
fn picture_bytes(picture: Picture) -> (bytes: Vec<u8>)
    ensures
        bytes@.len() == 3 * picture_size(picture).0 * picture_size(picture).1,
        forall|p: (int, int), c: int|
            in_bounds(p, picture_size(picture).0, picture_size(picture).1) && 0 <= c < 3
                ==> #[trigger] bytes@[3 * (p.1 * picture_size(picture).0 + p.0) + c] == channel(
                #[trigger] picture_pixels(picture)[p],
                c,
            ),
{
    picture.buffer.into_raw()
}

/// Draws dungeons.
pub struct DungeonVisualizer;

/// The color of a cell: by its tile, and for a floor of a room by the id
/// of the room; black for a void cell.
pub open spec fn cell_color(tile: Option<Tile>, room: Option<u32>) -> (u8, u8, u8) {
    match tile {
        None => (0u8, 0u8, 0u8),
        Some(Tile::Wall) => (64u8, 64u8, 64u8),
        Some(Tile::Floor) => match room {
            Some(id) => (
                ((id as int * 127) % 256) as u8,
                ((id as int * 191) % 256) as u8,
                ((id as int * 223) % 256) as u8,
            ),
            None => (200u8, 200u8, 200u8),
        },
        Some(Tile::Corridor) => (150u8, 150u8, 200u8),
        Some(Tile::Door) => (139u8, 69u8, 19u8),
        Some(Tile::DungeonExit) => (0u8, 255u8, 0u8),
        Some(_) => (255u8, 0u8, 0u8),
    }
}

/// The color of the cell `p` of a map.
pub open spec fn pixel(map: GameMapView, p: (int, int)) -> (u8, u8, u8) {
    cell_color(map.tile_at(p), map.room_at(p))
}

impl DungeonVisualizer {
    /// The color of a cell with the given tile and owner.
    pub fn tile_color(tile: Option<Tile>, room: Option<u32>) -> (color: (u8, u8, u8))
        ensures
            color == cell_color(tile, room),
    {
        match tile {
            None => (0, 0, 0),
            Some(Tile::Wall) => (64, 64, 64),
            Some(Tile::Floor) => match room {
                Some(id) => (
                    ((id as u64 * 127) % 256) as u8,
                    ((id as u64 * 191) % 256) as u8,
                    ((id as u64 * 223) % 256) as u8,
                ),
                None => (200, 200, 200),
            },
            Some(Tile::Corridor) => (150, 150, 200),
            Some(Tile::Door) => (139, 69, 19),
            Some(Tile::DungeonExit) => (0, 255, 0),
            Some(_) => (255, 0, 0),
        }
    }

    /// The picture of the map: as wide and as high as the map, each
    /// pixel in the color of its cell.
    pub fn dungeon_picture(dungeon: &GameMap) -> (picture: Picture)
        requires
            0 <= dungeon.width,
            0 <= dungeon.height,
            3 * dungeon.width * dungeon.height <= isize::MAX,
        ensures
            picture_size(picture) == (dungeon@.width, dungeon@.height),
            forall|p: (int, int)|
                #[trigger] picture_pixels(picture).contains_key(p) <==> in_bounds(
                    p,
                    dungeon@.width,
                    dungeon@.height,
                ),
            forall|p: (int, int)|
                in_bounds(p, dungeon@.width, dungeon@.height) ==> #[trigger] picture_pixels(
                    picture,
                )[p] == pixel(dungeon@, p),
    {
        let ghost w = dungeon.width as int;
        let ghost h = dungeon.height as int;
        let width: u32 = dungeon.width as u32;
        let height: u32 = dungeon.height as u32;
        let mut picture = new_picture(width, height);
        let mut y: i32 = 0;
        while y < dungeon.height
            invariant
                0 <= y <= dungeon.height,
                w == dungeon.width,
                h == dungeon.height,
                0 <= w,
                picture_size(picture) == (w, h),
                forall|p: (int, int)|
                    #[trigger] picture_pixels(picture).contains_key(p) <==> in_bounds(p, w, h),
                forall|p: (int, int)|
                    in_bounds(p, w, h) && p.1 < y ==> #[trigger] picture_pixels(picture)[p] == pixel(
                        dungeon@,
                        p,
                    ),
            decreases dungeon.height - y,
        {
            let mut x: i32 = 0;
            while x < dungeon.width
                invariant
                    0 <= y < dungeon.height,
                    0 <= x <= dungeon.width,
                    w == dungeon.width,
                    h == dungeon.height,
                    picture_size(picture) == (w, h),
                    forall|p: (int, int)|
                        #[trigger] picture_pixels(picture).contains_key(p) <==> in_bounds(p, w, h),
                    forall|p: (int, int)|
                        in_bounds(p, w, h) && precedes(p, (x as int, y as int))
                            ==> #[trigger] picture_pixels(picture)[p] == pixel(dungeon@, p),
                decreases dungeon.width - x,
            {
                let color = Self::tile_color(dungeon.tile(x, y), dungeon.room_id_at(x, y));
                put_picture_pixel(&mut picture, x as u32, y as u32, color);
                x = x + 1;
            }
            y = y + 1;
        }
        picture
    }

    /// The picture of the map as bytes: three for each cell, red, green
    /// and blue of its color, the cells row by row.
    pub fn dungeon_bitmap(dungeon: &GameMap) -> (bytes: Vec<u8>)
        requires
            0 <= dungeon.width,
            0 <= dungeon.height,
            3 * dungeon.width * dungeon.height <= isize::MAX,
        ensures
            bytes@.len() == 3 * dungeon.width * dungeon.height,
            forall|p: (int, int), c: int|
                in_bounds(p, dungeon@.width, dungeon@.height) && 0 <= c < 3 ==> #[trigger] bytes@[3
                    * (p.1 * dungeon.width + p.0) + c] == channel(#[trigger] pixel(dungeon@, p), c),
    {
        let picture = Self::dungeon_picture(dungeon);
        let bytes = picture_bytes(picture);
        proof {
            assert forall|p: (int, int), c: int|
                in_bounds(p, dungeon@.width, dungeon@.height) && 0 <= c < 3 implies #[trigger] bytes@[3
                * (p.1 * dungeon.width + p.0) + c] == channel(#[trigger] pixel(dungeon@, p), c) by {
                assert(picture_pixels(picture)[p] == pixel(dungeon@, p));
            }
        }
        bytes
    }
}

} // verus!
