//! Light around a player: which cells are lit, how brightly, and what is
//! in the line of sight.

use crate::grid::CoordSet;
use crate::map::{in_bounds, painted, GameMap, GameMapView};
use crate::tile::Tile;
use vstd::arithmetic::div_mod::{lemma_div_is_ordered, lemma_multiply_divide_lt};
use vstd::prelude::*;

verus! {

/// Full brightness; brightness is counted in millionths.
pub const FULL_BRIGHTNESS: u32 = 1_000_000;

/// The brightness at which a cell that is remembered is drawn.
pub const REMEMBERED_BRIGHTNESS: u32 = 300_000;

/// How brightly a cell is lit, in millionths, from 0 to `FULL_BRIGHTNESS`.
#[derive(Debug, Clone, Copy, PartialEq, Eq, Structural)]
pub struct LightLevel {
    pub brightness: u32,
}

impl LightLevel {
    /// The level of the given brightness, or of full brightness if that
    /// is less.
    pub fn new(brightness: u32) -> (level: LightLevel)
        ensures
            level.brightness == if brightness <= FULL_BRIGHTNESS {
                brightness
            } else {
                FULL_BRIGHTNESS
            },
    {
        LightLevel {
            brightness: if brightness <= FULL_BRIGHTNESS {
                brightness
            } else {
                FULL_BRIGHTNESS
            },
        }
    }

    pub fn dark() -> (level: LightLevel)
        ensures
            level.brightness == 0,
    {
        LightLevel { brightness: 0 }
    }

    pub fn bright() -> (level: LightLevel)
        ensures
            level.brightness == FULL_BRIGHTNESS,
    {
        LightLevel { brightness: FULL_BRIGHTNESS }
    }
}

/// How a cell is drawn.
#[derive(Debug, Clone, Copy, PartialEq, Eq, Structural)]
pub enum TileVisibility {
    /// Never seen: not drawn.
    Hidden,
    /// Seen before, out of the light now: drawn dimly.
    Remembered,
    /// In the light.
    Lit(LightLevel),
}

impl TileVisibility {
    /// The brightness at which the cell is drawn, in millionths: nothing
    /// for a hidden cell, three tenths for a remembered one, and between
    /// a half and one for a lit one.
    pub fn get_brightness(&self) -> (brightness: u32)
        ensures
            brightness == match *self {
                TileVisibility::Hidden => 0,
                TileVisibility::Remembered => REMEMBERED_BRIGHTNESS as int,
                TileVisibility::Lit(level) => if level.brightness <= FULL_BRIGHTNESS {
                    500_000 + level.brightness / 2
                } else {
                    FULL_BRIGHTNESS as int
                },
            },
    {
        match self {
            TileVisibility::Hidden => 0,
            TileVisibility::Remembered => REMEMBERED_BRIGHTNESS,
            TileVisibility::Lit(level) => if level.brightness <= FULL_BRIGHTNESS {
                500_000 + level.brightness / 2
            } else {
                FULL_BRIGHTNESS
            },
        }
    }

    /// True unless the cell is hidden.
    pub fn is_visible(&self) -> (visible: bool)
        ensures
            visible == !(*self is Hidden),
    {
        match self {
            TileVisibility::Hidden => false,
            _ => true,
        }
    }
}

/// The size of a number, whatever its sign.
pub open spec fn span(a: int, b: int) -> int {
    if b >= a {
        b - a
    } else {
        a - b
    }
}

/// The number `k` steps from `a` in the direction of `b`.
pub open spec fn toward(a: int, b: int, k: int) -> int {
    if b >= a {
        a + k
    } else {
        a - k
    }
}

/// The number of steps of the line between two cells: the longer of
/// its extents along the axes.
pub open spec fn line_steps(from: (int, int), to: (int, int)) -> int {
    if span(from.0, to.0) >= span(from.1, to.1) {
        span(from.0, to.0)
    } else {
        span(from.1, to.1)
    }
}

/// The cell of the line from `from` to `to` after `i` steps: one step
/// along the longer extent each time, and along the other the nearest
/// whole number of steps, halves rounded up.
pub open spec fn line_point(from: (int, int), to: (int, int), i: int) -> (int, int) {
    let ax = span(from.0, to.0);
    let ay = span(from.1, to.1);
    let n = line_steps(from, to);
    if n == 0 {
        from
    } else if ax >= ay {
        (toward(from.0, to.0, i), toward(from.1, to.1, (2 * i * ay + n) / (2 * n)))
    } else {
        (toward(from.0, to.0, (2 * i * ax + n) / (2 * n)), toward(from.1, to.1, i))
    }
}

/// The cell stops the light: a wall, a mountain, a tree, or a door that
/// is not opened.
pub open spec fn obstructs(map: GameMapView, opened: Set<(int, int)>, p: (int, int)) -> bool {
    ||| map.holds(p, Tile::Wall)
    ||| map.holds(p, Tile::Mountain)
    ||| map.holds(p, Tile::Tree)
    ||| (map.holds(p, Tile::Door) && !opened.contains(p))
}

/// No cell of the line strictly between the two cells stops the light.
pub open spec fn sight_clear(
    map: GameMapView,
    opened: Set<(int, int)>,
    from: (int, int),
    to: (int, int),
) -> bool {
    forall|i: int|
        0 < i < line_steps(from, to) ==> !obstructs(map, opened, #[trigger] line_point(from, to, i))
}

/// The square of the distance between two cells.
pub open spec fn distance_squared(from: (int, int), to: (int, int)) -> int {
    span(from.0, to.0) * span(from.0, to.0) + span(from.1, to.1) * span(from.1, to.1)
}

/// `r` is the square root of `n`, rounded down.
pub open spec fn is_floor_sqrt(n: int, r: int) -> bool {
    0 <= r && r * r <= n < (r + 1) * (r + 1)
}

/// The square root of `n`, rounded down.
pub open spec fn floor_sqrt(n: int) -> int {
    choose|r: int| is_floor_sqrt(n, r)
}

/// Only one number is the rounded-down square root of `n`.
pub proof fn lemma_floor_sqrt_unique(n: int, r: int)
    requires
        is_floor_sqrt(n, r),
    ensures
        floor_sqrt(n) == r,
{
    let s = floor_sqrt(n);
    assert(is_floor_sqrt(n, s));
    if s < r {
        assert((s + 1) * (s + 1) <= r * r) by (nonlinear_arith)
            requires
                0 <= s + 1 <= r,
        ;
    }
    if r < s {
        assert((r + 1) * (r + 1) <= s * s) by (nonlinear_arith)
            requires
                0 <= r + 1 <= s,
        ;
    }
}

/// The brightness, in millionths, of a cell whose distance from the
/// light has the square `dist_sq`: full within one step, nothing at the
/// radius and beyond, and in between the square of one minus the
/// distance over the radius.
pub open spec fn brightness_at(dist_sq: int, radius: int) -> int {
    if dist_sq <= 1 {
        FULL_BRIGHTNESS as int
    } else if radius <= 0 || dist_sq >= radius * radius {
        0
    } else {
        let distance = floor_sqrt(dist_sq * 1_000_000_000_000);
        let falloff = 1_000_000 - distance / radius;
        falloff * falloff / 1_000_000
    }
}

/// A cell whose distance from the light has the square `dist_sq` is
/// brighter than a tenth: it is within one step, or the square of one
/// minus the distance over the radius is above a tenth. With `q` the
/// square of the radius that is `(11 q - 10 dist_sq)^2 > 40 q^2`, no
/// rounding in it.
pub open spec fn bright_enough(dist_sq: int, radius: int) -> bool {
    dist_sq <= 1 || (radius > 0 && dist_sq < radius * radius && (11 * (radius * radius) - 10
        * dist_sq) * (11 * (radius * radius) - 10 * dist_sq) > 40 * ((radius * radius) * (radius
        * radius)))
}

/// The cell is lit by a light of the given radius at `light`: it is on
/// the map, no farther than the radius, in the line of sight, and
/// brighter than a tenth.
pub open spec fn lit(
    map: GameMapView,
    opened: Set<(int, int)>,
    light: (int, int),
    radius: int,
    p: (int, int),
) -> bool {
    &&& in_bounds(p, map.width, map.height)
    &&& span(light.0, p.0) <= radius
    &&& span(light.1, p.1) <= radius
    &&& distance_squared(light, p) <= radius * radius
    &&& sight_clear(map, opened, light, p)
    &&& bright_enough(distance_squared(light, p), radius)
}

/// The cells that the light reaches.
pub open spec fn lit_cells(
    map: GameMapView,
    opened: Set<(int, int)>,
    light: (int, int),
    radius: int,
) -> Set<(int, int)> {
    Set::new(|p: (int, int)| lit(map, opened, light, radius, p))
}

/// The square root of `n`, rounded down.
pub fn sqrt_floor(n: u128) -> (r: u64)
    requires
        n < 0x400_0000_0000_0000_0000_0000_0000u128,
    ensures
        r == floor_sqrt(n as int),
        is_floor_sqrt(n as int, r as int),
{
    let mut lo: u64 = 0;
    let mut hi: u64 = 0x20_0000_0000_0000u64;
    assert(0x20_0000_0000_0000u64 * 0x20_0000_0000_0000u64 == 0x400_0000_0000_0000_0000_0000_0000u128) by (nonlinear_arith);
    while hi - lo > 1
        invariant
            lo < hi <= 0x20_0000_0000_0000u64,
            lo * lo <= n < hi * hi,
        decreases hi - lo,
    {
        let mid: u64 = lo + (hi - lo) / 2;
        assert(mid * mid <= 0x20_0000_0000_0000u64 * 0x20_0000_0000_0000u64) by (nonlinear_arith)
            requires
                0 <= mid <= 0x20_0000_0000_0000u64,
        ;
        let square: u128 = (mid as u128) * (mid as u128);
        if square <= n {
            lo = mid;
        } else {
            hi = mid;
        }
    }
    proof {
        assert(hi == lo + 1);
        lemma_floor_sqrt_unique(n as int, lo as int);
    }
    lo
}

fn span_of(a: i32, b: i32) -> (d: u64)
    ensures
        d == span(a as int, b as int),
        d <= 0xFFFF_FFFFu64,
{
    if b >= a {
        (b as i64 - a as i64) as u64
    } else {
        (a as i64 - b as i64) as u64
    }
}

fn step_toward(a: i32, b: i32, k: u64) -> (c: i32)
    requires
        k <= span(a as int, b as int),
    ensures
        c == toward(a as int, b as int, k as int),
{
    if b >= a {
        (a as i64 + k as i64) as i32
    } else {
        (a as i64 - k as i64) as i32
    }
}

fn square_sum(ax: u64, ay: u64) -> (d: u128)
    requires
        ax <= 0xFFFF_FFFFu64,
        ay <= 0xFFFF_FFFFu64,
    ensures
        d == ax * ax + ay * ay,
{
    assert(ax * ax <= 0xFFFF_FFFFu64 * 0xFFFF_FFFFu64) by (nonlinear_arith)
        requires
            ax <= 0xFFFF_FFFFu64,
    ;
    assert(ay * ay <= 0xFFFF_FFFFu64 * 0xFFFF_FFFFu64) by (nonlinear_arith)
        requires
            ay <= 0xFFFF_FFFFu64,
    ;
    (ax as u128) * (ax as u128) + (ay as u128) * (ay as u128)
}

/// The brightness of a cell at a distance with the square `dist_sq` from
/// a light of the given radius.
pub fn calculate_brightness(dist_sq: u128, radius: i32) -> (brightness: u32)
    ensures
        brightness == brightness_at(dist_sq as int, radius as int),
        brightness <= FULL_BRIGHTNESS,
{
    if dist_sq <= 1 {
        return FULL_BRIGHTNESS;
    }
    if radius <= 0 {
        return 0;
    }
    let r: u64 = radius as u64;
    assert(r * r <= 0x7FFF_FFFFu64 * 0x7FFF_FFFFu64) by (nonlinear_arith)
        requires
            r <= 0x7FFF_FFFFu64,
    ;
    let r_sq: u128 = (r * r) as u128;
    if dist_sq >= r_sq {
        return 0;
    }
    let scaled: u128 = dist_sq * 1_000_000_000_000u128;
    let distance: u64 = sqrt_floor(scaled);
    proof {
        let bound = r * 1_000_000;
        assert(bound * bound == r * r * 1_000_000_000_000) by (nonlinear_arith)
            requires
                bound == r * 1_000_000,
        ;
        if distance >= bound {
            assert(distance * distance >= bound * bound) by (nonlinear_arith)
                requires
                    distance >= bound >= 0,
            ;
        }
        assert(distance < r * 1_000_000);
        lemma_multiply_divide_lt(distance as int, r as int, 1_000_000);
    }
    let ratio: u64 = distance / r;
    let falloff: u64 = 1_000_000 - ratio;
    assert(falloff * falloff <= 1_000_000 * 1_000_000) by (nonlinear_arith)
        requires
            0 <= falloff <= 1_000_000,
    ;
    let brightness: u64 = falloff * falloff / 1_000_000;
    brightness as u32
}

/// The cell of the line between two cells after `i` steps.
pub fn line_cell(x0: i32, y0: i32, x1: i32, y1: i32, i: u64) -> (cell: (i32, i32))
    requires
        i <= line_steps((x0 as int, y0 as int), (x1 as int, y1 as int)),
    ensures
        (cell.0 as int, cell.1 as int) == line_point(
            (x0 as int, y0 as int),
            (x1 as int, y1 as int),
            i as int,
        ),
{
    let ax: u64 = span_of(x0, x1);
    let ay: u64 = span_of(y0, y1);
    let wide = ax >= ay;
    let n: u64 = if wide {
        ax
    } else {
        ay
    };
    let minor: u64 = if wide {
        ay
    } else {
        ax
    };
    if n == 0 {
        return (x0, y0);
    }
    let ghost product = i * minor;
    proof {
        assert(product <= n * minor) by (nonlinear_arith)
            requires
                product == i * minor,
                i <= n,
                0 <= minor,
        ;
        assert(n * minor <= 0xFFFF_FFFF * 0xFFFF_FFFF) by (nonlinear_arith)
            requires
                0 <= minor <= n <= 0xFFFF_FFFF,
        ;
        assert((2 * n) * (minor + 1) == 2 * (n * minor) + 2 * n) by (nonlinear_arith);
        assert(2 * i * minor == 2 * product) by (nonlinear_arith)
            requires
                product == i * minor,
        ;
    }
    let twice: u128 = 2 * ((i as u128) * (minor as u128));
    let acc: u128 = twice + n as u128;
    proof {
        assert(acc < (2 * n) * (minor + 1));
        lemma_multiply_divide_lt(acc as int, 2 * n, minor + 1);
    }
    let offset: u64 = (acc / (2 * (n as u128))) as u64;
    if wide {
        (step_toward(x0, x1, i), step_toward(y0, y1, offset))
    } else {
        (step_toward(x0, x1, offset), step_toward(y0, y1, i))
    }
}

/// The number of steps of the line between two cells.
pub fn line_length(x0: i32, y0: i32, x1: i32, y1: i32) -> (n: u64)
    ensures
        n == line_steps((x0 as int, y0 as int), (x1 as int, y1 as int)),
        n <= 0xFFFF_FFFFu64,
{
    let ax: u64 = span_of(x0, x1);
    let ay: u64 = span_of(y0, y1);
    if ax >= ay {
        ax
    } else {
        ay
    }
}

/// True when a cell at a distance with the square `dist_sq` from a light
/// of the given radius is brighter than a tenth.
pub fn is_bright_enough(dist_sq: u128, radius: i32) -> (bright: bool)
    requires
        dist_sq <= 0x2_0000_0000_0000_0000u128,
    ensures
        bright == bright_enough(dist_sq as int, radius as int),
{
    if dist_sq <= 1 {
        return true;
    }
    if radius <= 0 {
        return false;
    }
    let r: u128 = radius as u128;
    assert(r * r <= 0x7FFF_FFFF * 0x7FFF_FFFF) by (nonlinear_arith)
        requires
            0 <= r <= 0x7FFF_FFFF,
    ;
    let q: u128 = r * r;
    if dist_sq >= q {
        return false;
    }
    let a: u128 = 11 * q - 10 * dist_sq;
    let k: u128 = a / q;
    let rem: u128 = a % q;
    proof {
        vstd::arithmetic::div_mod::lemma_fundamental_div_mod(a as int, q as int);
        assert(a == q * k + rem);
        assert(0 <= rem < q);
    }
    if k >= 7 {
        proof {
            assert(q * k >= q * 7) by (nonlinear_arith)
                requires
                    k >= 7,
                    q > 0,
            ;
            assert(a * a > 40 * (q * q)) by (nonlinear_arith)
                requires
                    a >= 7 * q,
                    q > 0,
            ;
        }
        return true;
    }
    if k <= 5 {
        proof {
            assert(q * k <= q * 5) by (nonlinear_arith)
                requires
                    0 <= k <= 5,
                    q > 0,
            ;
            assert(a * a <= 40 * (q * q)) by (nonlinear_arith)
                requires
                    0 <= a < 6 * q,
                    q > 0,
            ;
        }
        return false;
    }
    proof {
        assert(k == 6);
        assert(q * k == 6 * q) by (nonlinear_arith)
            requires
                k == 6,
        ;
        assert(a * a == 36 * (q * q) + 12 * (q * rem) + rem * rem) by (nonlinear_arith)
            requires
                a == 6 * q + rem,
        ;
        assert(q * rem <= 0x3FFF_FFFF_0000_0001 * 0x3FFF_FFFF_0000_0001) by (nonlinear_arith)
            requires
                0 <= rem < q,
                q <= 0x3FFF_FFFF_0000_0001,
        ;
        assert(rem * rem <= 0x3FFF_FFFF_0000_0001 * 0x3FFF_FFFF_0000_0001) by (nonlinear_arith)
            requires
                0 <= rem <= 0x3FFF_FFFF_0000_0001,
        ;
        assert(q * q <= 0x3FFF_FFFF_0000_0001 * 0x3FFF_FFFF_0000_0001) by (nonlinear_arith)
            requires
                0 <= q <= 0x3FFF_FFFF_0000_0001,
        ;
    }
    12 * (q * rem) + rem * rem > 4 * (q * q)
}

impl GameMap {
    /// True when `(x, y)` stops the light.
    fn obstructs_at(&self, opened: &CoordSet, x: i32, y: i32) -> (stops: bool)
        ensures
            stops == obstructs(self@, opened@, (x as int, y as int)),
    {
        match self.tile(x, y) {
            Some(Tile::Wall) | Some(Tile::Mountain) | Some(Tile::Tree) => true,
            Some(Tile::Door) => !opened.contains(x, y),
            _ => false,
        }
    }

    /// True when no cell of the line strictly between the two cells
    /// stops the light: walls, mountains, trees and doors that are not
    /// among `opened` do.
    pub fn has_line_of_sight_with_doors(
        &self,
        x0: i32,
        y0: i32,
        x1: i32,
        y1: i32,
        opened: &CoordSet,
    ) -> (clear: bool)
        ensures
            clear == sight_clear(
                self@,
                opened@,
                (x0 as int, y0 as int),
                (x1 as int, y1 as int),
            ),
    {
        let ghost from = (x0 as int, y0 as int);
        let ghost to = (x1 as int, y1 as int);
        let n: u64 = line_length(x0, y0, x1, y1);
        let mut i: u64 = 1;
        while i < n
            invariant
                1 <= i,
                n == line_steps(from, to),
                from == (x0 as int, y0 as int),
                to == (x1 as int, y1 as int),
                forall|j: int|
                    0 < j < i ==> !obstructs(self@, opened@, #[trigger] line_point(from, to, j)),
            decreases n - i,
        {
            let (x, y) = line_cell(x0, y0, x1, y1, i);
            if self.obstructs_at(opened, x, y) {
                return false;
            }
            i = i + 1;
        }
        true
    }

    /// True when `(x, y)` was in the light when the light was last
    /// updated.
    pub fn is_visible(&self, x: i32, y: i32) -> (visible: bool)
        ensures
            visible == (self@.visible_tiles.contains_key((x as int, y as int))
                && self@.visible_tiles[(x as int, y as int)]),
    {
        match self.visible_tiles.get(x, y) {
            Some(v) => *v,
            None => false,
        }
    }

    /// True when `(x, y)` has ever been in the light.
    pub fn is_explored(&self, x: i32, y: i32) -> (explored: bool)
        ensures
            explored == (self@.explored_tiles.contains_key((x as int, y as int))
                && self@.explored_tiles[(x as int, y as int)]),
    {
        match self.explored_tiles.get(x, y) {
            Some(v) => *v,
            None => false,
        }
    }

    /// True when the cell is drawn: it is in the light or has been.
    pub fn should_render_tile(&self, x: i32, y: i32) -> (drawn: bool)
        ensures
            drawn == ((self@.visible_tiles.contains_key((x as int, y as int))
                && self@.visible_tiles[(x as int, y as int)]) || (self@.explored_tiles.contains_key(
                (x as int, y as int),
            ) && self@.explored_tiles[(x as int, y as int)])),
    {
        self.is_visible(x, y) || self.is_explored(x, y)
    }

    /// True when the light at the given cell reaches `(x, y)`.
    fn lit_at(&self, light_x: i32, light_y: i32, radius: i32, opened: &CoordSet, x: i32, y: i32) -> (reached:
        bool)
        requires
            radius >= 0,
        ensures
            reached == lit(
                self@,
                opened@,
                (light_x as int, light_y as int),
                radius as int,
                (x as int, y as int),
            ),
    {
        if x < 0 || y < 0 || x >= self.width || y >= self.height {
            return false;
        }
        let ax: u64 = span_of(light_x, x);
        let ay: u64 = span_of(light_y, y);
        let r: u64 = radius as u64;
        if ax > r || ay > r {
            return false;
        }
        assert(r * r <= 0x7FFF_FFFFu64 * 0x7FFF_FFFFu64) by (nonlinear_arith)
            requires
                r <= 0x7FFF_FFFFu64,
        ;
        let dist_sq = square_sum(ax, ay);
        if dist_sq > (r * r) as u128 {
            return false;
        }
        if !self.has_line_of_sight_with_doors(light_x, light_y, x, y, opened) {
            return false;
        }
        is_bright_enough(dist_sq, radius)
    }

    /// Moves the light to the player: the cells that it reaches become
    /// the visible ones, and are explored from now on.
    pub fn update_lighting_with_doors(
        &mut self,
        player_x: i32,
        player_y: i32,
        light_radius: i32,
        opened_doors: &CoordSet,
    )
        ensures
            final(self)@ == (GameMapView {
                visible_tiles: painted(
                    Map::<(int, int), bool>::empty(),
                    lit_cells(
                        old(self)@,
                        opened_doors@,
                        (player_x as int, player_y as int),
                        light_radius as int,
                    ),
                    true,
                ),
                explored_tiles: painted(
                    old(self)@.explored_tiles,
                    lit_cells(
                        old(self)@,
                        opened_doors@,
                        (player_x as int, player_y as int),
                        light_radius as int,
                    ),
                    true,
                ),
                ..old(self)@
            }),
    {
        let ghost start = self@;
        let ghost light = (player_x as int, player_y as int);
        let ghost reach = lit_cells(start, opened_doors@, light, light_radius as int);
        self.visible_tiles.clear();
        if light_radius < 0 {
            assert(reach =~= Set::<(int, int)>::empty());
            assert(self@.visible_tiles =~= painted(Map::<(int, int), bool>::empty(), reach, true));
            assert(self@.explored_tiles =~= painted(start.explored_tiles, reach, true));
            return ;
        }
        let r: i64 = light_radius as i64;
        let mut dx: i64 = -r;
        assert(self@.visible_tiles =~= painted(
            Map::<(int, int), bool>::empty(),
            reach.filter(|p: (int, int)| p.0 - light.0 < dx),
            true,
        ));
        assert(self@.explored_tiles =~= painted(
            start.explored_tiles,
            reach.filter(|p: (int, int)| p.0 - light.0 < dx),
            true,
        ));
        while dx <= r
            invariant
                0 <= r == light_radius,
                -r <= dx <= r + 1,
                light == (player_x as int, player_y as int),
                reach == lit_cells(start, opened_doors@, light, light_radius as int),
                self@ == (GameMapView {
                    visible_tiles: self@.visible_tiles,
                    explored_tiles: self@.explored_tiles,
                    ..start
                }),
                self@.visible_tiles == painted(
                    Map::<(int, int), bool>::empty(),
                    reach.filter(|p: (int, int)| p.0 - light.0 < dx),
                    true,
                ),
                self@.explored_tiles == painted(
                    start.explored_tiles,
                    reach.filter(|p: (int, int)| p.0 - light.0 < dx),
                    true,
                ),
            decreases r + 1 - dx,
        {
            let mut dy: i64 = -r;
            assert(self@.visible_tiles =~= painted(
                Map::<(int, int), bool>::empty(),
                reach.filter(
                    |p: (int, int)|
                        p.0 - light.0 < dx || (p.0 - light.0 == dx && p.1 - light.1 < dy),
                ),
                true,
            ));
            assert(self@.explored_tiles =~= painted(
                start.explored_tiles,
                reach.filter(
                    |p: (int, int)|
                        p.0 - light.0 < dx || (p.0 - light.0 == dx && p.1 - light.1 < dy),
                ),
                true,
            ));
            while dy <= r
                invariant
                    0 <= r == light_radius,
                    -r <= dx <= r,
                    -r <= dy <= r + 1,
                    light == (player_x as int, player_y as int),
                    reach == lit_cells(start, opened_doors@, light, light_radius as int),
                    self@ == (GameMapView {
                        visible_tiles: self@.visible_tiles,
                        explored_tiles: self@.explored_tiles,
                        ..start
                    }),
                    self@.visible_tiles == painted(
                        Map::<(int, int), bool>::empty(),
                        reach.filter(
                            |p: (int, int)|
                                p.0 - light.0 < dx || (p.0 - light.0 == dx && p.1 - light.1 < dy),
                        ),
                        true,
                    ),
                    self@.explored_tiles == painted(
                        start.explored_tiles,
                        reach.filter(
                            |p: (int, int)|
                                p.0 - light.0 < dx || (p.0 - light.0 == dx && p.1 - light.1 < dy),
                        ),
                        true,
                    ),
                decreases r + 1 - dy,
            {
                let x: i64 = player_x as i64 + dx;
                let y: i64 = player_y as i64 + dy;
                let ghost here = (x as int, y as int);
                if 0 <= x && x < self.width as i64 && 0 <= y && y < self.height as i64 {
                    let cx: i32 = x as i32;
                    let cy: i32 = y as i32;
                    assert(self@.tiles == start.tiles);
                    let reached = self.lit_at(player_x, player_y, light_radius, opened_doors, cx, cy);
                    proof {
                        assert(sight_clear(self@, opened_doors@, light, here) == sight_clear(
                            start,
                            opened_doors@,
                            light,
                            here,
                        ));
                        assert(reached == reach.contains(here));
                    }
                    if reached {
                        self.visible_tiles.insert(cx, cy, true);
                        self.explored_tiles.insert(cx, cy, true);
                    }
                } else {
                    assert(!reach.contains(here));
                }
                dy = dy + 1;
                assert(self@.visible_tiles =~= painted(
                    Map::<(int, int), bool>::empty(),
                    reach.filter(
                        |p: (int, int)|
                            p.0 - light.0 < dx || (p.0 - light.0 == dx && p.1 - light.1 < dy),
                    ),
                    true,
                ));
                assert(self@.explored_tiles =~= painted(
                    start.explored_tiles,
                    reach.filter(
                        |p: (int, int)|
                            p.0 - light.0 < dx || (p.0 - light.0 == dx && p.1 - light.1 < dy),
                    ),
                    true,
                ));
            }
            dx = dx + 1;
            assert(self@.visible_tiles =~= painted(
                Map::<(int, int), bool>::empty(),
                reach.filter(|p: (int, int)| p.0 - light.0 < dx),
                true,
            ));
            assert(self@.explored_tiles =~= painted(
                start.explored_tiles,
                reach.filter(|p: (int, int)| p.0 - light.0 < dx),
                true,
            ));
        }
        assert(self@.visible_tiles =~= painted(Map::<(int, int), bool>::empty(), reach, true));
        assert(self@.explored_tiles =~= painted(start.explored_tiles, reach, true));
    }

    /// Moves the light to the player, with every door closed.
    pub fn update_lighting(&mut self, player_x: i32, player_y: i32, light_radius: i32)
        ensures
            final(self)@ == (GameMapView {
                visible_tiles: painted(
                    Map::<(int, int), bool>::empty(),
                    lit_cells(
                        old(self)@,
                        Set::<(int, int)>::empty(),
                        (player_x as int, player_y as int),
                        light_radius as int,
                    ),
                    true,
                ),
                explored_tiles: painted(
                    old(self)@.explored_tiles,
                    lit_cells(
                        old(self)@,
                        Set::<(int, int)>::empty(),
                        (player_x as int, player_y as int),
                        light_radius as int,
                    ),
                    true,
                ),
                ..old(self)@
            }),
    {
        let none = CoordSet::new();
        self.update_lighting_with_doors(player_x, player_y, light_radius, &none);
    }

    /// How brightly the light of the player reaches `(x, y)`: the
    /// brightness by distance where the cell is within the radius and in
    /// the line of sight, nothing elsewhere.
    pub fn get_light_level_with_doors(
        &self,
        player_x: i32,
        player_y: i32,
        x: i32,
        y: i32,
        light_radius: i32,
        opened_doors: &CoordSet,
    ) -> (level: LightLevel)
        ensures
            level.brightness == light_at(
                self@,
                opened_doors@,
                (player_x as int, player_y as int),
                light_radius as int,
                (x as int, y as int),
            ),
    {
        if light_radius < 0 {
            return LightLevel::dark();
        }
        let ax: u64 = span_of(player_x, x);
        let ay: u64 = span_of(player_y, y);
        let r: u64 = light_radius as u64;
        assert(r * r <= 0x7FFF_FFFFu64 * 0x7FFF_FFFFu64) by (nonlinear_arith)
            requires
                r <= 0x7FFF_FFFFu64,
        ;
        let dist_sq = square_sum(ax, ay);
        if dist_sq <= (r * r) as u128 && self.has_line_of_sight_with_doors(
            player_x,
            player_y,
            x,
            y,
            opened_doors,
        ) {
            LightLevel::new(calculate_brightness(dist_sq, light_radius))
        } else {
            LightLevel::dark()
        }
    }

    /// How brightly the light of the player reaches `(x, y)`, with every
    /// door closed.
    pub fn get_light_level(&self, player_x: i32, player_y: i32, x: i32, y: i32, light_radius: i32) -> (level:
        LightLevel)
        ensures
            level.brightness == light_at(
                self@,
                Set::<(int, int)>::empty(),
                (player_x as int, player_y as int),
                light_radius as int,
                (x as int, y as int),
            ),
    {
        let none = CoordSet::new();
        self.get_light_level_with_doors(player_x, player_y, x, y, light_radius, &none)
    }

    /// How the cell is drawn: lit, with its light level, if it was in the
    /// light at the last update; remembered if it has been in the light;
    /// else hidden.
    pub fn get_tile_visibility_state_with_doors(
        &self,
        player_x: i32,
        player_y: i32,
        x: i32,
        y: i32,
        light_radius: i32,
        opened_doors: &CoordSet,
    ) -> (state: TileVisibility)
        ensures
            state == drawn_as(
                self@,
                opened_doors@,
                (player_x as int, player_y as int),
                light_radius as int,
                (x as int, y as int),
            ),
    {
        if self.is_visible(x, y) {
            TileVisibility::Lit(
                self.get_light_level_with_doors(player_x, player_y, x, y, light_radius, opened_doors),
            )
        } else if self.is_explored(x, y) {
            TileVisibility::Remembered
        } else {
            TileVisibility::Hidden
        }
    }

    /// How the cell is drawn, with every door closed.
    pub fn get_tile_visibility_state(
        &self,
        player_x: i32,
        player_y: i32,
        x: i32,
        y: i32,
        light_radius: i32,
    ) -> (state: TileVisibility)
        ensures
            state == drawn_as(
                self@,
                Set::<(int, int)>::empty(),
                (player_x as int, player_y as int),
                light_radius as int,
                (x as int, y as int),
            ),
    {
        let none = CoordSet::new();
        self.get_tile_visibility_state_with_doors(player_x, player_y, x, y, light_radius, &none)
    }
}

/// The brightness with which a light reaches a cell.
pub open spec fn light_at(
    map: GameMapView,
    opened: Set<(int, int)>,
    light: (int, int),
    radius: int,
    p: (int, int),
) -> int {
    if radius >= 0 && distance_squared(light, p) <= radius * radius && sight_clear(
        map,
        opened,
        light,
        p,
    ) {
        brightness_at(distance_squared(light, p), radius)
    } else {
        0
    }
}

/// How a cell is drawn.
pub open spec fn drawn_as(
    map: GameMapView,
    opened: Set<(int, int)>,
    light: (int, int),
    radius: int,
    p: (int, int),
) -> TileVisibility {
    if map.visible_tiles.contains_key(p) && map.visible_tiles[p] {
        TileVisibility::Lit(LightLevel { brightness: light_at(map, opened, light, radius, p) as u32 })
    } else if map.explored_tiles.contains_key(p) && map.explored_tiles[p] {
        TileVisibility::Remembered
    } else {
        TileVisibility::Hidden
    }
}

} // verus!
