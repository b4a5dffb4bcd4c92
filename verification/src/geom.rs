//! Points and rectangles in micro-unit coordinates.

use crate::num::{in_coord_range, MICRO};
use vstd::prelude::*;

verus! {

/// A 2-D point or offset, in micro-units.
#[derive(Clone, Copy, PartialEq, Eq, Structural, Debug)]
pub struct Vec2 {
    pub x: i64,
    pub y: i64,
}

impl View for Vec2 {
    type V = (int, int);

    open spec fn view(&self) -> (int, int) {
        (self.x as int, self.y as int)
    }
}

/// Whether both components of a pair are within the coordinate range.
pub open spec fn pair_in_range(p: (int, int)) -> bool {
    in_coord_range(p.0) && in_coord_range(p.1)
}

impl Vec2 {
    /// A point from its two components.
    pub fn new(x: i64, y: i64) -> (r: Self)
        ensures
            r@ == (x as int, y as int),
    {
        Vec2 { x, y }
    }

    /// The origin.
    pub fn origin() -> (r: Self)
        ensures
            r@ == (0int, 0int),
    {
        Vec2 { x: 0, y: 0 }
    }
}

/// An axis-aligned rectangle: top-left and bottom-right corner.
#[derive(Clone, Copy, PartialEq, Eq, Structural, Debug)]
pub struct Rect {
    pub tl: Vec2,
    pub br: Vec2,
}

/// Whether both corners are within the coordinate range.
pub open spec fn rect_in_range(r: Rect) -> bool {
    pair_in_range(r.tl@) && pair_in_range(r.br@)
}

/// A value scaled by a micro-unit factor, truncated toward zero.
pub open spec fn scaled(v: int, s: int) -> int {
    let m = ((vstd::math::abs(v) as int) * (vstd::math::abs(s) as int)) / (MICRO as int);
    if (v < 0) != (s < 0) {
        -m
    } else {
        m
    }
}

/// One coordinate scaled by a micro-unit factor.
fn scale_coord(v: i64, s: i64) -> (r: i64)
    requires
        in_coord_range(v as int),
        -1_000_000_000 <= s <= 1_000_000_000,
    ensures
        r as int == scaled(v as int, s as int),
{
    let mv: u64 = if v < 0 {
        (-v) as u64
    } else {
        v as u64
    };
    let ms: u64 = if s < 0 {
        (-s) as u64
    } else {
        s as u64
    };
    proof {
        assert(mv as int == vstd::math::abs(v as int));
        assert(ms as int == vstd::math::abs(s as int));
        assert(mv as int * ms as int <= 2_000_000_000_000_000 * 1_000_000_000)
            by (nonlinear_arith)
            requires
                mv <= 2_000_000_000_000_000,
                ms <= 1_000_000_000,
        ;
    }
    let prod: u128 = (mv as u128) * (ms as u128);
    let m: u128 = prod / 1_000_000;
    proof {
        assert(m <= 2_000_000_000_000_000_000);
    }
    let mi: i64 = m as i64;
    if (v < 0) != (s < 0) {
        -mi
    } else {
        mi
    }
}

impl Rect {
    /// A rectangle from its two corners.
    pub fn new(tl: Vec2, br: Vec2) -> (r: Self)
        ensures
            r.tl == tl,
            r.br == br,
    {
        Rect { tl, br }
    }

    /// The top-left corner.
    pub fn top_left(&self) -> (r: Vec2)
        ensures
            r == self.tl,
    {
        self.tl
    }

    /// The bottom-right corner.
    pub fn bottom_right(&self) -> (r: Vec2)
        ensures
            r == self.br,
    {
        self.br
    }

    /// The horizontal extent, in micro-units.
    pub fn width(&self) -> (r: i64)
        requires
            rect_in_range(*self),
        ensures
            r as int == self.br@.0 - self.tl@.0,
    {
        self.br.x - self.tl.x
    }

    /// The vertical extent, in micro-units.
    pub fn height(&self) -> (r: i64)
        requires
            rect_in_range(*self),
        ensures
            r as int == self.br@.1 - self.tl@.1,
    {
        self.br.y - self.tl.y
    }

    /// Both corners scaled by micro-unit factors, truncated toward zero.
    pub fn scale(&self, sx: i64, sy: i64) -> (r: Self)
        requires
            rect_in_range(*self),
            -1_000_000_000 <= sx <= 1_000_000_000,
            -1_000_000_000 <= sy <= 1_000_000_000,
        ensures
            r.tl@ == (scaled(self.tl@.0, sx as int), scaled(self.tl@.1, sy as int)),
            r.br@ == (scaled(self.br@.0, sx as int), scaled(self.br@.1, sy as int)),
    {
        Rect {
            tl: Vec2 { x: scale_coord(self.tl.x, sx), y: scale_coord(self.tl.y, sy) },
            br: Vec2 { x: scale_coord(self.br.x, sx), y: scale_coord(self.br.y, sy) },
        }
    }
}

} // verus!
