//! Axis-aligned rectangles: the unit every spatial and physics computation
//! operates on. The `y` axis grows downward.

use vstd::prelude::*;
use crate::COORD_LIMIT;

verus! {

/// An axis-aligned rectangle: position of the top-left corner plus size.
/// Edges are inclusive for the overlap tests below, so two rectangles that
/// merely touch count as overlapping.
#[derive(Clone, Copy, Debug, PartialEq, Eq, Structural)]
pub struct Rect {
    pub x: i64,
    pub y: i64,
    pub w: i64,
    pub h: i64,
}

impl Rect {
    /// Well-formed: non-negative size, and every edge within the coordinate
    /// range, so edge arithmetic never leaves `i64`.
    pub open spec fn wf(self) -> bool {
        &&& 0 <= self.w
        &&& 0 <= self.h
        &&& -COORD_LIMIT <= self.x
        &&& self.x + self.w <= COORD_LIMIT
        &&& -COORD_LIMIT <= self.y
        &&& self.y + self.h <= COORD_LIMIT
    }

    pub open spec fn spec_left(self) -> int {
        self.x as int
    }

    pub open spec fn spec_right(self) -> int {
        self.x + self.w
    }

    pub open spec fn spec_top(self) -> int {
        self.y as int
    }

    pub open spec fn spec_bottom(self) -> int {
        self.y + self.h
    }

    /// The same rectangle translated by `(dx, dy)`.
    pub open spec fn spec_shift(self, dx: int, dy: int) -> Rect {
        Rect { x: (self.x + dx) as i64, y: (self.y + dy) as i64, ..self }
    }

    /// Inclusive overlap: holds as soon as the rectangles share at least an
    /// edge point.
    pub open spec fn spec_overlaps(self, other: Rect) -> bool {
        &&& self.spec_left() <= other.spec_right()
        &&& self.spec_right() >= other.spec_left()
        &&& self.spec_top() <= other.spec_bottom()
        &&& self.spec_bottom() >= other.spec_top()
    }

    pub open spec fn spec_contains_pt(self, px: int, py: int) -> bool {
        &&& self.spec_left() <= px <= self.spec_right()
        &&& self.spec_top() <= py <= self.spec_bottom()
    }

    pub open spec fn spec_contains_rect(self, other: Rect) -> bool {
        &&& self.spec_left() <= other.spec_left()
        &&& self.spec_right() >= other.spec_right()
        &&& self.spec_top() <= other.spec_top()
        &&& self.spec_bottom() >= other.spec_bottom()
    }

    pub fn new(x: i64, y: i64, w: i64, h: i64) -> (r: Rect)
        ensures
            r == (Rect { x, y, w, h }),
    {
        Rect { x, y, w, h }
    }

    pub fn from(pos: (i64, i64), size: (i64, i64)) -> (r: Rect)
        ensures
            r == (Rect { x: pos.0, y: pos.1, w: size.0, h: size.1 }),
    {
        Rect { x: pos.0, y: pos.1, w: size.0, h: size.1 }
    }

    /// The rectangle spanned by two corner points, in any order.
    pub fn from_points(p1: (i64, i64), p2: (i64, i64)) -> (r: Rect)
        requires
            -COORD_LIMIT <= p1.0 <= COORD_LIMIT,
            -COORD_LIMIT <= p1.1 <= COORD_LIMIT,
            -COORD_LIMIT <= p2.0 <= COORD_LIMIT,
            -COORD_LIMIT <= p2.1 <= COORD_LIMIT,
        ensures
            r.x == if p1.0 <= p2.0 { p1.0 } else { p2.0 },
            r.y == if p1.1 <= p2.1 { p1.1 } else { p2.1 },
            r.w == if p1.0 <= p2.0 { p2.0 - p1.0 } else { p1.0 - p2.0 },
            r.h == if p1.1 <= p2.1 { p2.1 - p1.1 } else { p1.1 - p2.1 },
    {
        let x = if p1.0 <= p2.0 { p1.0 } else { p2.0 };
        let y = if p1.1 <= p2.1 { p1.1 } else { p2.1 };
        let w = if p1.0 <= p2.0 { p2.0 - p1.0 } else { p1.0 - p2.0 };
        let h = if p1.1 <= p2.1 { p2.1 - p1.1 } else { p1.1 - p2.1 };
        Rect { x, y, w, h }
    }

    pub fn left(&self) -> (r: i64)
        ensures
            r == self.spec_left(),
    {
        self.x
    }

    pub fn right(&self) -> (r: i64)
        requires
            self.wf(),
        ensures
            r == self.spec_right(),
    {
        self.x + self.w
    }

    pub fn top(&self) -> (r: i64)
        ensures
            r == self.spec_top(),
    {
        self.y
    }

    pub fn bottom(&self) -> (r: i64)
        requires
            self.wf(),
        ensures
            r == self.spec_bottom(),
    {
        self.y + self.h
    }

    pub fn move_by(&mut self, dx: i64, dy: i64)
        requires
            -COORD_LIMIT <= old(self).x + dx <= COORD_LIMIT,
            -COORD_LIMIT <= old(self).y + dy <= COORD_LIMIT,
        ensures
            *final(self) == old(self).spec_shift(dx as int, dy as int),
    {
        self.x = self.x + dx;
        self.y = self.y + dy;
    }

    pub fn move_to(&mut self, x: i64, y: i64)
        ensures
            *final(self) == (Rect { x, y, ..*old(self) }),
    {
        self.x = x;
        self.y = y;
    }

    pub fn resize_by(&mut self, dw: i64, dh: i64)
        requires
            i64::MIN <= old(self).w + dw <= i64::MAX,
            i64::MIN <= old(self).h + dh <= i64::MAX,
        ensures
            *final(self) == (Rect { w: (old(self).w + dw) as i64, h: (old(self).h + dh) as i64, ..*old(self) }),
    {
        self.w = self.w + dw;
        self.h = self.h + dh;
    }

    pub fn resize_to(&mut self, w: i64, h: i64)
        ensures
            *final(self) == (Rect { w, h, ..*old(self) }),
    {
        self.w = w;
        self.h = h;
    }

    pub fn contains_pt(&self, px: i64, py: i64) -> (r: bool)
        requires
            self.wf(),
        ensures
            r == self.spec_contains_pt(px as int, py as int),
    {
        self.x <= px && px <= self.x + self.w && self.y <= py && py <= self.y + self.h
    }

    pub fn contains_rect(&self, other: &Rect) -> (r: bool)
        requires
            self.wf(),
            other.wf(),
        ensures
            r == self.spec_contains_rect(*other),
    {
        self.x <= other.x && self.x + self.w >= other.x + other.w && self.y <= other.y
            && self.y + self.h >= other.y + other.h
    }

    pub fn overlaps(&self, other: &Rect) -> (r: bool)
        requires
            i64::MIN <= self.x + self.w <= i64::MAX,
            i64::MIN <= self.y + self.h <= i64::MAX,
            i64::MIN <= other.x + other.w <= i64::MAX,
            i64::MIN <= other.y + other.h <= i64::MAX,
        ensures
            r == self.spec_overlaps(*other),
    {
        self.x <= other.x + other.w && self.x + self.w >= other.x && self.y <= other.y + other.h
            && self.y + self.h >= other.y
    }
}

} // verus!
