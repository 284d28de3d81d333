//! The bounding-box component: the per-entity rectangle that the spatial
//! index and the physics resolver operate on.

use vstd::prelude::*;
use crate::math::Rect;

verus! {

/// Per-entity axis-aligned bounding box.
#[derive(Clone, Copy, Debug, PartialEq, Eq, Structural)]
pub struct RectComponent {
    pub rect: Rect,
}

impl RectComponent {
    pub open spec fn spec_rect(self) -> Rect {
        self.rect
    }

    pub fn new(rect: Rect) -> (rc: RectComponent)
        ensures
            rc.spec_rect() == rect,
    {
        RectComponent { rect }
    }

    pub fn get_rect(&self) -> (r: Rect)
        ensures
            r == self.spec_rect(),
    {
        self.rect
    }

    pub fn get_rect_mut(&mut self) -> (r: &mut Rect)
        ensures
            *r == old(self).spec_rect(),
            final(self).spec_rect() == *final(r),
    {
        &mut self.rect
    }

    pub fn pos(&self) -> (p: (i64, i64))
        ensures
            p.0 == self.spec_rect().x,
            p.1 == self.spec_rect().y,
    {
        (self.rect.x, self.rect.y)
    }

    pub fn size(&self) -> (s: (i64, i64))
        ensures
            s.0 == self.spec_rect().w,
            s.1 == self.spec_rect().h,
    {
        (self.rect.w, self.rect.h)
    }

    pub fn move_by(&mut self, dx: i64, dy: i64)
        requires
            -crate::COORD_LIMIT <= old(self).spec_rect().x + dx <= crate::COORD_LIMIT,
            -crate::COORD_LIMIT <= old(self).spec_rect().y + dy <= crate::COORD_LIMIT,
        ensures
            final(self).spec_rect() == old(self).spec_rect().spec_shift(dx as int, dy as int),
    {
        self.rect.move_by(dx, dy);
    }

    pub fn move_to(&mut self, x: i64, y: i64)
        ensures
            final(self).spec_rect() == (Rect { x, y, ..old(self).spec_rect() }),
    {
        self.rect.move_to(x, y);
    }
}

impl Default for RectComponent {
    fn default() -> (rc: RectComponent)
        ensures
            rc.spec_rect() == (Rect { x: 0, y: 0, w: 0, h: 0 }),
    {
        RectComponent { rect: Rect { x: 0, y: 0, w: 0, h: 0 } }
    }
}

} // verus!
