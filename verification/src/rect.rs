use vstd::prelude::*;

verus! {

/// An axis-aligned rectangle with corners `(x1, y1)` and `(x2, y2)`.
#[derive(Clone, Copy, Debug, PartialEq, Eq, Structural)]
pub struct Rect {
    pub x1: i32,
    pub x2: i32,
    pub y1: i32,
    pub y2: i32,
}

/// Half of `v`, rounded toward zero.
pub open spec fn half(v: int) -> int {
    if v >= 0 {
        v / 2
    } else {
        -((-v) / 2)
    }
}

impl Rect {
    /// The first corner lies strictly above and left of the second.
    pub open spec fn wf(&self) -> bool {
        self.x1 < self.x2 && self.y1 < self.y2
    }

    /// Whether the two rectangles touch or overlap once `self` has been
    /// grown by `margin` cells on every side.
    pub open spec fn overlaps(&self, other: &Rect, margin: int) -> bool {
        &&& self.x1 - margin <= other.x2
        &&& self.x2 + margin >= other.x1
        &&& self.y1 - margin <= other.y2
        &&& self.y2 + margin >= other.y1
    }

    /// The midpoint of the two corners, each coordinate rounded toward zero.
    pub open spec fn center_point(&self) -> (int, int) {
        (half(self.x1 + self.x2), half(self.y1 + self.y2))
    }

    /// The rectangle with its first corner at `(x, y)`, `w` wide and `h` high.
    pub fn new(x: i32, y: i32, w: i32, h: i32) -> (r: Rect)
        requires
            i32::MIN <= x + w <= i32::MAX,
            i32::MIN <= y + h <= i32::MAX,
        ensures
            r.x1 == x,
            r.y1 == y,
            r.x2 == x + w,
            r.y2 == y + h,
            w > 0 && h > 0 ==> r.wf(),
    {
        Rect { x1: x, y1: y, x2: x + w, y2: y + h }
    }

    /// Whether the two rectangles touch or overlap.
    pub fn intersect(&self, other: &Rect) -> (r: bool)
        ensures
            r == self.overlaps(other, 0),
    {
        self.x1 <= other.x2 && self.x2 >= other.x1 && self.y1 <= other.y2 && self.y2 >= other.y1
    }

    /// Like `intersect`, with `self` grown by `margin` cells on every side.
    pub fn intersect_with_margin(&self, other: &Rect, margin: i32) -> (r: bool)
        ensures
            r == self.overlaps(other, margin as int),
    {
        let m: i64 = margin as i64;
        self.x1 as i64 - m <= other.x2 as i64 && self.x2 as i64 + m >= other.x1 as i64
            && self.y1 as i64 - m <= other.y2 as i64 && self.y2 as i64 + m >= other.y1 as i64
    }

    /// The midpoint of the rectangle.
    pub fn center(&self) -> (c: (i32, i32))
        ensures
            (c.0 as int, c.1 as int) == self.center_point(),
            self.wf() && self.x1 >= 0 && self.y1 >= 0 ==> self.x1 <= c.0 < self.x2 && self.y1 <= c.1
                < self.y2,
    {
        let sx: i64 = self.x1 as i64 + self.x2 as i64;
        let sy: i64 = self.y1 as i64 + self.y2 as i64;
        let cx: i64 = if sx >= 0 {
            sx / 2
        } else {
            -((-sx) / 2)
        };
        let cy: i64 = if sy >= 0 {
            sy / 2
        } else {
            -((-sy) / 2)
        };
        (cx as i32, cy as i32)
    }
}

} // verus!
