//! Points and axis-aligned rectangles of the game map.
//!
//! Coordinates are whole world units. A rectangle covers the half-open
//! ranges `[x, x + width)` and `[y, y + height)`.
use vstd::prelude::*;

verus! {

/// A point of the map.
#[derive(Debug, Clone, Copy, PartialEq, Eq, Structural)]
pub struct Vec2 {
    pub x: i32,
    pub y: i32,
}

/// An axis-aligned rectangle: its corner of least coordinates, its width
/// and its height.
#[derive(Debug, Clone, Copy, PartialEq, Eq, Structural)]
pub struct Rect {
    pub x: i32,
    pub y: i32,
    pub width: i32,
    pub height: i32,
}

/// `pos` lies in `r`.
pub open spec fn rect_contains(r: Rect, pos: Vec2) -> bool {
    r.x <= pos.x < r.x + r.width && r.y <= pos.y < r.y + r.height
}

/// Two rectangles meet, borders included.
pub open spec fn rects_intersect(a: Rect, b: Rect) -> bool {
    !(a.x > b.x + b.width || a.x + a.width < b.x || a.y > b.y + b.height || a.y + a.height < b.y)
}

/// Half of `v`, rounded toward zero.
pub open spec fn half(v: int) -> int {
    if v >= 0 {
        v / 2
    } else {
        -((-v) / 2)
    }
}

/// A rectangle with non-negative sides whose far corner is representable.
pub open spec fn rect_wf(r: Rect) -> bool {
    &&& r.width >= 0
    &&& r.height >= 0
    &&& r.x + r.width <= i32::MAX
    &&& r.y + r.height <= i32::MAX
}

/// Quarter `i` of `r` (0: north-west, 1: north-east, 2: south-west,
/// 3: south-east). The western and northern quarters take the lower half of
/// an odd side, so the four quarters cover `r` exactly.
pub open spec fn quadrant(r: Rect, i: int) -> Rect {
    let hw = r.width / 2;
    let hh = r.height / 2;
    let east = i == 1 || i == 3;
    let south = i == 2 || i == 3;
    Rect {
        x: if east { (r.x + hw) as i32 } else { r.x },
        y: if south { (r.y + hh) as i32 } else { r.y },
        width: if east { (r.width - hw) as i32 } else { hw as i32 },
        height: if south { (r.height - hh) as i32 } else { hh as i32 },
    }
}

impl Rect {
    /// Whether `pos` lies in the rectangle.
    pub fn contains(&self, pos: &Vec2) -> (b: bool)
        ensures
            b == rect_contains(*self, *pos),
    {
        (pos.x as i64) >= (self.x as i64) && (pos.x as i64) < (self.x as i64) + (self.width as i64)
            && (pos.y as i64) >= (self.y as i64) && (pos.y as i64) < (self.y as i64) + (
        self.height as i64)
    }

    /// The corner of least coordinates.
    pub fn min(&self) -> (p: Vec2)
        ensures
            p.x == self.x,
            p.y == self.y,
    {
        Vec2 { x: self.x, y: self.y }
    }

    /// The corner of greatest coordinates.
    pub fn max(&self) -> (p: Vec2)
        requires
            i32::MIN <= self.x + self.width <= i32::MAX,
            i32::MIN <= self.y + self.height <= i32::MAX,
        ensures
            p.x == self.x + self.width,
            p.y == self.y + self.height,
    {
        Vec2 { x: self.x + self.width, y: self.y + self.height }
    }

    /// The centre, each half side rounded toward zero.
    pub fn center(&self) -> (p: Vec2)
        requires
            i32::MIN <= self.x + half(self.width as int) <= i32::MAX,
            i32::MIN <= self.y + half(self.height as int) <= i32::MAX,
        ensures
            p.x == self.x + half(self.width as int),
            p.y == self.y + half(self.height as int),
    {
        Vec2 { x: self.x + self.width / 2, y: self.y + self.height / 2 }
    }

    /// Whether the two rectangles meet, borders included.
    pub fn intersects(&self, other: &Rect) -> (b: bool)
        ensures
            b == rects_intersect(*self, *other),
    {
        !((self.x as i64) > (other.x as i64) + (other.width as i64) || (self.x as i64) + (
        self.width as i64) < (other.x as i64) || (self.y as i64) > (other.y as i64) + (
        other.height as i64) || (self.y as i64) + (self.height as i64) < (other.y as i64))
    }

    /// Quarter `i` of the rectangle, as [`quadrant`] describes it.
    pub fn quadrant(&self, i: usize) -> (q: Rect)
        requires
            rect_wf(*self),
            i < 4,
        ensures
            q == quadrant(*self, i as int),
            rect_wf(q),
    {
        let hw = self.width / 2;
        let hh = self.height / 2;
        let east = i == 1 || i == 3;
        let south = i == 2 || i == 3;
        Rect {
            x: if east { self.x + hw } else { self.x },
            y: if south { self.y + hh } else { self.y },
            width: if east { self.width - hw } else { hw },
            height: if south { self.height - hh } else { hh },
        }
    }
}

/// A point of a well-formed rectangle lies in exactly one of its quarters.
pub proof fn lemma_quadrants_partition(r: Rect, p: Vec2)
    requires
        rect_wf(r),
        rect_contains(r, p),
    ensures
        exists|i: int| 0 <= i < 4 && rect_contains(quadrant(r, i), p),
        forall|i: int, j: int|
            0 <= i < 4 && 0 <= j < 4 && rect_contains(quadrant(r, i), p) && rect_contains(
                quadrant(r, j),
                p,
            ) ==> i == j,
{
    let hw = r.width / 2;
    let hh = r.height / 2;
    let i: int = if p.x < r.x + hw {
        if p.y < r.y + hh { 0 } else { 2 }
    } else {
        if p.y < r.y + hh { 1 } else { 3 }
    };
    assert(rect_contains(quadrant(r, i), p));
}

/// Each quarter of a well-formed rectangle lies inside it.
pub proof fn lemma_quadrant_inside(r: Rect, i: int, p: Vec2)
    requires
        rect_wf(r),
        0 <= i < 4,
        rect_contains(quadrant(r, i), p),
    ensures
        rect_contains(r, p),
        rect_wf(quadrant(r, i)),
{
}

} // verus!
