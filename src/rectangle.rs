use vstd::prelude::*;

use crate::point::{dist2, Point};
use crate::random::draw_range;
use rand_pcg::Pcg32;

verus! {

/// An axis-aligned rectangle given by its two corners, both inclusive.
#[derive(Debug, Clone, Copy, PartialEq, Eq, Structural)]
pub struct Rectangle {
    pub topleft: Point,
    pub bottomright: Point,
}

/// A lazy, restartable walk over the points of a rectangle in row-major order.
pub struct RectIterator {
    rectangle: Rectangle,
    current: Option<Point>,
}

/// The value of an optional bound, or `d` where none is given.
pub open spec fn bound_or(o: Option<u16>, d: int) -> int {
    match o {
        Some(v) => v as int,
        None => d,
    }
}

/// The point that follows `c` in the row-major walk over `r`, if any.
pub open spec fn rect_step(r: Rectangle, c: Point) -> Option<Point> {
    if c.0 < r.bottomright.0 {
        Some(Point((c.0 + 1) as u16, c.1))
    } else if c.1 < r.bottomright.1 {
        Some(Point(r.topleft.0, (c.1 + 1) as u16))
    } else {
        None
    }
}

pub open spec fn min_of(a: int, b: int) -> int {
    if a <= b {
        a
    } else {
        b
    }
}

/// The smallest squared distance from a corner of `a` to a differently placed
/// corner of `b`.
pub open spec fn corner_dist2(a: Rectangle, b: Rectangle) -> int {
    min_of(
        min_of(
            min_of(dist2(a.corner(0), b.corner(1)), min_of(dist2(a.corner(0), b.corner(2)), dist2(a.corner(0), b.corner(3)))),
            min_of(dist2(a.corner(1), b.corner(0)), min_of(dist2(a.corner(1), b.corner(2)), dist2(a.corner(1), b.corner(3)))),
        ),
        min_of(
            min_of(dist2(a.corner(2), b.corner(0)), min_of(dist2(a.corner(2), b.corner(1)), dist2(a.corner(2), b.corner(3)))),
            min_of(dist2(a.corner(3), b.corner(0)), min_of(dist2(a.corner(3), b.corner(1)), dist2(a.corner(3), b.corner(2)))),
        ),
    )
}

impl Rectangle {
    /// The corners are ordered.
    pub open spec fn wf(&self) -> bool {
        self.bottomright.0 >= self.topleft.0 && self.bottomright.1 >= self.topleft.1
    }

    pub open spec fn spec_width(&self) -> int {
        self.bottomright.0 - self.topleft.0 + 1
    }

    pub open spec fn spec_height(&self) -> int {
        self.bottomright.1 - self.topleft.1 + 1
    }

    pub open spec fn contains(&self, p: Point) -> bool {
        self.topleft.0 <= p.0 <= self.bottomright.0 && self.topleft.1 <= p.1 <= self.bottomright.1
    }

    /// `other` lies wholly inside this rectangle.
    pub open spec fn encloses(&self, other: Rectangle) -> bool {
        self.topleft.0 <= other.topleft.0 && other.bottomright.0 <= self.bottomright.0
            && self.topleft.1 <= other.topleft.1 && other.bottomright.1 <= self.bottomright.1
    }

    /// The closed spans overlap on both axes.
    pub open spec fn spec_intersects(&self, other: Rectangle) -> bool {
        self.bottomright.0 >= other.topleft.0 && self.topleft.0 <= other.bottomright.0
            && self.bottomright.1 >= other.topleft.1 && self.topleft.1 <= other.bottomright.1
    }

    /// Corner `i`: top-left, top-right, bottom-right, bottom-left.
    pub open spec fn corner(&self, i: int) -> Point {
        if i == 0 {
            self.topleft
        } else if i == 1 {
            Point(self.bottomright.0, self.topleft.1)
        } else if i == 2 {
            self.bottomright
        } else {
            Point(self.topleft.0, self.bottomright.1)
        }
    }

    pub fn new(topleft: &Point, bottomright: &Point) -> (r: Rectangle)
        ensures
            r.topleft == *topleft,
            r.bottomright == *bottomright,
    {
        Rectangle { topleft: *topleft, bottomright: *bottomright }
    }

    pub fn topright(&self) -> (r: Point)
        ensures
            r == self.corner(1),
    {
        Point(self.bottomright.0, self.topleft.1)
    }

    pub fn bottomleft(&self) -> (r: Point)
        ensures
            r == self.corner(3),
    {
        Point(self.topleft.0, self.bottomright.1)
    }

    pub fn left(&self) -> (r: u16)
        ensures
            r == self.topleft.0,
    {
        self.topleft.0
    }

    pub fn right(&self) -> (r: u16)
        ensures
            r == self.bottomright.0,
    {
        self.bottomright.0
    }

    pub fn top(&self) -> (r: u16)
        ensures
            r == self.topleft.1,
    {
        self.topleft.1
    }

    pub fn bottom(&self) -> (r: u16)
        ensures
            r == self.bottomright.1,
    {
        self.bottomright.1
    }

    /// The rectangle with top-left corner `(x, y)` and the given extent.
    pub fn new_dims(x: u16, y: u16, width: u16, height: u16) -> (r: Rectangle)
        requires
            width >= 1,
            height >= 1,
            x + width - 1 <= u16::MAX,
            y + height - 1 <= u16::MAX,
        ensures
            r.wf(),
            r.topleft == Point(x, y),
            r.spec_width() == width,
            r.spec_height() == height,
    {
        Rectangle { topleft: Point(x, y), bottomright: Point(x + (width - 1), y + (height - 1)) }
    }

    /// A rectangle drawn at random that fits inside `bounds`, with a width in
    /// `[minwidth, maxwidth]` and a height in `[minheight, maxheight]`; a bound
    /// that is not given is 1 for a minimum and the extent of `bounds` for a
    /// maximum.
    pub fn random(
        rng: &mut Pcg32,
        bounds: &Rectangle,
        minwidth: Option<u16>,
        maxwidth: Option<u16>,
        minheight: Option<u16>,
        maxheight: Option<u16>,
    ) -> (r: Rectangle)
        requires
            bounds.wf(),
            1 <= bound_or(minwidth, 1) <= bound_or(maxwidth, bounds.spec_width()),
            bound_or(minwidth, 1) <= bounds.spec_width(),
            1 <= bound_or(minheight, 1) <= bound_or(maxheight, bounds.spec_height()),
            bound_or(minheight, 1) <= bounds.spec_height(),
        ensures
            r.wf(),
            bounds.encloses(r),
            bound_or(minwidth, 1) <= r.spec_width() <= bound_or(maxwidth, bounds.spec_width()),
            bound_or(minheight, 1) <= r.spec_height() <= bound_or(maxheight, bounds.spec_height()),
    {
        let minw: u64 = match minwidth { Some(v) => v as u64, None => 1 };
        let maxw: u64 = match maxwidth { Some(v) => v as u64, None => bounds.width() as u64 };
        let minh: u64 = match minheight { Some(v) => v as u64, None => 1 };
        let maxh: u64 = match maxheight { Some(v) => v as u64, None => bounds.height() as u64 };
        let left = bounds.topleft.0 as u64;
        let right = bounds.bottomright.0 as u64;
        let top = bounds.topleft.1 as u64;
        let bottom = bounds.bottomright.1 as u64;
        let x = draw_range(rng, left, right + 2 - minw);
        let y = draw_range(rng, top, bottom + 2 - minh);
        let xmax: u64 = if x + maxw - 1 < right { x + maxw - 1 } else { right };
        let ymax: u64 = if y + maxh - 1 < bottom { y + maxh - 1 } else { bottom };
        let x2 = draw_range(rng, x + minw - 1, xmax + 1);
        let y2 = draw_range(rng, y + minh - 1, ymax + 1);
        Rectangle { topleft: Point(x as u16, y as u16), bottomright: Point(x2 as u16, y2 as u16) }
    }

    /// Iterate over all points of the rectangle, row by row.
    pub fn iter(&self) -> (r: RectIterator)
        ensures
            r.rectangle() == *self,
            r.current() is None,
    {
        RectIterator { rectangle: *self, current: None }
    }

    pub fn width(&self) -> (r: u32)
        requires
            self.wf(),
        ensures
            r == self.spec_width(),
    {
        (self.bottomright.0 - self.topleft.0) as u32 + 1
    }

    pub fn height(&self) -> (r: u32)
        requires
            self.wf(),
        ensures
            r == self.spec_height(),
    {
        (self.bottomright.1 - self.topleft.1) as u32 + 1
    }

    /// The number of points in the rectangle.
    pub fn area(&self) -> (r: u64)
        requires
            self.wf(),
        ensures
            r == self.spec_width() * self.spec_height(),
    {
        let w = self.width() as u64;
        let h = self.height() as u64;
        assert(w * h <= 65536 * 65536) by (nonlinear_arith)
            requires w <= 65536, h <= 65536;
        w * h
    }

    /// Whether the bounding box is square.
    pub fn is_square(&self) -> (r: bool)
        requires
            self.wf(),
        ensures
            r == (self.spec_width() == self.spec_height()),
    {
        self.width() == self.height()
    }

    /// Whether the two rectangles share a point (touching edges count).
    pub fn intersects(&self, other: &Rectangle) -> (r: bool)
        ensures
            r == self.spec_intersects(*other),
    {
        self.bottomright.0 >= other.topleft.0 && self.topleft.0 <= other.bottomright.0
            && self.bottomright.1 >= other.topleft.1 && self.topleft.1 <= other.bottomright.1
    }

    fn corner_exec(&self, i: usize) -> (r: Point)
        ensures
            r == self.corner(i as int),
    {
        if i == 0 {
            self.topleft
        } else if i == 1 {
            self.topright()
        } else if i == 2 {
            self.bottomright
        } else {
            self.bottomleft()
        }
    }

    /// The smallest squared distance between a corner of this rectangle and a
    /// differently placed corner of `other` (top-left against top-right,
    /// bottom-right and bottom-left, and so on): a cheap ranking heuristic, not
    /// the true distance between the two areas.
    pub fn corner_distance_squared(&self, other: &Rectangle) -> (r: u64)
        ensures
            r == corner_dist2(*self, *other),
            exists|i: int, j: int|
                0 <= i < 4 && 0 <= j < 4 && i != j && r == dist2(self.corner(i), other.corner(j)),
            forall|i: int, j: int|
                0 <= i < 4 && 0 <= j < 4 && i != j ==> r <= dist2(self.corner(i), other.corner(j)),
    {
        let mut best: u64 = self.topleft.distance_squared(&other.topright());
        assert(best == dist2(self.corner(0), other.corner(1)));
        let mut i: usize = 0;
        while i < 4
            invariant
                0 <= i <= 4,
                exists|a: int, b: int|
                    0 <= a < 4 && 0 <= b < 4 && a != b && best == dist2(self.corner(a), other.corner(b)),
                forall|a: int, b: int|
                    0 <= a < i && 0 <= b < 4 && a != b ==> best <= dist2(self.corner(a), other.corner(b)),
            decreases 4 - i,
        {
            let mut j: usize = 0;
            while j < 4
                invariant
                    0 <= i < 4,
                    0 <= j <= 4,
                    exists|a: int, b: int|
                        0 <= a < 4 && 0 <= b < 4 && a != b && best == dist2(self.corner(a), other.corner(b)),
                    forall|a: int, b: int|
                        0 <= a < i && 0 <= b < 4 && a != b ==> best <= dist2(self.corner(a), other.corner(b)),
                    forall|b: int| 0 <= b < j && i != b ==> best <= dist2(self.corner(i as int), other.corner(b)),
                decreases 4 - j,
            {
                if i != j {
                    let d = self.corner_exec(i).distance_squared(&other.corner_exec(j));
                    if d < best {
                        best = d;
                    }
                }
                j += 1;
            }
            i += 1;
        }
        proof {
            assert(best <= dist2(self.corner(0), other.corner(1)));
            assert(best <= dist2(self.corner(0), other.corner(2)));
            assert(best <= dist2(self.corner(0), other.corner(3)));
            assert(best <= dist2(self.corner(1), other.corner(0)));
            assert(best <= dist2(self.corner(1), other.corner(2)));
            assert(best <= dist2(self.corner(1), other.corner(3)));
            assert(best <= dist2(self.corner(2), other.corner(0)));
            assert(best <= dist2(self.corner(2), other.corner(1)));
            assert(best <= dist2(self.corner(2), other.corner(3)));
            assert(best <= dist2(self.corner(3), other.corner(0)));
            assert(best <= dist2(self.corner(3), other.corner(1)));
            assert(best <= dist2(self.corner(3), other.corner(2)));
        }
        best
    }
}

impl RectIterator {
    pub closed spec fn rectangle(&self) -> Rectangle {
        self.rectangle
    }

    pub closed spec fn current(&self) -> Option<Point> {
        self.current
    }

    /// The next point in row-major order; after the last point it yields
    /// `None`, and the walk then starts over.
    pub fn next(&mut self) -> (r: Option<Point>)
        ensures
            final(self).rectangle() == old(self).rectangle(),
            final(self).current() == r,
            r == match old(self).current() {
                None => Some(old(self).rectangle().topleft),
                Some(c) => rect_step(old(self).rectangle(), c),
            },
    {
        let next = match self.current {
            None => Some(self.rectangle.topleft),
            Some(c) => {
                if c.0 < self.rectangle.bottomright.0 {
                    Some(Point(c.0 + 1, c.1))
                } else if c.1 < self.rectangle.bottomright.1 {
                    Some(Point(self.rectangle.topleft.0, c.1 + 1))
                } else {
                    None
                }
            },
        };
        self.current = next;
        next
    }
}

} // verus!
