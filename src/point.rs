use vstd::prelude::*;

use crate::common::Direction;
use crate::random::draw_range;
use crate::rectangle::Rectangle;
use rand_pcg::Pcg32;

verus! {

/// A point in the plane, `(x, y)`, with `y` growing southwards.
#[derive(Debug, Clone, Copy, PartialEq, Eq, Structural)]
pub struct Point(pub u16, pub u16);

/// The neighbour of `p` in direction `d`, or `None` where it would leave the
/// coordinate range, or step from the last column or row onto a bound that is
/// given.
pub open spec fn neighbour_of(p: Point, d: Direction, width: Option<u16>, height: Option<u16>) -> Option<Point> {
    match d {
        Direction::North => if p.1 == 0 { None } else { Some(Point(p.0, (p.1 - 1) as u16)) },
        Direction::West => if p.0 == 0 { None } else { Some(Point((p.0 - 1) as u16, p.1)) },
        Direction::East => {
            if p.0 == u16::MAX || (width is Some && p.0 + 1 == width->0) {
                None
            } else {
                Some(Point((p.0 + 1) as u16, p.1))
            }
        },
        Direction::South => {
            if p.1 == u16::MAX || (height is Some && p.1 + 1 == height->0) {
                None
            } else {
                Some(Point(p.0, (p.1 + 1) as u16))
            }
        },
    }
}

/// Two points are adjacent when they differ by one step on exactly one axis.
pub open spec fn adjacent(a: Point, b: Point) -> bool {
    (a.0 == b.0 && (a.1 + 1 == b.1 || b.1 + 1 == a.1)) || (a.1 == b.1 && (a.0 + 1 == b.0 || b.0
        + 1 == a.0))
}

/// The squared Euclidean distance between two points.
pub open spec fn dist2(a: Point, b: Point) -> int {
    (a.0 - b.0) * (a.0 - b.0) + (a.1 - b.1) * (a.1 - b.1)
}

impl Point {
    pub fn new(x: u16, y: u16) -> (r: Point)
        ensures
            r == Point(x, y),
    {
        Point(x, y)
    }

    pub fn new64(x: u64, y: u64) -> (r: Point)
        requires
            x <= u16::MAX,
            y <= u16::MAX,
        ensures
            r.0 == x && r.1 == y,
    {
        Point(x as u16, y as u16)
    }

    pub fn new32(x: u32, y: u32) -> (r: Point)
        requires
            x <= u16::MAX,
            y <= u16::MAX,
        ensures
            r.0 == x && r.1 == y,
    {
        Point(x as u16, y as u16)
    }

    pub fn new16(x: u16, y: u16) -> (r: Point)
        ensures
            r == Point(x, y),
    {
        Point(x, y)
    }

    pub fn new8(x: u8, y: u8) -> (r: Point)
        ensures
            r.0 == x && r.1 == y,
    {
        Point(x as u16, y as u16)
    }

    /// A point drawn at random inside `bounds`, both corners included.
    pub fn random(rng: &mut Pcg32, bounds: &Rectangle) -> (r: Point)
        requires
            bounds.wf(),
        ensures
            bounds.contains(r),
    {
        let x = draw_range(rng, bounds.topleft.0 as u64, bounds.bottomright.0 as u64 + 1);
        let y = draw_range(rng, bounds.topleft.1 as u64, bounds.bottomright.1 as u64 + 1);
        Point(x as u16, y as u16)
    }

    pub fn x(&self) -> (r: u16)
        ensures
            r == self.0,
    {
        self.0
    }

    pub fn y(&self) -> (r: u16)
        ensures
            r == self.1,
    {
        self.1
    }

    /// The rectangle of the given extent whose top-left corner is this point.
    pub fn rectangle(&self, width: u16, height: u16) -> (r: Rectangle)
        requires
            width >= 1,
            height >= 1,
            self.0 + width - 1 <= u16::MAX,
            self.1 + height - 1 <= u16::MAX,
        ensures
            r.topleft == *self,
            r.bottomright.0 == self.0 + width - 1,
            r.bottomright.1 == self.1 + height - 1,
    {
        Rectangle::new_dims(self.0, self.1, width, height)
    }

    pub fn square(&self, size: u16) -> (r: Rectangle)
        requires
            size >= 1,
            self.0 + size - 1 <= u16::MAX,
            self.1 + size - 1 <= u16::MAX,
        ensures
            r.topleft == *self,
            r.bottomright.0 == self.0 + size - 1,
            r.bottomright.1 == self.1 + size - 1,
    {
        Rectangle::new_dims(self.0, self.1, size, size)
    }

    /// The rectangle that holds this point alone.
    pub fn square1(&self) -> (r: Rectangle)
        ensures
            r.topleft == *self,
            r.bottomright == *self,
    {
        Rectangle::new_dims(self.0, self.1, 1, 1)
    }

    pub fn xs(&self) -> (r: usize)
        ensures
            r == self.0,
    {
        self.0 as usize
    }

    pub fn ys(&self) -> (r: usize)
        ensures
            r == self.1,
    {
        self.1 as usize
    }

    pub fn x64(&self) -> (r: u64)
        ensures
            r == self.0,
    {
        self.0 as u64
    }

    pub fn y64(&self) -> (r: u64)
        ensures
            r == self.1,
    {
        self.1 as u64
    }

    pub fn x32(&self) -> (r: u32)
        ensures
            r == self.0,
    {
        self.0 as u32
    }

    pub fn y32(&self) -> (r: u32)
        ensures
            r == self.1,
    {
        self.1 as u32
    }

    pub fn x16(&self) -> (r: u16)
        ensures
            r == self.0,
    {
        self.0
    }

    pub fn y16(&self) -> (r: u16)
        ensures
            r == self.1,
    {
        self.1
    }

    pub fn x8(&self) -> (r: u8)
        requires
            self.0 <= u8::MAX,
        ensures
            r == self.0,
    {
        self.0 as u8
    }

    pub fn y8(&self) -> (r: u8)
        requires
            self.1 <= u8::MAX,
        ensures
            r == self.1,
    {
        self.1 as u8
    }

    /// The neighbouring point in `direction`, if there is one within the
    /// coordinate range and within the bounds that are given.
    pub fn neighbour(&self, direction: Direction, width: Option<u16>, height: Option<u16>) -> (r:
        Option<Point>)
        ensures
            r == neighbour_of(*self, direction, width, height),
    {
        match direction {
            Direction::North => {
                if self.1 == 0 {
                    None
                } else {
                    Some(Point(self.0, self.1 - 1))
                }
            },
            Direction::West => {
                if self.0 == 0 {
                    None
                } else {
                    Some(Point(self.0 - 1, self.1))
                }
            },
            Direction::East => {
                let blocked = match width {
                    Some(w) => self.0 as u32 + 1 == w as u32,
                    None => false,
                };
                if self.0 == u16::MAX || blocked {
                    None
                } else {
                    Some(Point(self.0 + 1, self.1))
                }
            },
            Direction::South => {
                let blocked = match height {
                    Some(h) => self.1 as u32 + 1 == h as u32,
                    None => false,
                };
                if self.1 == u16::MAX || blocked {
                    None
                } else {
                    Some(Point(self.0, self.1 + 1))
                }
            },
        }
    }

    pub fn north(&self) -> (r: Option<Point>)
        ensures
            r == neighbour_of(*self, Direction::North, None, None),
    {
        self.neighbour(Direction::North, None, None)
    }

    pub fn west(&self) -> (r: Option<Point>)
        ensures
            r == neighbour_of(*self, Direction::West, None, None),
    {
        self.neighbour(Direction::West, None, None)
    }

    pub fn south(&self, height: Option<u16>) -> (r: Option<Point>)
        ensures
            r == neighbour_of(*self, Direction::South, None, height),
    {
        self.neighbour(Direction::South, None, height)
    }

    pub fn east(&self, width: Option<u16>) -> (r: Option<Point>)
        ensures
            r == neighbour_of(*self, Direction::East, width, None),
    {
        self.neighbour(Direction::East, width, None)
    }

    pub fn set(&mut self, x: u16, y: u16)
        ensures
            *final(self) == Point(x, y),
    {
        self.0 = x;
        self.1 = y;
    }

    /// The squared Euclidean distance to `other`; it orders points exactly as
    /// the Euclidean distance does.
    pub fn distance_squared(&self, other: &Point) -> (r: u64)
        ensures
            r == dist2(*self, *other),
    {
        let dx: u64 = if self.0 >= other.0 { (self.0 - other.0) as u64 } else { (other.0 - self.0) as u64 };
        let dy: u64 = if self.1 >= other.1 { (self.1 - other.1) as u64 } else { (other.1 - self.1) as u64 };
        assert(dx * dx <= 65535 * 65535) by (nonlinear_arith)
            requires dx <= 65535;
        assert(dy * dy <= 65535 * 65535) by (nonlinear_arith)
            requires dy <= 65535;
        assert(dx * dx == (self.0 - other.0) * (self.0 - other.0)) by (nonlinear_arith)
            requires dx == self.0 - other.0 || dx == other.0 - self.0;
        assert(dy * dy == (self.1 - other.1) * (self.1 - other.1)) by (nonlinear_arith)
            requires dy == self.1 - other.1 || dy == other.1 - self.1;
        dx * dx + dy * dy
    }
}

} // verus!
