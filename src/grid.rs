use vstd::prelude::*;

use crate::common::Direction;
use crate::point::{adjacent, neighbour_of, Point};
use crate::random::draw_bool;
use crate::rectangle::{rect_step, RectIterator, Rectangle};
use rand_pcg::Pcg32;

verus! {

/// A dense grid of cells, stored row by row.
pub struct Grid<V> {
    data: Vec<V>,
    size: (u16, u16),
}

/// One rendered cell of a text map: optional background and foreground
/// colours as `(r, g, b)`, and the glyph, which defaults to a space.
#[derive(Debug, Clone, PartialEq, Eq, Default)]
pub struct RenderedTextCell {
    pub background_colour: Option<(u8, u8, u8)>,
    pub foreground_colour: Option<(u8, u8, u8)>,
    pub text: Option<String>,
}

/// A walk over the points of a grid and their values, row by row.
pub struct GridIterator<'a, V> {
    grid: &'a Grid<V>,
    current: RectIterator,
}

/// Where the cell of point `p` sits in the row-major storage of a grid of
/// the given width.
pub open spec fn cell_index(width: int, p: Point) -> int {
    p.1 * width + p.0
}

/// The point whose cell sits at `i` in a grid of the given width.
pub open spec fn point_of(width: int, i: int) -> Point {
    Point((i % width) as u16, (i / width) as u16)
}

/// `new` differs from `old` only where `old` held zero and `new` holds `value`.
pub open spec fn only_fills(old: Seq<u8>, new: Seq<u8>, value: u8) -> bool {
    new.len() == old.len() && forall|i: int|
        0 <= i < old.len() ==> #[trigger] new[i] == old[i] || (old[i] == 0 && new[i] == value)
}

/// Every occupied (nonzero) cell keeps its value.
pub open spec fn keeps_occupied(old: Seq<u8>, new: Seq<u8>) -> bool {
    new.len() == old.len() && forall|i: int| 0 <= i < old.len() && old[i] != 0 ==> #[trigger] new[i] == old[i]
}

/// A cell whose value lay in `[lo, hi]` still holds a value in that range.
pub open spec fn keeps_range(old: Seq<u8>, new: Seq<u8>, lo: u8, hi: u8) -> bool {
    new.len() == old.len() && forall|i: int|
        0 <= i < old.len() && lo <= old[i] <= hi ==> lo <= #[trigger] new[i] <= hi
}

/// Value `v` raised by `amount`, clamped at the largest cell value.
pub open spec fn sat_add(v: u8, amount: u8) -> u8 {
    if v + amount <= u8::MAX { (v + amount) as u8 } else { u8::MAX }
}

/// Value `v` lowered by `amount`, clamped at zero.
pub open spec fn sat_sub(v: u8, amount: u8) -> u8 {
    if v >= amount { (v - amount) as u8 } else { 0 }
}

/// The cell value after adding or subtracting `amount`, saturating.
pub open spec fn combined(v: u8, amount: u8, subtract: bool) -> u8 {
    if subtract {
        sat_sub(v, amount)
    } else {
        sat_add(v, amount)
    }
}

/// `q` lies on the straight run from `a` to `b`, which share a row or a column.
pub open spec fn on_segment(a: Point, b: Point, q: Point) -> bool {
    (a.1 == b.1 && q.1 == a.1 && ((a.0 <= q.0 <= b.0) || (b.0 <= q.0 <= a.0))) || (a.0 == b.0 && q.0
        == a.0 && ((a.1 <= q.1 <= b.1) || (b.1 <= q.1 <= a.1)))
}

/// Every cell on the runs `from`-`corner` and `corner`-`to` holds `value` in
/// `new` or was already occupied in `old`.
pub open spec fn on_corner_path(old: Grid<u8>, new: Grid<u8>, from: Point, corner: Point, to: Point, value: u8) -> bool {
    forall|q: Point|
        on_segment(from, corner, q) || on_segment(corner, to, q) ==> new.at(q) == value || old.at(q) != 0
}

/// Every cell that differs between `old` and `new` is the cell of some point
/// of `path` after its first.
pub open spec fn changed_on(old: Seq<u8>, new: Seq<u8>, width: int, path: Seq<Point>) -> bool {
    forall|i: int|
        0 <= i < old.len() && #[trigger] new[i] != old[i] ==> exists|k: int|
            1 <= k < path.len() && cell_index(width, #[trigger] path[k]) == i
}

/// Every cell that differs between `old` and `new` lies on the runs
/// `from`-`corner` or `corner`-`to`.
pub open spec fn changed_on_corner_path(old: Grid<u8>, new: Grid<u8>, from: Point, corner: Point, to: Point) -> bool {
    forall|i: int|
        0 <= i < old.cells().len() && #[trigger] new.cells()[i] != old.cells()[i] ==> on_segment(
            from,
            corner,
            point_of(old.spec_width() as int, i),
        ) || on_segment(corner, to, point_of(old.spec_width() as int, i))
}

pub open spec fn manhattan(a: Point, b: Point) -> int {
    (if a.0 >= b.0 { a.0 - b.0 } else { b.0 - a.0 }) + (if a.1 >= b.1 { a.1 - b.1 } else { b.1 - a.1 })
}

pub proof fn lemma_index_in_range(w: int, h: int, p: Point)
    requires
        0 <= p.0 < w,
        0 <= p.1 < h,
    ensures
        0 <= cell_index(w, p) < w * h,
        cell_index(w, p) / w == p.1,
        cell_index(w, p) % w == p.0,
{
    assert(0 <= p.1 * w + p.0 < w * h) by (nonlinear_arith)
        requires 0 <= p.0 < w, 0 <= p.1 < h;
    vstd::arithmetic::div_mod::lemma_fundamental_div_mod_converse(p.1 * w + p.0, w, p.1 as int, p.0 as int);
}

pub proof fn lemma_index_injective(w: int, h: int, p: Point, q: Point)
    requires
        0 <= p.0 < w,
        0 <= p.1 < h,
        0 <= q.0 < w,
        0 <= q.1 < h,
        cell_index(w, p) == cell_index(w, q),
    ensures
        p == q,
{
    lemma_index_in_range(w, h, p);
    lemma_index_in_range(w, h, q);
}

/// Storage positions and points of a grid correspond one to one.
pub proof fn lemma_point_of(w: int, h: int, i: int)
    requires
        0 < w <= u16::MAX,
        h <= u16::MAX,
        0 <= i < w * h,
    ensures
        point_of(w, i).0 < w,
        point_of(w, i).1 < h,
        cell_index(w, point_of(w, i)) == i,
{
    vstd::arithmetic::div_mod::lemma_fundamental_div_mod(i, w);
    vstd::arithmetic::div_mod::lemma_div_pos_is_pos(i, w);
    vstd::arithmetic::div_mod::lemma_mod_pos_bound(i, w);
    assert(i / w < h) by {
        vstd::arithmetic::div_mod::lemma_div_is_ordered(i, w * h - 1, w);
        vstd::arithmetic::div_mod::lemma_div_multiples_vanish_fancy(h - 1, w - 1, w);
        assert(w * h - 1 == w * (h - 1) + (w - 1)) by (nonlinear_arith);
    }
    assert(point_of(w, i).0 == i % w);
    assert(point_of(w, i).1 == i / w);
    vstd::arithmetic::mul::lemma_mul_is_commutative(i / w, w);
}

/// The number of cells of a grid of the given extent.
fn cell_count(width: u16, height: u16) -> (r: usize)
    ensures
        r == width * height,
{
    let w = width as usize;
    let h = height as usize;
    assert(w * h <= 65535 * 65535) by (nonlinear_arith)
        requires w <= 65535, h <= 65535;
    w * h
}

impl<V> Grid<V> {
    /// The cells, row by row.
    pub closed spec fn cells(&self) -> Seq<V> {
        self.data@
    }

    pub closed spec fn spec_width(&self) -> u16 {
        self.size.0
    }

    pub closed spec fn spec_height(&self) -> u16 {
        self.size.1
    }

    /// There is exactly one cell for each point of `[0, width) x [0, height)`.
    pub open spec fn wf(&self) -> bool {
        self.cells().len() == self.spec_width() * self.spec_height()
    }

    pub open spec fn in_bounds(&self, p: Point) -> bool {
        p.0 < self.spec_width() && p.1 < self.spec_height()
    }

    /// The value of the cell at `p`.
    pub open spec fn at(&self, p: Point) -> V {
        self.cells()[cell_index(self.spec_width() as int, p)]
    }

    /// A grid whose every cell holds `value`.
    pub fn new_init(width: u16, height: u16, value: V) -> (r: Grid<V>)
        where
            V: Copy,
        ensures
            r.wf(),
            r.spec_width() == width,
            r.spec_height() == height,
            forall|i: int| 0 <= i < r.cells().len() ==> r.cells()[i] == value,
    {
        let size = cell_count(width, height);
        let mut data: Vec<V> = Vec::with_capacity(size);
        let mut i: usize = 0;
        while i < size
            invariant
                i <= size,
                size == width * height,
                data@.len() == i,
                forall|k: int| 0 <= k < i ==> data@[k] == value,
            decreases size - i,
        {
            data.push(value);
            i += 1;
        }
        Grid { data, size: (width, height) }
    }

    /// The grid of the given extent that holds `cells` row by row, or `None`
    /// where their number is not `width * height`.
    pub fn from_cells(width: u16, height: u16, cells: Vec<V>) -> (r: Option<Grid<V>>)
        ensures
            r is Some <==> cells@.len() == width * height,
            r is Some ==> r->0.wf() && r->0.spec_width() == width && r->0.spec_height() == height
                && r->0.cells() == cells@,
    {
        if cells.len() == cell_count(width, height) {
            Some(Grid { data: cells, size: (width, height) })
        } else {
            None
        }
    }

    pub fn width(&self) -> (r: u16)
        ensures
            r == self.spec_width(),
    {
        self.size.0
    }

    pub fn height(&self) -> (r: u16)
        ensures
            r == self.spec_height(),
    {
        self.size.1
    }

    /// The rectangle that covers the whole grid.
    pub fn rectangle(&self) -> (r: Rectangle)
        requires
            self.spec_width() > 0,
            self.spec_height() > 0,
        ensures
            r.wf(),
            r.topleft == Point(0, 0),
            r.bottomright == Point((self.spec_width() - 1) as u16, (self.spec_height() - 1) as u16),
            forall|p: Point| r.contains(p) <==> self.in_bounds(p),
    {
        Rectangle::new_dims(0, 0, self.size.0, self.size.1)
    }

    pub fn width_as_usize(&self) -> (r: usize)
        ensures
            r == self.spec_width(),
    {
        self.size.0 as usize
    }

    pub fn height_as_usize(&self) -> (r: usize)
        ensures
            r == self.spec_height(),
    {
        self.size.1 as usize
    }

    /// Point to position in storage.
    pub fn index(&self, point: &Point) -> (r: usize)
        ensures
            r == cell_index(self.spec_width() as int, *point),
    {
        let y = point.1 as usize;
        let w = self.size.0 as usize;
        assert(y * w + point.0 <= 65535 * 65535 + 65535) by (nonlinear_arith)
            requires y <= 65535, w <= 65535, point.0 <= 65535;
        y * w + point.0 as usize
    }

    /// Position in storage to point.
    pub fn point(&self, index: usize) -> (r: Point)
        requires
            self.spec_width() > 0,
            index < self.spec_width() * self.spec_height(),
        ensures
            self.in_bounds(r),
            r == point_of(self.spec_width() as int, index as int),
            cell_index(self.spec_width() as int, r) == index,
    {
        let w = self.size.0 as usize;
        proof {
            lemma_point_of(w as int, self.spec_height() as int, index as int);
        }
        Point((index % w) as u16, (index / w) as u16)
    }

    /// The value at `point`, or `None` outside the grid.
    pub fn get(&self, point: &Point) -> (r: Option<&V>)
        requires
            self.wf(),
        ensures
            self.in_bounds(*point) ==> r is Some && *(r->0) == self.at(*point),
            !self.in_bounds(*point) ==> r is None,
    {
        if point.0 < self.size.0 && point.1 < self.size.1 {
            let i = self.index(point);
            proof {
                lemma_index_in_range(self.spec_width() as int, self.spec_height() as int, *point);
            }
            Some(&self.data[i])
        } else {
            None
        }
    }

    /// The value at position `index` of the storage, or `None` beyond its end.
    pub fn get_by_index(&self, index: usize) -> (r: Option<&V>)
        ensures
            index < self.cells().len() ==> r is Some && *(r->0) == self.cells()[index as int],
            index >= self.cells().len() ==> r is None,
    {
        if index < self.data.len() {
            Some(&self.data[index])
        } else {
            None
        }
    }

    /// The value at `point`, which must lie in the grid.
    pub fn value(&self, point: &Point) -> (r: V)
        where
            V: Copy,
        requires
            self.wf(),
            self.in_bounds(*point),
        ensures
            r == self.at(*point),
    {
        let i = self.index(point);
        proof {
            lemma_index_in_range(self.spec_width() as int, self.spec_height() as int, *point);
        }
        self.data[i]
    }

    /// Stores `value` at `point`; returns `false`, changing nothing, outside
    /// the grid.
    pub fn set(&mut self, point: &Point, value: V) -> (r: bool)
        requires
            old(self).wf(),
        ensures
            r == old(self).in_bounds(*point),
            final(self).spec_width() == old(self).spec_width(),
            final(self).spec_height() == old(self).spec_height(),
            final(self).wf(),
            r ==> final(self).cells() == old(self).cells().update(
                cell_index(old(self).spec_width() as int, *point),
                value,
            ),
            !r ==> final(self).cells() == old(self).cells(),
    {
        if point.0 < self.size.0 && point.1 < self.size.1 {
            let i = self.index(point);
            proof {
                lemma_index_in_range(self.spec_width() as int, self.spec_height() as int, *point);
            }
            self.data.set(i, value);
            true
        } else {
            false
        }
    }

    /// A mutable reference to the value at `point`, or `None` outside the grid.
    pub fn get_mut(&mut self, point: &Point) -> (r: Option<&mut V>)
        requires
            old(self).wf(),
        ensures
            old(self).in_bounds(*point) ==> r is Some && *(r->0) == old(self).at(*point)
                && final(self).spec_width() == old(self).spec_width() && final(self).spec_height()
                == old(self).spec_height() && final(self).cells() == old(self).cells().update(
                cell_index(old(self).spec_width() as int, *point),
                *final(r->0),
            ),
            !old(self).in_bounds(*point) ==> r is None && *final(self) == *old(self),
    {
        if point.0 < self.size.0 && point.1 < self.size.1 {
            let i = self.index(point);
            proof {
                lemma_index_in_range(self.spec_width() as int, self.spec_height() as int, *point);
            }
            Some(&mut self.data[i])
        } else {
            None
        }
    }

    /// A mutable reference to the value at position `index` of the storage,
    /// or `None` beyond its end.
    pub fn get_mut_by_index(&mut self, index: usize) -> (r: Option<&mut V>)
        ensures
            index < old(self).cells().len() ==> r is Some && *(r->0) == old(self).cells()[index as int]
                && final(self).spec_width() == old(self).spec_width() && final(self).spec_height()
                == old(self).spec_height() && final(self).cells() == old(self).cells().update(
                index as int,
                *final(r->0),
            ),
            index >= old(self).cells().len() ==> r is None && *final(self) == *old(self),
    {
        if index < self.data.len() {
            Some(&mut self.data[index])
        } else {
            None
        }
    }

    /// Stores `value` at position `index` of the storage; returns `false`,
    /// changing nothing, beyond its end.
    pub fn set_index(&mut self, index: usize, value: V) -> (r: bool)
        ensures
            r == (index < old(self).cells().len()),
            final(self).spec_width() == old(self).spec_width(),
            final(self).spec_height() == old(self).spec_height(),
            r ==> final(self).cells() == old(self).cells().update(index as int, value),
            !r ==> final(self).cells() == old(self).cells(),
    {
        if index < self.data.len() {
            self.data.set(index, value);
            true
        } else {
            false
        }
    }

    pub fn get_data_vec(&self) -> (r: &Vec<V>)
        ensures
            r@ == self.cells(),
    {
        &self.data
    }

    /// Walk over every point of the grid with its value, row by row.
    pub fn iter(&self) -> (r: GridIterator<'_, V>)
        requires
            self.spec_width() > 0,
            self.spec_height() > 0,
        ensures
            r.grid() == *self,
            r.rect_iter().rectangle() == (Rectangle {
                topleft: Point(0, 0),
                bottomright: Point((self.spec_width() - 1) as u16, (self.spec_height() - 1) as u16),
            }),
            r.rect_iter().current() is None,
    {
        GridIterator { grid: self, current: self.rectangle().iter() }
    }
}

impl<'a, V> GridIterator<'a, V> {
    pub closed spec fn grid(&self) -> Grid<V> {
        *self.grid
    }

    pub closed spec fn rect_iter(&self) -> RectIterator {
        self.current
    }

    /// The next point of the grid with its value, or `None` at the end.
    pub fn next(&mut self) -> (r: Option<(Point, &'a V)>)
        requires
            old(self).grid().wf(),
        ensures
            final(self).grid() == old(self).grid(),
            final(self).rect_iter().rectangle() == old(self).rect_iter().rectangle(),
            final(self).rect_iter().current() == match old(self).rect_iter().current() {
                None => Some(old(self).rect_iter().rectangle().topleft),
                Some(c) => rect_step(old(self).rect_iter().rectangle(), c),
            },
            final(self).rect_iter().current() is None ==> r is None,
            final(self).rect_iter().current() is Some && old(self).grid().in_bounds(
                final(self).rect_iter().current()->0,
            ) ==> r is Some && (r->0).0 == final(self).rect_iter().current()->0 && *((r->0).1)
                == old(self).grid().at(final(self).rect_iter().current()->0),
    {
        match self.current.next() {
            Some(p) => match self.grid.get(&p) {
                Some(v) => Some((p, v)),
                None => None,
            },
            None => None,
        }
    }
}


impl Grid<u8> {
    /// The point lies in the grid and its cell is nonzero.
    pub open spec fn occupied(&self, p: Point) -> bool {
        self.in_bounds(p) && self.at(p) != 0
    }

    /// The neighbour of `p` in direction `d` lies in the grid and is occupied.
    pub open spec fn spec_hasneighbour(&self, p: Point, d: Direction) -> bool {
        match neighbour_of(p, d, Some(self.spec_width()), Some(self.spec_height())) {
            Some(n) => self.occupied(n),
            None => false,
        }
    }

    /// How many of the four neighbours of `p` are occupied.
    pub open spec fn spec_countneighbours(&self, p: Point) -> int {
        (if self.spec_hasneighbour(p, Direction::North) { 1int } else { 0 }) + (if self.spec_hasneighbour(
            p,
            Direction::East,
        ) { 1int } else { 0 }) + (if self.spec_hasneighbour(p, Direction::South) { 1int } else { 0 })
            + (if self.spec_hasneighbour(p, Direction::West) { 1int } else { 0 })
    }

    /// The occupied neighbour of `p` in direction `d`, as a sequence of at most one point.
    pub open spec fn neighbour_seq(&self, p: Point, d: Direction) -> Seq<Point> {
        if self.spec_hasneighbour(p, d) {
            seq![neighbour_of(p, d, Some(self.spec_width()), Some(self.spec_height()))->0]
        } else {
            seq![]
        }
    }

    /// The occupied neighbours of `p` in the order north, east, south, west.
    pub open spec fn occupied_neighbours(&self, p: Point) -> Seq<Point> {
        self.neighbour_seq(p, Direction::North) + self.neighbour_seq(p, Direction::East)
            + self.neighbour_seq(p, Direction::South) + self.neighbour_seq(p, Direction::West)
    }

    /// `path` runs from `from` to `to` in single steps between adjacent points
    /// of the grid.
    pub open spec fn is_walk(&self, path: Seq<Point>, from: Point, to: Point) -> bool {
        &&& path.len() > 0
        &&& path[0] == from
        &&& path.last() == to
        &&& forall|k: int| 0 <= k < path.len() ==> self.in_bounds(#[trigger] path[k])
        &&& forall|k: int| 0 <= k < path.len() - 1 ==> #[trigger] adjacent(path[k], path[k + 1])
    }

    /// `path` is a walk of adjacent points whose every cell holds a value in `[lo, hi]`.
    pub open spec fn is_chain(&self, path: Seq<Point>, lo: u8, hi: u8) -> bool {
        &&& path.len() > 0
        &&& self.is_walk(path, path[0], path.last())
        &&& forall|k: int| 0 <= k < path.len() ==> lo <= #[trigger] self.at(path[k]) <= hi
    }

    /// `a` reaches `b` through adjacent cells that all hold a value in `[lo, hi]`.
    pub open spec fn linked(&self, a: Point, b: Point, lo: u8, hi: u8) -> bool {
        exists|path: Seq<Point>| self.is_chain(path, lo, hi) && path[0] == a && path.last() == b
    }

    /// A grid of the given extent with every cell zero.
    pub fn new(width: u16, height: u16) -> (r: Grid<u8>)
        ensures
            r.wf(),
            r.spec_width() == width,
            r.spec_height() == height,
            forall|i: int| 0 <= i < r.cells().len() ==> r.cells()[i] == 0,
    {
        Grid::new_init(width, height, 0u8)
    }

    /// Whether some cell holds zero.
    pub fn has_empty(&self) -> (r: bool)
        ensures
            r == exists|i: int| 0 <= i < self.cells().len() && self.cells()[i] == 0,
    {
        let mut i: usize = 0;
        while i < self.data.len()
            invariant
                i <= self.cells().len(),
                self.data@ == self.cells(),
                forall|k: int| 0 <= k < i ==> self.cells()[k] != 0,
            decreases self.cells().len() - i,
        {
            if self.data[i] == 0 {
                return true;
            }
            i += 1;
        }
        false
    }

    /// The first empty cell in row-major order, if any.
    pub fn first_empty(&self) -> (r: Option<Point>)
        requires
            self.wf(),
        ensures
            r is Some ==> self.in_bounds(r->0) && self.at(r->0) == 0,
            r is None ==> forall|i: int| 0 <= i < self.cells().len() ==> #[trigger] self.cells()[i] != 0,
    {
        let mut i: usize = 0;
        while i < self.data.len()
            invariant
                self.wf(),
                i <= self.cells().len(),
                self.data@ == self.cells(),
                forall|k: int| 0 <= k < i ==> #[trigger] self.cells()[k] != 0,
            decreases self.cells().len() - i,
        {
            if self.data[i] == 0 {
                proof {
                    if self.spec_width() == 0 {
                        assert(self.spec_width() * self.spec_height() == 0);
                    }
                }
                return Some(self.point(i));
            }
            i += 1;
        }
        None
    }

    /// Whether the cell at `point` is occupied (nonzero).
    pub fn is_set(&self, point: &Point) -> (r: bool)
        requires
            self.wf(),
            self.in_bounds(*point),
        ensures
            r == (self.at(*point) != 0),
    {
        self.value(point) != 0
    }

    /// Whether the neighbour in `direction` exists in the grid and is occupied.
    pub fn hasneighbour(&self, point: &Point, direction: Direction) -> (r: bool)
        requires
            self.wf(),
        ensures
            r == self.spec_hasneighbour(*point, direction),
    {
        match point.neighbour(direction, Some(self.size.0), Some(self.size.1)) {
            Some(n) => match self.get(&n) {
                Some(v) => *v != 0,
                None => false,
            },
            None => false,
        }
    }

    /// Occupancy of the north, east, south and west neighbours.
    pub fn hasneighbours(&self, point: &Point) -> (r: (bool, bool, bool, bool))
        requires
            self.wf(),
        ensures
            r.0 == self.spec_hasneighbour(*point, Direction::North),
            r.1 == self.spec_hasneighbour(*point, Direction::East),
            r.2 == self.spec_hasneighbour(*point, Direction::South),
            r.3 == self.spec_hasneighbour(*point, Direction::West),
    {
        (
            self.hasneighbour(point, Direction::North),
            self.hasneighbour(point, Direction::East),
            self.hasneighbour(point, Direction::South),
            self.hasneighbour(point, Direction::West),
        )
    }

    /// The number of occupied neighbours, from 0 to 4.
    pub fn countneighbours(&self, point: &Point) -> (r: usize)
        requires
            self.wf(),
        ensures
            r == self.spec_countneighbours(*point),
            r <= 4,
    {
        let mut count: usize = 0;
        if self.hasneighbour(point, Direction::North) {
            count += 1;
        }
        if self.hasneighbour(point, Direction::East) {
            count += 1;
        }
        if self.hasneighbour(point, Direction::South) {
            count += 1;
        }
        if self.hasneighbour(point, Direction::West) {
            count += 1;
        }
        count
    }

    /// The neighbour in `direction`, if it lies in the grid.
    pub fn getneighbour(&self, point: &Point, direction: Direction) -> (r: Option<Point>)
        ensures
            r == neighbour_of(*point, direction, Some(self.spec_width()), Some(self.spec_height())),
    {
        point.neighbour(direction, Some(self.size.0), Some(self.size.1))
    }

    /// The occupied neighbours, in the order north, east, south, west.
    pub fn getneighbours(&self, point: &Point) -> (r: Vec<Point>)
        requires
            self.wf(),
        ensures
            r@ == self.occupied_neighbours(*point),
    {
        let mut neighbours: Vec<Point> = Vec::new();
        if self.hasneighbour(point, Direction::North) {
            neighbours.push(self.getneighbour(point, Direction::North).unwrap());
        }
        assert(neighbours@ =~= self.neighbour_seq(*point, Direction::North));
        if self.hasneighbour(point, Direction::East) {
            neighbours.push(self.getneighbour(point, Direction::East).unwrap());
        }
        assert(neighbours@ =~= self.neighbour_seq(*point, Direction::North) + self.neighbour_seq(*point, Direction::East));
        if self.hasneighbour(point, Direction::South) {
            neighbours.push(self.getneighbour(point, Direction::South).unwrap());
        }
        assert(neighbours@ =~= self.neighbour_seq(*point, Direction::North) + self.neighbour_seq(*point, Direction::East)
            + self.neighbour_seq(*point, Direction::South));
        if self.hasneighbour(point, Direction::West) {
            neighbours.push(self.getneighbour(point, Direction::West).unwrap());
        }
        assert(neighbours@ =~= self.occupied_neighbours(*point));
        neighbours
    }

    /// The largest cell value.
    pub fn max(&self) -> (r: u8)
        requires
            self.wf(),
            self.cells().len() > 0,
        ensures
            exists|i: int| 0 <= i < self.cells().len() && self.cells()[i] == r,
            forall|i: int| 0 <= i < self.cells().len() ==> self.cells()[i] <= r,
    {
        let mut largest: u8 = self.data[0];
        let mut i: usize = 1;
        while i < self.data.len()
            invariant
                1 <= i <= self.cells().len(),
                self.data@ == self.cells(),
                exists|k: int| 0 <= k < self.cells().len() && self.cells()[k] == largest,
                forall|k: int| 0 <= k < i ==> self.cells()[k] <= largest,
            decreases self.cells().len() - i,
        {
            if self.data[i] > largest {
                largest = self.data[i];
            }
            i += 1;
        }
        largest
    }

    /// The smallest cell value.
    pub fn min(&self) -> (r: u8)
        requires
            self.wf(),
            self.cells().len() > 0,
        ensures
            exists|i: int| 0 <= i < self.cells().len() && self.cells()[i] == r,
            forall|i: int| 0 <= i < self.cells().len() ==> r <= self.cells()[i],
    {
        let mut smallest: u8 = self.data[0];
        let mut i: usize = 1;
        while i < self.data.len()
            invariant
                1 <= i <= self.cells().len(),
                self.data@ == self.cells(),
                exists|k: int| 0 <= k < self.cells().len() && self.cells()[k] == smallest,
                forall|k: int| 0 <= k < i ==> smallest <= self.cells()[k],
            decreases self.cells().len() - i,
        {
            if self.data[i] < smallest {
                smallest = self.data[i];
            }
            i += 1;
        }
        smallest
    }

    /// A grid of the same extent whose cell at each point `p` is `f(p, v)`,
    /// where `v` is the value here.
    pub fn map_into<W, F: Fn(Point, u8) -> W>(&self, f: F) -> (r: Grid<W>)
        requires
            self.wf(),
            forall|p: Point, v: u8| #[trigger] f.requires((p, v)),
        ensures
            r.wf(),
            r.spec_width() == self.spec_width(),
            r.spec_height() == self.spec_height(),
            forall|i: int|
                0 <= i < r.cells().len() ==> f.ensures(
                    (point_of(self.spec_width() as int, i), self.cells()[i]),
                    #[trigger] r.cells()[i],
                ),
    {
        let n = self.data.len();
        let mut out: Vec<W> = Vec::with_capacity(n);
        let mut i: usize = 0;
        while i < n
            invariant
                i <= n,
                n == self.cells().len(),
                self.data@ == self.cells(),
                self.wf(),
                out@.len() == i,
                forall|p: Point, v: u8| #[trigger] f.requires((p, v)),
                forall|k: int|
                    0 <= k < i ==> f.ensures(
                        (point_of(self.spec_width() as int, k), self.cells()[k]),
                        #[trigger] out@[k],
                    ),
            decreases n - i,
        {
            proof {
                if self.spec_width() == 0 {
                    assert(self.spec_width() * self.spec_height() == 0);
                }
            }
            let p = self.point(i);
            let w = f(p, self.data[i]);
            out.push(w);
            i += 1;
        }
        Grid { data: out, size: self.size }
    }

    /// Raises the cell at `point` by `amount`; where that would pass the
    /// largest value the cell is left at the largest value and `false` comes
    /// back.
    pub fn inc(&mut self, point: &Point, amount: u8) -> (r: bool)
        requires
            old(self).wf(),
            old(self).in_bounds(*point),
        ensures
            r == (old(self).at(*point) + amount <= u8::MAX),
            old(self).at(*point) == u8::MAX ==> final(self).at(*point) == u8::MAX && (r <==> amount == 0),
            final(self).wf(),
            final(self).spec_width() == old(self).spec_width(),
            final(self).spec_height() == old(self).spec_height(),
            final(self).cells() == old(self).cells().update(
                cell_index(old(self).spec_width() as int, *point),
                sat_add(old(self).at(*point), amount),
            ),
    {
        let v = self.value(point);
        proof {
            lemma_index_in_range(self.spec_width() as int, self.spec_height() as int, *point);
        }
        match v.checked_add(amount) {
            Some(n) => {
                self.set(point, n);
                true
            },
            None => {
                self.set(point, u8::MAX);
                false
            },
        }
    }

    /// Lowers the cell at `point` by `amount`; where that would pass zero the
    /// cell is left at zero and `false` comes back.
    pub fn dec(&mut self, point: &Point, amount: u8) -> (r: bool)
        requires
            old(self).wf(),
            old(self).in_bounds(*point),
        ensures
            r == (old(self).at(*point) >= amount),
            final(self).wf(),
            final(self).spec_width() == old(self).spec_width(),
            final(self).spec_height() == old(self).spec_height(),
            final(self).cells() == old(self).cells().update(
                cell_index(old(self).spec_width() as int, *point),
                sat_sub(old(self).at(*point), amount),
            ),
    {
        let v = self.value(point);
        match v.checked_sub(amount) {
            Some(n) => {
                self.set(point, n);
                true
            },
            None => {
                self.set(point, 0);
                false
            },
        }
    }

    /// One step from `walk` toward `to`: along whichever axis is not yet
    /// aligned, with a fair coin between the two while neither is.
    fn step_toward(&self, rng: &mut Pcg32, walk: Point, to: Point) -> (r: Point)
        requires
            self.in_bounds(walk),
            self.in_bounds(to),
            walk != to,
        ensures
            self.in_bounds(r),
            adjacent(walk, r),
            manhattan(r, to) == manhattan(walk, to) - 1,
    {
        let off_x = walk.0 != to.0;
        let off_y = walk.1 != to.1;
        let along_x = if off_x && off_y {
            draw_bool(rng)
        } else {
            off_x
        };
        if along_x {
            if to.0 > walk.0 {
                Point(walk.0 + 1, walk.1)
            } else {
                Point(walk.0 - 1, walk.1)
            }
        } else {
            if to.1 > walk.1 {
                Point(walk.0, walk.1 + 1)
            } else {
                Point(walk.0, walk.1 - 1)
            }
        }
    }

    /// Sets the empty cells along row `row`, from column `x1` to `x2`, to `value`.
    fn fill_row(&mut self, row: u16, x1: u16, x2: u16, value: u8)
        requires
            old(self).wf(),
            x1 <= x2 < old(self).spec_width(),
            row < old(self).spec_height(),
        ensures
            final(self).wf(),
            final(self).spec_width() == old(self).spec_width(),
            final(self).spec_height() == old(self).spec_height(),
            only_fills(old(self).cells(), final(self).cells(), value),
            forall|x: int|
                x1 <= x <= x2 ==> #[trigger] final(self).at(Point(x as u16, row)) == value || old(self).at(
                    Point(x as u16, row),
                ) != 0,
            forall|i: int|
                0 <= i < old(self).cells().len() && #[trigger] final(self).cells()[i] != old(self).cells()[i]
                    ==> point_of(old(self).spec_width() as int, i).1 == row && x1 <= point_of(
                    old(self).spec_width() as int,
                    i,
                ).0 <= x2,
    {
        let ghost g0 = *self;
        let ghost w = self.spec_width() as int;
        let ghost h = self.spec_height() as int;
        let mut x: u32 = x1 as u32;
        while x <= x2 as u32
            invariant
                self.wf(),
                self.spec_width() == w,
                self.spec_height() == h,
                g0 == *old(self),
                g0.spec_width() == w && g0.spec_height() == h,
                x1 <= x <= x2 + 1,
                x2 < w,
                row < h,
                only_fills(g0.cells(), self.cells(), value),
                forall|x3: int| x1 <= x3 < x ==> #[trigger] self.at(Point(x3 as u16, row)) == value || g0.at(Point(x3 as u16, row)) != 0,
                forall|i: int|
                    0 <= i < g0.cells().len() && #[trigger] self.cells()[i] != g0.cells()[i] ==> point_of(w, i).1
                        == row && x1 <= point_of(w, i).0 < x,
            decreases x2 + 1 - x,
        {
            let p = Point(x as u16, row);
            proof {
                lemma_index_in_range(w, h, p);
            }
            let ghost before = *self;
            if !self.is_set(&p) {
                self.set(&p, value);
            }
            proof {
                let i = cell_index(w, p);
                assert(self.at(p) == value || g0.at(p) != 0) by {
                    assert(before.cells()[i] == g0.cells()[i] || (g0.cells()[i] == 0 && before.cells()[i] == value));
                    if before.at(p) != 0 {
                        assert(self.cells() == before.cells());
                    } else {
                        assert(self.cells()[i] == value);
                    }
                }
                assert forall|j: int| 0 <= j < g0.cells().len() && #[trigger] self.cells()[j] != g0.cells()[j] implies point_of(w, j).1
                    == row && x1 <= point_of(w, j).0 < x + 1 by {
                    if j == i {
                        assert(point_of(w, i) == p);
                    } else {
                        assert(self.cells()[j] == before.cells()[j]);
                    }
                }
                assert forall|x3: int| x1 <= x3 < x + 1 implies #[trigger] self.at(Point(x3 as u16, row)) == value
                    || g0.at(Point(x3 as u16, row)) != 0 by {
                    if x3 < x {
                        assert(before.at(Point(x3 as u16, row)) == value || g0.at(Point(x3 as u16, row)) != 0);
                        lemma_index_in_range(w, h, Point(x3 as u16, row));
                    }
                }
            }
            x += 1;
        }
    }

    /// Sets the empty cells along column `col`, from row `y1` to `y2`, to `value`.
    fn fill_col(&mut self, col: u16, y1: u16, y2: u16, value: u8)
        requires
            old(self).wf(),
            y1 <= y2 < old(self).spec_height(),
            col < old(self).spec_width(),
        ensures
            final(self).wf(),
            final(self).spec_width() == old(self).spec_width(),
            final(self).spec_height() == old(self).spec_height(),
            only_fills(old(self).cells(), final(self).cells(), value),
            forall|y: int|
                y1 <= y <= y2 ==> #[trigger] final(self).at(Point(col, y as u16)) == value || old(self).at(
                    Point(col, y as u16),
                ) != 0,
            forall|i: int|
                0 <= i < old(self).cells().len() && #[trigger] final(self).cells()[i] != old(self).cells()[i]
                    ==> point_of(old(self).spec_width() as int, i).0 == col && y1 <= point_of(
                    old(self).spec_width() as int,
                    i,
                ).1 <= y2,
    {
        let ghost g0 = *self;
        let ghost w = self.spec_width() as int;
        let ghost h = self.spec_height() as int;
        let mut y: u32 = y1 as u32;
        while y <= y2 as u32
            invariant
                self.wf(),
                self.spec_width() == w,
                self.spec_height() == h,
                g0 == *old(self),
                g0.spec_width() == w && g0.spec_height() == h,
                y1 <= y <= y2 + 1,
                y2 < h,
                col < w,
                only_fills(g0.cells(), self.cells(), value),
                forall|y3: int| y1 <= y3 < y ==> #[trigger] self.at(Point(col, y3 as u16)) == value || g0.at(Point(col, y3 as u16)) != 0,
                forall|i: int|
                    0 <= i < g0.cells().len() && #[trigger] self.cells()[i] != g0.cells()[i] ==> point_of(w, i).0
                        == col && y1 <= point_of(w, i).1 < y,
            decreases y2 + 1 - y,
        {
            let p = Point(col, y as u16);
            proof {
                lemma_index_in_range(w, h, p);
            }
            let ghost before = *self;
            if !self.is_set(&p) {
                self.set(&p, value);
            }
            proof {
                let i = cell_index(w, p);
                assert(self.at(p) == value || g0.at(p) != 0) by {
                    assert(before.cells()[i] == g0.cells()[i] || (g0.cells()[i] == 0 && before.cells()[i] == value));
                    if before.at(p) != 0 {
                        assert(self.cells() == before.cells());
                    } else {
                        assert(self.cells()[i] == value);
                    }
                }
                assert forall|j: int| 0 <= j < g0.cells().len() && #[trigger] self.cells()[j] != g0.cells()[j] implies point_of(w, j).0
                    == col && y1 <= point_of(w, j).1 < y + 1 by {
                    if j == i {
                        assert(point_of(w, i) == p);
                    } else {
                        assert(self.cells()[j] == before.cells()[j]);
                    }
                }
                assert forall|y3: int| y1 <= y3 < y + 1 implies #[trigger] self.at(Point(col, y3 as u16)) == value
                    || g0.at(Point(col, y3 as u16)) != 0 by {
                    if y3 < y {
                        assert(before.at(Point(col, y3 as u16)) == value || g0.at(Point(col, y3 as u16)) != 0);
                        lemma_index_in_range(w, h, Point(col, y3 as u16));
                        if cell_index(w, Point(col, y3 as u16)) == i {
                            lemma_index_injective(w, h, Point(col, y3 as u16), p);
                        }
                    }
                }
            }
            y += 1;
        }
    }

    /// Carves a path of one horizontal and one vertical run between `from`
    /// and `to`, turning at `(to.x, from.y)` or at `(from.x, to.y)` by a fair
    /// coin; its empty cells are set to `value`, occupied ones are left alone.
    pub fn rectpathto(&mut self, rng: &mut Pcg32, from: &Point, to: &Point, value: u8)
        requires
            old(self).wf(),
            old(self).in_bounds(*from),
            old(self).in_bounds(*to),
        ensures
            final(self).wf(),
            final(self).spec_width() == old(self).spec_width(),
            final(self).spec_height() == old(self).spec_height(),
            only_fills(old(self).cells(), final(self).cells(), value),
            *from != *to ==> exists|c: Point|
                (c == Point(to.0, from.1) || c == Point(from.0, to.1)) && #[trigger] on_corner_path(
                    *old(self),
                    *final(self),
                    *from,
                    c,
                    *to,
                    value,
                ) && changed_on_corner_path(*old(self), *final(self), *from, c, *to),
            *from == *to ==> final(self).cells() == old(self).cells(),
    {
        if *from == *to {
            return;
        }
        let ghost g0 = *self;
        let horizontal_first = draw_bool(rng);
        let minx = if from.0 < to.0 { from.0 } else { to.0 };
        let maxx = if from.0 < to.0 { to.0 } else { from.0 };
        let miny = if from.1 < to.1 { from.1 } else { to.1 };
        let maxy = if from.1 < to.1 { to.1 } else { from.1 };
        let c = if horizontal_first { Point(to.0, from.1) } else { Point(from.0, to.1) };
        let ghost mid;
        if horizontal_first {
            self.fill_row(from.1, minx, maxx, value);
            proof { mid = *self; }
            self.fill_col(to.0, miny, maxy, value);
        } else {
            self.fill_col(from.0, miny, maxy, value);
            proof { mid = *self; }
            self.fill_row(to.1, minx, maxx, value);
        }
        proof {
            let w = g0.spec_width() as int;
            let h = g0.spec_height() as int;
            assert forall|i: int| 0 <= i < g0.cells().len() implies #[trigger] self.cells()[i] == g0.cells()[i] || (
            g0.cells()[i] == 0 && self.cells()[i] == value) by {
                assert(mid.cells()[i] == g0.cells()[i] || (g0.cells()[i] == 0 && mid.cells()[i] == value));
                assert(self.cells()[i] == mid.cells()[i] || (mid.cells()[i] == 0 && self.cells()[i] == value));
            }
            assert forall|q: Point| on_segment(*from, c, q) || on_segment(c, *to, q) implies self.at(q) == value
                || g0.at(q) != 0 by {
                assert(self.in_bounds(q));
                lemma_index_in_range(w, h, q);
                let i = cell_index(w, q);
                assert(mid.cells()[i] == g0.cells()[i] || (g0.cells()[i] == 0 && mid.cells()[i] == value));
                assert(self.cells()[i] == mid.cells()[i] || (mid.cells()[i] == 0 && self.cells()[i] == value));
                if horizontal_first {
                    if q.1 == from.1 && minx <= q.0 <= maxx {
                        assert(mid.at(Point((q.0 as int) as u16, from.1)) == value || g0.at(Point((q.0 as int) as u16, from.1)) != 0);
                    } else {
                        assert(self.at(Point(to.0, (q.1 as int) as u16)) == value || mid.at(Point(to.0, (q.1 as int) as u16)) != 0);
                    }
                } else {
                    if q.0 == from.0 && miny <= q.1 <= maxy {
                        assert(mid.at(Point(from.0, (q.1 as int) as u16)) == value || g0.at(Point(from.0, (q.1 as int) as u16)) != 0);
                    } else {
                        assert(self.at(Point((q.0 as int) as u16, to.1)) == value || mid.at(Point((q.0 as int) as u16, to.1)) != 0);
                    }
                }
            }
            assert(on_corner_path(g0, *self, *from, c, *to, value));
            assert forall|i: int| 0 <= i < g0.cells().len() && #[trigger] self.cells()[i] != g0.cells()[i] implies on_segment(
                *from,
                c,
                point_of(w, i),
            ) || on_segment(c, *to, point_of(w, i)) by {
                if mid.cells()[i] != g0.cells()[i] {
                } else {
                    assert(self.cells()[i] != mid.cells()[i]);
                }
            }
        }
    }

    /// Adds each cell of `other` to the cell at the same point, over the
    /// extent the two grids share, saturating at the largest value.
    pub fn add(&mut self, other: &Grid<u8>)
        requires
            old(self).wf(),
            other.wf(),
        ensures
            final(self).wf(),
            final(self).spec_width() == old(self).spec_width(),
            final(self).spec_height() == old(self).spec_height(),
            forall|p: Point|
                old(self).in_bounds(p) ==> #[trigger] final(self).at(p) == if other.in_bounds(p) {
                    sat_add(old(self).at(p), other.at(p))
                } else {
                    old(self).at(p)
                },
    {
        self.combine(other, false);
    }

    /// Subtracts each cell of `other` from the cell at the same point, over
    /// the extent the two grids share, saturating at zero.
    pub fn sub(&mut self, other: &Grid<u8>)
        requires
            old(self).wf(),
            other.wf(),
        ensures
            final(self).wf(),
            final(self).spec_width() == old(self).spec_width(),
            final(self).spec_height() == old(self).spec_height(),
            forall|p: Point|
                old(self).in_bounds(p) ==> #[trigger] final(self).at(p) == if other.in_bounds(p) {
                    sat_sub(old(self).at(p), other.at(p))
                } else {
                    old(self).at(p)
                },
    {
        self.combine(other, true);
    }

    fn combine(&mut self, other: &Grid<u8>, subtract: bool)
        requires
            old(self).wf(),
            other.wf(),
        ensures
            final(self).wf(),
            final(self).spec_width() == old(self).spec_width(),
            final(self).spec_height() == old(self).spec_height(),
            forall|p: Point|
                old(self).in_bounds(p) ==> #[trigger] final(self).at(p) == if other.in_bounds(p) {
                    combined(old(self).at(p), other.at(p), subtract)
                } else {
                    old(self).at(p)
                },
    {
        let ghost g0 = *self;
        let ghost w = self.spec_width() as int;
        let ghost h = self.spec_height() as int;
        let width = if self.size.0 < other.size.0 { self.size.0 } else { other.size.0 };
        let height = if self.size.1 < other.size.1 { self.size.1 } else { other.size.1 };
        let mut x: u16 = 0;
        while x < width
            invariant
                self.wf(),
                other.wf(),
                self.spec_width() == w,
                self.spec_height() == h,
                g0 == *old(self),
                g0.spec_width() == w && g0.spec_height() == h,
                width <= w && width <= other.spec_width(),
                height <= h && height <= other.spec_height(),
                width == w || width == other.spec_width(),
                height == h || height == other.spec_height(),
                x <= width,
                forall|p: Point|
                    g0.in_bounds(p) ==> #[trigger] self.at(p) == if p.0 < x && p.1 < height {
                        combined(g0.at(p), other.at(p), subtract)
                    } else {
                        g0.at(p)
                    },
            decreases width - x,
        {
            let mut y: u16 = 0;
            while y < height
                invariant
                    self.wf(),
                    other.wf(),
                    self.spec_width() == w,
                    self.spec_height() == h,
                    g0 == *old(self),
                    g0.spec_width() == w && g0.spec_height() == h,
                    width <= w && width <= other.spec_width(),
                    height <= h && height <= other.spec_height(),
                    x < width,
                    y <= height,
                    forall|p: Point|
                        g0.in_bounds(p) ==> #[trigger] self.at(p) == if p.0 < x && p.1 < height || p.0 == x && p.1 < y {
                            combined(g0.at(p), other.at(p), subtract)
                        } else {
                            g0.at(p)
                        },
                decreases height - y,
            {
                let p = Point(x, y);
                let amount = other.value(&p);
                let ghost before = *self;
                proof {
                    lemma_index_in_range(w, h, p);
                }
                if subtract {
                    self.dec(&p, amount);
                } else {
                    self.inc(&p, amount);
                }
                proof {
                    assert forall|q: Point| g0.in_bounds(q) implies #[trigger] self.at(q) == if q.0 < x && q.1 < height
                        || q.0 == x && q.1 < y + 1 {
                        combined(g0.at(q), other.at(q), subtract)
                    } else {
                        g0.at(q)
                    } by {
                        assert(before.at(q) == if q.0 < x && q.1 < height || q.0 == x && q.1 < y {
                            combined(g0.at(q), other.at(q), subtract)
                        } else {
                            g0.at(q)
                        });
                        lemma_index_in_range(w, h, q);
                        if q != p {
                            if cell_index(w, q) == cell_index(w, p) {
                                lemma_index_injective(w, h, q, p);
                            }
                        }
                    }
                }
                y += 1;
            }
            x += 1;
        }
        proof {
            assert forall|p: Point| g0.in_bounds(p) implies #[trigger] self.at(p) == if other.in_bounds(p) {
                combined(g0.at(p), other.at(p), subtract)
            } else {
                g0.at(p)
            } by {
                assert(self.at(p) == if p.0 < x && p.1 < height {
                    combined(g0.at(p), other.at(p), subtract)
                } else {
                    g0.at(p)
                });
            }
        }
    }

    /// Carves a random monotone walk from `from` to `to`: every visited cell
    /// but `from` that holds zero is set to `value`, and occupied cells are
    /// left as they are. Where the first step would land on an occupied cell
    /// other than `to`, the walk is dropped and drawn again, at most five
    /// times; after that it goes on regardless.
    pub fn randompathto(&mut self, rng: &mut Pcg32, from: &Point, to: &Point, value: u8)
        requires
            old(self).wf(),
            old(self).in_bounds(*from),
            old(self).in_bounds(*to),
        ensures
            final(self).wf(),
            final(self).spec_width() == old(self).spec_width(),
            final(self).spec_height() == old(self).spec_height(),
            only_fills(old(self).cells(), final(self).cells(), value),
            exists|path: Seq<Point>|
                #[trigger] final(self).is_walk(path, *from, *to) && path.len() == manhattan(*from, *to) + 1
                    && (forall|k: int|
                    1 <= k < path.len() ==> final(self).at(#[trigger] path[k]) == value || old(
                        self,
                    ).at(path[k]) != 0) && changed_on(
                    old(self).cells(),
                    final(self).cells(),
                    old(self).spec_width() as int,
                    path,
                ),
    {
        let ghost g0 = *self;
        let mut retries: u32 = 0;
        loop
            invariant
                self.wf(),
                self.spec_width() == g0.spec_width(),
                self.spec_height() == g0.spec_height(),
                self.cells() == g0.cells(),
                g0 == *old(self),
                self.in_bounds(*from),
                self.in_bounds(*to),
                retries <= 5,
            decreases 5 - retries,
        {
            let mut walk = *from;
            let ghost mut path = seq![*from];
            let mut first = true;
            let mut restart = false;
            while walk != *to
                invariant_except_break
                    !restart,
                invariant
                    self.wf(),
                    self.spec_width() == g0.spec_width(),
                    self.spec_height() == g0.spec_height(),
                    self.in_bounds(walk),
                    self.in_bounds(*to),
                    retries <= 5,
                    first ==> self.cells() == g0.cells(),
                    only_fills(g0.cells(), self.cells(), value),
                    self.is_walk(path, *from, walk),
                    path.len() + manhattan(walk, *to) == manhattan(*from, *to) + 1,
                    changed_on(g0.cells(), self.cells(), g0.spec_width() as int, path),
                    g0.spec_width() == self.spec_width(),
                    forall|k: int|
                        1 <= k < path.len() ==> self.at(#[trigger] path[k]) == value || g0.at(path[k])
                            != 0,
                ensures
                    restart ==> self.cells() == g0.cells() && retries < 5,
                    !restart ==> walk == *to,
                decreases manhattan(walk, *to),
            {
                let next = self.step_toward(rng, walk, *to);
                if first && next != *to && retries < 5 && self.is_set(&next) {
                    restart = true;
                    break;
                }
                first = false;
                walk = next;
                proof {
                    lemma_index_in_range(
                        self.spec_width() as int,
                        self.spec_height() as int,
                        walk,
                    );
                }
                let ghost before_step = *self;
                if !self.is_set(&walk) {
                    self.set(&walk, value);
                }
                proof {
                    let ghost old_path = path;
                    path = path.push(walk);
                    assert(adjacent(old_path.last(), walk));
                    assert forall|k: int| 0 <= k < path.len() - 1 implies #[trigger] adjacent(
                        path[k],
                        path[k + 1],
                    ) by {
                        if k < path.len() - 2 {
                            assert(path[k] == old_path[k] && path[k + 1] == old_path[k + 1]);
                        }
                    }
                    assert forall|i: int| 0 <= i < g0.cells().len() && #[trigger] self.cells()[i] != g0.cells()[i]
                        implies exists|k: int| 1 <= k < path.len() && cell_index(g0.spec_width() as int, #[trigger] path[k]) == i by {
                        if i == cell_index(g0.spec_width() as int, walk) {
                            assert(path[path.len() - 1] == walk);
                        } else {
                            assert(self.cells()[i] == before_step.cells()[i]);
                            let k = choose|k: int| 1 <= k < old_path.len() && cell_index(g0.spec_width() as int, #[trigger] old_path[k]) == i;
                            assert(path[k] == old_path[k]);
                        }
                    }
                    assert forall|k: int| 1 <= k < path.len() implies self.at(#[trigger] path[k])
                        == value || g0.at(path[k]) != 0 by {
                        if k < path.len() - 1 {
                            assert(path[k] == old_path[k]);
                        }
                        lemma_index_in_range(
                            self.spec_width() as int,
                            self.spec_height() as int,
                            path[k],
                        );
                    }
                }
            }
            if restart {
                retries += 1;
            } else {
                assert(self.is_walk(path, *from, *to));
                assert(changed_on(g0.cells(), self.cells(), g0.spec_width() as int, path));
                return;
            }
        }
    }
}


/// Every point of `[0, width) x [0, height)` has its own cell in a
/// well-formed grid, and that cell leads back to the point.
pub proof fn lemma_every_point_has_a_cell<V>(g: Grid<V>, p: Point)
    requires
        g.wf(),
        g.in_bounds(p),
    ensures
        0 <= cell_index(g.spec_width() as int, p) < g.cells().len(),
        point_of(g.spec_width() as int, cell_index(g.spec_width() as int, p)) == p,
{
    lemma_index_in_range(g.spec_width() as int, g.spec_height() as int, p);
}

/// Raising a cell that holds the largest value leaves it there, and the
/// raise reports success only for an amount of zero.
pub proof fn lemma_increment_saturates(v: u8, amount: u8)
    requires
        v == u8::MAX,
    ensures
        sat_add(v, amount) == u8::MAX,
        (v + amount <= u8::MAX) <==> amount == 0,
{
}

} // verus!
