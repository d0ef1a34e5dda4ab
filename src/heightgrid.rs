use vstd::prelude::*;

use crate::grid::{cell_index, lemma_index_in_range, lemma_index_injective, point_of, sat_add, Grid};
use crate::point::Point;
use crate::random::seeded_rng;
use crate::rectangle::Rectangle;

verus! {

/// What a height map is made of.
#[derive(Debug, Default)]
pub struct HeightGridProperties {
    /// The number of rectangles laid on the map.
    pub iterations: usize,
}

/// How heights become colours.
#[derive(Debug, Clone, Copy, PartialEq, Eq, Structural)]
pub enum HeightRenderStyle {
    Simple,
    HeatMap,
    Terrain,
}

/// The height map generator.
pub struct HeightGrid;

/// Point `q` of `rect` comes before `(x, y)` in the row-major walk over it.
pub open spec fn visited_before(rect: Rectangle, q: Point, x: int, y: int) -> bool {
    rect.contains(q) && (q.1 < y || (q.1 == y && q.0 < x))
}

/// A corner of a rectangle at least three cells wide and tall; such cells are
/// left out to round the corners off.
pub open spec fn rounded_corner(rect: Rectangle, p: Point) -> bool {
    rect.spec_width() >= 3 && rect.spec_height() >= 3 && (p.0 == rect.topleft.0 || p.0
        == rect.bottomright.0) && (p.1 == rect.topleft.1 || p.1 == rect.bottomright.1)
}

/// The height at `p` after raising, in order, each of `rects` by one but for
/// its rounded-off corners, saturating.
pub open spec fn layered(rects: Seq<Rectangle>, p: Point) -> u8
    decreases rects.len(),
{
    if rects.len() == 0 {
        0
    } else {
        let below = layered(rects.drop_last(), p);
        if rects.last().contains(p) && !rounded_corner(rects.last(), p) {
            sat_add(below, 1)
        } else {
            below
        }
    }
}

/// `rects` lie in the `width` x `height` map, each at least one cell and at
/// most `maxw` x `maxh`.
pub open spec fn layers_fit(rects: Seq<Rectangle>, width: int, height: int, maxw: int, maxh: int) -> bool {
    forall|k: int|
        0 <= k < rects.len() ==> (#[trigger] rects[k]).wf() && rects[k].bottomright.0 < width
            && rects[k].bottomright.1 < height && 1 <= rects[k].spec_width() <= maxw && 1 <= rects[k].spec_height()
            <= maxh
}

/// The widest (or tallest) rectangle laid on a map of the given extent: a
/// fifth of it, and at least one cell.
pub open spec fn layer_bound(extent: int) -> int {
    if extent / 5 > 1 {
        extent / 5
    } else {
        1
    }
}

/// The grey level of height `v` on a map whose heights run from `min` to `max`.
pub open spec fn grey(v: u8, min: u8, max: u8) -> int {
    if max == min {
        0
    } else {
        (v - min) * (255int / (max - min))
    }
}

impl HeightGrid {
    /// Raises every cell of `rect` by one (saturating), but for its
    /// rounded-off corners.
    fn raise(grid: &mut Grid<u8>, rect: &Rectangle)
        requires
            old(grid).wf(),
            rect.wf(),
            old(grid).in_bounds(rect.bottomright),
        ensures
            final(grid).wf(),
            final(grid).spec_width() == old(grid).spec_width(),
            final(grid).spec_height() == old(grid).spec_height(),
            forall|p: Point|
                old(grid).in_bounds(p) ==> #[trigger] final(grid).at(p) == if rect.contains(p) && !rounded_corner(
                    *rect,
                    p,
                ) {
                    sat_add(old(grid).at(p), 1)
                } else {
                    old(grid).at(p)
                },
    {
        let ghost g0 = *grid;
        let ghost w = grid.spec_width() as int;
        let ghost h = grid.spec_height() as int;
        let wide = rect.width() >= 3 && rect.height() >= 3;
        let mut y: u32 = rect.topleft.1 as u32;
        while y <= rect.bottomright.1 as u32
            invariant
                grid.wf(),
                grid.spec_width() == w,
                grid.spec_height() == h,
                g0 == *old(grid),
                g0.spec_width() == w && g0.spec_height() == h,
                rect.wf(),
                grid.in_bounds(rect.bottomright),
                rect.topleft.1 <= y <= rect.bottomright.1 + 1,
                wide == (rect.spec_width() >= 3 && rect.spec_height() >= 3),
                forall|p: Point|
                    g0.in_bounds(p) ==> #[trigger] grid.at(p) == if visited_before(*rect, p, rect.topleft.0 as int, y as int)
                        && !rounded_corner(*rect, p) {
                        sat_add(g0.at(p), 1)
                    } else {
                        g0.at(p)
                    },
            decreases rect.bottomright.1 + 1 - y,
        {
            let mut x: u32 = rect.topleft.0 as u32;
            while x <= rect.bottomright.0 as u32
                invariant
                    grid.wf(),
                    grid.spec_width() == w,
                    grid.spec_height() == h,
                    g0 == *old(grid),
                    g0.spec_width() == w && g0.spec_height() == h,
                    rect.wf(),
                    grid.in_bounds(rect.bottomright),
                    rect.topleft.1 <= y <= rect.bottomright.1,
                    rect.topleft.0 <= x <= rect.bottomright.0 + 1,
                    wide == (rect.spec_width() >= 3 && rect.spec_height() >= 3),
                    forall|p: Point|
                        g0.in_bounds(p) ==> #[trigger] grid.at(p) == if visited_before(*rect, p, x as int, y as int)
                            && !rounded_corner(*rect, p) {
                            sat_add(g0.at(p), 1)
                        } else {
                            g0.at(p)
                        },
                decreases rect.bottomright.0 + 1 - x,
            {
                let p = Point(x as u16, y as u16);
                let corner = wide && (p.0 == rect.topleft.0 || p.0 == rect.bottomright.0) && (p.1
                    == rect.topleft.1 || p.1 == rect.bottomright.1);
                let ghost before = *grid;
                proof {
                    lemma_index_in_range(w, h, p);
                }
                if !corner {
                    grid.inc(&p, 1);
                }
                proof {
                    assert forall|q: Point| g0.in_bounds(q) implies #[trigger] grid.at(q) == if visited_before(
                        *rect,
                        q,
                        x + 1,
                        y as int,
                    ) && !rounded_corner(*rect, q) {
                        sat_add(g0.at(q), 1)
                    } else {
                        g0.at(q)
                    } by {
                        assert(before.at(q) == if visited_before(*rect, q, x as int, y as int) && !rounded_corner(
                            *rect,
                            q,
                        ) {
                            sat_add(g0.at(q), 1)
                        } else {
                            g0.at(q)
                        });
                        lemma_index_in_range(w, h, q);
                        if q != p {
                            if cell_index(w, q) == cell_index(w, p) {
                                lemma_index_injective(w, h, q, p);
                            }
                        }
                    }
                }
                x += 1;
            }
            proof {
                assert forall|q: Point| g0.in_bounds(q) implies #[trigger] grid.at(q) == if visited_before(
                    *rect,
                    q,
                    rect.topleft.0 as int,
                    y + 1,
                ) && !rounded_corner(*rect, q) {
                    sat_add(g0.at(q), 1)
                } else {
                    g0.at(q)
                } by {
                    assert(visited_before(*rect, q, x as int, y as int) == visited_before(
                        *rect,
                        q,
                        rect.topleft.0 as int,
                        y + 1,
                    ));
                }
            }
            y += 1;
        }
        proof {
            assert forall|q: Point| g0.in_bounds(q) implies #[trigger] grid.at(q) == if rect.contains(q) && !rounded_corner(
                *rect,
                q,
            ) {
                sat_add(g0.at(q), 1)
            } else {
                g0.at(q)
            } by {
                assert(visited_before(*rect, q, rect.topleft.0 as int, y as int) == rect.contains(q));
            }
        }
    }

    /// One layer of rectangle raises no cell by more than one, keeps every
    /// cell at least where it was, and raises at least one cell of the
    /// rectangle to a nonzero height.
    proof fn lemma_raise_effect(g0: Grid<u8>, g1: Grid<u8>, rect: Rectangle, level: int)
        requires
            g0.wf(),
            g1.wf(),
            g0.spec_width() > 0,
            g1.spec_width() == g0.spec_width(),
            g1.spec_height() == g0.spec_height(),
            rect.wf(),
            g0.in_bounds(rect.bottomright),
            forall|p: Point|
                g0.in_bounds(p) ==> #[trigger] g1.at(p) == if rect.contains(p) && !rounded_corner(rect, p) {
                    sat_add(g0.at(p), 1)
                } else {
                    g0.at(p)
                },
            forall|i: int| 0 <= i < g0.cells().len() ==> #[trigger] g0.cells()[i] <= level,
        ensures
            forall|i: int| 0 <= i < g1.cells().len() ==> #[trigger] g1.cells()[i] <= level + 1,
            forall|i: int| 0 <= i < g1.cells().len() ==> #[trigger] g1.cells()[i] >= g0.cells()[i],
            exists|i: int| 0 <= i < g1.cells().len() && #[trigger] g1.cells()[i] > 0,
    {
        let w = g0.spec_width() as int;
        let h = g0.spec_height() as int;
        assert forall|i: int| 0 <= i < g1.cells().len() implies #[trigger] g1.cells()[i] <= level + 1
            && g1.cells()[i] >= g0.cells()[i] by {
            crate::grid::lemma_point_of(w, h, i);
            let p = point_of(w, i);
            assert(g1.at(p) == if rect.contains(p) && !rounded_corner(rect, p) {
                sat_add(g0.at(p), 1)
            } else {
                g0.at(p)
            });
        }
        let wp = if rect.spec_width() >= 3 && rect.spec_height() >= 3 {
            Point((rect.topleft.0 + 1) as u16, rect.topleft.1)
        } else {
            rect.topleft
        };
        assert(rect.contains(wp) && !rounded_corner(rect, wp));
        assert(g1.at(wp) == sat_add(g0.at(wp), 1));
        lemma_index_in_range(w, h, wp);
        assert(g1.cells()[cell_index(w, wp)] > 0);
    }

    /// Generates a height map: each iteration draws a rectangle at most a
    /// fifth of the map wide and tall (at least one cell) and raises every
    /// cell in it by one, but for the corners of one at least three cells wide
    /// and tall. A cell ends up at the number of rectangles over it, so no
    /// cell exceeds the number of iterations.
    pub fn generate(width: u16, height: u16, seed: u64, properties: HeightGridProperties) -> (r: Grid<u8>)
        requires
            width > 0,
            height > 0,
        ensures
            r.wf(),
            r.spec_width() == width,
            r.spec_height() == height,
            forall|i: int| 0 <= i < r.cells().len() ==> #[trigger] r.cells()[i] <= properties.iterations,
            properties.iterations > 0 ==> exists|i: int| 0 <= i < r.cells().len() && #[trigger] r.cells()[i] > 0,
            exists|rects: Seq<Rectangle>|
                rects.len() == properties.iterations && layers_fit(
                    rects,
                    width as int,
                    height as int,
                    layer_bound(width as int),
                    layer_bound(height as int),
                ) && forall|p: Point| #[trigger] r.in_bounds(p) ==> r.at(p) == layered(rects, p),
    {
        let mut rng = seeded_rng(seed);
        let mut grid: Grid<u8> = Grid::new(width, height);
        let bounds = grid.rectangle();
        let maxw: u16 = if width / 5 > 1 { width / 5 } else { 1 };
        let maxh: u16 = if height / 5 > 1 { height / 5 } else { 1 };
        let mut it: usize = 0;
        let ghost mut rects: Seq<Rectangle> = seq![];
        proof {
            assert forall|p: Point| #[trigger] grid.in_bounds(p) implies grid.at(p) == layered(rects, p) by {
                lemma_index_in_range(width as int, height as int, p);
            }
        }
        while it < properties.iterations
            invariant
                grid.wf(),
                grid.spec_width() == width,
                grid.spec_height() == height,
                bounds.wf(),
                bounds.topleft == Point(0, 0),
                bounds.bottomright == Point((width - 1) as u16, (height - 1) as u16),
                1 <= maxw <= width,
                1 <= maxh <= height,
                it <= properties.iterations,
                forall|i: int| 0 <= i < grid.cells().len() ==> #[trigger] grid.cells()[i] <= it,
                it > 0 ==> exists|i: int| 0 <= i < grid.cells().len() && #[trigger] grid.cells()[i] > 0,
                rects.len() == it,
                maxw == layer_bound(width as int),
                maxh == layer_bound(height as int),
                layers_fit(rects, width as int, height as int, maxw as int, maxh as int),
                forall|p: Point| #[trigger] grid.in_bounds(p) ==> grid.at(p) == layered(rects, p),
            decreases properties.iterations - it,
        {
            let rect = Rectangle::random(&mut rng, &bounds, Some(1), Some(maxw), Some(1), Some(maxh));
            let ghost before = grid;
            HeightGrid::raise(&mut grid, &rect);
            proof {
                HeightGrid::lemma_raise_effect(before, grid, rect, it as int);
                let old_rects = rects;
                rects = rects.push(rect);
                assert(rects.drop_last() =~= old_rects);
                assert forall|p: Point| #[trigger] grid.in_bounds(p) implies grid.at(p) == layered(rects, p) by {
                    assert(before.in_bounds(p));
                    assert(before.at(p) == layered(old_rects, p));
                }
                assert forall|k: int| 0 <= k < rects.len() implies (#[trigger] rects[k]).wf() && rects[k].bottomright.0 < width
                    && rects[k].bottomright.1 < height && 1 <= rects[k].spec_width() <= maxw && 1 <= rects[k].spec_height()
                    <= maxh by {
                    if k < old_rects.len() {
                        assert(rects[k] == old_rects[k]);
                    }
                }
            }
            it += 1;
        }
        grid
    }

    /// The grey level of height `v` on a map whose heights run from `min` to
    /// `max`: `(v - min) * (255int / (max - min))`, and 0 on a flat map.
    pub fn grey_level(v: u8, min: u8, max: u8) -> (r: u8)
        requires
            min <= v <= max,
        ensures
            r == grey(v, min, max),
    {
        if max == min {
            0
        } else {
            let span = max - min;
            let step = 255 / span;
            let d = v - min;
            assert(d * step <= span * (255int / (span as int))) by (nonlinear_arith)
                requires d <= span, step == 255int / (span as int), span > 0;
            assert(span * (255int / (span as int)) <= 255) by (nonlinear_arith)
                requires span > 0;
            d * step
        }
    }
}

} // verus!
