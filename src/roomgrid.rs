use vstd::prelude::*;

use crate::common::push_char;
use crate::grid::{
    cell_index, keeps_range, lemma_index_in_range, lemma_index_injective, point_of, Grid,
};
use crate::links::{
    lemma_chain_suffix, lemma_col_linked, lemma_linked_persists, lemma_linked_symm, lemma_linked_trans,
    lemma_row_linked, lemma_walk_is_chain,
};
use crate::heightgrid::visited_before;
use crate::point::Point;
use crate::random::{draw_range, seeded_rng};
use crate::rectangle::{corner_dist2, Rectangle};
use rand_pcg::Pcg32;

verus! {

/// What a room layout is made of.
pub struct RoomGridProperties {
    /// The number of rooms to place.
    pub rooms: usize,
}

/// The room-and-corridor generator and its text rendering.
///
/// Cell values: 0 is empty, anything else is floor (room or corridor).
pub struct RoomGrid;

/// The smallest width and height of a room.
pub const MIN_ROOM_EXTENT: u16 = 3;

/// The number of rejected candidates in a row after which placing stops.
pub const MAX_REJECTIONS: u32 = 100;

/// No two rooms share a point.
pub open spec fn rooms_apart(rooms: Seq<Rectangle>) -> bool {
    forall|i: int, j: int|
        0 <= i < rooms.len() && 0 <= j < rooms.len() && i != j ==> !#[trigger] rooms[i].spec_intersects(rooms[j])
}

/// The rectangle lies in the grid and all of its cells are floor.
pub open spec fn room_filled(g: Grid<u8>, room: Rectangle) -> bool {
    &&& room.wf()
    &&& g.in_bounds(room.bottomright)
    &&& forall|q: Point| #[trigger] room.contains(q) ==> g.in_bounds(q) && g.at(q) != 0
}

pub open spec fn rooms_filled(g: Grid<u8>, rooms: Seq<Rectangle>) -> bool {
    forall|k: int| 0 <= k < rooms.len() ==> #[trigger] room_filled(g, rooms[k])
}

/// Every two rooms are joined by floor cells.
pub open spec fn rooms_linked(g: Grid<u8>, rooms: Seq<Rectangle>) -> bool {
    forall|a: int, b: int|
        0 <= a < rooms.len() && 0 <= b < rooms.len() ==> #[trigger] g.linked(rooms[a].topleft, rooms[b].topleft, 1, 255)
}

/// Every cell that became floor is joined through floor to `anchor`.
pub open spec fn new_floor_joined(old: Grid<u8>, new: Grid<u8>, anchor: Point) -> bool {
    forall|p: Point| new.occupied(p) && !old.occupied(p) ==> #[trigger] new.linked(p, anchor, 1, 255)
}

/// Every floor cell is joined through floor to a room.
pub open spec fn floor_joined(g: Grid<u8>, rooms: Seq<Rectangle>) -> bool {
    forall|p: Point| #[trigger] g.occupied(p) ==> exists|k: int| 0 <= k < rooms.len() && g.linked(p, rooms[k].topleft, 1, 255)
}

/// At most `wanted` rooms, at least one where one fits and one is wanted,
/// each three cells to a quarter of the map wide and tall; no two touch, all
/// are floor, every two are joined, all floor is joined to a room, with no
/// room the map is empty, and each room after the first is joined to its
/// nearest predecessor.
pub open spec fn room_layout(g: Grid<u8>, rooms: Seq<Rectangle>, width: u16, height: u16, wanted: usize) -> bool {
    &&& rooms.len() <= wanted
    &&& width / 4 < MIN_ROOM_EXTENT || height / 4 < MIN_ROOM_EXTENT ==> rooms.len() == 0
    &&& width / 4 >= MIN_ROOM_EXTENT && height / 4 >= MIN_ROOM_EXTENT && wanted > 0 ==> rooms.len() >= 1
    &&& forall|k: int|
        0 <= k < rooms.len() ==> MIN_ROOM_EXTENT <= (#[trigger] rooms[k]).spec_width() <= width / 4
            && MIN_ROOM_EXTENT <= rooms[k].spec_height() <= height / 4
    &&& rooms_apart(rooms)
    &&& rooms_filled(g, rooms)
    &&& rooms_linked(g, rooms)
    &&& floor_joined(g, rooms)
    &&& rooms.len() == 0 ==> forall|i: int| 0 <= i < g.cells().len() ==> #[trigger] g.cells()[i] == 0
    &&& joined_to_nearest(g, rooms)
}

/// Each room after the first was joined to a room placed before it that is
/// nearest to it by the corner-distance heuristic.
pub open spec fn joined_to_nearest(g: Grid<u8>, rooms: Seq<Rectangle>) -> bool {
    forall|k: int| 1 <= k < rooms.len() ==> #[trigger] joined_to_nearest_at(g, rooms, k)
}

/// Room `k` is joined to a room placed before it that is nearest to it by
/// the corner-distance heuristic.
pub open spec fn joined_to_nearest_at(g: Grid<u8>, rooms: Seq<Rectangle>, k: int) -> bool {
    exists|j: int|
        0 <= j < k && (forall|m: int|
            0 <= m < k ==> corner_dist2(rooms[k], rooms[j]) <= corner_dist2(rooms[k], #[trigger] rooms[m]))
            && #[trigger] g.linked(rooms[k].topleft, rooms[j].topleft, 1, 255)
}

/// Every floor cell is joined through floor to a room or to `anchor`.
pub open spec fn floor_joined_or(g: Grid<u8>, rooms: Seq<Rectangle>, anchor: Point) -> bool {
    forall|p: Point|
        #[trigger] g.occupied(p) ==> (exists|k: int| 0 <= k < rooms.len() && g.linked(p, rooms[k].topleft, 1, 255))
            || g.linked(p, anchor, 1, 255)
}

/// Floor stays joined through a change that keeps floor floor.
proof fn lemma_floor_persists(g1: Grid<u8>, g2: Grid<u8>, rooms: Seq<Rectangle>, anchor: Point)
    requires
        g1.wf(),
        g2.wf(),
        g2.spec_width() == g1.spec_width(),
        g2.spec_height() == g1.spec_height(),
        keeps_range(g1.cells(), g2.cells(), 1, 255),
        floor_joined_or(g1, rooms, anchor),
    ensures
        forall|p: Point| #[trigger] g1.occupied(p) ==> g2.occupied(p) && ((exists|k: int|
            0 <= k < rooms.len() && g2.linked(p, rooms[k].topleft, 1, 255)) || g2.linked(p, anchor, 1, 255)),
{
    assert forall|p: Point| #[trigger] g1.occupied(p) implies g2.occupied(p) && ((exists|k: int|
        0 <= k < rooms.len() && g2.linked(p, rooms[k].topleft, 1, 255)) || g2.linked(p, anchor, 1, 255)) by {
        lemma_index_in_range(g1.spec_width() as int, g1.spec_height() as int, p);
        if g1.linked(p, anchor, 1, 255) {
            lemma_linked_persists(g1, g2, p, anchor, 1, 255);
        } else {
            let k = choose|k: int| 0 <= k < rooms.len() && g1.linked(p, rooms[k].topleft, 1, 255);
            lemma_linked_persists(g1, g2, p, rooms[k].topleft, 1, 255);
        }
    }
}

/// The character drawn for the cell at `p`.
pub open spec fn room_cell(g: Grid<u8>, p: Point) -> char {
    if g.at(p) != 0 {
        '█'
    } else {
        ' '
    }
}

/// The text of the first `n` cells, row by row, with a line break before
/// every row but the first.
pub open spec fn room_text(g: Grid<u8>, n: int) -> Seq<char>
    decreases n,
{
    if n <= 0 {
        seq![]
    } else {
        let w = g.spec_width() as int;
        room_text(g, n - 1) + (if (n - 1) % w == 0 && n - 1 > 0 { seq!['\n'] } else { seq![] })
            + seq![room_cell(g, point_of(w, n - 1))]
    }
}

/// Any two points of a room whose cells are all floor are joined.
proof fn lemma_room_linked(g: Grid<u8>, room: Rectangle, p: Point, q: Point)
    requires
        room_filled(g, room),
        room.contains(p),
        room.contains(q),
    ensures
        g.linked(p, q, 1, 255),
{
    let c = Point(q.0, p.1);
    assert forall|x: int| room.topleft.0 <= x <= room.bottomright.0 implies g.in_bounds(Point(x as u16, p.1))
        && 1 <= #[trigger] g.at(Point(x as u16, p.1)) <= 255 by {
        assert(room.contains(Point(x as u16, p.1)));
    }
    assert forall|y: int| room.topleft.1 <= y <= room.bottomright.1 implies g.in_bounds(Point(q.0, y as u16))
        && 1 <= #[trigger] g.at(Point(q.0, y as u16)) <= 255 by {
        assert(room.contains(Point(q.0, y as u16)));
    }
    if p.0 <= q.0 {
        lemma_row_linked(g, p.1, p.0, q.0, 1, 255);
    } else {
        lemma_row_linked(g, p.1, q.0, p.0, 1, 255);
        lemma_linked_symm(g, c, p, 1, 255);
    }
    if p.1 <= q.1 {
        lemma_col_linked(g, q.0, p.1, q.1, 1, 255);
    } else {
        lemma_col_linked(g, q.0, q.1, p.1, 1, 255);
        lemma_linked_symm(g, q, c, 1, 255);
    }
    lemma_linked_trans(g, p, c, q, 1, 255);
}

/// Floor stays floor, so filled rooms stay filled.
proof fn lemma_room_persists(g1: Grid<u8>, g2: Grid<u8>, room: Rectangle)
    requires
        g1.wf(),
        g2.spec_width() == g1.spec_width(),
        g2.spec_height() == g1.spec_height(),
        keeps_range(g1.cells(), g2.cells(), 1, 255),
        room_filled(g1, room),
    ensures
        room_filled(g2, room),
{
    assert forall|q: Point| #[trigger] room.contains(q) implies g2.in_bounds(q) && g2.at(q) != 0 by {
        lemma_index_in_range(g1.spec_width() as int, g1.spec_height() as int, q);
        assert(g1.at(q) != 0);
    }
}

proof fn lemma_keeps_floor_trans(a: Seq<u8>, b: Seq<u8>, c: Seq<u8>)
    requires
        keeps_range(a, b, 1, 255),
        keeps_range(b, c, 1, 255),
    ensures
        keeps_range(a, c, 1, 255),
{
    assert forall|i: int| 0 <= i < a.len() && 1 <= a[i] <= 255 implies 1 <= #[trigger] c[i] <= 255 by {
        assert(1 <= b[i] <= 255);
    }
}

/// Storing a nonzero value keeps floor floor.
proof fn lemma_store_keeps_floor(a: Seq<u8>, i: int, value: u8)
    requires
        0 <= i < a.len(),
        value != 0,
    ensures
        keeps_range(a, a.update(i, value), 1, 255),
{
    assert forall|k: int| 0 <= k < a.len() && 1 <= a[k] <= 255 implies 1 <= #[trigger] a.update(i, value)[k] <= 255 by {
        if k == i {
        }
    }
}

impl RoomGrid {
    /// Raises every cell of `room` by one, so that all of them are floor.
    fn fill_room(grid: &mut Grid<u8>, room: &Rectangle)
        requires
            old(grid).wf(),
            room.wf(),
            old(grid).in_bounds(room.bottomright),
        ensures
            final(grid).wf(),
            final(grid).spec_width() == old(grid).spec_width(),
            final(grid).spec_height() == old(grid).spec_height(),
            keeps_range(old(grid).cells(), final(grid).cells(), 1, 255),
            room_filled(*final(grid), *room),
            forall|i: int|
                0 <= i < old(grid).cells().len() && #[trigger] final(grid).cells()[i] != old(grid).cells()[i]
                    ==> room.contains(point_of(old(grid).spec_width() as int, i)),
    {
        let ghost g0 = *grid;
        let ghost w = grid.spec_width() as int;
        let ghost h = grid.spec_height() as int;
        let mut y: u32 = room.topleft.1 as u32;
        while y <= room.bottomright.1 as u32
            invariant
                grid.wf(),
                grid.spec_width() == w,
                grid.spec_height() == h,
                g0 == *old(grid),
                room.wf(),
                grid.in_bounds(room.bottomright),
                room.topleft.1 <= y <= room.bottomright.1 + 1,
                keeps_range(g0.cells(), grid.cells(), 1, 255),
                g0.spec_width() == w,
                forall|i: int|
                    0 <= i < g0.cells().len() && #[trigger] grid.cells()[i] != g0.cells()[i] ==> room.contains(
                        point_of(w, i),
                    ),
                forall|q: Point| #[trigger] visited_before(*room, q, room.topleft.0 as int, y as int) ==> grid.at(q) != 0,
            decreases room.bottomright.1 + 1 - y,
        {
            let mut x: u32 = room.topleft.0 as u32;
            while x <= room.bottomright.0 as u32
                invariant
                    grid.wf(),
                    grid.spec_width() == w,
                    grid.spec_height() == h,
                    g0 == *old(grid),
                    room.wf(),
                    grid.in_bounds(room.bottomright),
                    room.topleft.1 <= y <= room.bottomright.1,
                    room.topleft.0 <= x <= room.bottomright.0 + 1,
                    keeps_range(g0.cells(), grid.cells(), 1, 255),
                g0.spec_width() == w,
                forall|i: int|
                    0 <= i < g0.cells().len() && #[trigger] grid.cells()[i] != g0.cells()[i] ==> room.contains(
                        point_of(w, i),
                    ),
                    forall|q: Point| #[trigger] visited_before(*room, q, x as int, y as int) ==> grid.at(q) != 0,
                decreases room.bottomright.0 + 1 - x,
            {
                let p = Point(x as u16, y as u16);
                let ghost before = *grid;
                proof {
                    lemma_index_in_range(w, h, p);
                }
                grid.inc(&p, 1);
                proof {
                    lemma_store_keeps_floor(before.cells(), cell_index(w, p), grid.cells()[cell_index(w, p)]);
                    lemma_keeps_floor_trans(g0.cells(), before.cells(), grid.cells());
                    assert forall|j: int| 0 <= j < g0.cells().len() && #[trigger] grid.cells()[j] != g0.cells()[j] implies room.contains(
                        point_of(w, j),
                    ) by {
                        if j == cell_index(w, p) {
                            assert(point_of(w, j) == p);
                        } else {
                            assert(grid.cells()[j] == before.cells()[j]);
                        }
                    }
                    assert forall|q: Point| #[trigger] visited_before(*room, q, x + 1, y as int) implies grid.at(q) != 0 by {
                        if q != p {
                            assert(visited_before(*room, q, x as int, y as int));
                            lemma_index_in_range(w, h, q);
                            if cell_index(w, q) == cell_index(w, p) {
                                lemma_index_injective(w, h, q, p);
                            }
                        }
                    }
                }
                x += 1;
            }
            assert forall|q: Point| #[trigger] visited_before(*room, q, room.topleft.0 as int, y + 1) implies grid.at(q) != 0 by {
                assert(visited_before(*room, q, x as int, y as int));
            }
            y += 1;
        }
        assert forall|q: Point| #[trigger] room.contains(q) implies grid.in_bounds(q) && grid.at(q) != 0 by {
            assert(visited_before(*room, q, room.topleft.0 as int, y as int));
        }
    }

    /// Carves floor along row `row` from column `begin` up to, not including, `end`.
    fn carve_row(grid: &mut Grid<u8>, row: u16, begin: u16, end: u16)
        requires
            old(grid).wf(),
            begin <= end,
            end < old(grid).spec_width(),
            row < old(grid).spec_height(),
        ensures
            final(grid).wf(),
            final(grid).spec_width() == old(grid).spec_width(),
            final(grid).spec_height() == old(grid).spec_height(),
            keeps_range(old(grid).cells(), final(grid).cells(), 1, 255),
            forall|i: int|
                0 <= i < old(grid).cells().len() && #[trigger] final(grid).cells()[i] != old(grid).cells()[i]
                    ==> point_of(old(grid).spec_width() as int, i).1 == row && begin <= point_of(
                    old(grid).spec_width() as int,
                    i,
                ).0 < end,
            forall|x: int| begin <= x < end ==> #[trigger] final(grid).at(Point(x as u16, row)) != 0,
    {
        let ghost g0 = *grid;
        let ghost w = grid.spec_width() as int;
        let ghost h = grid.spec_height() as int;
        let mut x: u16 = begin;
        while x < end
            invariant
                grid.wf(),
                grid.spec_width() == w,
                grid.spec_height() == h,
                g0 == *old(grid),
                begin <= x <= end,
                end < w,
                row < h,
                keeps_range(g0.cells(), grid.cells(), 1, 255),
                g0.spec_width() == w,
                forall|i: int|
                    0 <= i < g0.cells().len() && #[trigger] grid.cells()[i] != g0.cells()[i] ==> point_of(w, i).1 == row
                        && begin <= point_of(w, i).0 < x,
                forall|x2: int| begin <= x2 < x ==> #[trigger] grid.at(Point(x2 as u16, row)) != 0,
            decreases end - x,
        {
            let p = Point(x, row);
            let ghost before = *grid;
            proof {
                lemma_index_in_range(w, h, p);
            }
            grid.set(&p, 1);
            proof {
                lemma_store_keeps_floor(before.cells(), cell_index(w, p), 1);
                lemma_keeps_floor_trans(g0.cells(), before.cells(), grid.cells());
                assert forall|j: int| 0 <= j < g0.cells().len() && #[trigger] grid.cells()[j] != g0.cells()[j] implies point_of(w, j).1 == row
                    && begin <= point_of(w, j).0 < x + 1 by {
                    if j == cell_index(w, p) {
                        assert(point_of(w, j) == p);
                    } else {
                        assert(grid.cells()[j] == before.cells()[j]);
                    }
                }
                assert forall|x2: int| begin <= x2 < x + 1 implies #[trigger] grid.at(Point(x2 as u16, row)) != 0 by {
                    if x2 != x {
                        assert(before.at(Point(x2 as u16, row)) != 0);
                    }
                }
            }
            x += 1;
        }
    }

    /// Carves floor along column `col` from row `begin` up to, not including, `end`.
    fn carve_col(grid: &mut Grid<u8>, col: u16, begin: u16, end: u16)
        requires
            old(grid).wf(),
            begin <= end,
            end < old(grid).spec_height(),
            col < old(grid).spec_width(),
        ensures
            final(grid).wf(),
            final(grid).spec_width() == old(grid).spec_width(),
            final(grid).spec_height() == old(grid).spec_height(),
            keeps_range(old(grid).cells(), final(grid).cells(), 1, 255),
            forall|i: int|
                0 <= i < old(grid).cells().len() && #[trigger] final(grid).cells()[i] != old(grid).cells()[i]
                    ==> point_of(old(grid).spec_width() as int, i).0 == col && begin <= point_of(
                    old(grid).spec_width() as int,
                    i,
                ).1 < end,
            forall|y: int| begin <= y < end ==> #[trigger] final(grid).at(Point(col, y as u16)) != 0,
    {
        let ghost g0 = *grid;
        let ghost w = grid.spec_width() as int;
        let ghost h = grid.spec_height() as int;
        let mut y: u16 = begin;
        while y < end
            invariant
                grid.wf(),
                grid.spec_width() == w,
                grid.spec_height() == h,
                g0 == *old(grid),
                begin <= y <= end,
                end < h,
                col < w,
                keeps_range(g0.cells(), grid.cells(), 1, 255),
                g0.spec_width() == w,
                forall|i: int|
                    0 <= i < g0.cells().len() && #[trigger] grid.cells()[i] != g0.cells()[i] ==> point_of(w, i).0 == col
                        && begin <= point_of(w, i).1 < y,
                forall|y2: int| begin <= y2 < y ==> #[trigger] grid.at(Point(col, y2 as u16)) != 0,
            decreases end - y,
        {
            let p = Point(col, y);
            let ghost before = *grid;
            proof {
                lemma_index_in_range(w, h, p);
            }
            grid.set(&p, 1);
            proof {
                lemma_store_keeps_floor(before.cells(), cell_index(w, p), 1);
                lemma_keeps_floor_trans(g0.cells(), before.cells(), grid.cells());
                assert forall|j: int| 0 <= j < g0.cells().len() && #[trigger] grid.cells()[j] != g0.cells()[j] implies point_of(w, j).0 == col
                    && begin <= point_of(w, j).1 < y + 1 by {
                    if j == cell_index(w, p) {
                        assert(point_of(w, j) == p);
                    } else {
                        assert(grid.cells()[j] == before.cells()[j]);
                    }
                }
                assert forall|y2: int| begin <= y2 < y + 1 implies #[trigger] grid.at(Point(col, y2 as u16)) != 0 by {
                    if y2 != y {
                        assert(w > 0);
                        lemma_index_in_range(w, h, Point(col, y2 as u16));
                        if cell_index(w, Point(col, y2 as u16)) == cell_index(w, p) {
                            lemma_index_injective(w, h, Point(col, y2 as u16), p);
                        }
                        assert(before.at(Point(col, y2 as u16)) != 0);
                    }
                }
            }
            y += 1;
        }
    }

    /// Joins `room` to `other` with a corridor: a straight one along a row
    /// where their vertical spans overlap, else along a column where their
    /// horizontal spans overlap, else a random walk between a random point of
    /// each.
    fn connect_rooms(grid: &mut Grid<u8>, rng: &mut Pcg32, room: &Rectangle, other: &Rectangle)
        requires
            old(grid).wf(),
            room_filled(*old(grid), *room),
            room_filled(*old(grid), *other),
            !room.spec_intersects(*other),
        ensures
            final(grid).wf(),
            final(grid).spec_width() == old(grid).spec_width(),
            final(grid).spec_height() == old(grid).spec_height(),
            keeps_range(old(grid).cells(), final(grid).cells(), 1, 255),
            final(grid).linked(room.topleft, other.topleft, 1, 255),
            new_floor_joined(*old(grid), *final(grid), room.topleft),
    {
        let ghost g0 = *grid;
        if room.top() <= other.bottom() && room.bottom() >= other.top() {
            let lo = if room.top() > other.top() { room.top() } else { other.top() };
            let hi = if room.bottom() < other.bottom() { room.bottom() } else { other.bottom() };
            let row = draw_range(rng, lo as u64, hi as u64 + 1) as u16;
            let (begin, end) = if room.left() < other.left() {
                (room.right(), other.left())
            } else {
                (other.right(), room.left())
            };
            RoomGrid::carve_row(grid, row, begin, end);
            proof {
                lemma_room_persists(g0, *grid, *room);
                lemma_room_persists(g0, *grid, *other);
                let (near, far) = if room.topleft.0 < other.topleft.0 { (*room, *other) } else { (*other, *room) };
                assert(near.contains(Point(begin, row)));
                assert(far.contains(Point(end, row)));
                assert forall|x: int| begin <= x <= end implies grid.in_bounds(Point(x as u16, row)) && 1
                    <= #[trigger] grid.at(Point(x as u16, row)) <= 255 by {
                    if x == end {
                        assert(far.contains(Point(x as u16, row)));
                    }
                }
                lemma_row_linked(*grid, row, begin, end, 1, 255);
                lemma_room_linked(*grid, near, near.topleft, Point(begin, row));
                lemma_room_linked(*grid, far, Point(end, row), far.topleft);
                lemma_linked_trans(*grid, near.topleft, Point(begin, row), Point(end, row), 1, 255);
                lemma_linked_trans(*grid, near.topleft, Point(end, row), far.topleft, 1, 255);
                if room.topleft.0 >= other.topleft.0 {
                    lemma_linked_symm(*grid, other.topleft, room.topleft, 1, 255);
                }
                lemma_linked_symm(*grid, room.topleft, other.topleft, 1, 255);
                let w = g0.spec_width() as int;
                let h = g0.spec_height() as int;
                assert forall|p: Point| grid.occupied(p) && !g0.occupied(p) implies #[trigger] grid.linked(
                    p,
                    room.topleft,
                    1,
                    255,
                ) by {
                    lemma_index_in_range(w, h, p);
                    let pi = cell_index(w, p);
                    assert(grid.cells()[pi] != g0.cells()[pi]);
                    assert(point_of(w, pi) == p);
                    assert forall|x: int| p.0 <= x <= end implies grid.in_bounds(Point(x as u16, row)) && 1
                        <= #[trigger] grid.at(Point(x as u16, row)) <= 255 by {
                        assert(begin <= x <= end);
                    }
                    lemma_row_linked(*grid, row, p.0, end, 1, 255);
                    lemma_linked_trans(*grid, p, Point(end, row), far.topleft, 1, 255);
                    if far != *room {
                        lemma_linked_trans(*grid, p, other.topleft, room.topleft, 1, 255);
                    }
                }
            }
        } else if room.left() <= other.right() && room.right() >= other.left() {
            let lo = if room.left() > other.left() { room.left() } else { other.left() };
            let hi = if room.right() < other.right() { room.right() } else { other.right() };
            let col = draw_range(rng, lo as u64, hi as u64 + 1) as u16;
            let (begin, end) = if room.top() < other.top() {
                (room.bottom(), other.top())
            } else {
                (other.bottom(), room.top())
            };
            RoomGrid::carve_col(grid, col, begin, end);
            proof {
                lemma_room_persists(g0, *grid, *room);
                lemma_room_persists(g0, *grid, *other);
                let (near, far) = if room.topleft.1 < other.topleft.1 { (*room, *other) } else { (*other, *room) };
                assert(near.contains(Point(col, begin)));
                assert(far.contains(Point(col, end)));
                assert forall|y: int| begin <= y <= end implies grid.in_bounds(Point(col, y as u16)) && 1
                    <= #[trigger] grid.at(Point(col, y as u16)) <= 255 by {
                    if y == end {
                        assert(far.contains(Point(col, y as u16)));
                    }
                }
                lemma_col_linked(*grid, col, begin, end, 1, 255);
                lemma_room_linked(*grid, near, near.topleft, Point(col, begin));
                lemma_room_linked(*grid, far, Point(col, end), far.topleft);
                lemma_linked_trans(*grid, near.topleft, Point(col, begin), Point(col, end), 1, 255);
                lemma_linked_trans(*grid, near.topleft, Point(col, end), far.topleft, 1, 255);
                if room.topleft.1 >= other.topleft.1 {
                    lemma_linked_symm(*grid, other.topleft, room.topleft, 1, 255);
                }
                lemma_linked_symm(*grid, room.topleft, other.topleft, 1, 255);
                let w = g0.spec_width() as int;
                let h = g0.spec_height() as int;
                assert forall|p: Point| grid.occupied(p) && !g0.occupied(p) implies #[trigger] grid.linked(
                    p,
                    room.topleft,
                    1,
                    255,
                ) by {
                    lemma_index_in_range(w, h, p);
                    let pi = cell_index(w, p);
                    assert(grid.cells()[pi] != g0.cells()[pi]);
                    assert(point_of(w, pi) == p);
                    assert forall|y: int| p.1 <= y <= end implies grid.in_bounds(Point(col, y as u16)) && 1
                        <= #[trigger] grid.at(Point(col, y as u16)) <= 255 by {
                        assert(begin <= y <= end);
                    }
                    lemma_col_linked(*grid, col, p.1, end, 1, 255);
                    lemma_linked_trans(*grid, p, Point(col, end), far.topleft, 1, 255);
                    if far != *room {
                        lemma_linked_trans(*grid, p, other.topleft, room.topleft, 1, 255);
                    }
                }
            }
        } else {
            let from = Point::random(rng, room);
            let to = Point::random(rng, other);
            proof {
                assert(grid.in_bounds(from));
                assert(grid.in_bounds(to));
            }
            grid.randompathto(rng, &from, &to, 1);
            proof {
                let path = choose|path: Seq<Point>|
                    #[trigger] grid.is_walk(path, from, to) && path.len() == crate::grid::manhattan(from, to) + 1 && (
                    forall|k: int| 1 <= k < path.len() ==> grid.at(#[trigger] path[k]) == 1 || g0.at(path[k]) != 0)
                        && crate::grid::changed_on(g0.cells(), grid.cells(), g0.spec_width() as int, path);
                assert(keeps_range(g0.cells(), grid.cells(), 1, 255)) by {
                    assert forall|i: int| 0 <= i < g0.cells().len() && 1 <= g0.cells()[i] <= 255 implies 1
                        <= #[trigger] grid.cells()[i] <= 255 by {
                        assert(grid.cells()[i] == g0.cells()[i] || (g0.cells()[i] == 0 && grid.cells()[i] == 1));
                    }
                }
                lemma_room_persists(g0, *grid, *room);
                lemma_room_persists(g0, *grid, *other);
                assert(room.contains(from));
                lemma_walk_is_chain(g0, *grid, path, from, to, 1, 1, 255);
                lemma_room_linked(*grid, *room, room.topleft, from);
                lemma_room_linked(*grid, *other, to, other.topleft);
                lemma_linked_trans(*grid, room.topleft, from, to, 1, 255);
                lemma_linked_trans(*grid, room.topleft, to, other.topleft, 1, 255);
                lemma_linked_symm(*grid, room.topleft, other.topleft, 1, 255);
                let w = g0.spec_width() as int;
                let h = g0.spec_height() as int;
                assert forall|p: Point| grid.occupied(p) && !g0.occupied(p) implies #[trigger] grid.linked(
                    p,
                    room.topleft,
                    1,
                    255,
                ) by {
                    lemma_index_in_range(w, h, p);
                    let pi = cell_index(w, p);
                    assert(grid.cells()[pi] != g0.cells()[pi]);
                    let k = choose|k: int| 1 <= k < path.len() && cell_index(w, #[trigger] path[k]) == pi;
                    assert(grid.in_bounds(path[k]));
                    lemma_index_injective(w, h, path[k], p);
                    lemma_chain_suffix(*grid, path, k, 1, 255);
                    lemma_linked_trans(*grid, p, to, other.topleft, 1, 255);
                    lemma_linked_trans(*grid, p, other.topleft, room.topleft, 1, 255);
                }
            }
        }
    }

    /// The index of the room nearest to `room` by the corner-distance
    /// heuristic (the first on a tie).
    fn nearest_room(rooms: &Vec<Rectangle>, room: &Rectangle) -> (r: usize)
        requires
            rooms@.len() > 0,
        ensures
            r < rooms@.len(),
            forall|k: int|
                0 <= k < rooms@.len() ==> corner_dist2(*room, rooms@[r as int]) <= corner_dist2(
                    *room,
                    #[trigger] rooms@[k],
                ),
    {
        let mut best: usize = 0;
        let mut best_d: u64 = room.corner_distance_squared(&rooms[0]);
        let mut i: usize = 1;
        while i < rooms.len()
            invariant
                1 <= i <= rooms@.len(),
                best < i,
                best_d == corner_dist2(*room, rooms@[best as int]),
                forall|k: int| 0 <= k < i ==> best_d <= corner_dist2(*room, #[trigger] rooms@[k]),
            decreases rooms@.len() - i,
        {
            let d = room.corner_distance_squared(&rooms[i]);
            if d < best_d {
                best = i;
                best_d = d;
            }
            i += 1;
        }
        best
    }

    /// Whether `room` shares a point with any of `rooms`.
    fn overlaps_any(rooms: &Vec<Rectangle>, room: &Rectangle) -> (r: bool)
        ensures
            r == exists|k: int| 0 <= k < rooms@.len() && room.spec_intersects(#[trigger] rooms@[k]),
    {
        let mut i: usize = 0;
        while i < rooms.len()
            invariant
                i <= rooms@.len(),
                forall|k: int| 0 <= k < i ==> !room.spec_intersects(#[trigger] rooms@[k]),
            decreases rooms@.len() - i,
        {
            if room.intersects(&rooms[i]) {
                return true;
            }
            i += 1;
        }
        false
    }

    /// Generates a room layout and hands back the rooms with it, in the order
    /// they were placed.
    ///
    /// Candidates at least three cells and at most a quarter of the map wide
    /// and tall are drawn at random; one that touches a room already placed is
    /// rejected, and placing stops after a hundred rejections in a row. An
    /// accepted room is filled and joined by a corridor to the nearest room
    /// placed before it. No two rooms touch, and every two are joined by floor.
    pub fn generate_with_rooms(width: u16, height: u16, seed: u64, properties: &RoomGridProperties) -> (r: (
        Grid<u8>,
        Vec<Rectangle>,
    ))
        requires
            width > 0,
            height > 0,
        ensures
            r.0.wf(),
            r.0.spec_width() == width,
            r.0.spec_height() == height,
            r.1@.len() <= properties.rooms,
            width / 4 < MIN_ROOM_EXTENT || height / 4 < MIN_ROOM_EXTENT ==> r.1@.len() == 0,
            width / 4 >= MIN_ROOM_EXTENT && height / 4 >= MIN_ROOM_EXTENT && properties.rooms > 0
                ==> r.1@.len() >= 1,
            forall|k: int|
                0 <= k < r.1@.len() ==> MIN_ROOM_EXTENT <= (#[trigger] r.1@[k]).spec_width() <= width / 4
                    && MIN_ROOM_EXTENT <= r.1@[k].spec_height() <= height / 4,
            rooms_apart(r.1@),
            rooms_filled(r.0, r.1@),
            rooms_linked(r.0, r.1@),
            floor_joined(r.0, r.1@),
            r.1@.len() == 0 ==> forall|i: int| 0 <= i < r.0.cells().len() ==> #[trigger] r.0.cells()[i] == 0,
            joined_to_nearest(r.0, r.1@),
    {
        let mut rng = seeded_rng(seed);
        let mut grid: Grid<u8> = Grid::new(width, height);
        let bounds = grid.rectangle();
        let maxw: u16 = width / 4;
        let maxh: u16 = height / 4;
        let mut rooms: Vec<Rectangle> = Vec::new();
        proof {
            assert forall|p: Point| #[trigger] grid.occupied(p) implies exists|k: int|
                0 <= k < rooms@.len() && grid.linked(p, rooms@[k].topleft, 1, 255) by {
                lemma_index_in_range(width as int, height as int, p);
            }
        }
        if maxw < MIN_ROOM_EXTENT || maxh < MIN_ROOM_EXTENT {
            return (grid, rooms);
        }
        let mut tries: u32 = 0;
        let ghost mut near: Seq<int> = seq![];
        while rooms.len() < properties.rooms && tries < MAX_REJECTIONS
            invariant
                grid.wf(),
                grid.spec_width() == width,
                grid.spec_height() == height,
                bounds.wf(),
                bounds.topleft == Point(0, 0),
                bounds.bottomright == Point((width - 1) as u16, (height - 1) as u16),
                maxw == width / 4,
                maxh == height / 4,
                MIN_ROOM_EXTENT <= maxw,
                MIN_ROOM_EXTENT <= maxh,
                rooms@.len() <= properties.rooms,
                tries <= MAX_REJECTIONS,
                rooms@.len() == 0 ==> tries == 0,
                forall|k: int|
                    0 <= k < rooms@.len() ==> MIN_ROOM_EXTENT <= (#[trigger] rooms@[k]).spec_width() <= width / 4
                        && MIN_ROOM_EXTENT <= rooms@[k].spec_height() <= height / 4,
                rooms_apart(rooms@),
                rooms_filled(grid, rooms@),
                rooms_linked(grid, rooms@),
                floor_joined(grid, rooms@),
                rooms@.len() == 0 ==> forall|i: int| 0 <= i < grid.cells().len() ==> #[trigger] grid.cells()[i] == 0,
                near.len() == rooms@.len(),
                forall|k: int|
                    1 <= k < rooms@.len() ==> 0 <= #[trigger] near[k] < k && forall|m: int|
                        0 <= m < k ==> corner_dist2(rooms@[k], rooms@[near[k]]) <= corner_dist2(rooms@[k], #[trigger] rooms@[m]),
            decreases properties.rooms - rooms@.len(), MAX_REJECTIONS - tries,
        {
            let room = Rectangle::random(
                &mut rng,
                &bounds,
                Some(MIN_ROOM_EXTENT),
                Some(maxw),
                Some(MIN_ROOM_EXTENT),
                Some(maxh),
            );
            if RoomGrid::overlaps_any(&rooms, &room) {
                tries += 1;
            } else {
                let ghost g0 = grid;
                RoomGrid::fill_room(&mut grid, &room);
                tries = 0;
                proof {
                    assert forall|k: int| 0 <= k < rooms@.len() implies #[trigger] room_filled(grid, rooms@[k]) by {
                        lemma_room_persists(g0, grid, rooms@[k]);
                    }
                    assert forall|a: int, b: int| 0 <= a < rooms@.len() && 0 <= b < rooms@.len() implies #[trigger] grid.linked(
                        rooms@[a].topleft,
                        rooms@[b].topleft,
                        1,
                        255,
                    ) by {
                        lemma_linked_persists(g0, grid, rooms@[a].topleft, rooms@[b].topleft, 1, 255);
                    }
                    let w = width as int;
                    let h = height as int;
                    assert(floor_joined_or(g0, rooms@, room.topleft));
                    lemma_floor_persists(g0, grid, rooms@, room.topleft);
                    assert forall|p: Point| #[trigger] grid.occupied(p) implies (exists|k: int|
                        0 <= k < rooms@.len() && grid.linked(p, rooms@[k].topleft, 1, 255)) || grid.linked(
                        p,
                        room.topleft,
                        1,
                        255,
                    ) by {
                        if !g0.occupied(p) {
                            lemma_index_in_range(w, h, p);
                            let pi = cell_index(w, p);
                            assert(grid.cells()[pi] != g0.cells()[pi]);
                            assert(point_of(w, pi) == p);
                            lemma_room_linked(grid, room, p, room.topleft);
                        }
                    }
                }
                let mut nearest_idx: usize = 0;
                if rooms.len() > 0 {
                    let nearest = RoomGrid::nearest_room(&rooms, &room);
                    nearest_idx = nearest;
                    let ghost g1 = grid;
                    proof {
                        assert(room_filled(grid, rooms@[nearest as int]));
                        assert(!room.spec_intersects(rooms@[nearest as int]));
                    }
                    RoomGrid::connect_rooms(&mut grid, &mut rng, &room, &rooms[nearest]);
                    proof {
                        assert forall|k: int| 0 <= k < rooms@.len() implies #[trigger] room_filled(grid, rooms@[k]) by {
                            lemma_room_persists(g1, grid, rooms@[k]);
                        }
                        lemma_room_persists(g1, grid, room);
                        assert forall|a: int, b: int| 0 <= a < rooms@.len() && 0 <= b < rooms@.len() implies #[trigger] grid.linked(
                            rooms@[a].topleft,
                            rooms@[b].topleft,
                            1,
                            255,
                        ) by {
                            lemma_linked_persists(g1, grid, rooms@[a].topleft, rooms@[b].topleft, 1, 255);
                        }
                        lemma_floor_persists(g1, grid, rooms@, room.topleft);
                        assert forall|p: Point| #[trigger] grid.occupied(p) implies (exists|k: int|
                            0 <= k < rooms@.len() && grid.linked(p, rooms@[k].topleft, 1, 255)) || grid.linked(
                            p,
                            room.topleft,
                            1,
                            255,
                        ) by {
                            if !g1.occupied(p) {
                                assert(new_floor_joined(g1, grid, room.topleft));
                            }
                        }
                    }
                }
                let ghost old_rooms = rooms@;
                let ghost old_near = near;
                proof {
                    near = near.push(nearest_idx as int);
                }
                rooms.push(room);
                proof {
                    let n = old_rooms.len();
                    assert(rooms@[n as int] == room);
                    assert forall|k: int| 0 <= k < rooms@.len() implies #[trigger] room_filled(grid, rooms@[k]) by {
                        if k < n {
                            assert(rooms@[k] == old_rooms[k]);
                        }
                    }
                    assert forall|i: int, j: int| 0 <= i < rooms@.len() && 0 <= j < rooms@.len() && i != j implies !#[trigger] rooms@[i].spec_intersects(rooms@[j]) by {
                        if i < n && j < n {
                            assert(!old_rooms[i].spec_intersects(old_rooms[j]));
                        } else if i == n {
                            assert(!room.spec_intersects(old_rooms[j]));
                        } else {
                            assert(!room.spec_intersects(old_rooms[i]));
                        }
                    }
                    lemma_room_linked(grid, room, room.topleft, room.topleft);
                    assert forall|p: Point| #[trigger] grid.occupied(p) implies exists|k: int|
                        0 <= k < rooms@.len() && grid.linked(p, rooms@[k].topleft, 1, 255) by {
                        if grid.linked(p, room.topleft, 1, 255) {
                        } else {
                            let k = choose|k: int| 0 <= k < old_rooms.len() && grid.linked(p, old_rooms[k].topleft, 1, 255);
                            assert(rooms@[k] == old_rooms[k]);
                        }
                    }
                    if n > 0 {
                        let c = choose|c: int| 0 <= c < n && grid.linked(room.topleft, old_rooms[c].topleft, 1, 255);
                        assert forall|b: int| 0 <= b < n implies #[trigger] grid.linked(room.topleft, old_rooms[b].topleft, 1, 255) by {
                            assert(grid.linked(old_rooms[c].topleft, old_rooms[b].topleft, 1, 255));
                            lemma_linked_trans(grid, room.topleft, old_rooms[c].topleft, old_rooms[b].topleft, 1, 255);
                        }
                    }
                    assert forall|a: int, b: int| 0 <= a < rooms@.len() && 0 <= b < rooms@.len() implies #[trigger] grid.linked(
                        rooms@[a].topleft,
                        rooms@[b].topleft,
                        1,
                        255,
                    ) by {
                        if a < n && b < n {
                            assert(rooms@[a] == old_rooms[a] && rooms@[b] == old_rooms[b]);
                            assert(grid.linked(old_rooms[a].topleft, old_rooms[b].topleft, 1, 255));
                        } else if a == n && b == n {
                        } else if a == n {
                            assert(rooms@[b] == old_rooms[b]);
                            assert(grid.linked(room.topleft, old_rooms[b].topleft, 1, 255));
                        } else {
                            assert(rooms@[a] == old_rooms[a]);
                            assert(grid.linked(room.topleft, old_rooms[a].topleft, 1, 255));
                            lemma_linked_symm(grid, room.topleft, old_rooms[a].topleft, 1, 255);
                        }
                    }
                }
            }
        }
        proof {
            assert forall|k: int| 1 <= k < rooms@.len() implies #[trigger] joined_to_nearest_at(grid, rooms@, k) by {
                let j = near[k];
                assert(grid.linked(rooms@[k].topleft, rooms@[j].topleft, 1, 255));
            }
            if rooms@.len() == 0 {
                assert forall|i: int| 0 <= i < grid.cells().len() implies #[trigger] grid.cells()[i] == 0 by {}
            }
        }
        (grid, rooms)
    }

    /// Generates a room layout; see `generate_with_rooms`.
    pub fn generate(width: u16, height: u16, seed: u64, properties: RoomGridProperties) -> (r: Grid<u8>)
        requires
            width > 0,
            height > 0,
        ensures
            r.wf(),
            r.spec_width() == width,
            r.spec_height() == height,
            exists|rooms: Seq<Rectangle>| #[trigger] room_layout(r, rooms, width, height, properties.rooms),
    {
        let (grid, rooms) = RoomGrid::generate_with_rooms(width, height, seed, &properties);
        assert(room_layout(grid, rooms@, width, height, properties.rooms));
        grid
    }

    /// The character for the cell at `point`: a block for floor, else a space.
    pub fn rendercell(grid: &Grid<u8>, point: &Point) -> (r: String)
        requires
            grid.wf(),
            grid.in_bounds(*point),
        ensures
            r@ == seq![room_cell(*grid, *point)],
    {
        let mut out = String::new();
        push_char(&mut out, RoomGrid::cell_char(grid, point));
        out
    }

    fn cell_char(grid: &Grid<u8>, point: &Point) -> (r: char)
        requires
            grid.wf(),
            grid.in_bounds(*point),
        ensures
            r == room_cell(*grid, *point),
    {
        if grid.value(point) != 0 {
            '█'
        } else {
            ' '
        }
    }

    /// The whole grid as text, one line per row.
    pub fn render(grid: &Grid<u8>) -> (r: String)
        requires
            grid.wf(),
        ensures
            r@ == room_text(*grid, grid.cells().len() as int),
    {
        let mut out = String::new();
        let n = grid.get_data_vec().len();
        let w = grid.width_as_usize();
        let mut i: usize = 0;
        while i < n
            invariant
                grid.wf(),
                n == grid.cells().len(),
                w == grid.spec_width(),
                i <= n,
                out@ == room_text(*grid, i as int),
            decreases n - i,
        {
            proof {
                if w == 0 {
                    assert(grid.spec_width() * grid.spec_height() == 0);
                }
            }
            let p = grid.point(i);
            if i % w == 0 && i > 0 {
                push_char(&mut out, '\n');
            }
            push_char(&mut out, RoomGrid::cell_char(grid, &p));
            proof {
                assert(out@ =~= room_text(*grid, i + 1));
            }
            i += 1;
        }
        out
    }
}

} // verus!
