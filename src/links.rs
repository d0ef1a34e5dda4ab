//! Chains of adjacent cells whose values lie in a range, and the facts that
//! let carved paths join points into such chains.
use vstd::prelude::*;

use crate::grid::{cell_index, keeps_occupied, keeps_range, lemma_index_in_range, only_fills, Grid};
use crate::point::{adjacent, Point};

verus! {

/// A walk carved into `new` by filling zero cells of `old` with `value` is a
/// chain of cells in `[lo, hi]`, where `value`, the start and every cell that
/// was occupied already lie in that range.
pub proof fn lemma_walk_is_chain(
    old: Grid<u8>,
    new: Grid<u8>,
    path: Seq<Point>,
    from: Point,
    to: Point,
    value: u8,
    lo: u8,
    hi: u8,
)
    requires
        old.wf(),
        new.wf(),
        new.spec_width() == old.spec_width(),
        new.spec_height() == old.spec_height(),
        only_fills(old.cells(), new.cells(), value),
        new.is_walk(path, from, to),
        forall|k: int| 1 <= k < path.len() ==> new.at(#[trigger] path[k]) == value || old.at(path[k]) != 0,
        1 <= lo <= value <= hi,
        lo <= new.at(from) <= hi,
        forall|i: int| 0 <= i < old.cells().len() && old.cells()[i] != 0 ==> lo <= #[trigger] old.cells()[i] <= hi,
    ensures
        new.linked(from, to, lo, hi),
        new.is_chain(path, lo, hi),
{
    assert forall|k: int| 0 <= k < path.len() implies lo <= #[trigger] new.at(path[k]) <= hi by {
        if k > 0 {
            lemma_index_in_range(old.spec_width() as int, old.spec_height() as int, path[k]);
            let i = cell_index(old.spec_width() as int, path[k]);
            assert(new.cells()[i] == old.cells()[i] || (old.cells()[i] == 0 && new.cells()[i] == value));
        }
    }
    assert(new.is_chain(path, lo, hi));
}

/// Chains survive a change that keeps every cell in `[lo, hi]` in that range.
pub proof fn lemma_linked_persists(g1: Grid<u8>, g2: Grid<u8>, a: Point, b: Point, lo: u8, hi: u8)
    requires
        g1.wf(),
        g2.wf(),
        g2.spec_width() == g1.spec_width(),
        g2.spec_height() == g1.spec_height(),
        keeps_range(g1.cells(), g2.cells(), lo, hi),
        g1.linked(a, b, lo, hi),
    ensures
        g2.linked(a, b, lo, hi),
{
    let path = choose|path: Seq<Point>| g1.is_chain(path, lo, hi) && path[0] == a && path.last() == b;
    assert forall|k: int| 0 <= k < path.len() implies lo <= #[trigger] g2.at(path[k]) <= hi by {
        assert(lo <= g1.at(path[k]) <= hi);
        lemma_index_in_range(g1.spec_width() as int, g1.spec_height() as int, path[k]);
    }
    assert(g2.is_chain(path, lo, hi));
}

/// A point whose cell lies in `[lo, hi]` is linked to itself.
pub proof fn lemma_linked_refl(g: Grid<u8>, a: Point, lo: u8, hi: u8)
    requires
        g.in_bounds(a),
        lo <= g.at(a) <= hi,
    ensures
        g.linked(a, a, lo, hi),
{
    let path = seq![a];
    assert(g.is_chain(path, lo, hi));
}

/// Linked points are linked the other way round.
pub proof fn lemma_linked_symm(g: Grid<u8>, a: Point, b: Point, lo: u8, hi: u8)
    requires
        g.linked(a, b, lo, hi),
    ensures
        g.linked(b, a, lo, hi),
{
    let path = choose|path: Seq<Point>| g.is_chain(path, lo, hi) && path[0] == a && path.last() == b;
    let n = path.len();
    let rev = Seq::new(n, |k: int| path[n - 1 - k]);
    assert forall|k: int| 0 <= k < rev.len() - 1 implies #[trigger] adjacent(rev[k], rev[k + 1]) by {
        assert(adjacent(path[n - 2 - k], path[n - 2 - k + 1]));
    }
    assert forall|k: int| 0 <= k < rev.len() implies lo <= #[trigger] g.at(rev[k]) <= hi && g.in_bounds(rev[k]) by {
        assert(lo <= g.at(path[n - 1 - k]) <= hi);
        assert(g.in_bounds(path[n - 1 - k]));
    }
    assert(g.is_chain(rev, lo, hi));
}

/// Links compose.
pub proof fn lemma_linked_trans(g: Grid<u8>, a: Point, b: Point, c: Point, lo: u8, hi: u8)
    requires
        g.linked(a, b, lo, hi),
        g.linked(b, c, lo, hi),
    ensures
        g.linked(a, c, lo, hi),
{
    let first = choose|path: Seq<Point>| g.is_chain(path, lo, hi) && path[0] == a && path.last() == b;
    let second = choose|path: Seq<Point>| g.is_chain(path, lo, hi) && path[0] == b && path.last() == c;
    let tail = second.subrange(1, second.len() as int);
    let joined = first + tail;
    let n1 = first.len();
    assert(tail.len() == second.len() - 1);
    assert forall|k: int| 0 <= k < joined.len() - 1 implies #[trigger] adjacent(joined[k], joined[k + 1]) by {
        assert(joined[k + 1] == if k + 1 < n1 { first[k + 1] } else { second[k + 1 - n1 + 1] });
        if k < n1 - 1 {
            assert(adjacent(first[k], first[k + 1]));
        } else if k == n1 - 1 {
            assert(joined[k] == second[0]);
            assert(adjacent(second[0], second[0int + 1]));
        } else {
            assert(joined[k] == second[k - n1 + 1]);
            assert(adjacent(second[k - n1 + 1], second[(k - n1 + 1) + 1]));
        }
    }
    assert forall|k: int| 0 <= k < joined.len() implies lo <= #[trigger] g.at(joined[k]) <= hi && g.in_bounds(joined[k]) by {
        if k < n1 {
            assert(lo <= g.at(first[k]) <= hi && g.in_bounds(first[k]));
        } else {
            assert(lo <= g.at(second[k - n1 + 1]) <= hi && g.in_bounds(second[k - n1 + 1]));
        }
    }
    if second.len() == 1 {
        assert(joined =~= first);
    }
    assert(g.is_chain(joined, lo, hi));
}

/// Filling zero cells leaves occupied cells alone.
pub proof fn lemma_fills_keep_occupied(a: Seq<u8>, b: Seq<u8>, value: u8)
    requires
        only_fills(a, b, value),
    ensures
        keeps_occupied(a, b),
{
    assert forall|i: int| 0 <= i < a.len() && a[i] != 0 implies #[trigger] b[i] == a[i] by {
        assert(b[i] == a[i] || (a[i] == 0 && b[i] == value));
    }
}

pub proof fn lemma_keeps_occupied_trans(a: Seq<u8>, b: Seq<u8>, c: Seq<u8>)
    requires
        keeps_occupied(a, b),
        keeps_occupied(b, c),
    ensures
        keeps_occupied(a, c),
{
    assert forall|i: int| 0 <= i < a.len() && a[i] != 0 implies #[trigger] c[i] == a[i] by {
        assert(b[i] == a[i]);
    }
}

/// Storing a value in an empty cell leaves occupied cells alone.
pub proof fn lemma_fill_one_keeps_occupied(a: Seq<u8>, i: int, value: u8)
    requires
        0 <= i < a.len(),
        a[i] == 0,
    ensures
        keeps_occupied(a, a.update(i, value)),
{
    assert forall|k: int| 0 <= k < a.len() && a[k] != 0 implies #[trigger] a.update(i, value)[k] == a[k] by {
        assert(k != i);
    }
}

/// A run of cells along row `y` from `x1` to `x2`, all in `[lo, hi]`, links its ends.
pub proof fn lemma_row_linked(g: Grid<u8>, y: u16, x1: u16, x2: u16, lo: u8, hi: u8)
    requires
        x1 <= x2,
        forall|x: int|
            x1 <= x <= x2 ==> g.in_bounds(Point(x as u16, y)) && lo <= #[trigger] g.at(Point(x as u16, y)) <= hi,
    ensures
        g.linked(Point(x1, y), Point(x2, y), lo, hi),
{
    let path = Seq::new((x2 - x1 + 1) as nat, |k: int| Point((x1 + k) as u16, y));
    assert forall|k: int| 0 <= k < path.len() implies g.in_bounds(#[trigger] path[k]) && lo <= g.at(path[k]) <= hi by {
        assert(path[k] == Point((x1 + k) as u16, y));
        assert(g.in_bounds(Point((x1 + k) as u16, y)));
        assert(lo <= g.at(Point((x1 + k) as u16, y)) <= hi);
    }
    assert forall|k: int| 0 <= k < path.len() - 1 implies #[trigger] adjacent(path[k], path[k + 1]) by {
        assert(path[k] == Point((x1 + k) as u16, y));
        assert(path[k + 1] == Point((x1 + k + 1) as u16, y));
    }
    assert(path.last() == Point(x2, y));
    assert(g.is_chain(path, lo, hi));
}

/// A run of cells along column `x` from `y1` to `y2`, all in `[lo, hi]`, links its ends.
pub proof fn lemma_col_linked(g: Grid<u8>, x: u16, y1: u16, y2: u16, lo: u8, hi: u8)
    requires
        y1 <= y2,
        forall|y: int|
            y1 <= y <= y2 ==> g.in_bounds(Point(x, y as u16)) && lo <= #[trigger] g.at(Point(x, y as u16)) <= hi,
    ensures
        g.linked(Point(x, y1), Point(x, y2), lo, hi),
{
    let path = Seq::new((y2 - y1 + 1) as nat, |k: int| Point(x, (y1 + k) as u16));
    assert forall|k: int| 0 <= k < path.len() implies g.in_bounds(#[trigger] path[k]) && lo <= g.at(path[k]) <= hi by {
        assert(path[k] == Point(x, (y1 + k) as u16));
        assert(g.in_bounds(Point(x, (y1 + k) as u16)));
        assert(lo <= g.at(Point(x, (y1 + k) as u16)) <= hi);
    }
    assert forall|k: int| 0 <= k < path.len() - 1 implies #[trigger] adjacent(path[k], path[k + 1]) by {
        assert(path[k] == Point(x, (y1 + k) as u16));
        assert(path[k + 1] == Point(x, (y1 + k + 1) as u16));
    }
    assert(path.last() == Point(x, y2));
    assert(g.is_chain(path, lo, hi));
}

/// Every point of a chain is linked to the chain's end.
pub proof fn lemma_chain_suffix(g: Grid<u8>, path: Seq<Point>, k: int, lo: u8, hi: u8)
    requires
        g.is_chain(path, lo, hi),
        0 <= k < path.len(),
    ensures
        g.linked(path[k], path.last(), lo, hi),
{
    let tail = path.subrange(k, path.len() as int);
    assert forall|j: int| 0 <= j < tail.len() - 1 implies #[trigger] adjacent(tail[j], tail[j + 1]) by {
        assert(tail[j] == path[k + j] && tail[j + 1] == path[(k + j) + 1]);
        assert(adjacent(path[k + j], path[(k + j) + 1]));
    }
    assert forall|j: int| 0 <= j < tail.len() implies g.in_bounds(#[trigger] tail[j]) && lo <= g.at(tail[j]) <= hi by {
        assert(tail[j] == path[k + j]);
        assert(g.in_bounds(path[k + j]) && lo <= g.at(path[k + j]) <= hi);
    }
    assert(g.is_chain(tail, lo, hi));
}

} // verus!
