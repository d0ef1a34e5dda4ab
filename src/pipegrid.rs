use vstd::prelude::*;

use crate::common::push_char;
use crate::common::Direction;
use crate::grid::{
    cell_index, keeps_occupied, keeps_range, lemma_index_in_range, lemma_index_injective,
    only_fills, point_of, Grid,
};
use crate::links::{
    lemma_fill_one_keeps_occupied, lemma_fills_keep_occupied, lemma_keeps_occupied_trans,
    lemma_linked_persists, lemma_linked_refl, lemma_linked_symm, lemma_linked_trans,
    lemma_walk_is_chain,
};
use crate::point::{dist2, Point};
use crate::random::seeded_rng;
use rand_pcg::Pcg32;

verus! {

/// What a pipe network is made of.
#[derive(Debug, Default)]
pub struct PipeGridProperties {
    /// The number of backbone points.
    pub backboneseeds: u16,
    /// The number of regular points to place, one entry per tier.
    pub regularseeds: Vec<u16>,
    /// Join dead ends to one another once the network stands.
    pub interconnect: bool,
}

/// The pipe network generator and its text rendering.
///
/// Cell values: 0 is empty, 1 a backbone point, 2 a backbone path, tier `i`
/// of regular points is `i + 3` with its paths one higher, and 99 marks a
/// path that joins two dead ends.
pub struct PipeGrid;

pub const BACKBONE_SEED: u8 = 1;

pub const BACKBONE_PATH: u8 = 2;

pub const FIRST_TIER: u8 = 3;

pub const INTERCONNECT: u8 = 99;

/// Draws in a row that may hit occupied cells before a tier takes the first
/// empty cell instead.
pub const MAX_MISSED_DRAWS: u32 = 100000;

/// Every two backbone points are joined by a chain of backbone cells (values 1 and 2).
pub open spec fn backbone_linked(g: Grid<u8>, seeds: Seq<Point>) -> bool {
    forall|a: int, b: int|
        0 <= a < seeds.len() && 0 <= b < seeds.len() ==> #[trigger] g.linked(seeds[a], seeds[b], 1, 2)
}

/// Every backbone point lies in the grid and holds the backbone point value.
pub open spec fn seeds_marked(g: Grid<u8>, seeds: Seq<Point>) -> bool {
    forall|k: int| 0 <= k < seeds.len() ==> g.in_bounds(#[trigger] seeds[k]) && g.at(seeds[k]) == 1
}

/// Every cell holds at most `top`, or else the interconnect value where
/// dead ends were joined.
pub open spec fn pipe_values(cells: Seq<u8>, top: int, interconnect: bool) -> bool {
    forall|i: int|
        0 <= i < cells.len() ==> #[trigger] cells[i] <= top || (interconnect && cells[i] == INTERCONNECT)
}

/// `new` differs from `old` only where `old` held zero and `new` holds the
/// tier or the tier's path value.
pub open spec fn fills_tier(old: Seq<u8>, new: Seq<u8>, tier: u8) -> bool {
    new.len() == old.len() && forall|i: int|
        0 <= i < old.len() ==> #[trigger] new[i] == old[i] || (old[i] == 0 && (new[i] == tier || new[i]
            == tier + 1))
}

/// The regular points of one tier, in the order they were placed.
pub struct TierPlacement {
    pub points: Vec<Point>,
}

/// The number of cells of `s` that hold `v`.
pub open spec fn count_value(s: Seq<u8>, v: u8) -> nat
    decreases s.len(),
{
    if s.len() == 0 {
        0
    } else {
        count_value(s.drop_last(), v) + if s.last() == v {
            1nat
        } else {
            0
        }
    }
}

/// `new` differs from `old` only where `old` held zero and `new` holds at least `m`.
pub open spec fn fills_at_least(old: Seq<u8>, new: Seq<u8>, m: int) -> bool {
    new.len() == old.len() && forall|i: int|
        0 <= i < old.len() ==> #[trigger] new[i] == old[i] || (old[i] == 0 && new[i] >= m)
}

/// Some cell holds a value that is positive and below `tier`.
pub open spec fn has_lower(g: Grid<u8>, tier: int) -> bool {
    exists|i: int| 0 <= i < g.cells().len() && 0 < #[trigger] g.cells()[i] < tier
}

/// The points of tier `tier` lie in the grid, hold the tier's value, and,
/// where the grid holds a lower-tier cell, each is joined through cells of
/// value 1 up to the tier's path value to such a cell.
pub open spec fn tier_joined(g: Grid<u8>, points: Seq<Point>, tier: int) -> bool {
    forall|k: int|
        0 <= k < points.len() ==> g.in_bounds(#[trigger] points[k]) && g.at(points[k]) == tier && (has_lower(
            g,
            tier,
        ) ==> exists|q: Point|
            g.in_bounds(q) && 0 < g.at(q) < tier && #[trigger] g.linked(points[k], q, 1, (tier + 1) as u8))
}

/// Tier `t` placed at most `goals[t]` points, and fewer only where no empty
/// cell is left; its points are joined to lower tiers; and the first tier's
/// value is held by exactly its points.
pub open spec fn tiers_placed(g: Grid<u8>, tiers: Seq<TierPlacement>, goals: Seq<u16>) -> bool {
    &&& tiers.len() == goals.len()
    &&& forall|t: int|
        0 <= t < tiers.len() ==> (#[trigger] tiers[t]).points@.len() <= goals[t] && (tiers[t].points@.len()
            < goals[t] ==> forall|i: int|
            0 <= i < g.cells().len() ==> #[trigger] g.cells()[i] != 0) && tier_joined(
            g,
            tiers[t].points@,
            t + FIRST_TIER,
        )
    &&& tiers.len() > 0 ==> count_value(g.cells(), FIRST_TIER) == tiers[0].points@.len()
}

/// A cell above the backbone's values with exactly one occupied neighbour.
pub open spec fn is_dead_end(g: Grid<u8>, p: Point) -> bool {
    g.in_bounds(p) && g.at(p) > 2 && g.spec_countneighbours(p) == 1
}

/// `b` is a point of `ends` other than `a` and nearest to `a` among them.
pub open spec fn nearest_to(ends: Seq<Point>, a: Point, b: Point) -> bool {
    b != a && ends.contains(b) && forall|m: int|
        0 <= m < ends.len() && ends[m] != a ==> dist2(a, b) <= dist2(a, #[trigger] ends[m])
}

/// Dead end `k` is joined through occupied cells to a dead end that is
/// nearest to it, or to which it is nearest, where another one exists.
pub open spec fn end_joined(g: Grid<u8>, ends: Seq<Point>, k: int) -> bool {
    (exists|m: int| 0 <= m < ends.len() && #[trigger] ends[m] != ends[k]) ==> exists|j: int|
        0 <= j < ends.len() && (nearest_to(ends, ends[k], ends[j]) || nearest_to(ends, ends[j], ends[k]))
            && #[trigger] g.linked(ends[k], ends[j], 1, 255)
}

/// `q` was chosen as the nearest partner of one of the first `i` dead ends
/// and is joined to it.
pub open spec fn chosen_partner(g: Grid<u8>, ends: Seq<Point>, i: int, q: Point) -> bool {
    exists|k: int| 0 <= k < i && nearest_to(ends, ends[k], q) && ends.contains(q) && #[trigger] g.linked(ends[k], q, 1, 255)
}

/// `ends` are exactly the dead ends of `before`, and each is joined in
/// `after` to a nearest partner.
pub open spec fn dead_ends_joined(before: Grid<u8>, after: Grid<u8>, ends: Seq<Point>) -> bool {
    &&& forall|k: int| 0 <= k < ends.len() ==> is_dead_end(before, #[trigger] ends[k])
    &&& forall|p: Point| #[trigger] is_dead_end(before, p) ==> ends.contains(p)
    &&& forall|k: int| 0 <= k < ends.len() ==> #[trigger] end_joined(after, ends, k)
}

/// Every cell that holds 1 is one of the backbone points.
pub open spec fn ones_are_seeds(g: Grid<u8>, seeds: Seq<Point>) -> bool {
    forall|i: int|
        0 <= i < g.cells().len() && #[trigger] g.cells()[i] == 1 ==> exists|k: int|
            0 <= k < seeds.len() && cell_index(g.spec_width() as int, #[trigger] seeds[k]) == i
}

/// No cell holds more than the backbone path value.
pub open spec fn backbone_only(g: Grid<u8>) -> bool {
    forall|i: int| 0 <= i < g.cells().len() ==> #[trigger] g.cells()[i] <= 2
}

/// The glyph of an occupied cell from the occupancy of its north, east, south
/// and west neighbours, heavy for the backbone and light otherwise; a cell
/// with no occupied neighbour is a dot.
pub open spec fn pipe_glyph(n: bool, e: bool, s: bool, w: bool, backbone: bool) -> char {
    match (n, e, s, w, backbone) {
        (true, true, true, true, false) => '┼',
        (true, true, true, true, true) => '╋',
        (true, true, true, false, false) => '├',
        (true, true, true, false, true) => '┣',
        (false, true, true, true, false) => '┬',
        (false, true, true, true, true) => '┳',
        (true, false, true, true, false) => '┤',
        (true, false, true, true, true) => '┫',
        (true, true, false, true, false) => '┴',
        (true, true, false, true, true) => '┻',
        (true, true, false, false, false) => '└',
        (true, true, false, false, true) => '┗',
        (true, false, true, false, false) => '│',
        (true, false, true, false, true) => '┃',
        (true, false, false, true, false) => '┘',
        (true, false, false, true, true) => '┛',
        (false, true, true, false, false) => '┌',
        (false, true, true, false, true) => '┏',
        (false, true, false, true, false) => '─',
        (false, true, false, true, true) => '━',
        (false, false, true, true, false) => '┐',
        (false, false, true, true, true) => '┓',
        (true, false, false, false, false) => '╵',
        (true, false, false, false, true) => '╹',
        (false, true, false, false, false) => '╶',
        (false, true, false, false, true) => '╺',
        (false, false, true, false, false) => '╷',
        (false, false, true, false, true) => '╻',
        (false, false, false, true, false) => '╴',
        (false, false, false, true, true) => '╸',
        (false, false, false, false, false) => '·',
        (false, false, false, false, true) => '•',
    }
}

/// The character drawn for the cell at `p`: a space when empty.
pub open spec fn pipe_cell(g: Grid<u8>, p: Point) -> char {
    if g.at(p) == 0 {
        ' '
    } else {
        pipe_glyph(
            g.spec_hasneighbour(p, Direction::North),
            g.spec_hasneighbour(p, Direction::East),
            g.spec_hasneighbour(p, Direction::South),
            g.spec_hasneighbour(p, Direction::West),
            g.at(p) <= 2,
        )
    }
}

/// The text of the first `n` cells, row by row, with a line break before
/// every row but the first.
pub open spec fn pipe_text(g: Grid<u8>, n: int) -> Seq<char>
    decreases n,
{
    if n <= 0 {
        seq![]
    } else {
        let w = g.spec_width() as int;
        pipe_text(g, n - 1) + (if (n - 1) % w == 0 && n - 1 > 0 { seq!['\n'] } else { seq![] })
            + seq![pipe_cell(g, point_of(w, n - 1))]
    }
}

/// The glyph for one occupancy pattern.
pub fn glyph(n: bool, e: bool, s: bool, w: bool, backbone: bool) -> (r: char)
    ensures
        r == pipe_glyph(n, e, s, w, backbone),
{
    match (n, e, s, w, backbone) {
        (true, true, true, true, false) => '┼',
        (true, true, true, true, true) => '╋',
        (true, true, true, false, false) => '├',
        (true, true, true, false, true) => '┣',
        (false, true, true, true, false) => '┬',
        (false, true, true, true, true) => '┳',
        (true, false, true, true, false) => '┤',
        (true, false, true, true, true) => '┫',
        (true, true, false, true, false) => '┴',
        (true, true, false, true, true) => '┻',
        (true, true, false, false, false) => '└',
        (true, true, false, false, true) => '┗',
        (true, false, true, false, false) => '│',
        (true, false, true, false, true) => '┃',
        (true, false, false, true, false) => '┘',
        (true, false, false, true, true) => '┛',
        (false, true, true, false, false) => '┌',
        (false, true, true, false, true) => '┏',
        (false, true, false, true, false) => '─',
        (false, true, false, true, true) => '━',
        (false, false, true, true, false) => '┐',
        (false, false, true, true, true) => '┓',
        (true, false, false, false, false) => '╵',
        (true, false, false, false, true) => '╹',
        (false, true, false, false, false) => '╶',
        (false, true, false, false, true) => '╺',
        (false, false, true, false, false) => '╷',
        (false, false, true, false, true) => '╻',
        (false, false, false, true, false) => '╴',
        (false, false, false, true, true) => '╸',
        (false, false, false, false, false) => '·',
        (false, false, false, false, true) => '•',
    }
}


proof fn lemma_count_update(s: Seq<u8>, i: int, x: u8, v: u8)
    requires
        0 <= i < s.len(),
    ensures
        count_value(s.update(i, x), v) + (if s[i] == v { 1int } else { 0 }) == count_value(s, v) + (if x
            == v { 1int } else { 0 }),
    decreases s.len(),
{
    if i == s.len() - 1 {
        assert(s.update(i, x).drop_last() =~= s.drop_last());
    } else {
        assert(s.update(i, x).drop_last() =~= s.drop_last().update(i, x));
        lemma_count_update(s.drop_last(), i, x, v);
    }
}

proof fn lemma_count_same(a: Seq<u8>, b: Seq<u8>, v: u8)
    requires
        a.len() == b.len(),
        forall|i: int| 0 <= i < a.len() ==> (a[i] == v) == (#[trigger] b[i] == v),
    ensures
        count_value(a, v) == count_value(b, v),
    decreases a.len(),
{
    if a.len() > 0 {
        lemma_count_same(a.drop_last(), b.drop_last(), v);
    }
}

proof fn lemma_count_none(a: Seq<u8>, v: u8)
    requires
        forall|i: int| 0 <= i < a.len() ==> #[trigger] a[i] != v,
    ensures
        count_value(a, v) == 0,
    decreases a.len(),
{
    if a.len() > 0 {
        lemma_count_none(a.drop_last(), v);
    }
}

/// No change that fills empty cells with values of 2 or more makes a new 1.
proof fn lemma_ones_persist(g1: Grid<u8>, g2: Grid<u8>, seeds: Seq<Point>, m: int)
    requires
        g2.spec_width() == g1.spec_width(),
        fills_at_least(g1.cells(), g2.cells(), m),
        m >= 2,
        ones_are_seeds(g1, seeds),
    ensures
        ones_are_seeds(g2, seeds),
{
    assert forall|i: int| 0 <= i < g2.cells().len() && #[trigger] g2.cells()[i] == 1 implies exists|k: int|
        0 <= k < seeds.len() && cell_index(g2.spec_width() as int, #[trigger] seeds[k]) == i by {
        assert(g2.cells()[i] == g1.cells()[i] || (g1.cells()[i] == 0 && g2.cells()[i] >= m));
        assert(g1.cells()[i] == 1);
    }
}

/// A tier's points stay joined through a change that only fills empty cells
/// with values of that tier or above.
proof fn lemma_tier_persists(g1: Grid<u8>, g2: Grid<u8>, points: Seq<Point>, tier: int, m: int)
    requires
        g1.wf(),
        g2.wf(),
        g2.spec_width() == g1.spec_width(),
        g2.spec_height() == g1.spec_height(),
        fills_at_least(g1.cells(), g2.cells(), m),
        m >= tier,
        FIRST_TIER <= tier < INTERCONNECT,
        tier_joined(g1, points, tier),
    ensures
        tier_joined(g2, points, tier),
{
    let w = g1.spec_width() as int;
    let h = g1.spec_height() as int;
    assert(keeps_range(g1.cells(), g2.cells(), 1, (tier + 1) as u8)) by {
        assert forall|i: int| 0 <= i < g1.cells().len() && 1 <= g1.cells()[i] <= tier + 1 implies 1
            <= #[trigger] g2.cells()[i] <= tier + 1 by {
            assert(g2.cells()[i] == g1.cells()[i] || (g1.cells()[i] == 0 && g2.cells()[i] >= m));
        }
    }
    assert forall|k: int| 0 <= k < points.len() implies g2.in_bounds(#[trigger] points[k]) && g2.at(points[k])
        == tier && (has_lower(g2, tier) ==> exists|q: Point|
        g2.in_bounds(q) && 0 < g2.at(q) < tier && #[trigger] g2.linked(points[k], q, 1, (tier + 1) as u8)) by {
        lemma_index_in_range(w, h, points[k]);
        let pi = cell_index(w, points[k]);
        assert(g2.cells()[pi] == g1.cells()[pi] || (g1.cells()[pi] == 0 && g2.cells()[pi] >= m));
        if has_lower(g2, tier) {
            let i = choose|i: int| 0 <= i < g2.cells().len() && 0 < #[trigger] g2.cells()[i] < tier;
            assert(g2.cells()[i] == g1.cells()[i] || (g1.cells()[i] == 0 && g2.cells()[i] >= m));
            assert(has_lower(g1, tier));
            let q = choose|q: Point|
                g1.in_bounds(q) && 0 < g1.at(q) < tier && #[trigger] g1.linked(points[k], q, 1, (tier + 1) as u8);
            lemma_index_in_range(w, h, q);
            let qi = cell_index(w, q);
            assert(g2.cells()[qi] == g1.cells()[qi] || (g1.cells()[qi] == 0 && g2.cells()[qi] >= m));
            lemma_linked_persists(g1, g2, points[k], q, 1, (tier + 1) as u8);
            assert(g2.in_bounds(q) && 0 < g2.at(q) < tier && g2.linked(points[k], q, 1, (tier + 1) as u8));
        }
    }
}

/// The index of the point after `i` that lies nearest to `seeds[i]` (the first
/// such on a tie), or `None` for the last point.
fn nearest_later(seeds: &Vec<Point>, i: usize) -> (r: Option<usize>)
    requires
        i < seeds@.len(),
    ensures
        r is None <==> i + 1 == seeds@.len(),
        r is Some ==> i < r->0 < seeds@.len(),
        r is Some ==> forall|j: int|
            i < j < seeds@.len() ==> dist2(seeds@[i as int], seeds@[r->0 as int]) <= dist2(
                seeds@[i as int],
                #[trigger] seeds@[j],
            ),
{
    let mut best: Option<usize> = None;
    let mut best_d: u64 = 0;
    let mut j: usize = i;
    while j < seeds.len()
        invariant
            i <= j <= seeds@.len(),
            best is None <==> j <= i + 1,
            best is Some ==> i < best->0 < j && best_d == dist2(seeds@[i as int], seeds@[best->0 as int]),
            best is Some ==> forall|k: int| i < k < j ==> best_d <= dist2(seeds@[i as int], #[trigger] seeds@[k]),
        decreases seeds@.len() - j,
    {
        if j > i {
            let d = seeds[i].distance_squared(&seeds[j]);
            if best.is_none() || d < best_d {
                best = Some(j);
                best_d = d;
            }
        }
        j += 1;
    }
    best
}

/// Steps out of a backbone chain: each point but the last is linked to a later one.
proof fn lemma_linked_to_last(g: Grid<u8>, seeds: Seq<Point>, succ: Seq<int>, k: int)
    requires
        0 <= k < seeds.len(),
        succ.len() == seeds.len(),
        seeds_marked(g, seeds),
        forall|m: int|
            0 <= m < seeds.len() - 1 ==> m < #[trigger] succ[m] < seeds.len() && g.linked(
                seeds[m],
                seeds[succ[m]],
                1,
                2,
            ),
    ensures
        g.linked(seeds[k], seeds[seeds.len() - 1], 1, 2),
    decreases seeds.len() - k,
{
    if k == seeds.len() - 1 {
        lemma_linked_refl(g, seeds[k], 1, 2);
    } else {
        let next = succ[k];
        lemma_linked_to_last(g, seeds, succ, next);
        lemma_linked_trans(g, seeds[k], seeds[next], seeds[seeds.len() - 1], 1, 2);
    }
}

/// A change that leaves occupied cells alone keeps the backbone joined.
proof fn lemma_backbone_persists(g1: Grid<u8>, g2: Grid<u8>, seeds: Seq<Point>)
    requires
        g1.wf(),
        g2.wf(),
        g2.spec_width() == g1.spec_width(),
        g2.spec_height() == g1.spec_height(),
        keeps_occupied(g1.cells(), g2.cells()),
        backbone_linked(g1, seeds),
    ensures
        backbone_linked(g2, seeds),
{
    assert(keeps_range(g1.cells(), g2.cells(), 1, 2)) by {
        assert forall|i: int| 0 <= i < g1.cells().len() && 1 <= g1.cells()[i] <= 2 implies 1 <= #[trigger] g2.cells()[i] <= 2 by {
            assert(g2.cells()[i] == g1.cells()[i]);
        }
    }
    assert forall|a: int, b: int| 0 <= a < seeds.len() && 0 <= b < seeds.len() implies #[trigger] g2.linked(seeds[a], seeds[b], 1, 2) by {
        lemma_linked_persists(g1, g2, seeds[a], seeds[b], 1, 2);
    }
}

/// Places `count` backbone points at random, marking each with 1.
fn place_backbone(grid: &mut Grid<u8>, rng: &mut Pcg32, count: u16) -> (r: Vec<Point>)
    requires
        old(grid).wf(),
        old(grid).spec_width() > 0,
        old(grid).spec_height() > 0,
        backbone_only(*old(grid)),
        forall|i: int| 0 <= i < old(grid).cells().len() ==> #[trigger] old(grid).cells()[i] != 1,
    ensures
        final(grid).wf(),
        final(grid).spec_width() == old(grid).spec_width(),
        final(grid).spec_height() == old(grid).spec_height(),
        backbone_only(*final(grid)),
        r@.len() == count,
        seeds_marked(*final(grid), r@),
        ones_are_seeds(*final(grid), r@),
{
    let bounds = grid.rectangle();
    let mut seeds: Vec<Point> = Vec::new();
    let mut k: u16 = 0;
    while k < count
        invariant
            grid.wf(),
            grid.spec_width() == old(grid).spec_width(),
            grid.spec_height() == old(grid).spec_height(),
            forall|p: Point| bounds.contains(p) <==> grid.in_bounds(p),
            bounds.wf(),
            k <= count,
            seeds@.len() == k,
            backbone_only(*grid),
            seeds_marked(*grid, seeds@),
            ones_are_seeds(*grid, seeds@),
        decreases count - k,
    {
        let p = Point::random(rng, &bounds);
        let ghost before = *grid;
        grid.set(&p, BACKBONE_SEED);
        proof {
            lemma_index_in_range(grid.spec_width() as int, grid.spec_height() as int, p);
            assert forall|m: int| 0 <= m < seeds@.len() implies grid.in_bounds(#[trigger] seeds@[m])
                && grid.at(seeds@[m]) == 1 by {
                lemma_index_in_range(grid.spec_width() as int, grid.spec_height() as int, seeds@[m]);
                assert(before.at(seeds@[m]) == 1);
            }
        }
        let ghost old_seeds = seeds@;
        seeds.push(p);
        proof {
            let w = grid.spec_width() as int;
            assert forall|i: int| 0 <= i < grid.cells().len() && #[trigger] grid.cells()[i] == 1 implies exists|m: int|
                0 <= m < seeds@.len() && cell_index(w, #[trigger] seeds@[m]) == i by {
                if i == cell_index(w, p) {
                    assert(seeds@[old_seeds.len() as int] == p);
                } else {
                    assert(before.cells()[i] == 1);
                    let m = choose|m: int| 0 <= m < old_seeds.len() && cell_index(w, #[trigger] old_seeds[m]) == i;
                    assert(seeds@[m] == old_seeds[m]);
                }
            }
        }
        k += 1;
    }
    seeds
}

/// Joins each backbone point to the nearest later one with a carved path.
fn connect_backbone(grid: &mut Grid<u8>, rng: &mut Pcg32, seeds: &Vec<Point>)
    requires
        old(grid).wf(),
        backbone_only(*old(grid)),
        seeds_marked(*old(grid), seeds@),
    ensures
        final(grid).wf(),
        final(grid).spec_width() == old(grid).spec_width(),
        final(grid).spec_height() == old(grid).spec_height(),
        keeps_occupied(old(grid).cells(), final(grid).cells()),
        only_fills(old(grid).cells(), final(grid).cells(), BACKBONE_PATH),
        backbone_only(*final(grid)),
        seeds_marked(*final(grid), seeds@),
        backbone_linked(*final(grid), seeds@),
{
    let n = seeds.len();
    let ghost g0 = *grid;
    let ghost mut succ: Seq<int> = seq![];
    let mut i: usize = 0;
    while i < n
        invariant
            n == seeds@.len(),
            i <= n,
            grid.wf(),
            grid.spec_width() == g0.spec_width(),
            grid.spec_height() == g0.spec_height(),
            g0 == *old(grid),
            keeps_occupied(g0.cells(), grid.cells()),
            only_fills(g0.cells(), grid.cells(), BACKBONE_PATH),
            backbone_only(*grid),
            seeds_marked(*grid, seeds@),
            succ.len() == i,
            forall|m: int|
                0 <= m < i && m < n - 1 ==> m < #[trigger] succ[m] < n && grid.linked(
                    seeds@[m],
                    seeds@[succ[m]],
                    1,
                    2,
                ),
        decreases n - i,
    {
        match nearest_later(seeds, i) {
            Some(j) => {
                let ghost before = *grid;
                grid.randompathto(rng, &seeds[i], &seeds[j], BACKBONE_PATH);
                proof {
                    let path = choose|path: Seq<Point>|
                        #[trigger] grid.is_walk(path, seeds@[i as int], seeds@[j as int]) && forall|k: int|
                            1 <= k < path.len() ==> grid.at(#[trigger] path[k]) == 2 || before.at(path[k]) != 0;
                    assert forall|x: int| 0 <= x < g0.cells().len() implies #[trigger] grid.cells()[x] == g0.cells()[x] || (g0.cells()[x] == 0 && grid.cells()[x] == 2) by {
                        assert(grid.cells()[x] == before.cells()[x] || (before.cells()[x] == 0 && grid.cells()[x] == 2));
                        assert(before.cells()[x] == g0.cells()[x] || (g0.cells()[x] == 0 && before.cells()[x] == 2));
                    }
                    assert forall|x: int| 0 <= x < before.cells().len() && before.cells()[x] != 0 implies #[trigger] grid.cells()[x] == before.cells()[x] by {
                        assert(grid.cells()[x] == before.cells()[x] || (before.cells()[x] == 0 && grid.cells()[x] == 2));
                    }
                    assert forall|x: int| 0 <= x < grid.cells().len() implies #[trigger] grid.cells()[x] <= 2 by {
                        assert(grid.cells()[x] == before.cells()[x] || (before.cells()[x] == 0 && grid.cells()[x] == 2));
                        assert(before.cells()[x] <= 2);
                    }
                    assert forall|m: int| 0 <= m < seeds@.len() implies grid.in_bounds(#[trigger] seeds@[m])
                        && grid.at(seeds@[m]) == 1 by {
                        lemma_index_in_range(grid.spec_width() as int, grid.spec_height() as int, seeds@[m]);
                        assert(before.at(seeds@[m]) == 1);
                    }
                    assert forall|x: int| 0 <= x < before.cells().len() && before.cells()[x] != 0 implies 1 <= #[trigger] before.cells()[x] <= 2 by {
                        assert(before.cells()[x] <= 2);
                    }
                    lemma_walk_is_chain(before, *grid, path, seeds@[i as int], seeds@[j as int], 2, 1, 2);
                    assert forall|m: int| 0 <= m < i && m < n - 1 implies m < #[trigger] succ[m] < n && grid.linked(
                        seeds@[m],
                        seeds@[succ[m]],
                        1,
                        2,
                    ) by {
                        lemma_linked_persists(before, *grid, seeds@[m], seeds@[succ[m]], 1, 2);
                    }
                    succ = succ.push(j as int);
                }
            },
            None => {
                proof {
                    succ = succ.push(n as int);
                }
            },
        }
        i += 1;
    }
    proof {
        if n > 0 {
            assert forall|a: int, b: int| 0 <= a < n && 0 <= b < n implies #[trigger] grid.linked(
                seeds@[a],
                seeds@[b],
                1,
                2,
            ) by {
                lemma_linked_to_last(*grid, seeds@, succ, a);
                lemma_linked_to_last(*grid, seeds@, succ, b);
                lemma_linked_symm(*grid, seeds@[b], seeds@[n - 1], 1, 2);
                lemma_linked_trans(*grid, seeds@[a], seeds@[n - 1], seeds@[b], 1, 2);
            }
        }
    }
}


/// The nearest cell to `p` (the first in row-major order on a tie) whose
/// value is positive and below `tier`, if there is one.
fn nearest_below(grid: &Grid<u8>, p: &Point, tier: u8) -> (r: Option<Point>)
    requires
        grid.wf(),
        grid.spec_width() > 0,
    ensures
        r is Some ==> grid.in_bounds(r->0) && 0 < grid.at(r->0) < tier,
        r is Some ==> forall|i: int|
            0 <= i < grid.cells().len() && 0 < #[trigger] grid.cells()[i] < tier ==> dist2(*p, r->0)
                <= dist2(*p, point_of(grid.spec_width() as int, i)),
        r is None ==> forall|i: int| 0 <= i < grid.cells().len() ==> !(0 < #[trigger] grid.cells()[i] < tier),
{
    let data = grid.get_data_vec();
    let mut best: Option<Point> = None;
    let mut best_d: u64 = 0;
    let mut i: usize = 0;
    while i < data.len()
        invariant
            grid.wf(),
            grid.spec_width() > 0,
            data@ == grid.cells(),
            i <= data@.len(),
            best is Some ==> grid.in_bounds(best->0) && 0 < grid.at(best->0) < tier && best_d == dist2(*p, best->0),
            best is Some ==> forall|k: int|
                0 <= k < i && 0 < #[trigger] grid.cells()[k] < tier ==> best_d <= dist2(*p, point_of(grid.spec_width() as int, k)),
            best is None ==> forall|k: int| 0 <= k < i ==> !(0 < #[trigger] grid.cells()[k] < tier),
        decreases data@.len() - i,
    {
        let v = data[i];
        if v > 0 && v < tier {
            let q = grid.point(i);
            let d = p.distance_squared(&q);
            if best.is_none() || d < best_d {
                best = Some(q);
                best_d = d;
            }
        }
        i += 1;
    }
    best
}

/// The occupied cells with a value above the backbone's and exactly one
/// occupied neighbour, in row-major order.
fn dead_ends(grid: &Grid<u8>) -> (r: Vec<Point>)
    requires
        grid.wf(),
        grid.spec_width() > 0,
    ensures
        forall|k: int| 0 <= k < r@.len() ==> is_dead_end(*grid, #[trigger] r@[k]),
        forall|p: Point| #[trigger] is_dead_end(*grid, p) ==> r@.contains(p),
{
    let n = grid.get_data_vec().len();
    let ghost w = grid.spec_width() as int;
    let ghost h = grid.spec_height() as int;
    let mut ends: Vec<Point> = Vec::new();
    let mut i: usize = 0;
    while i < n
        invariant
            grid.wf(),
            grid.spec_width() > 0,
            w == grid.spec_width(),
            h == grid.spec_height(),
            n == grid.cells().len(),
            i <= n,
            forall|k: int| 0 <= k < ends@.len() ==> is_dead_end(*grid, #[trigger] ends@[k]),
            forall|p: Point| #[trigger] is_dead_end(*grid, p) && cell_index(w, p) < i ==> ends@.contains(p),
        decreases n - i,
    {
        let q = grid.point(i);
        let ghost old_ends = ends@;
        if grid.value(&q) > 2 && grid.countneighbours(&q) == 1 {
            ends.push(q);
        }
        proof {
            assert forall|p: Point| #[trigger] is_dead_end(*grid, p) && cell_index(w, p) < i + 1 implies ends@.contains(p) by {
                if cell_index(w, p) == i {
                    lemma_index_injective(w, h, p, q);
                    assert(ends@[ends@.len() - 1] == q);
                } else {
                    let k = choose|k: int| 0 <= k < old_ends.len() && old_ends[k] == p;
                    assert(ends@[k] == p);
                }
            }
        }
        i += 1;
    }
    proof {
        assert forall|p: Point| #[trigger] is_dead_end(*grid, p) implies ends@.contains(p) by {
            lemma_index_in_range(w, h, p);
        }
    }
    ends
}

/// Whether `p` is among `points`.
fn contains_point(points: &Vec<Point>, p: &Point) -> (r: bool)
    ensures
        r == points@.contains(*p),
{
    let mut i: usize = 0;
    while i < points.len()
        invariant
            i <= points@.len(),
            forall|k: int| 0 <= k < i ==> points@[k] != *p,
        decreases points@.len() - i,
    {
        if points[i] == *p {
            assert(points@[i as int] == *p);
            return true;
        }
        i += 1;
    }
    false
}

/// The index of the point of `points` other than `p` that lies nearest to
/// it (the first on a tie), if there is one.
fn nearest_other(points: &Vec<Point>, p: &Point) -> (r: Option<usize>)
    ensures
        r is Some ==> r->0 < points@.len() && points@[r->0 as int] != *p,
        r is Some ==> forall|j: int|
            0 <= j < points@.len() && #[trigger] points@[j] != *p ==> dist2(*p, points@[r->0 as int])
                <= dist2(*p, points@[j]),
        r is None ==> forall|j: int| 0 <= j < points@.len() ==> #[trigger] points@[j] == *p,
{
    let mut best: Option<usize> = None;
    let mut best_d: u64 = 0;
    let mut j: usize = 0;
    while j < points.len()
        invariant
            j <= points@.len(),
            best is Some ==> best->0 < j && points@[best->0 as int] != *p && best_d == dist2(
                *p,
                points@[best->0 as int],
            ),
            best is Some ==> forall|k: int|
                0 <= k < j && #[trigger] points@[k] != *p ==> best_d <= dist2(*p, points@[k]),
            best is None ==> forall|k: int| 0 <= k < j ==> #[trigger] points@[k] == *p,
        decreases points@.len() - j,
    {
        if points[j] != *p {
            let d = p.distance_squared(&points[j]);
            if best.is_none() || d < best_d {
                best = Some(j);
                best_d = d;
            }
        }
        j += 1;
    }
    best
}

/// Places `goal` points of the given tier on empty cells drawn at random,
/// each joined by a carved path (one above the tier) to the nearest cell of a
/// lower tier. After `MAX_MISSED_DRAWS` draws in a row that hit occupied
/// cells, the first empty cell in row-major order is taken instead, so the
/// tier stops short only once no empty cell is left.
fn place_tier(grid: &mut Grid<u8>, rng: &mut Pcg32, goal: u16, tier: u8) -> (r: TierPlacement)
    requires
        old(grid).wf(),
        old(grid).spec_width() > 0,
        old(grid).spec_height() > 0,
        FIRST_TIER <= tier,
        tier + 1 < INTERCONNECT,
        forall|i: int| 0 <= i < old(grid).cells().len() ==> #[trigger] old(grid).cells()[i] <= tier,
    ensures
        final(grid).wf(),
        final(grid).spec_width() == old(grid).spec_width(),
        final(grid).spec_height() == old(grid).spec_height(),
        keeps_occupied(old(grid).cells(), final(grid).cells()),
        fills_tier(old(grid).cells(), final(grid).cells(), tier),
        r.points@.len() <= goal,
        r.points@.len() < goal ==> forall|i: int|
            0 <= i < final(grid).cells().len() ==> #[trigger] final(grid).cells()[i] != 0,
        count_value(final(grid).cells(), tier) == count_value(old(grid).cells(), tier) + r.points@.len(),
        tier_joined(*final(grid), r.points@, tier as int),
{
    let ghost g0 = *grid;
    let ghost w = grid.spec_width() as int;
    let ghost h = grid.spec_height() as int;
    let bounds = grid.rectangle();
    let mut placed: Vec<Point> = Vec::new();
    let mut misses: u32 = 0;
    let mut room = grid.has_empty();
    while placed.len() < goal as usize && room
        invariant
            misses <= MAX_MISSED_DRAWS,
            room ==> exists|i: int| 0 <= i < grid.cells().len() && #[trigger] grid.cells()[i] == 0,
            grid.wf(),
            grid.spec_width() == w,
            grid.spec_height() == h,
            g0.spec_width() == w,
            g0.spec_height() == h,
            w > 0,
            h > 0,
            g0 == *old(grid),
            FIRST_TIER <= tier,
            tier + 1 < INTERCONNECT,
            bounds.wf(),
            forall|q: Point| bounds.contains(q) <==> grid.in_bounds(q),
            keeps_occupied(g0.cells(), grid.cells()),
            fills_tier(g0.cells(), grid.cells(), tier),
            forall|i: int| 0 <= i < g0.cells().len() ==> #[trigger] g0.cells()[i] <= tier,
            placed@.len() <= goal,
            !room ==> forall|i: int| 0 <= i < grid.cells().len() ==> #[trigger] grid.cells()[i] != 0,
            count_value(grid.cells(), tier) == count_value(g0.cells(), tier) + placed@.len(),
            tier_joined(*grid, placed@, tier as int),
        decreases goal - placed@.len(), MAX_MISSED_DRAWS - misses,
    {
        let pick: Option<Point> = if misses < MAX_MISSED_DRAWS {
            let q = Point::random(rng, &bounds);
            if grid.value(&q) == 0 {
                Some(q)
            } else {
                None
            }
        } else {
            grid.first_empty()
        };
        if let Some(p) = pick {
            misses = 0;
            let ghost before = *grid;
            grid.set(&p, tier);
            proof {
                lemma_index_in_range(w, h, p);
                let pi = cell_index(w, p);
                lemma_fill_one_keeps_occupied(before.cells(), pi, tier);
                lemma_keeps_occupied_trans(g0.cells(), before.cells(), grid.cells());
                assert forall|i: int| 0 <= i < g0.cells().len() implies #[trigger] grid.cells()[i] == g0.cells()[i] || (
                g0.cells()[i] == 0 && (grid.cells()[i] == tier || grid.cells()[i] == tier + 1)) by {
                    assert(before.cells()[i] == g0.cells()[i] || (g0.cells()[i] == 0 && (before.cells()[i] == tier
                        || before.cells()[i] == tier + 1)));
                }
                lemma_count_update(before.cells(), pi, tier, tier);
                assert forall|i: int| 0 <= i < before.cells().len() implies #[trigger] grid.cells()[i] == before.cells()[i] || (
                before.cells()[i] == 0 && grid.cells()[i] >= tier) by {}
                lemma_tier_persists(before, *grid, placed@, tier as int, tier as int);
            }
            let ghost mid0 = *grid;
            match nearest_below(grid, &p, tier) {
                Some(q) => {
                    let ghost mid = *grid;
                    grid.randompathto(rng, &p, &q, tier + 1);
                    proof {
                        lemma_fills_keep_occupied(mid.cells(), grid.cells(), (tier + 1) as u8);
                        lemma_keeps_occupied_trans(g0.cells(), mid.cells(), grid.cells());
                        assert forall|i: int| 0 <= i < g0.cells().len() implies #[trigger] grid.cells()[i] == g0.cells()[i] || (
                        g0.cells()[i] == 0 && (grid.cells()[i] == tier || grid.cells()[i] == tier + 1)) by {
                            assert(mid.cells()[i] == g0.cells()[i] || (g0.cells()[i] == 0 && (mid.cells()[i] == tier
                                || mid.cells()[i] == tier + 1)));
                            assert(grid.cells()[i] == mid.cells()[i] || (mid.cells()[i] == 0 && grid.cells()[i] == tier + 1));
                        }
                        assert forall|i: int| 0 <= i < mid.cells().len() implies (mid.cells()[i] == tier) == (#[trigger] grid.cells()[i] == tier) by {
                            assert(grid.cells()[i] == mid.cells()[i] || (mid.cells()[i] == 0 && grid.cells()[i] == tier + 1));
                        }
                        lemma_count_same(mid.cells(), grid.cells(), tier);
                        assert forall|i: int| 0 <= i < mid.cells().len() implies #[trigger] grid.cells()[i] == mid.cells()[i] || (
                        mid.cells()[i] == 0 && grid.cells()[i] >= tier) by {
                            assert(grid.cells()[i] == mid.cells()[i] || (mid.cells()[i] == 0 && grid.cells()[i] == tier + 1));
                        }
                        lemma_tier_persists(mid, *grid, placed@, tier as int, tier as int);
                        // the new point reaches `q` along the carved walk
                        let path = choose|path: Seq<Point>|
                            #[trigger] grid.is_walk(path, p, q) && path.len() == crate::grid::manhattan(p, q) + 1
                                && (forall|k: int|
                                1 <= k < path.len() ==> grid.at(#[trigger] path[k]) == tier + 1 || mid.at(path[k]) != 0)
                                && crate::grid::changed_on(mid.cells(), grid.cells(), mid.spec_width() as int, path);
                        assert forall|k: int| 1 <= k < path.len() implies grid.at(#[trigger] path[k]) == tier + 1 || mid.at(path[k]) != 0 by {}
                        assert forall|x: int| 0 <= x < mid.cells().len() && mid.cells()[x] != 0 implies 1 <= #[trigger] mid.cells()[x]
                            <= tier + 1 by {
                            assert(mid.cells()[x] == g0.cells()[x] || (g0.cells()[x] == 0 && (mid.cells()[x] == tier || mid.cells()[x] == tier + 1)));
                        }
                        lemma_index_in_range(w, h, q);
                        let qi = cell_index(w, q);
                        assert(grid.cells()[qi] == mid.cells()[qi] || (mid.cells()[qi] == 0 && grid.cells()[qi] == tier + 1));
                        lemma_walk_is_chain(mid, *grid, path, p, q, (tier + 1) as u8, 1, (tier + 1) as u8);
                        assert(grid.in_bounds(q) && 0 < grid.at(q) < tier && grid.linked(p, q, 1, (tier + 1) as u8));
                    }
                },
                None => {
                    proof {
                        assert(!has_lower(*grid, tier as int));
                    }
                },
            }
            let ghost old_placed = placed@;
            placed.push(p);
            proof {
                let n = old_placed.len() as int;
                lemma_index_in_range(w, h, p);
                let pi = cell_index(w, p);
                assert(mid0.cells()[pi] == tier);
                assert(grid.cells()[pi] == mid0.cells()[pi] || (mid0.cells()[pi] == 0 && grid.cells()[pi] == tier + 1));
                assert forall|k: int| 0 <= k < placed@.len() implies grid.in_bounds(#[trigger] placed@[k]) && grid.at(placed@[k])
                    == tier && (has_lower(*grid, tier as int) ==> exists|q: Point|
                    grid.in_bounds(q) && 0 < grid.at(q) < tier && #[trigger] grid.linked(placed@[k], q, 1, (tier + 1) as u8)) by {
                    if k < n {
                        assert(placed@[k] == old_placed[k]);
                    } else {
                        assert(placed@[k] == p);
                    }
                }
            }
            room = grid.has_empty();
        } else {
            misses += 1;
        }
    }
    TierPlacement { points: placed }
}

/// Joins each dead end, unless it was already chosen as a partner, to the
/// nearest other dead end with a carved path of the interconnect value.
fn interconnect_dead_ends(grid: &mut Grid<u8>, rng: &mut Pcg32)
    requires
        old(grid).wf(),
        old(grid).spec_width() > 0,
        old(grid).spec_height() > 0,
    ensures
        final(grid).wf(),
        final(grid).spec_width() == old(grid).spec_width(),
        final(grid).spec_height() == old(grid).spec_height(),
        keeps_occupied(old(grid).cells(), final(grid).cells()),
        only_fills(old(grid).cells(), final(grid).cells(), INTERCONNECT),
        exists|ends: Seq<Point>| #[trigger] dead_ends_joined(*old(grid), *final(grid), ends),
{
    let ghost g0 = *grid;
    let ghost w = grid.spec_width() as int;
    let ghost h = grid.spec_height() as int;
    let ends = dead_ends(grid);
    let mut processed: Vec<Point> = Vec::new();
    let mut i: usize = 0;
    while i < ends.len()
        invariant
            grid.wf(),
            grid.spec_width() == w,
            grid.spec_height() == h,
            g0.spec_width() == w,
            g0.spec_height() == h,
            g0 == *old(grid),
            i <= ends@.len(),
            forall|k: int| 0 <= k < ends@.len() ==> is_dead_end(g0, #[trigger] ends@[k]),
            forall|p: Point| #[trigger] is_dead_end(g0, p) ==> ends@.contains(p),
            keeps_occupied(g0.cells(), grid.cells()),
            only_fills(g0.cells(), grid.cells(), INTERCONNECT),
            forall|k: int| 0 <= k < i ==> #[trigger] end_joined(*grid, ends@, k),
            forall|t: int|
                0 <= t < processed@.len() ==> #[trigger] chosen_partner(*grid, ends@, i as int, processed@[t]),
        decreases ends@.len() - i,
    {
        let p = ends[i];
        if !contains_point(&processed, &p) {
            match nearest_other(&ends, &p) {
                Some(j) => {
                    let ghost before = *grid;
                    grid.randompathto(rng, &p, &ends[j], INTERCONNECT);
                    proof {
                        lemma_fills_keep_occupied(before.cells(), grid.cells(), INTERCONNECT);
                        lemma_keeps_occupied_trans(g0.cells(), before.cells(), grid.cells());
                        assert forall|x: int| 0 <= x < g0.cells().len() implies #[trigger] grid.cells()[x] == g0.cells()[x] || (
                        g0.cells()[x] == 0 && grid.cells()[x] == INTERCONNECT) by {
                            assert(before.cells()[x] == g0.cells()[x] || (g0.cells()[x] == 0 && before.cells()[x] == INTERCONNECT));
                            assert(grid.cells()[x] == before.cells()[x] || (before.cells()[x] == 0 && grid.cells()[x] == INTERCONNECT));
                        }
                        assert(keeps_range(before.cells(), grid.cells(), 1, 255)) by {
                            assert forall|x: int| 0 <= x < before.cells().len() && 1 <= before.cells()[x] <= 255 implies 1
                                <= #[trigger] grid.cells()[x] <= 255 by {
                                assert(grid.cells()[x] == before.cells()[x] || (before.cells()[x] == 0 && grid.cells()[x] == INTERCONNECT));
                            }
                        }
                        // the walk joins `p` to its partner
                        let path = choose|path: Seq<Point>|
                            #[trigger] grid.is_walk(path, p, ends@[j as int]) && path.len() == crate::grid::manhattan(p, ends@[j as int]) + 1
                                && (forall|k: int|
                                1 <= k < path.len() ==> grid.at(#[trigger] path[k]) == INTERCONNECT || before.at(path[k]) != 0)
                                && crate::grid::changed_on(before.cells(), grid.cells(), before.spec_width() as int, path);
                        assert(is_dead_end(g0, p));
                        lemma_index_in_range(w, h, p);
                        let pi = cell_index(w, p);
                        assert(g0.cells()[pi] > 2);
                        assert(before.cells()[pi] == g0.cells()[pi]);
                        assert(grid.cells()[pi] == before.cells()[pi]);
                        lemma_walk_is_chain(before, *grid, path, p, ends@[j as int], INTERCONNECT, 1, 255);
                        assert(nearest_to(ends@, p, ends@[j as int])) by {
                            assert(ends@.contains(ends@[j as int]));
                        }
                        // earlier joins survive
                        assert forall|k: int| 0 <= k < i implies #[trigger] end_joined(*grid, ends@, k) by {
                            assert(end_joined(before, ends@, k));
                            if exists|m: int| 0 <= m < ends@.len() && #[trigger] ends@[m] != ends@[k] {
                                let jj = choose|jj: int|
                                    0 <= jj < ends@.len() && (nearest_to(ends@, ends@[k], ends@[jj]) || nearest_to(ends@, ends@[jj], ends@[k]))
                                        && #[trigger] before.linked(ends@[k], ends@[jj], 1, 255);
                                lemma_linked_persists(before, *grid, ends@[k], ends@[jj], 1, 255);
                            }
                        }
                        assert forall|t: int| 0 <= t < processed@.len() implies #[trigger] chosen_partner(*grid, ends@, i as int, processed@[t]) by {
                            assert(chosen_partner(before, ends@, i as int, processed@[t]));
                            let k = choose|k: int|
                                0 <= k < i && nearest_to(ends@, ends@[k], processed@[t]) && ends@.contains(processed@[t])
                                    && #[trigger] before.linked(ends@[k], processed@[t], 1, 255);
                            lemma_linked_persists(before, *grid, ends@[k], processed@[t], 1, 255);
                        }
                        assert(end_joined(*grid, ends@, i as int));
                    }
                    let ghost old_processed = processed@;
                    processed.push(ends[j]);
                    proof {
                        assert forall|t: int| 0 <= t < processed@.len() implies #[trigger] chosen_partner(*grid, ends@, i + 1, processed@[t]) by {
                            if t < old_processed.len() {
                                assert(processed@[t] == old_processed[t]);
                                assert(chosen_partner(*grid, ends@, i as int, old_processed[t]));
                                let k = choose|k: int|
                                    0 <= k < i && nearest_to(ends@, ends@[k], old_processed[t]) && ends@.contains(old_processed[t])
                                        && #[trigger] grid.linked(ends@[k], old_processed[t], 1, 255);
                                assert(grid.linked(ends@[k], processed@[t], 1, 255));
                            } else {
                                assert(processed@[t] == ends@[j as int]);
                                assert(ends@[i as int] == p);
                                assert(ends@.contains(ends@[j as int]));
                                assert(grid.linked(ends@[i as int], processed@[t], 1, 255));
                            }
                        }
                    }
                },
                None => {
                    proof {
                        assert(end_joined(*grid, ends@, i as int));
                    }
                },
            }
        } else {
            proof {
                let t = choose|t: int| 0 <= t < processed@.len() && processed@[t] == p;
                assert(chosen_partner(*grid, ends@, i as int, processed@[t]));
                let k = choose|k: int|
                    0 <= k < i && nearest_to(ends@, ends@[k], processed@[t]) && ends@.contains(processed@[t])
                        && #[trigger] grid.linked(ends@[k], processed@[t], 1, 255);
                lemma_linked_symm(*grid, ends@[k], p, 1, 255);
                assert(ends@[i as int] == p);
                assert(grid.linked(ends@[i as int], ends@[k], 1, 255));
                assert(end_joined(*grid, ends@, i as int));
            }
        }
        proof {
            assert forall|t: int| 0 <= t < processed@.len() implies #[trigger] chosen_partner(*grid, ends@, i + 1, processed@[t]) by {
                if chosen_partner(*grid, ends@, i as int, processed@[t]) {
                    let k = choose|k: int|
                        0 <= k < i && nearest_to(ends@, ends@[k], processed@[t]) && ends@.contains(processed@[t])
                            && #[trigger] grid.linked(ends@[k], processed@[t], 1, 255);
                    assert(0 <= k < i + 1);
                }
            }
        }
        i += 1;
    }
    proof {
        assert(dead_ends_joined(g0, *grid, ends@));
    }
}

/// Backbone points stay marked through a change that leaves occupied cells alone.
proof fn lemma_seeds_persist(g1: Grid<u8>, g2: Grid<u8>, seeds: Seq<Point>)
    requires
        g1.wf(),
        g2.spec_width() == g1.spec_width(),
        g2.spec_height() == g1.spec_height(),
        keeps_occupied(g1.cells(), g2.cells()),
        seeds_marked(g1, seeds),
    ensures
        seeds_marked(g2, seeds),
{
    assert forall|k: int| 0 <= k < seeds.len() implies g2.in_bounds(#[trigger] seeds[k]) && g2.at(seeds[k]) == 1 by {
        lemma_index_in_range(g1.spec_width() as int, g1.spec_height() as int, seeds[k]);
        assert(g1.at(seeds[k]) == 1);
    }
}

impl PipeGrid {
    /// Generates a pipe network and hands back, with it, the backbone points
    /// and each tier's regular points, in the order they were placed.
    ///
    /// The backbone points are placed at random (value 1), and each is joined
    /// by a carved path (value 2) to the nearest one placed after it. Then for
    /// each tier, its points are placed on random empty cells and joined to the
    /// nearest cell of a lower tier. Last, where asked, each dead end is joined
    /// to a nearest other dead end.
    /// Every two backbone points end up joined by a chain of backbone cells.
    pub fn generate_with_backbone(width: u16, height: u16, seed: u64, properties: &PipeGridProperties) -> (r: (
        Grid<u8>,
        Vec<Point>,
        Vec<TierPlacement>,
    ))
        requires
            width > 0,
            height > 0,
            properties.regularseeds@.len() + FIRST_TIER < INTERCONNECT,
        ensures
            r.0.wf(),
            r.0.spec_width() == width,
            r.0.spec_height() == height,
            r.1@.len() == properties.backboneseeds,
            seeds_marked(r.0, r.1@),
            ones_are_seeds(r.0, r.1@),
            backbone_linked(r.0, r.1@),
            pipe_values(r.0.cells(), properties.regularseeds@.len() + FIRST_TIER, properties.interconnect),
            tiers_placed(r.0, r.2@, properties.regularseeds@),
            properties.interconnect ==> exists|before: Grid<u8>, ends: Seq<Point>|
                before.wf() && before.spec_width() == width && before.spec_height() == height && only_fills(
                    before.cells(),
                    r.0.cells(),
                    INTERCONNECT,
                ) && #[trigger] dead_ends_joined(before, r.0, ends),
            properties.regularseeds@.len() > 0 && (exists|i: int| 0 <= i < r.0.cells().len() && #[trigger] r.0.cells()[i] == 0)
                ==> count_value(r.0.cells(), FIRST_TIER) == properties.regularseeds@[0],
    {
        let mut rng = seeded_rng(seed);
        let mut grid: Grid<u8> = Grid::new(width, height);
        let seeds = place_backbone(&mut grid, &mut rng, properties.backboneseeds);
        let ghost g_seeded = grid;
        connect_backbone(&mut grid, &mut rng, &seeds);
        proof {
            lemma_ones_persist(g_seeded, grid, seeds@, 2);
        }
        let ghost g1 = grid;
        let mut tiers: Vec<TierPlacement> = Vec::new();
        let mut t: usize = 0;
        while t < properties.regularseeds.len()
            invariant
                grid.wf(),
                grid.spec_width() == width,
                grid.spec_height() == height,
                g1.wf(),
                g1.spec_width() == width,
                g1.spec_height() == height,
                width > 0,
                height > 0,
                t <= properties.regularseeds@.len(),
                properties.regularseeds@.len() + FIRST_TIER < INTERCONNECT,
                keeps_occupied(g1.cells(), grid.cells()),
                pipe_values(grid.cells(), t + FIRST_TIER, false),
                ones_are_seeds(grid, seeds@),
                tiers@.len() == t,
                forall|u: int|
                    0 <= u < t ==> (#[trigger] tiers@[u]).points@.len() <= properties.regularseeds@[u] && (
                    tiers@[u].points@.len() < properties.regularseeds@[u] ==> forall|i: int|
                        0 <= i < grid.cells().len() ==> #[trigger] grid.cells()[i] != 0) && tier_joined(
                        grid,
                        tiers@[u].points@,
                        u + FIRST_TIER,
                    ),
                t > 0 ==> count_value(grid.cells(), FIRST_TIER) == tiers@[0].points@.len(),
                backbone_only(g1),
                t == 0 ==> grid.cells() == g1.cells(),
            decreases properties.regularseeds@.len() - t,
        {
            let ghost before = grid;
            let tier = t as u8 + FIRST_TIER;
            let placement = place_tier(&mut grid, &mut rng, properties.regularseeds[t], tier);
            proof {
                lemma_keeps_occupied_trans(g1.cells(), before.cells(), grid.cells());
                assert forall|i: int| 0 <= i < grid.cells().len() implies #[trigger] grid.cells()[i] <= t + 1 + FIRST_TIER by {
                    assert(before.cells()[i] <= t + FIRST_TIER);
                    assert(grid.cells()[i] == before.cells()[i] || (before.cells()[i] == 0 && (grid.cells()[i] == t + FIRST_TIER
                        || grid.cells()[i] == t + FIRST_TIER + 1)));
                }
                assert forall|i: int| 0 <= i < before.cells().len() implies #[trigger] grid.cells()[i] == before.cells()[i] || (
                before.cells()[i] == 0 && grid.cells()[i] >= tier) by {
                    assert(grid.cells()[i] == before.cells()[i] || (before.cells()[i] == 0 && (grid.cells()[i] == tier
                        || grid.cells()[i] == tier + 1)));
                }
                lemma_ones_persist(before, grid, seeds@, tier as int);
                assert forall|u: int| 0 <= u < t implies tier_joined(grid, tiers@[u].points@, u + FIRST_TIER) by {
                    assert(tier_joined(before, tiers@[u].points@, u + FIRST_TIER));
                    lemma_tier_persists(before, grid, tiers@[u].points@, u + FIRST_TIER, tier as int);
                }
                if t > 0 {
                    assert forall|i: int| 0 <= i < before.cells().len() implies (before.cells()[i] == FIRST_TIER) == (
                    #[trigger] grid.cells()[i] == FIRST_TIER) by {
                        assert(grid.cells()[i] == before.cells()[i] || (before.cells()[i] == 0 && grid.cells()[i] >= tier));
                    }
                    lemma_count_same(before.cells(), grid.cells(), FIRST_TIER);
                } else {
                    assert forall|i: int| 0 <= i < before.cells().len() implies #[trigger] before.cells()[i] != FIRST_TIER by {
                        assert(before.cells()[i] <= 2);
                    }
                    lemma_count_none(before.cells(), FIRST_TIER);
                }
            }
            let ghost old_tiers = tiers@;
            tiers.push(placement);
            proof {
                assert forall|u: int|
                    0 <= u < t + 1 implies (#[trigger] tiers@[u]).points@.len() <= properties.regularseeds@[u] && (
                    tiers@[u].points@.len() < properties.regularseeds@[u] ==> forall|i: int|
                        0 <= i < grid.cells().len() ==> #[trigger] grid.cells()[i] != 0) && tier_joined(
                        grid,
                        tiers@[u].points@,
                        u + FIRST_TIER,
                    ) by {
                    if u < t {
                        assert(tiers@[u] == old_tiers[u]);
                        if tiers@[u].points@.len() < properties.regularseeds@[u] {
                            assert forall|i: int| 0 <= i < grid.cells().len() implies #[trigger] grid.cells()[i] != 0 by {
                                assert(before.cells()[i] != 0);
                            }
                        }
                    }
                }
                if t == 0 {
                    assert(tiers@[0] == placement);
                } else {
                    assert(tiers@[0] == old_tiers[0]);
                }
            }
            t += 1;
        }
        if properties.interconnect {
            let ghost before = grid;
            interconnect_dead_ends(&mut grid, &mut rng);
            proof {
                let ends = choose|ends: Seq<Point>| #[trigger] dead_ends_joined(before, grid, ends);
                assert(dead_ends_joined(before, grid, ends));
                lemma_keeps_occupied_trans(g1.cells(), before.cells(), grid.cells());
                assert forall|i: int| 0 <= i < grid.cells().len() implies #[trigger] grid.cells()[i]
                    <= properties.regularseeds@.len() + FIRST_TIER || grid.cells()[i] == INTERCONNECT by {
                    assert(before.cells()[i] <= properties.regularseeds@.len() + FIRST_TIER);
                    assert(grid.cells()[i] == before.cells()[i] || (before.cells()[i] == 0 && grid.cells()[i] == INTERCONNECT));
                }
                assert forall|i: int| 0 <= i < before.cells().len() implies #[trigger] grid.cells()[i] == before.cells()[i] || (
                before.cells()[i] == 0 && grid.cells()[i] >= INTERCONNECT) by {
                    assert(grid.cells()[i] == before.cells()[i] || (before.cells()[i] == 0 && grid.cells()[i] == INTERCONNECT));
                }
                lemma_ones_persist(before, grid, seeds@, INTERCONNECT as int);
                assert forall|u: int|
                    0 <= u < tiers@.len() implies (#[trigger] tiers@[u]).points@.len() <= properties.regularseeds@[u] && (
                    tiers@[u].points@.len() < properties.regularseeds@[u] ==> forall|i: int|
                        0 <= i < grid.cells().len() ==> #[trigger] grid.cells()[i] != 0) && tier_joined(
                        grid,
                        tiers@[u].points@,
                        u + FIRST_TIER,
                    ) by {
                    lemma_tier_persists(before, grid, tiers@[u].points@, u + FIRST_TIER, INTERCONNECT as int);
                    if tiers@[u].points@.len() < properties.regularseeds@[u] {
                        assert forall|i: int| 0 <= i < grid.cells().len() implies #[trigger] grid.cells()[i] != 0 by {
                            assert(before.cells()[i] != 0);
                        }
                    }
                }
                if tiers@.len() > 0 {
                    assert forall|i: int| 0 <= i < before.cells().len() implies (before.cells()[i] == FIRST_TIER) == (
                    #[trigger] grid.cells()[i] == FIRST_TIER) by {
                        assert(grid.cells()[i] == before.cells()[i] || (before.cells()[i] == 0 && grid.cells()[i] == INTERCONNECT));
                    }
                    lemma_count_same(before.cells(), grid.cells(), FIRST_TIER);
                }
            }
        }
        proof {
            lemma_backbone_persists(g1, grid, seeds@);
            lemma_seeds_persist(g1, grid, seeds@);
            if tiers@.len() > 0 {
                assert(tiers@[0].points@.len() <= properties.regularseeds@[0]);
            }
        }
        (grid, seeds, tiers)
    }

    /// Generates a pipe network; see `generate_with_backbone`.
    pub fn generate(width: u16, height: u16, seed: u64, properties: PipeGridProperties) -> (r: Grid<u8>)
        requires
            width > 0,
            height > 0,
            properties.regularseeds@.len() + FIRST_TIER < INTERCONNECT,
        ensures
            r.wf(),
            r.spec_width() == width,
            r.spec_height() == height,
            exists|seeds: Seq<Point>|
                seeds.len() == properties.backboneseeds && seeds_marked(r, seeds) && ones_are_seeds(r, seeds)
                    && #[trigger] backbone_linked(r, seeds),
            exists|tiers: Seq<TierPlacement>| #[trigger] tiers_placed(r, tiers, properties.regularseeds@),
            properties.interconnect ==> exists|before: Grid<u8>, ends: Seq<Point>|
                before.wf() && before.spec_width() == width && before.spec_height() == height && only_fills(
                    before.cells(),
                    r.cells(),
                    INTERCONNECT,
                ) && #[trigger] dead_ends_joined(before, r, ends),
            properties.regularseeds@.len() > 0 && (exists|i: int| 0 <= i < r.cells().len() && #[trigger] r.cells()[i] == 0)
                ==> count_value(r.cells(), FIRST_TIER) == properties.regularseeds@[0],
            pipe_values(r.cells(), properties.regularseeds@.len() + FIRST_TIER, properties.interconnect),
    {
        let (grid, seeds, tiers) = PipeGrid::generate_with_backbone(width, height, seed, &properties);
        assert(backbone_linked(grid, seeds@));
        assert(tiers_placed(grid, tiers@, properties.regularseeds@));
        proof {
            if properties.regularseeds@.len() > 0 {
                assert(tiers@[0].points@.len() <= properties.regularseeds@[0]);
            }
        }
        grid
    }

    /// The character for the cell at `point`.
    pub fn rendercell(grid: &Grid<u8>, point: &Point) -> (r: String)
        requires
            grid.wf(),
            grid.in_bounds(*point),
        ensures
            r@ == seq![pipe_cell(*grid, *point)],
    {
        let mut out = String::new();
        push_char(&mut out, PipeGrid::cell_char(grid, point));
        out
    }

    fn cell_char(grid: &Grid<u8>, point: &Point) -> (r: char)
        requires
            grid.wf(),
            grid.in_bounds(*point),
        ensures
            r == pipe_cell(*grid, *point),
    {
        let v = grid.value(point);
        if v == 0 {
            ' '
        } else {
            let (n, e, s, w) = grid.hasneighbours(point);
            glyph(n, e, s, w, v <= BACKBONE_PATH)
        }
    }

    /// The whole grid as text, one line per row.
    pub fn render(grid: &Grid<u8>) -> (r: String)
        requires
            grid.wf(),
        ensures
            r@ == pipe_text(*grid, grid.cells().len() as int),
    {
        let mut out = String::new();
        let n = grid.get_data_vec().len();
        let w = grid.width_as_usize();
        let mut i: usize = 0;
        while i < n
            invariant
                grid.wf(),
                n == grid.cells().len(),
                w == grid.spec_width(),
                i <= n,
                out@ == pipe_text(*grid, i as int),
            decreases n - i,
        {
            proof {
                if w == 0 {
                    assert(grid.spec_width() * grid.spec_height() == 0);
                }
            }
            let p = grid.point(i);
            if i % w == 0 && i > 0 {
                push_char(&mut out, '\n');
            }
            push_char(&mut out, PipeGrid::cell_char(grid, &p));
            proof {
                assert(out@ =~= pipe_text(*grid, i + 1));
            }
            i += 1;
        }
        out
    }
}

} // verus!
