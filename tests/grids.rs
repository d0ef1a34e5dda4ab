use mapgen::common::Direction;
use mapgen::grid::{Grid, RenderedTextCell};
use mapgen::point::Point;
use mapgen::rectangle::Rectangle;
use rand::SeedableRng;
use rand_pcg::Pcg32;

fn occupied_chain(grid: &Grid<u8>, from: Point, to: Point, lo: u8, hi: u8) -> bool {
    let w = grid.width() as usize;
    let h = grid.height() as usize;
    let ok = |p: Point| {
        let v = grid.value(&p);
        v >= lo && v <= hi
    };
    if !ok(from) {
        return false;
    }
    let mut seen = vec![false; w * h];
    let mut stack = vec![from];
    seen[grid.index(&from)] = true;
    while let Some(p) = stack.pop() {
        if p == to {
            return true;
        }
        for n in grid.getneighbours(&p) {
            let i = grid.index(&n);
            if !seen[i] && ok(n) {
                seen[i] = true;
                stack.push(n);
            }
        }
    }
    false
}

#[test]
fn new_grid_has_one_zero_cell_per_point() {
    let g = Grid::new(7, 3);
    assert_eq!(g.width(), 7);
    assert_eq!(g.height(), 3);
    assert_eq!(g.get_data_vec().len(), 21);
    for y in 0..3u16 {
        for x in 0..7u16 {
            assert_eq!(g.get(&Point(x, y)), Some(&0));
        }
    }
    assert_eq!(g.get(&Point(7, 0)), None);
    assert_eq!(g.get(&Point(0, 3)), None);
    assert_eq!(g.width_as_usize(), 7);
    assert_eq!(g.height_as_usize(), 3);
    let r = g.rectangle();
    assert_eq!(r.bottomright, Point(6, 2));
}

#[test]
fn new_init_fills_every_cell() {
    let g = Grid::new_init(2, 2, 9u32);
    assert_eq!(g.get_data_vec(), &vec![9u32, 9, 9, 9]);
}

#[test]
fn index_and_point_correspond() {
    let g = Grid::new(5, 4);
    assert_eq!(g.index(&Point(2, 3)), 17);
    assert_eq!(g.point(17), Point(2, 3));
    for i in 0..20usize {
        assert_eq!(g.index(&g.point(i)), i);
    }
}

#[test]
fn set_and_get() {
    let mut g = Grid::new(4, 4);
    assert!(g.set(&Point(1, 2), 5));
    assert_eq!(g.value(&Point(1, 2)), 5);
    assert_eq!(g.get_by_index(9), Some(&5));
    assert!(!g.set(&Point(4, 0), 1));
    assert!(g.set_index(0, 3));
    assert!(!g.set_index(16, 3));
    assert_eq!(g.get_by_index(16), None);
    assert!(g.is_set(&Point(0, 0)));
    assert!(!g.is_set(&Point(3, 3)));
}

#[test]
fn from_cells_checks_the_count() {
    assert!(Grid::from_cells(2, 2, vec![1u8, 2, 3]).is_none());
    let g = Grid::from_cells(2, 2, vec![1u8, 2, 3, 4]).unwrap();
    assert_eq!(g.value(&Point(1, 1)), 4);
}

#[test]
fn increment_saturates_at_the_maximum() {
    let mut g = Grid::new(2, 1);
    let p = Point(0, 0);
    assert!(g.inc(&p, 200));
    assert_eq!(g.value(&p), 200);
    assert!(!g.inc(&p, 100));
    assert_eq!(g.value(&p), 255);
    assert!(!g.inc(&p, 1));
    assert_eq!(g.value(&p), 255);
    assert!(g.inc(&p, 0));
    assert_eq!(g.value(&Point(1, 0)), 0);
}

#[test]
fn decrement_saturates_at_zero() {
    let mut g = Grid::new(1, 1);
    let p = Point(0, 0);
    g.inc(&p, 3);
    assert!(g.dec(&p, 2));
    assert_eq!(g.value(&p), 1);
    assert!(!g.dec(&p, 5));
    assert_eq!(g.value(&p), 0);
}

#[test]
fn neighbour_queries() {
    let mut g = Grid::new(3, 3);
    let c = Point(1, 1);
    g.set(&Point(1, 0), 1);
    g.set(&Point(0, 1), 4);
    assert!(g.hasneighbour(&c, Direction::North));
    assert!(!g.hasneighbour(&c, Direction::East));
    assert!(!g.hasneighbour(&c, Direction::South));
    assert!(g.hasneighbour(&c, Direction::West));
    assert_eq!(g.hasneighbours(&c), (true, false, false, true));
    assert_eq!(g.countneighbours(&c), 2);
    assert_eq!(g.getneighbours(&c), vec![Point(1, 0), Point(0, 1)]);
    assert_eq!(g.getneighbour(&Point(0, 0), Direction::North), None);
    assert_eq!(g.getneighbour(&Point(2, 2), Direction::East), None);
    assert_eq!(g.getneighbour(&Point(1, 2), Direction::West), Some(Point(0, 2)));
    assert!(!g.hasneighbour(&Point(2, 2), Direction::South));
}

#[test]
fn min_and_max() {
    let mut g = Grid::new(3, 2);
    g.set(&Point(2, 1), 7);
    g.set(&Point(0, 1), 3);
    assert_eq!(g.max(), 7);
    assert_eq!(g.min(), 0);
    let full = Grid::new_init(2, 2, 4u8);
    assert_eq!(full.min(), 4);
    assert_eq!(full.max(), 4);
}

#[test]
fn map_into_changes_the_cell_type() {
    let mut g = Grid::new(2, 2);
    g.set(&Point(1, 0), 3);
    let m: Grid<u32> = g.map_into(|p: Point, v: u8| (v as u32) * 100 + p.0 as u32 * 10 + p.1 as u32);
    assert_eq!(m.get_data_vec(), &vec![0u32, 310, 1, 11]);
}

#[test]
fn grid_iteration_is_row_major() {
    let mut g = Grid::new(2, 2);
    g.set(&Point(1, 1), 8);
    let mut it = g.iter();
    let mut seen = Vec::new();
    while let Some((p, v)) = it.next() {
        seen.push((p, *v));
    }
    assert_eq!(seen, vec![(Point(0, 0), 0), (Point(1, 0), 0), (Point(0, 1), 0), (Point(1, 1), 8)]);
}

#[test]
fn add_and_sub_over_the_shared_extent() {
    let mut a = Grid::new(3, 2);
    let mut b = Grid::new(2, 3);
    a.set(&Point(0, 0), 250);
    a.set(&Point(2, 1), 9);
    b.set(&Point(0, 0), 10);
    b.set(&Point(1, 1), 4);
    b.set(&Point(1, 2), 7);
    a.add(&b);
    assert_eq!(a.get_data_vec(), &vec![255u8, 0, 0, 0, 4, 9]);
    a.sub(&b);
    assert_eq!(a.get_data_vec(), &vec![245u8, 0, 0, 0, 0, 9]);
}

#[test]
fn random_walk_joins_its_ends() {
    for seed in 1..20u64 {
        let mut rng = Pcg32::seed_from_u64(seed);
        let mut g = Grid::new(12, 9);
        let from = Point(1, 7);
        let to = Point(10, 2);
        g.set(&from, 1);
        g.set(&to, 1);
        g.set(&Point(5, 5), 3);
        g.randompathto(&mut rng, &from, &to, 2);
        assert!(occupied_chain(&g, from, to, 1, 3));
        assert_eq!(g.value(&Point(5, 5)), 3);
        for v in g.get_data_vec() {
            assert!(*v <= 3);
        }
    }
}

#[test]
fn random_walk_carves_exactly_the_manhattan_length() {
    let mut rng = Pcg32::seed_from_u64(3);
    let mut g = Grid::new(10, 10);
    let from = Point(0, 0);
    let to = Point(6, 4);
    g.set(&from, 1);
    g.randompathto(&mut rng, &from, &to, 2);
    let carved = g.get_data_vec().iter().filter(|v| **v == 2).count();
    assert_eq!(carved, 10);
}

#[test]
fn corner_path_joins_its_ends() {
    for seed in 1..10u64 {
        let mut rng = Pcg32::seed_from_u64(seed);
        let mut g = Grid::new(8, 8);
        let from = Point(6, 1);
        let to = Point(1, 5);
        g.rectpathto(&mut rng, &from, &to, 5);
        assert!(occupied_chain(&g, from, to, 5, 5));
        let carved = g.get_data_vec().iter().filter(|v| **v == 5).count();
        assert_eq!(carved, 10);
    }
}

#[test]
fn random_points_and_rectangles_stay_inside() {
    let bounds = Rectangle::new_dims(2, 3, 10, 6);
    let mut rng = Pcg32::seed_from_u64(11);
    let mut xs = Vec::new();
    for _ in 0..200 {
        let p = Point::random(&mut rng, &bounds);
        assert!(p.0 >= 2 && p.0 <= 11 && p.1 >= 3 && p.1 <= 8);
        xs.push(p.0);
        let r = Rectangle::random(&mut rng, &bounds, Some(2), Some(4), None, Some(3));
        assert!(r.topleft.0 >= 2 && r.bottomright.0 <= 11);
        assert!(r.topleft.1 >= 3 && r.bottomright.1 <= 8);
        assert!(r.width() >= 2 && r.width() <= 4);
        assert!(r.height() >= 1 && r.height() <= 3);
    }
    xs.sort();
    xs.dedup();
    assert!(xs.len() > 5);
}

#[test]
fn rendered_cell_defaults_to_nothing() {
    let c = RenderedTextCell::default();
    assert_eq!(c.background_colour, None);
    assert_eq!(c.foreground_colour, None);
    assert_eq!(c.text, None);
}

#[test]
fn mutable_access() {
    let mut g = Grid::new(3, 2);
    if let Some(v) = g.get_mut(&Point(2, 1)) {
        *v = 6;
    }
    assert_eq!(g.value(&Point(2, 1)), 6);
    assert!(g.get_mut(&Point(3, 1)).is_none());
    if let Some(v) = g.get_mut_by_index(1) {
        *v = 2;
    }
    assert_eq!(g.value(&Point(1, 0)), 2);
    assert!(g.get_mut_by_index(6).is_none());
    assert_eq!(g.get_data_vec(), &vec![0u8, 2, 0, 0, 0, 6]);
}
