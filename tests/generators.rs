use mapgen::grid::Grid;
use mapgen::heightgrid::{HeightGrid, HeightGridProperties};
use mapgen::pipegrid::{glyph, PipeGrid, PipeGridProperties};
use mapgen::point::Point;
use mapgen::roomgrid::{RoomGrid, RoomGridProperties};

fn linked(grid: &Grid<u8>, from: Point, to: Point, lo: u8, hi: u8) -> bool {
    let w = grid.width() as usize;
    let h = grid.height() as usize;
    let ok = |p: Point| {
        let v = grid.value(&p);
        v >= lo && v <= hi
    };
    if !ok(from) {
        return false;
    }
    let mut seen = vec![false; w * h];
    let mut stack = vec![from];
    seen[grid.index(&from)] = true;
    while let Some(p) = stack.pop() {
        if p == to {
            return true;
        }
        for n in grid.getneighbours(&p) {
            let i = grid.index(&n);
            if !seen[i] && ok(n) {
                seen[i] = true;
                stack.push(n);
            }
        }
    }
    false
}

fn count(grid: &Grid<u8>, value: u8) -> usize {
    grid.get_data_vec().iter().filter(|v| **v == value).count()
}

fn pipe_props(backbone: u16, regular: Vec<u16>, interconnect: bool) -> PipeGridProperties {
    PipeGridProperties { backboneseeds: backbone, regularseeds: regular, interconnect }
}

#[test]
fn pipe_generation_is_deterministic() {
    let a = PipeGrid::generate(30, 12, 5, pipe_props(4, vec![5, 5], true));
    let b = PipeGrid::generate(30, 12, 5, pipe_props(4, vec![5, 5], true));
    assert_eq!(a.get_data_vec(), b.get_data_vec());
    let c = PipeGrid::generate(30, 12, 6, pipe_props(4, vec![5, 5], true));
    assert_ne!(a.get_data_vec(), c.get_data_vec());
}

#[test]
fn pipe_backbone_is_connected() {
    let (grid, seeds, tiers) = PipeGrid::generate_with_backbone(10, 10, 42, &pipe_props(3, vec![], false));
    assert!(tiers.is_empty());
    assert_eq!(seeds.len(), 3);
    for a in &seeds {
        assert_eq!(grid.value(a), 1);
        for b in &seeds {
            assert!(linked(&grid, *a, *b, 1, 2));
        }
    }
}

#[test]
fn pipe_backbone_stays_connected_under_tiers() {
    for seed in 1..8u64 {
        let props = pipe_props(6, vec![10, 10, 20], true);
        let (grid, seeds, tiers) = PipeGrid::generate_with_backbone(40, 20, seed, &props);
        assert_eq!(tiers.len(), 3);
        for (t, tier) in tiers.iter().enumerate() {
            assert_eq!(tier.points.len(), props.regularseeds[t] as usize);
            for p in &tier.points {
                assert_eq!(grid.value(p), t as u8 + 3);
            }
        }
        assert_eq!(count(&grid, 3), 10);
        let ones = count(&grid, 1);
        assert!(ones <= seeds.len());
        for a in &seeds {
            for b in &seeds {
                assert!(linked(&grid, *a, *b, 1, 2));
            }
        }
    }
}

#[test]
fn pipe_scenario_small_map() {
    let grid = PipeGrid::generate(20, 10, 1, pipe_props(3, vec![2], false));
    assert_eq!(count(&grid, 1), 3);
    assert_eq!(count(&grid, 3), 2);
    let mut ones = Vec::new();
    for y in 0..10u16 {
        for x in 0..20u16 {
            if grid.value(&Point(x, y)) == 1 {
                ones.push(Point(x, y));
            }
        }
    }
    for a in &ones {
        for b in &ones {
            assert!(linked(&grid, *a, *b, 1, 2));
        }
    }
    for y in 0..10u16 {
        for x in 0..20u16 {
            if grid.value(&Point(x, y)) == 3 {
                assert!(linked(&grid, Point(x, y), ones[0], 1, 4));
            }
        }
    }
}

#[test]
fn pipe_tiers_use_their_values() {
    let grid = PipeGrid::generate(30, 15, 9, pipe_props(2, vec![3, 4], false));
    // tier 0 points hold 3 and their paths 4; tier 1 points hold 4 and their paths 5
    assert_eq!(count(&grid, 3), 3);
    assert!(count(&grid, 4) >= 4);
    for v in grid.get_data_vec() {
        assert!(*v <= 5);
    }
}

#[test]
fn pipe_glyph_table() {
    let table = [
        ((true, true, true, true), '┼', '╋'),
        ((true, true, true, false), '├', '┣'),
        ((false, true, true, true), '┬', '┳'),
        ((true, false, true, true), '┤', '┫'),
        ((true, true, false, true), '┴', '┻'),
        ((true, true, false, false), '└', '┗'),
        ((true, false, true, false), '│', '┃'),
        ((true, false, false, true), '┘', '┛'),
        ((false, true, true, false), '┌', '┏'),
        ((false, true, false, true), '─', '━'),
        ((false, false, true, true), '┐', '┓'),
        ((true, false, false, false), '╵', '╹'),
        ((false, true, false, false), '╶', '╺'),
        ((false, false, true, false), '╷', '╻'),
        ((false, false, false, true), '╴', '╸'),
        ((false, false, false, false), '·', '•'),
    ];
    for ((n, e, s, w), light, heavy) in table.iter() {
        assert_eq!(glyph(*n, *e, *s, *w, false), *light);
        assert_eq!(glyph(*n, *e, *s, *w, true), *heavy);
    }
}

#[test]
fn pipe_rendering() {
    let mut g = Grid::new(3, 2);
    g.set(&Point(0, 0), 1);
    g.set(&Point(1, 0), 2);
    g.set(&Point(1, 1), 5);
    assert_eq!(PipeGrid::rendercell(&g, &Point(0, 0)), "╺");
    assert_eq!(PipeGrid::rendercell(&g, &Point(1, 0)), "┓");
    assert_eq!(PipeGrid::rendercell(&g, &Point(1, 1)), "╵");
    assert_eq!(PipeGrid::rendercell(&g, &Point(2, 1)), " ");
    assert_eq!(PipeGrid::render(&g), "╺┓ \n ╵ ");
    let lone = Grid::new_init(1, 1, 7u8);
    assert_eq!(PipeGrid::render(&lone), "·");
}

#[test]
fn height_map_stays_within_the_iteration_count() {
    for (iterations, seed) in [(0usize, 1u64), (1, 2), (10, 3), (90, 4), (400, 5)] {
        let grid = HeightGrid::generate(80, 30, seed, HeightGridProperties { iterations });
        assert!((grid.max() as usize) <= iterations);
        if iterations == 0 {
            assert_eq!(grid.max(), 0);
        }
    }
}

#[test]
fn height_map_is_deterministic_and_raised() {
    let a = HeightGrid::generate(40, 20, 17, HeightGridProperties { iterations: 50 });
    let b = HeightGrid::generate(40, 20, 17, HeightGridProperties { iterations: 50 });
    assert_eq!(a.get_data_vec(), b.get_data_vec());
    assert!(a.max() > 0);
}

#[test]
fn height_map_on_a_tiny_grid() {
    let grid = HeightGrid::generate(1, 1, 3, HeightGridProperties { iterations: 300 });
    assert_eq!(grid.value(&Point(0, 0)), 255);
}

#[test]
fn grey_levels() {
    assert_eq!(HeightGrid::grey_level(5, 5, 5), 0);
    assert_eq!(HeightGrid::grey_level(3, 1, 6), 102);
    assert_eq!(HeightGrid::grey_level(6, 1, 6), 255);
    assert_eq!(HeightGrid::grey_level(1, 1, 6), 0);
    assert_eq!(HeightGrid::grey_level(2, 0, 4), 126);
}

#[test]
fn rooms_do_not_overlap() {
    for seed in 1..15u64 {
        let (_, rooms) = RoomGrid::generate_with_rooms(80, 40, seed, &RoomGridProperties { rooms: 8 });
        assert!(rooms.len() <= 8);
        for (i, a) in rooms.iter().enumerate() {
            assert!(a.width() >= 3 && a.width() <= 20);
            assert!(a.height() >= 3 && a.height() <= 10);
            for (j, b) in rooms.iter().enumerate() {
                if i != j {
                    assert!(!a.intersects(b));
                }
            }
        }
    }
}

#[test]
fn rooms_are_connected() {
    let (grid, rooms) = RoomGrid::generate_with_rooms(40, 20, 7, &RoomGridProperties { rooms: 4 });
    assert!(!rooms.is_empty());
    for a in &rooms {
        for b in &rooms {
            assert!(linked(&grid, a.topleft, b.topleft, 1, 255));
        }
    }
}

#[test]
fn rooms_on_a_map_too_small_for_any() {
    let (grid, rooms) = RoomGrid::generate_with_rooms(10, 10, 3, &RoomGridProperties { rooms: 4 });
    assert!(rooms.is_empty());
    assert_eq!(grid.max(), 0);
}

#[test]
fn room_generation_is_deterministic_and_renders() {
    let a = RoomGrid::generate(60, 30, 21, RoomGridProperties { rooms: 6 });
    let b = RoomGrid::generate(60, 30, 21, RoomGridProperties { rooms: 6 });
    assert_eq!(a.get_data_vec(), b.get_data_vec());
    let text = RoomGrid::render(&a);
    assert_eq!(text.lines().count(), 30);
    for line in text.lines() {
        assert_eq!(line.chars().count(), 60);
    }
    let floor = text.chars().filter(|c| *c == '█').count();
    assert_eq!(floor, a.get_data_vec().iter().filter(|v| **v != 0).count());
    assert_eq!(RoomGrid::rendercell(&Grid::new_init(1, 1, 1u8), &Point(0, 0)), "█");
    assert_eq!(RoomGrid::rendercell(&Grid::new(1, 1), &Point(0, 0)), " ");
}

#[test]
fn pipe_tier_stops_when_the_grid_is_full() {
    let props = pipe_props(1, vec![200], false);
    let (grid, _, tiers) = PipeGrid::generate_with_backbone(4, 3, 2, &props);
    assert!(tiers[0].points.len() < 200);
    assert!(grid.get_data_vec().iter().all(|v| *v != 0));
}

#[test]
fn no_rooms_asked_leaves_the_map_empty() {
    let (grid, rooms) = RoomGrid::generate_with_rooms(60, 30, 4, &RoomGridProperties { rooms: 0 });
    assert!(rooms.is_empty());
    assert!(grid.get_data_vec().iter().all(|v| *v == 0));
}

#[test]
fn all_floor_forms_one_component() {
    for seed in 1..10u64 {
        let (grid, rooms) = RoomGrid::generate_with_rooms(80, 40, seed, &RoomGridProperties { rooms: 7 });
        for y in 0..40u16 {
            for x in 0..80u16 {
                if grid.value(&Point(x, y)) != 0 {
                    assert!(linked(&grid, Point(x, y), rooms[0].topleft, 1, 255));
                }
            }
        }
    }
}

#[test]
fn height_total_is_bounded_by_the_rectangles() {
    let iterations = 60usize;
    let grid = HeightGrid::generate(50, 25, 8, HeightGridProperties { iterations });
    let total: usize = grid.get_data_vec().iter().map(|v| *v as usize).sum();
    assert!(total >= iterations);
    assert!(total <= iterations * 10 * 5);
}

#[test]
fn backbone_ones_are_the_backbone_points() {
    let (grid, seeds, _) = PipeGrid::generate_with_backbone(25, 12, 13, &pipe_props(5, vec![4, 4], true));
    for y in 0..12u16 {
        for x in 0..25u16 {
            if grid.value(&Point(x, y)) == 1 {
                assert!(seeds.contains(&Point(x, y)));
            }
        }
    }
}
