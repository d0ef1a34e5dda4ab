use mapgen::common::Direction;
use mapgen::point::Point;
use mapgen::rectangle::Rectangle;

#[test]
fn neighbour_stops_at_zero_and_at_bounds() {
    let p = Point::new(0, 0);
    assert_eq!(p.neighbour(Direction::North, None, None), None);
    assert_eq!(p.neighbour(Direction::West, None, None), None);
    assert_eq!(p.neighbour(Direction::East, None, None), Some(Point(1, 0)));
    assert_eq!(p.neighbour(Direction::South, None, None), Some(Point(0, 1)));
    let q = Point::new(4, 2);
    assert_eq!(q.neighbour(Direction::East, Some(5), Some(3)), None);
    assert_eq!(q.neighbour(Direction::South, Some(5), Some(3)), None);
    assert_eq!(q.neighbour(Direction::East, Some(6), Some(3)), Some(Point(5, 2)));
    assert_eq!(q.neighbour(Direction::North, Some(5), Some(3)), Some(Point(4, 1)));
    assert_eq!(q.neighbour(Direction::West, Some(5), Some(3)), Some(Point(3, 2)));
    let past = Point::new(5, 5);
    assert_eq!(past.neighbour(Direction::East, Some(3), None), Some(Point(6, 5)));
    assert_eq!(past.east(Some(3)), Some(Point(6, 5)));
    assert_eq!(past.south(Some(3)), Some(Point(5, 6)));
    let edge = Point::new(u16::MAX, u16::MAX);
    assert_eq!(edge.neighbour(Direction::East, None, None), None);
    assert_eq!(edge.neighbour(Direction::South, None, None), None);
}

#[test]
fn direction_aliases() {
    let p = Point::new(3, 3);
    assert_eq!(p.north(), Some(Point(3, 2)));
    assert_eq!(p.west(), Some(Point(2, 3)));
    assert_eq!(p.south(None), Some(Point(3, 4)));
    assert_eq!(p.south(Some(4)), None);
    assert_eq!(p.east(Some(10)), Some(Point(4, 3)));
    assert_eq!(p.east(Some(4)), None);
}

#[test]
fn point_conversions() {
    let p = Point::new64(300, 7);
    assert_eq!((p.x(), p.y()), (300, 7));
    assert_eq!(Point::new32(1, 2), Point(1, 2));
    assert_eq!(Point::new16(5, 6), Point(5, 6));
    assert_eq!(Point::new8(255, 0), Point(255, 0));
    assert_eq!(p.xs(), 300usize);
    assert_eq!(p.ys(), 7usize);
    assert_eq!(p.x64(), 300u64);
    assert_eq!(p.y32(), 7u32);
    assert_eq!(p.x16(), 300u16);
    assert_eq!(p.y8(), 7u8);
    assert_eq!(Point(9, 3).x8(), 9u8);
    assert_eq!(p.x32(), 300u32);
    assert_eq!(p.y64(), 7u64);
    assert_eq!(p.y16(), 7u16);
    let mut q = Point::new(1, 1);
    q.set(8, 9);
    assert_eq!(q, Point(8, 9));
}

#[test]
fn squared_distance() {
    assert_eq!(Point(0, 0).distance_squared(&Point(3, 4)), 25);
    assert_eq!(Point(3, 4).distance_squared(&Point(0, 0)), 25);
    assert_eq!(Point(7, 7).distance_squared(&Point(7, 7)), 0);
    assert_eq!(
        Point(0, 0).distance_squared(&Point(u16::MAX, u16::MAX)),
        2 * 65535u64 * 65535u64
    );
}

#[test]
fn rectangles_from_points() {
    let r = Point(2, 3).rectangle(4, 2);
    assert_eq!(r.topleft, Point(2, 3));
    assert_eq!(r.bottomright, Point(5, 4));
    assert_eq!(r.topright(), Point(5, 3));
    assert_eq!(r.bottomleft(), Point(2, 4));
    assert_eq!((r.left(), r.right(), r.top(), r.bottom()), (2, 5, 3, 4));
    assert_eq!(r.width(), 4);
    assert_eq!(r.height(), 2);
    assert_eq!(r.area(), 8);
    assert!(!r.is_square());
    let s = Point(1, 1).square(3);
    assert_eq!(s.bottomright, Point(3, 3));
    assert!(s.is_square());
    let one = Point(6, 6).square1();
    assert_eq!(one.topleft, one.bottomright);
    assert_eq!(one.area(), 1);
    let n = Rectangle::new(&Point(0, 0), &Point(9, 4));
    assert_eq!(n.width(), 10);
    assert_eq!(n.height(), 5);
    assert_eq!(Rectangle::new_dims(0, 0, 65535, 1).width(), 65535);
}

#[test]
fn intersection_counts_touching_edges() {
    let a = Rectangle::new_dims(0, 0, 3, 3);
    let b = Rectangle::new_dims(2, 2, 3, 3);
    let c = Rectangle::new_dims(3, 0, 2, 2);
    let d = Rectangle::new_dims(0, 3, 2, 2);
    assert!(a.intersects(&b));
    assert!(b.intersects(&a));
    assert!(!a.intersects(&c));
    assert!(!a.intersects(&d));
    assert!(a.intersects(&a));
}

#[test]
fn corner_distance() {
    let a = Rectangle::new_dims(0, 0, 2, 2);
    let b = Rectangle::new_dims(4, 0, 2, 2);
    // a's top-right (1,0) to b's top-left (4,0)
    assert_eq!(a.corner_distance_squared(&b), 9);
    assert_eq!(b.corner_distance_squared(&a), 9);
    // a's bottom-right (1,1) to f's top-left (3,4)
    let f = Rectangle::new_dims(3, 4, 2, 2);
    assert_eq!(a.corner_distance_squared(&f), 13);
    // identical rectangles: like-placed corners are not compared
    let c = Rectangle::new_dims(0, 0, 3, 1);
    assert_eq!(c.corner_distance_squared(&c), 0);
    let e = Rectangle::new_dims(0, 0, 3, 2);
    assert_eq!(e.corner_distance_squared(&e), 1);
}

#[test]
fn rectangle_iteration_is_row_major_and_restarts() {
    let r = Rectangle::new_dims(1, 1, 2, 2);
    let mut it = r.iter();
    assert_eq!(it.next(), Some(Point(1, 1)));
    assert_eq!(it.next(), Some(Point(2, 1)));
    assert_eq!(it.next(), Some(Point(1, 2)));
    assert_eq!(it.next(), Some(Point(2, 2)));
    assert_eq!(it.next(), None);
    assert_eq!(it.next(), Some(Point(1, 1)));
}

#[test]
fn rectangle_iteration_at_the_coordinate_limit() {
    let r = Rectangle::new(&Point(65534, 65535), &Point(65535, 65535));
    let mut it = r.iter();
    assert_eq!(it.next(), Some(Point(65534, 65535)));
    assert_eq!(it.next(), Some(Point(65535, 65535)));
    assert_eq!(it.next(), None);
}
