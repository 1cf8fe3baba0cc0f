use std::cmp::Ordering;

use spatial_index::geometry::{bounding_tile, HorizontalLine, Line, Point, Tile, VerticalLine};

#[test]
fn points_equality() {
    let p1 = Point::new(5usize, 4usize);
    let p2 = Point::new(5usize, 4usize);
    let p3 = Point::new(5usize, 3usize);
    let p4 = Point::new(4usize, 5usize);
    assert!(p1 == p2);
    assert!(p2 == p1);
    assert!(p1 != p3);
    assert!(p3 != p1);
    assert!(p1 != p4);
    assert!(p4 != p1);
}

#[test]
fn points_ordering() {
    let p1 = Point::new(5usize, 4usize);
    let p2 = Point::new(5usize, 4usize);
    let p3 = Point::new(5usize, 3usize);
    let p4 = Point::new(4usize, 3usize);
    assert!(p1.partial_cmp(&p2) == Some(Ordering::Equal));
    assert!(p2 > p3);
    assert!(p2 > p4);
    assert!(p4 < p2);

    let p5 = Point::new(5, 2usize);
    assert!(p5.partial_cmp(&p4) == None);
}

#[test]
fn tile_equality() {
    let p1 = Point::new(10, 10);
    let tile = Tile::new(Point::new(10usize, 10usize), Point::new(10, 10));
    let tile2 = Tile::new(Point::new(10usize, 10usize), Point::new(10, 11));
    let tile3 = Tile::new(Point::new(11usize, 10usize), Point::new(11, 10));

    assert!(tile == p1);
    assert!(tile2 != p1);
    assert!(tile3 != p1);
}

#[test]
fn tile_ordering() {
    let p1 = Point::new(10, 10);

    let tile = Tile::new(Point::new(10usize, 10usize), Point::new(10, 10));
    assert!(tile <= p1);
    assert_eq!(tile < p1, false);

    let tile2 = Tile::new(Point::new(10usize, 10usize), Point::new(11, 11));
    assert!(tile2 >= p1);
    assert!(tile2 > Point::new(11, 11));

    let tile2 = Tile::new(Point::new(5usize, 5usize), Point::new(15, 15));
    assert!(tile2 > Point::new(5, 8));
    assert!(tile2 > Point::new(15, 10));
    assert!(tile2 > Point::new(15, 15));
    assert!(tile2 > Point::new(5, 5));
    assert!(tile2 < Point::new(7, 22));
    assert!(tile2 > Point::new(7, 11));
}

#[test]
fn tile_vertical_cmp() {
    let t1 = Tile::new(Point::new(4usize, 5), Point::new(7, 8));

    // The two x intervals share the value 7: they overlap.
    let t2 = Tile::new(Point::new(7usize, 8), Point::new(9, 9));
    assert!(t1.vertical_cmp(t2) == Ordering::Equal);
    assert!(t2.vertical_cmp(t1) == Ordering::Equal);

    let t2 = Tile::new(Point::new(4usize, 5), Point::new(6, 6));
    assert!(t1.vertical_cmp(t2) == Ordering::Equal);
    assert!(t2.vertical_cmp(t1) == Ordering::Equal);

    let t2 = Tile::new(Point::new(3usize, 5), Point::new(9, 6));
    assert!(t1.vertical_cmp(t2) == Ordering::Equal);
    assert!(t2.vertical_cmp(t1) == Ordering::Equal);
}

#[test]
fn tile_union() {
    let t1 = Tile::new(Point::new(4usize, 5), Point::new(7, 8));
    let t2 = Tile::new(Point::new(4usize, 5), Point::new(6, 6));

    let t3 = t1.union(t2);
    assert!(t3 >= t1);
    assert!(t3 >= t2);
}

#[test]
fn test_line_point_cmp() {
    let line: Box<Line<u16>> = Box::new(Line::Horizontal(HorizontalLine::new(4)));
    assert!(&*line > &Point::new(0, 0));
}

#[test]
fn vertical_line_against_point_and_tile() {
    let line = VerticalLine::new(6u16);
    assert!(line.partial_cmp(&Point::new(5, 9)) == Some(Ordering::Greater));
    assert!(line.partial_cmp(&Point::new(6, 0)) == Some(Ordering::Equal));
    assert!(line.partial_cmp(&Point::new(7, 0)) == Some(Ordering::Less));
    let tile = Tile::new(Point::new(2u16, 2), Point::new(6, 3));
    assert!(line == tile);
    assert!(VerticalLine::new(1u16) < tile);
    assert!(VerticalLine::new(7u16) > tile);
}

#[test]
fn a_tile_stands_above_the_points_it_holds() {
    let tile = Tile::new(Point::new(0i32, 0), Point::new(10, 10));
    assert!(tile.partial_cmp(&Point::new(5, 5)) == Some(Ordering::Greater));
    assert!(tile.partial_cmp(&Point::new(15, 5)) == Some(Ordering::Less));
    assert!(tile.partial_cmp(&Point::new(0, 10)) == Some(Ordering::Greater));
    assert!(tile.partial_cmp(&Point::new(-1, 0)) == Some(Ordering::Less));
    let single = Tile::from_point(Point::new(3i32, 3));
    assert!(single.partial_cmp(&Point::new(3, 3)) == Some(Ordering::Equal));
    assert!(single.partial_cmp(&Point::new(3, 4)) == Some(Ordering::Less));
}

#[test]
fn a_point_stands_to_a_tile_as_the_tile_to_the_point_reversed() {
    let tile = Tile::new(Point::new(0u8, 0), Point::new(10, 10));
    assert!(Point::new(5, 5).partial_cmp(&tile) == Some(Ordering::Less));
    assert!(Point::new(15, 5).partial_cmp(&tile) == Some(Ordering::Greater));
    assert!(Point::new(3, 3).partial_cmp(&Tile::from_point(Point::new(3u8, 3))) == Some(Ordering::Equal));
    assert!(Point::new(3u8, 3) == Tile::from_point(Point::new(3, 3)));
    assert!(Point::new(3u8, 3) != tile);
}

#[test]
fn points_that_differ_in_opposite_directions_are_not_related() {
    let p = Point::new(5i64, 2);
    let q = Point::new(4i64, 3);
    assert!(p.partial_cmp(&q) == None);
    assert!(q.partial_cmp(&p) == None);
    assert!(!(p < q) && !(p > q) && !(p <= q) && !(p >= q) && p != q);
    assert!(Point::new(1i64, 1) < Point::new(2, 2));
    assert!(Point::new(2i64, 2) > Point::new(1, 2));
}

#[test]
fn points_are_ordered_on_each_axis() {
    let p = Point::new(1isize, 9);
    let q = Point::new(2isize, -9);
    assert!(p.vertical_cmp(q) == Ordering::Less);
    assert!(q.vertical_cmp(p) == Ordering::Greater);
    assert!(p.horizontal_cmp(q) == Ordering::Greater);
    assert!(p.horizontal_cmp(p) == Ordering::Equal);
    assert_eq!(p.get_x(), 1);
    assert_eq!(p.get_y(), 9);
}

#[test]
fn points_are_added_and_subtracted_by_coordinate() {
    let p = Point::new(7i16, -2);
    let q = Point::new(-3i16, 5);
    assert!(p + q == Point::new(4, 3));
    assert!(p - q == Point::new(10, -7));
    assert!(Point::new(200u8, 0) + Point::new(55, 255) == Point::new(255, 255));
}

#[test]
fn tiles_nest() {
    let outer = Tile::new(Point::new(0u32, 0), Point::new(10, 10));
    let inner = Tile::new(Point::new(2u32, 3), Point::new(4, 10));
    let aside = Tile::new(Point::new(5u32, 5), Point::new(15, 15));
    assert!(outer.partial_cmp(&inner) == Some(Ordering::Greater));
    assert!(inner.partial_cmp(&outer) == Some(Ordering::Less));
    assert!(outer.partial_cmp(&outer) == Some(Ordering::Equal));
    assert!(outer.partial_cmp(&aside) == None);
    assert!(outer == outer);
    assert!(outer != inner);
}

#[test]
fn the_union_of_tiles_is_their_smallest_cover() {
    let t1 = Tile::new(Point::new(4u64, 5), Point::new(7, 8));
    let t2 = Tile::new(Point::new(1u64, 6), Point::new(6, 9));
    assert!(t1.union(t2) == Tile::new(Point::new(1, 5), Point::new(7, 9)));
    assert!(t2.union(t1) == Tile::new(Point::new(1, 5), Point::new(7, 9)));
    assert!(t1.union(t1) == t1);
}

#[test]
fn the_bounding_tile_covers_all_tiles() {
    let tiles = vec![
        Tile::new(Point::new(4i8, 5), Point::new(7, 8)),
        Tile::from_point(Point::new(-4, 6)),
        Tile::new(Point::new(0, -9), Point::new(1, 1)),
    ];
    assert!(bounding_tile(&tiles) == Some(Tile::new(Point::new(-4, -9), Point::new(7, 8))));
    assert!(bounding_tile(&vec![tiles[1]]) == Some(tiles[1]));
    assert!(bounding_tile(&Vec::<Tile<i8>>::new()).is_none());
}

#[test]
fn tile_horizontal_cmp() {
    let t1 = Tile::new(Point::new(4usize, 5), Point::new(7, 8));
    let t2 = Tile::new(Point::new(0usize, 9), Point::new(1, 9));
    assert!(t1.horizontal_cmp(t2) == Ordering::Less);
    assert!(t2.horizontal_cmp(t1) == Ordering::Greater);
    let t3 = Tile::new(Point::new(0usize, 5), Point::new(1, 9));
    assert!(t1.horizontal_cmp(t3) == Ordering::Equal);
    assert!(t3.horizontal_cmp(t1) == Ordering::Equal);
    // The two y intervals share the value 8: they overlap.
    let t4 = Tile::new(Point::new(0usize, 8), Point::new(1, 9));
    assert!(t1.horizontal_cmp(t4) == Ordering::Equal);
    assert!(t4.horizontal_cmp(t1) == Ordering::Equal);
    // Intervals that overlap are level though both ends of one lie before those of the other.
    let t5 = Tile::new(Point::new(0usize, 6), Point::new(1, 20));
    assert!(t1.horizontal_cmp(t5) == Ordering::Equal);
    assert!(t5.horizontal_cmp(t1) == Ordering::Equal);
    assert!(t1.bottom_left_corner() == Point::new(4, 5));
    assert!(t1.top_right_corner() == Point::new(7, 8));
}

#[test]
fn lines_are_moved_along_their_axis() {
    let v = VerticalLine::at_point(Point::new(3u16, 8)) + 2;
    assert!(v == Point::new(5, 0));
    assert!(v - 5 == Point::new(0, 7));
    let h = HorizontalLine::at_point(Point::new(3i32, 8)) - 10;
    assert!(h == Point::new(100, -2));
    assert!(h + 1 > Point::new(0, -2));
    assert!(h + 1 < Point::new(0, 0));
}

#[test]
fn a_horizontal_line_against_point_and_tile() {
    let line = HorizontalLine::new(6u16);
    let tile = Tile::new(Point::new(2u16, 2), Point::new(9, 6));
    assert!(line == tile);
    assert!(line.partial_cmp(&tile) == Some(Ordering::Equal));
    assert!(HorizontalLine::new(1u16) < tile);
    assert!(HorizontalLine::new(7u16) > tile);
    assert!(line.partial_cmp(&Point::new(0, 7)) == Some(Ordering::Less));
}

#[test]
fn a_line_of_either_axis_compares_on_its_axis() {
    let v: Line<i32> = Line::Vertical(VerticalLine::new(4));
    let h: Line<i32> = Line::Horizontal(HorizontalLine::new(4));
    assert!(v.is_vertical() && !v.is_horizontal());
    assert!(h.is_horizontal() && !h.is_vertical());
    let tile = Tile::new(Point::new(0, 5), Point::new(4, 6));
    assert!(v.cmp_with_tile(&tile) == Some(Ordering::Equal));
    assert!(h.cmp_with_tile(&tile) == Some(Ordering::Less));
    assert!(v.cmp_with_point(&Point::new(3, 9)) == Some(Ordering::Greater));
    assert!(h.cmp_with_point(&Point::new(3, 9)) == Some(Ordering::Less));
    assert!(v == tile);
    assert!(h < tile);
    assert!(h == Point::new(-7, 4));
}

#[test]
fn tiles_are_ordered_on_x_where_their_intervals_lie_apart() {
    let t1 = Tile::new(Point::new(4i32, 5), Point::new(7, 8));
    let after = Tile::new(Point::new(8i32, -3), Point::new(9, 100));
    assert!(t1.vertical_cmp(after) == Ordering::Less);
    assert!(after.vertical_cmp(t1) == Ordering::Greater);
    // The x intervals 0..5 and 3..8 overlap.
    let a = Tile::new(Point::new(0i32, 0), Point::new(5, 1));
    let b = Tile::new(Point::new(3i32, 7), Point::new(8, 9));
    assert!(a.vertical_cmp(b) == Ordering::Equal);
    assert!(b.vertical_cmp(a) == Ordering::Equal);
    // A tile of one point against the tile that begins where it lies.
    let single = Tile::from_point(Point::new(3i32, 0));
    assert!(single.vertical_cmp(b) == Ordering::Equal);
    assert!(single.vertical_cmp(a) == Ordering::Equal);
    assert!(Tile::from_point(Point::new(2i32, 0)).vertical_cmp(b) == Ordering::Less);
    assert!(Tile::from_point(Point::new(9i32, 0)).vertical_cmp(b) == Ordering::Greater);
}
