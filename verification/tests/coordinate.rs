use spatial_index::coordinate::Coordinate;
use spatial_index::sorting::sorted_coordinates;

#[test]
fn zero_and_one_of_every_coordinate_type() {
    assert_eq!(<u8 as Coordinate>::zero(), 0);
    assert_eq!(<u8 as Coordinate>::one(), 1);
    assert_eq!(<u16 as Coordinate>::zero(), 0);
    assert_eq!(<u16 as Coordinate>::one(), 1);
    assert_eq!(<u32 as Coordinate>::zero(), 0);
    assert_eq!(<u32 as Coordinate>::one(), 1);
    assert_eq!(<u64 as Coordinate>::zero(), 0);
    assert_eq!(<u64 as Coordinate>::one(), 1);
    assert_eq!(<usize as Coordinate>::zero(), 0);
    assert_eq!(<usize as Coordinate>::one(), 1);
    assert_eq!(<i8 as Coordinate>::zero(), 0);
    assert_eq!(<i8 as Coordinate>::one(), 1);
    assert_eq!(<i16 as Coordinate>::zero(), 0);
    assert_eq!(<i16 as Coordinate>::one(), 1);
    assert_eq!(<i32 as Coordinate>::zero(), 0);
    assert_eq!(<i32 as Coordinate>::one(), 1);
    assert_eq!(<i64 as Coordinate>::zero(), 0);
    assert_eq!(<i64 as Coordinate>::one(), 1);
    assert_eq!(<isize as Coordinate>::zero(), 0);
    assert_eq!(<isize as Coordinate>::one(), 1);
}

#[test]
fn coordinates_are_compared_by_value() {
    assert!(Coordinate::less_than(3u8, 4u8));
    assert!(!Coordinate::less_than(4u8, 4u8));
    assert!(Coordinate::less_than(-128i8, 127i8));
    assert!(!Coordinate::less_than(0i64, -1i64));
    assert!(Coordinate::same_as(65535u16, 65535u16));
    assert!(!Coordinate::same_as(-1isize, 1isize));
    assert!(Coordinate::less_than(0usize, usize::MAX));
}

#[test]
fn coordinates_are_added_subtracted_and_multiplied() {
    assert_eq!(Coordinate::plus(200u8, 55u8), 255);
    assert_eq!(Coordinate::minus(-100i8, 28i8), -128);
    assert_eq!(Coordinate::times(-4i16, 8000i16), -32000);
    assert_eq!(Coordinate::plus(1u32, 2u32), 3);
    assert_eq!(Coordinate::minus(10u64, 10u64), 0);
    assert_eq!(Coordinate::times(65536usize, 3usize), 196608);
    assert_eq!(Coordinate::times(-3i32, -3i32), 9);
    assert_eq!(Coordinate::minus(i64::MIN + 1, 1i64), i64::MIN);
    assert_eq!(Coordinate::plus(-1isize, 1isize), 0);
    assert_eq!(Coordinate::times(255u8, 1u8), 255);
}

#[test]
fn coordinates_are_sorted_in_ascending_order() {
    assert_eq!(sorted_coordinates(&vec![3u16, 1, 2]), vec![1, 2, 3]);
    assert_eq!(sorted_coordinates(&vec![5i32, -1, 5, 0, -1]), vec![-1, -1, 0, 5, 5]);
    assert_eq!(sorted_coordinates(&vec![9u8, 8, 7, 6, 5, 4, 3, 2, 1, 0]), vec![0, 1, 2, 3, 4, 5, 6, 7, 8, 9]);
    assert_eq!(sorted_coordinates(&Vec::<i64>::new()), Vec::<i64>::new());
    assert_eq!(sorted_coordinates(&vec![7usize]), vec![7]);
}
