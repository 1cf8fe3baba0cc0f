use spatial_index::game::GameMap;
use spatial_index::geometry::Point;
use spatial_index::parser::{ParseError, RoverMove};

fn points(coordinates: &[(i32, i32)]) -> Vec<Point<i32>> {
    coordinates.iter().map(|(x, y)| Point::new(*x, *y)).collect()
}

fn moves(path: &str) -> Vec<RoverMove> {
    path.chars().map(|c| RoverMove::parse(c).unwrap()).collect()
}

#[test]
fn a_move_is_a_step_of_one_tile() {
    assert!(RoverMove::North.as_vector() == Point::new(0, 1));
    assert!(RoverMove::South.as_vector() == Point::new(0, -1));
    assert!(RoverMove::East.as_vector() == Point::new(1, 0));
    assert!(RoverMove::West.as_vector() == Point::new(-1, 0));
}

#[test]
fn the_rover_must_start_on_the_grid() {
    let dust = points(&[(1, 0), (2, 2)]);
    assert!(matches!(
        GameMap::new(Point::new(5, 5), Point::new(6, 1), dust.clone()),
        Err(ParseError::InvalidRoverPosition)
    ));
    assert!(matches!(
        GameMap::new(Point::new(5, 5), Point::new(1, -1), dust.clone()),
        Err(ParseError::InvalidRoverPosition)
    ));
    // The rover is looked at before the dust.
    assert!(matches!(
        GameMap::new(Point::new(5, 5), Point::new(6, 1), points(&[(9, 9)])),
        Err(ParseError::InvalidRoverPosition)
    ));
    match GameMap::new(Point::new(5, 5), Point::new(5, 0), dust) {
        Ok(map) => assert!(map.rover_pos() == Point::new(5, 0)),
        Err(_) => panic!("the corner is on the grid"),
    }
}

#[test]
fn dust_must_lie_on_the_grid() {
    assert!(matches!(
        GameMap::new(Point::new(5, 5), Point::new(1, 2), points(&[(1, 0), (2, 6), (2, 3)])),
        Err(ParseError::InvalidDustPosition)
    ));
    assert!(matches!(
        GameMap::new(Point::new(5, 5), Point::new(1, 2), points(&[(-1, 0)])),
        Err(ParseError::InvalidDustPosition)
    ));
    assert!(GameMap::new(Point::new(5, 5), Point::new(1, 2), points(&[(0, 0), (5, 5)])).is_ok());
    assert!(GameMap::new(Point::new(0, 0), Point::new(0, 0), Vec::new()).is_ok());
}

#[test]
fn the_rover_cleans_the_tiles_it_comes_to() {
    let dust = points(&[(1, 0), (2, 2), (2, 3)]);
    let mut map = GameMap::new(Point::new(5, 5), Point::new(1, 2), dust).unwrap();
    let count = map.move_rover_path(&moves("NNESEESWNWW"));
    assert!(map.rover_pos() == Point::new(1, 3));
    assert_eq!(count, 1);
}

#[test]
fn a_tile_is_cleaned_once() {
    let dust = points(&[(1, 1), (0, 1), (3, 3)]);
    let mut map = GameMap::new(Point::new(3, 3), Point::new(0, 0), dust).unwrap();
    assert_eq!(map.move_rover_path(&moves("NESWNE")), 2);
    assert!(map.rover_pos() == Point::new(1, 1));
    assert_eq!(map.move_rover_path(&moves("WE")), 0);
    assert_eq!(map.move_rover_path(&moves("NNEE")), 1);
    assert!(map.rover_pos() == Point::new(3, 3));
}

#[test]
fn the_rover_stays_where_the_grid_ends() {
    let mut map =
        GameMap::new(Point::new(2, 1), Point::new(0, 0), points(&[(2, 1), (0, 1)])).unwrap();
    assert_eq!(map.move_rover_path(&moves("SSWW")), 0);
    assert!(map.rover_pos() == Point::new(0, 0));
    assert_eq!(map.move_rover_path(&moves("EEEENNNN")), 1);
    assert!(map.rover_pos() == Point::new(2, 1));
    assert_eq!(map.move_rover_path(&moves("")), 0);
    assert!(map.rover_pos() == Point::new(2, 1));
}

#[test]
fn the_starting_tile_is_not_cleaned() {
    let mut map =
        GameMap::new(Point::new(2, 2), Point::new(1, 1), points(&[(1, 1), (0, 0)])).unwrap();
    assert_eq!(map.move_rover_path(&moves("")), 0);
    // A move into the wall leaves the rover on its tile, which is cleaned then.
    let mut map =
        GameMap::new(Point::new(2, 2), Point::new(0, 0), points(&[(0, 0), (2, 2)])).unwrap();
    assert_eq!(map.move_rover_path(&moves("S")), 1);
}

#[test]
fn dust_on_a_single_tile_is_cleaned_when_the_rover_comes_to_it() {
    let mut map = GameMap::new(Point::new(5, 5), Point::new(0, 0), points(&[(3, 3)])).unwrap();
    assert_eq!(map.move_rover_path(&moves("E")), 0);
    assert!(map.rover_pos() == Point::new(1, 0));
    assert_eq!(map.move_rover_path(&moves("EENN")), 0);
    assert_eq!(map.move_rover_path(&moves("N")), 1);
    assert!(map.rover_pos() == Point::new(3, 3));
    assert_eq!(map.move_rover_path(&moves("SN")), 0);
    // Dust that was laid twice on one tile is cleaned once.
    let mut map =
        GameMap::new(Point::new(5, 5), Point::new(0, 0), points(&[(4, 4), (4, 4)])).unwrap();
    assert_eq!(map.move_rover_path(&moves("N")), 0);
    assert_eq!(map.move_rover_path(&moves("EEEENNN")), 1);
    assert!(map.rover_pos() == Point::new(4, 4));
}

#[test]
fn a_grid_without_dust_has_nothing_to_clean() {
    let mut map = GameMap::new(Point::new(5, 5), Point::new(0, 0), Vec::new()).unwrap();
    assert_eq!(map.move_rover_path(&moves("NNEESSWW")), 0);
    assert!(map.rover_pos() == Point::new(0, 0));
}

#[test]
fn the_rover_stays_where_the_coordinates_end() {
    let corner = Point::new(i32::MAX, i32::MAX);
    let dust = points(&[(i32::MAX, 1)]);
    let mut map = GameMap::new(corner, Point::new(i32::MAX, 0), dust).unwrap();
    assert_eq!(map.move_rover_path(&moves("E")), 0);
    assert!(map.rover_pos() == Point::new(i32::MAX, 0));
    let mut map = GameMap::new(corner, corner, points(&[(0, 0), (i32::MAX, i32::MAX)])).unwrap();
    assert_eq!(map.move_rover_path(&moves("NE")), 1);
    assert!(map.rover_pos() == corner);
    assert_eq!(map.move_rover_path(&moves("SW")), 0);
    assert!(map.rover_pos() == Point::new(i32::MAX - 1, i32::MAX - 1));
}
