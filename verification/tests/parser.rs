use spatial_index::geometry::Point;
use spatial_index::parser::{
    coordinate_from_words, moves_from_line, split_words, ParseError, Parser, RoverMove,
};

fn lines(text: &[&str]) -> Vec<String> {
    text.iter().map(|l| l.to_string()).collect()
}

#[test]
fn a_move_is_one_of_four_letters() {
    assert_eq!(RoverMove::parse('N'), Some(RoverMove::North));
    assert_eq!(RoverMove::parse('E'), Some(RoverMove::East));
    assert_eq!(RoverMove::parse('S'), Some(RoverMove::South));
    assert_eq!(RoverMove::parse('W'), Some(RoverMove::West));
    assert_eq!(RoverMove::parse('n'), None);
    assert_eq!(RoverMove::parse(' '), None);
}

#[test]
fn a_line_is_cut_at_every_white_space_character() {
    assert_eq!(split_words("12 34"), vec!["12", "34"]);
    assert_eq!(split_words("12\t34"), vec!["12", "34"]);
    assert_eq!(split_words("12\u{3000}34"), vec!["12", "34"]);
    assert_eq!(split_words("12  34"), vec!["12", "", "34"]);
    assert_eq!(split_words(" 12 "), vec!["", "12", ""]);
    assert_eq!(split_words("1234"), vec!["1234"]);
    assert_eq!(split_words(""), vec![""]);
    assert_eq!(split_words("é è"), vec!["é", "è"]);
}

#[test]
fn a_coordinate_line_holds_y_before_x() {
    assert!(matches!(coordinate_from_words(&vec!["3", "4"]), Ok((4, 3))));
    assert!(matches!(coordinate_from_words(&vec!["0", "65535"]), Ok((65535, 0))));
    assert!(matches!(coordinate_from_words(&vec!["+7", "007"]), Ok((7, 7))));
}

#[test]
fn a_coordinate_line_must_hold_two_words() {
    assert!(matches!(
        coordinate_from_words(&vec!["3"]),
        Err(ParseError::InvalidCoordinateFormat)
    ));
    assert!(matches!(
        coordinate_from_words(&vec!["3", "4", "5"]),
        Err(ParseError::InvalidCoordinateFormat)
    ));
    assert!(matches!(coordinate_from_words(&vec![]), Err(ParseError::InvalidCoordinateFormat)));
}

#[test]
fn a_coordinate_must_be_a_number_below_65536() {
    assert!(matches!(coordinate_from_words(&vec!["3", "x"]), Err(ParseError::InvalidNumber(_))));
    assert!(matches!(coordinate_from_words(&vec!["x", "4"]), Err(ParseError::InvalidNumber(_))));
    assert!(matches!(
        coordinate_from_words(&vec!["3", "65536"]),
        Err(ParseError::InvalidNumber(_))
    ));
    assert!(matches!(coordinate_from_words(&vec!["-3", "4"]), Err(ParseError::InvalidNumber(_))));
    assert!(matches!(coordinate_from_words(&vec!["", "4"]), Err(ParseError::InvalidNumber(_))));
    assert!(matches!(coordinate_from_words(&vec!["+", "4"]), Err(ParseError::InvalidNumber(_))));
    assert!(matches!(coordinate_from_words(&vec!["1_0", "4"]), Err(ParseError::InvalidNumber(_))));
}

#[test]
fn the_cause_of_a_number_error_is_kept() {
    match coordinate_from_words(&vec!["3", "65536"]) {
        Err(e) => {
            assert_eq!(e.description(), "invalid coordinate");
            match e.cause() {
                Some(cause) => assert_eq!(
                    format!("{}", cause),
                    "number too large to fit in target type"
                ),
                None => panic!("a number error has a cause"),
            }
        },
        Ok(_) => panic!("65536 is too large"),
    }
    assert!(ParseError::InvalidMove.cause().is_none());
}

#[test]
fn a_path_is_a_line_of_moves() {
    assert_eq!(
        moves_from_line("NESW").ok(),
        Some(vec![RoverMove::North, RoverMove::East, RoverMove::South, RoverMove::West])
    );
    assert_eq!(moves_from_line("").ok(), Some(vec![]));
    assert!(matches!(moves_from_line("NExW"), Err(ParseError::InvalidMove)));
    assert!(matches!(moves_from_line("NE W"), Err(ParseError::InvalidMove)));
}

#[test]
fn a_game_is_read_line_by_line() {
    let mut parser = Parser::new(lines(&["5 5", "1 2", "1 0", "2 2", "2 3", "NNESEESWNWW"]), true);
    assert_eq!(parser.line_number(), 0);
    match parser.parse() {
        Ok((grid_top, rover, dust, moves)) => {
            assert!(grid_top == Point::new(5, 5));
            assert!(rover == Point::new(2, 1));
            assert_eq!(dust.len(), 3);
            assert!(dust[0] == Point::new(0, 1));
            assert!(dust[1] == Point::new(2, 2));
            assert!(dust[2] == Point::new(3, 2));
            assert_eq!(moves.len(), 11);
            assert_eq!(moves[0], RoverMove::North);
            assert_eq!(moves[10], RoverMove::West);
        },
        Err(_) => panic!("the game is well written"),
    }
    assert_eq!(parser.line_number(), 6);
}

#[test]
fn a_game_may_hold_no_dust() {
    let mut parser = Parser::new(lines(&["5 5", "1 2", "NN", "ignored"]), true);
    match parser.parse() {
        Ok((_, _, dust, moves)) => {
            assert_eq!(dust.len(), 0);
            assert_eq!(moves, vec![RoverMove::North, RoverMove::North]);
        },
        Err(_) => panic!("the game is well written"),
    }
    assert_eq!(parser.line_number(), 3);
}

#[test]
fn a_text_that_ends_early_is_refused() {
    let mut parser = Parser::new(lines(&[]), true);
    assert!(matches!(parser.parse(), Err(ParseError::UnexpectedEOF)));
    assert_eq!(parser.line_number(), 0);

    let mut parser = Parser::new(lines(&["5 5"]), true);
    assert!(matches!(parser.parse(), Err(ParseError::UnexpectedEOF)));
    assert_eq!(parser.line_number(), 1);

    let mut parser = Parser::new(lines(&["5 5", "1 2", "1 0"]), true);
    assert!(matches!(parser.parse(), Err(ParseError::UnexpectedEOF)));
    assert_eq!(parser.line_number(), 3);
}

#[test]
fn a_text_that_could_not_be_read_on_is_refused() {
    let mut parser = Parser::new(lines(&["5 5", "1 2"]), false);
    assert!(matches!(parser.parse(), Err(ParseError::InputError)));
    assert_eq!(parser.line_number(), 2);

    let mut parser = Parser::new(lines(&[]), false);
    assert!(matches!(parser.parse_rover_path(), Err(ParseError::InputError)));
    assert!(matches!(parser.parse_coordinate(), Err(ParseError::InputError)));
}

#[test]
fn a_bad_line_is_reported_with_its_number() {
    let mut parser = Parser::new(lines(&["5 5", "1 2", "1 0", "2 x", "NN"]), true);
    assert!(matches!(parser.parse(), Err(ParseError::InvalidNumber(_))));
    assert_eq!(parser.line_number(), 4);

    let mut parser = Parser::new(lines(&["5 5", "1 2", "1", "NN"]), true);
    assert!(matches!(parser.parse(), Err(ParseError::InvalidCoordinateFormat)));
    assert_eq!(parser.line_number(), 3);

    let mut parser = Parser::new(lines(&["5 5", "1 2", "", "NN"]), true);
    assert!(matches!(parser.parse(), Err(ParseError::InvalidCoordinateFormat)));
    assert_eq!(parser.line_number(), 2);

    let mut parser = Parser::new(lines(&["5 5", "1 2", "NNX"]), true);
    assert!(matches!(parser.parse(), Err(ParseError::InvalidMove)));
    assert_eq!(parser.line_number(), 3);

    let mut parser = Parser::new(lines(&["5 5", "1 2", "+1 2", "NN"]), true);
    assert!(matches!(parser.parse(), Err(ParseError::InvalidMove)));
}

#[test]
fn dust_is_read_up_to_the_first_line_without_a_digit_in_front() {
    let mut parser = Parser::new(lines(&["1 1", "2 2", "N", "3 3"]), true);
    match parser.parse_dust() {
        Ok(dust) => {
            assert_eq!(dust.len(), 2);
            assert!(dust[0] == Point::new(1, 1));
            assert!(dust[1] == Point::new(2, 2));
        },
        Err(_) => panic!("two lines of dust"),
    }
    assert_eq!(parser.line_number(), 2);
    assert!(matches!(parser.parse_coordinate(), Err(ParseError::InvalidCoordinateFormat)));
    assert_eq!(parser.line_number(), 3);
    assert!(matches!(parser.parse_coordinate(), Ok((3, 3))));
}

#[test]
fn every_error_is_described() {
    assert_eq!(
        ParseError::InvalidRoverPosition.description(),
        "initial rover position is outside the arena"
    );
    assert_eq!(ParseError::InvalidDustPosition.description(), "dust is outside the arena");
    assert_eq!(ParseError::InvalidMove.description(), "invalid rover move instruction");
    assert_eq!(
        ParseError::InvalidCoordinateFormat.description(),
        "invalid coordinate line format"
    );
    assert_eq!(ParseError::InputError.description(), "read error");
    assert_eq!(ParseError::UnexpectedEOF.description(), "unexpected end of file");
}
