//! Reading the description of a game from the lines of a text.
use vstd::prelude::*;
use vstd::string::StrSliceExecFns;
use crate::geometry::Point;

verus! {

/// A move instruction for the rover
#[derive(Clone, Copy, Debug, PartialEq, Eq, Structural)]
pub enum RoverMove {
    North,
    East,
    South,
    West,
}

impl RoverMove {
    /// The move that a character stands for, if it stands for one.
    pub open spec fn of_char(c: char) -> Option<RoverMove> {
        if c == 'N' {
            Some(RoverMove::North)
        } else if c == 'E' {
            Some(RoverMove::East)
        } else if c == 'S' {
            Some(RoverMove::South)
        } else if c == 'W' {
            Some(RoverMove::West)
        } else {
            None
        }
    }

    /// Parses a rover move instruction from a `char`.
    ///
    /// Valid instructions are either S, E, W, or N
    pub fn parse(c: char) -> (r: Option<RoverMove>)
        ensures
            r == Self::of_char(c),
    {
        match c {
            'N' => Some(RoverMove::North),
            'E' => Some(RoverMove::East),
            'S' => Some(RoverMove::South),
            'W' => Some(RoverMove::West),
            _ => None,
        }
    }
}

/// Why a text of decimal digits is no number of the asked type.
#[verifier::external_type_specification]
#[verifier::external_body]
pub struct ExParseIntError(core::num::ParseIntError);

/// An error occurring while reading the game map
#[derive(Debug)]
pub enum ParseError {
    InvalidRoverPosition,
    InvalidDustPosition,
    InvalidMove,
    InvalidCoordinateFormat,
    InvalidNumber(core::num::ParseIntError),
    InputError,
    UnexpectedEOF,
}

/// What went wrong while reading the game map.
#[derive(PartialEq, Eq, Structural)]
pub enum Failure {
    InvalidRoverPosition,
    InvalidDustPosition,
    InvalidMove,
    InvalidCoordinateFormat,
    InvalidNumber,
    InputError,
    UnexpectedEOF,
}

impl View for ParseError {
    type V = Failure;

    /// The error without what caused it.
    open spec fn view(&self) -> Failure {
        match self {
            ParseError::InvalidRoverPosition => Failure::InvalidRoverPosition,
            ParseError::InvalidDustPosition => Failure::InvalidDustPosition,
            ParseError::InvalidMove => Failure::InvalidMove,
            ParseError::InvalidCoordinateFormat => Failure::InvalidCoordinateFormat,
            ParseError::InvalidNumber(_) => Failure::InvalidNumber,
            ParseError::InputError => Failure::InputError,
            ParseError::UnexpectedEOF => Failure::UnexpectedEOF,
        }
    }
}

impl ParseError {
    /// A short description of the error.
    pub fn description(&self) -> (text: &'static str)
        ensures
            text@ == (match self@ {
                Failure::InvalidRoverPosition => "initial rover position is outside the arena"@,
                Failure::InvalidDustPosition => "dust is outside the arena"@,
                Failure::InvalidMove => "invalid rover move instruction"@,
                Failure::InvalidCoordinateFormat => "invalid coordinate line format"@,
                Failure::InvalidNumber => "invalid coordinate"@,
                Failure::InputError => "read error"@,
                Failure::UnexpectedEOF => "unexpected end of file"@,
            }),
    {
        match *self {
            ParseError::InvalidRoverPosition => "initial rover position is outside the arena",
            ParseError::InvalidDustPosition => "dust is outside the arena",
            ParseError::InvalidMove => "invalid rover move instruction",
            ParseError::InvalidCoordinateFormat => "invalid coordinate line format",
            ParseError::InvalidNumber(_) => "invalid coordinate",
            ParseError::InputError => "read error",
            ParseError::UnexpectedEOF => "unexpected end of file",
        }
    }

    /// The number error that caused this error, if one did.
    pub fn cause(&self) -> (r: Option<&core::num::ParseIntError>)
        ensures
            r is Some <==> self@ == Failure::InvalidNumber,
            r matches Some(e) ==> *self == ParseError::InvalidNumber(*e),
    {
        match self {
            ParseError::InvalidNumber(e) => Some(e),
            _ => None,
        }
    }
}

/// Whether the character has the white space property of Unicode.
pub uninterp spec fn is_white_space(c: char) -> bool;

/// `char::is_whitespace` of the standard library: whether the character has
/// the white space property of Unicode. The property is named here, and not
/// spelled out.
#[verifier::external_body]
fn is_whitespace(c: char) -> (r: bool)
    ensures
        r == is_white_space(c),
{
    c.is_whitespace()
}

/// The finished words among the first `n` characters of a text that is cut
/// at every white space character, and where the word begins that is not
/// finished.
pub open spec fn cut(s: Seq<char>, n: int) -> (Seq<Seq<char>>, int)
    decreases n,
{
    if n <= 0 || n > s.len() {
        (Seq::empty(), 0)
    } else {
        let (words, start) = cut(s, n - 1);
        if is_white_space(s[n - 1]) {
            (words.push(s.subrange(start, n - 1)), n)
        } else {
            (words, start)
        }
    }
}

/// The words of a text that is cut at every white space character: the
/// texts before, between and behind these characters, empty ones too.
pub open spec fn words_of(s: Seq<char>) -> Seq<Seq<char>> {
    cut(s, s.len() as int).0.push(s.subrange(cut(s, s.len() as int).1, s.len() as int))
}

/// The texts that string slices stand for.
pub open spec fn texts_of(words: Seq<&str>) -> Seq<Seq<char>> {
    Seq::new(words.len(), |i: int| words[i]@)
}

/// Cuts a line at every white space character.
pub fn split_words<'a>(line: &'a str) -> (words: Vec<&'a str>)
    ensures
        texts_of(words@) == words_of(line@),
{
    broadcast use vstd::string::group_string_axioms;

    let mut words: Vec<&'a str> = Vec::new();
    let mut start: usize = 0;
    let mut at: usize = 0;
    let len = line.unicode_len();
    for c in it: line.chars()
        invariant
            it.seq() == line@,
            at == it.index(),
            len == line@.len(),
            start <= at,
            (texts_of(words@), start as int) == cut(line@, at as int),
    {
        if is_whitespace(c) {
            let word = line.substring_char(start, at);
            proof {
                assert(texts_of(words@.push(word)) =~= texts_of(words@).push(word@));
            }
            words.push(word);
            start = at + 1;
        }
        at += 1;
    }
    let word = line.substring_char(start, len);
    proof {
        assert(texts_of(words@.push(word)) =~= texts_of(words@).push(word@));
    }
    words.push(word);
    words
}

/// Whether the character is one of the decimal digits `0` to `9`.
pub open spec fn is_decimal_digit(c: char) -> bool {
    '0' <= c && c <= '9'
}

/// The number that a text of decimal digits stands for, if it is not empty
/// and holds nothing but decimal digits.
pub open spec fn digits_value(s: Seq<char>) -> Option<int>
    decreases s.len(),
{
    if s.len() == 0 || !is_decimal_digit(s.last()) {
        None
    } else if s.len() == 1 {
        Some(s.last() as int - '0' as int)
    } else {
        match digits_value(s.drop_last()) {
            Some(v) => Some(10 * v + (s.last() as int - '0' as int)),
            None => None,
        }
    }
}

/// The number below 65536 that a text stands for: decimal digits, which a
/// `+` may precede, and nothing else.
pub open spec fn decimal_u16(s: Seq<char>) -> Option<u16> {
    let digits = if s.len() > 0 && s[0] == '+' {
        s.drop_first()
    } else {
        s
    };
    match digits_value(digits) {
        Some(v) => if v <= u16::MAX {
            Some(v as u16)
        } else {
            None
        },
        None => None,
    }
}

/// `str::parse::<u16>` of the standard library: it accepts an optional `+`
/// followed by one or more decimal digits that make up a number that fits,
/// and hands back that number; it refuses every other text.
#[verifier::external_body]
fn parse_u16(word: &str) -> (r: Result<u16, core::num::ParseIntError>)
    ensures
        (match r {
            Ok(v) => Some(v),
            Err(_) => None,
        }) == decimal_u16(word@),
{
    word.parse::<u16>()
}

/// The coordinates that the words of a line stand for: the line has two
/// words, the first for `y` and the second for `x`, each a number below
/// 65536.
pub open spec fn coordinate_of(words: Seq<Seq<char>>) -> Result<(int, int), Failure> {
    if words.len() != 2 {
        Err(Failure::InvalidCoordinateFormat)
    } else {
        match (decimal_u16(words[1]), decimal_u16(words[0])) {
            (Some(x), Some(y)) => Ok((x as int, y as int)),
            _ => Err(Failure::InvalidNumber),
        }
    }
}

/// What a result stands for: its coordinates as integers, or its error
/// without what caused it.
pub open spec fn coordinate_outcome(r: Result<(i32, i32), ParseError>) -> Result<
    (int, int),
    Failure,
> {
    match r {
        Ok((x, y)) => Ok((x as int, y as int)),
        Err(e) => Err(e@),
    }
}

/// Reads a coordinate tuple from the words of a line
pub fn coordinate_from_words(words: &Vec<&str>) -> (r: Result<(i32, i32), ParseError>)
    ensures
        coordinate_outcome(r) == coordinate_of(texts_of(words@)),
{
    if words.len() != 2 {
        return Err(ParseError::InvalidCoordinateFormat);
    }
    let x = match parse_u16(words[1]) {
        Ok(x) => x,
        Err(e) => {
            return Err(ParseError::InvalidNumber(e));
        },
    };
    let y = match parse_u16(words[0]) {
        Ok(y) => y,
        Err(e) => {
            return Err(ParseError::InvalidNumber(e));
        },
    };
    Ok((x as i32, y as i32))
}

/// The moves that the first `n` characters of a line stand for, if each of
/// them stands for a move.
pub open spec fn moves_of(line: Seq<char>, n: nat) -> Option<Seq<RoverMove>>
    decreases n,
{
    if n == 0 || n > line.len() {
        Some(Seq::empty())
    } else {
        match (moves_of(line, (n - 1) as nat), RoverMove::of_char(line[n - 1])) {
            (Some(moves), Some(m)) => Some(moves.push(m)),
            _ => None,
        }
    }
}

/// Reads the rover moves from a line
pub fn moves_from_line(line: &str) -> (r: Result<Vec<RoverMove>, ParseError>)
    ensures
        (match r {
            Ok(moves) => Some(moves@),
            Err(_) => None,
        }) == moves_of(line@, line@.len()),
        r matches Err(e) ==> e@ == Failure::InvalidMove,
{
    broadcast use vstd::string::group_string_axioms;

    let mut rover_moves_vector: Vec<RoverMove> = Vec::new();
    for c in it: line.chars()
        invariant
            it.seq() == line@,
            moves_of(line@, it.index() as nat) == Some(rover_moves_vector@),
    {
        match RoverMove::parse(c) {
            Some(rover_move) => {
                rover_moves_vector.push(rover_move);
            },
            None => {
                proof {
                    lemma_moves_of_fails(line@, (it.index() + 1) as nat, line@.len());
                }
                return Err(ParseError::InvalidMove);
            },
        }
    }
    Ok(rover_moves_vector)
}

/// Where the first characters of a line do not all stand for moves, the
/// characters of a longer part do not either.
pub proof fn lemma_moves_of_fails(line: Seq<char>, n: nat, m: nat)
    requires
        n <= m <= line.len(),
        moves_of(line, n) is None,
    ensures
        moves_of(line, m) is None,
    decreases m,
{
    if n < m {
        lemma_moves_of_fails(line, n, (m - 1) as nat);
    }
}

/// What is read where a line is missing: the end of the text if the text is
/// complete, and a read error if reading it failed there.
pub open spec fn missing_line(complete: bool) -> Failure {
    if complete {
        Failure::UnexpectedEOF
    } else {
        Failure::InputError
    }
}

/// The coordinates read from the line at `pos`, and the line that is next
/// then. A line is used up even where it holds no coordinates.
pub open spec fn coordinate_at(lines: Seq<Seq<char>>, complete: bool, pos: int) -> (
    Result<(int, int), Failure>,
    int,
) {
    if 0 <= pos < lines.len() {
        (coordinate_of(words_of(lines[pos])), pos + 1)
    } else {
        (Err(missing_line(complete)), pos)
    }
}

/// The dust coordinates read from the lines at `pos` and after it, and the
/// line that is next then. Dust is read from every line that begins with a
/// decimal digit, up to the first line that does not; that line must be
/// there and must not be empty.
pub open spec fn dust_at(lines: Seq<Seq<char>>, complete: bool, pos: int) -> (
    Result<Seq<(int, int)>, Failure>,
    int,
)
    decreases lines.len() - pos,
{
    if !(0 <= pos < lines.len()) {
        (Err(missing_line(complete)), pos)
    } else if lines[pos].len() == 0 {
        (Err(Failure::InvalidCoordinateFormat), pos)
    } else if is_decimal_digit(lines[pos][0]) {
        match coordinate_of(words_of(lines[pos])) {
            Err(failure) => (Err(failure), pos + 1),
            Ok(point) => match dust_at(lines, complete, pos + 1) {
                (Ok(rest), next) => (Ok(seq![point] + rest), next),
                (Err(failure), next) => (Err(failure), next),
            },
        }
    } else {
        (Ok(Seq::empty()), pos)
    }
}

/// The moves read from the line at `pos`, and the line that is next then.
pub open spec fn path_at(lines: Seq<Seq<char>>, complete: bool, pos: int) -> (
    Result<Seq<RoverMove>, Failure>,
    int,
) {
    if 0 <= pos < lines.len() {
        match moves_of(lines[pos], lines[pos].len()) {
            Some(moves) => (Ok(moves), pos + 1),
            None => (Err(Failure::InvalidMove), pos + 1),
        }
    } else {
        (Err(missing_line(complete)), pos)
    }
}

/// The description of a game.
pub struct GameText {
    /// The top right corner of the grid.
    pub grid_top: (int, int),
    /// Where the rover starts.
    pub rover: (int, int),
    /// Where dust lies.
    pub dust: Seq<(int, int)>,
    /// The path of the rover.
    pub moves: Seq<RoverMove>,
}

/// The game read from the lines at `pos` and after it, and the line that is
/// next then: the corner of the grid, the position of the rover, the dust
/// and the path, in this order.
pub open spec fn game_at(lines: Seq<Seq<char>>, complete: bool, pos: int) -> (
    Result<GameText, Failure>,
    int,
) {
    match coordinate_at(lines, complete, pos) {
        (Err(failure), next) => (Err(failure), next),
        (Ok(grid_top), next) => match coordinate_at(lines, complete, next) {
            (Err(failure), next) => (Err(failure), next),
            (Ok(rover), next) => match dust_at(lines, complete, next) {
                (Err(failure), next) => (Err(failure), next),
                (Ok(dust), next) => match path_at(lines, complete, next) {
                    (Err(failure), next) => (Err(failure), next),
                    (Ok(moves), next) => (
                        Ok(GameText { grid_top: grid_top, rover: rover, dust: dust, moves: moves }),
                        next,
                    ),
                },
            },
        },
    }
}

/// The integer points that a sequence of points stands for.
pub open spec fn points_of(points: Seq<Point<i32>>) -> Seq<(int, int)> {
    Seq::new(points.len(), |i: int| points[i]@)
}

/// A parser of the lines of a text that was read before.
pub struct Parser {
    lines: Vec<String>,
    complete: bool,
    pos: usize,
}

impl Parser {
    #[verifier::type_invariant]
    closed spec fn position_is_a_line(&self) -> bool {
        self.pos <= self.lines@.len()
    }

    /// The lines of the text.
    pub closed spec fn lines(&self) -> Seq<Seq<char>> {
        Seq::new(self.lines@.len(), |i: int| self.lines@[i]@)
    }

    /// Whether the text ends behind its lines. Reading it failed there if it
    /// does not.
    pub closed spec fn complete(&self) -> bool {
        self.complete
    }

    /// The number of lines that were used up.
    pub closed spec fn position(&self) -> int {
        self.pos as int
    }

    /// Creates a parser of the lines that were read. `complete` tells whether the text ended
    /// behind them, or whether reading it failed there.
    pub fn new(lines: Vec<String>, complete: bool) -> (parser: Parser)
        ensures
            parser.lines() == Seq::new(lines@.len(), |i: int| lines@[i]@),
            parser.complete() == complete,
            parser.position() == 0,
    {
        Parser { lines: lines, complete: complete, pos: 0 }
    }

    /// The number of lines that were used up.
    pub fn line_number(&self) -> (n: usize)
        ensures
            n == self.position(),
    {
        self.pos
    }

    /// The error for a line that is missing.
    fn missing(&self) -> (e: ParseError)
        ensures
            e@ == missing_line(self.complete()),
    {
        if self.complete {
            ParseError::UnexpectedEOF
        } else {
            ParseError::InputError
        }
    }

    /// Reads a coordinate tuple from the next line
    pub fn parse_coordinate(&mut self) -> (r: Result<(i32, i32), ParseError>)
        ensures
            final(self).lines() == old(self).lines(),
            final(self).complete() == old(self).complete(),
            (coordinate_outcome(r), final(self).position()) == coordinate_at(
                old(self).lines(),
                old(self).complete(),
                old(self).position(),
            ),
    {
        proof {
            use_type_invariant(&*self);
        }
        if self.pos >= self.lines.len() {
            return Err(self.missing());
        }
        let words = split_words(self.lines[self.pos].as_str());
        self.pos += 1;
        coordinate_from_words(&words)
    }

    /// Parses the dust coordinates from the next lines
    pub fn parse_dust(&mut self) -> (r: Result<Vec<Point<i32>>, ParseError>)
        ensures
            final(self).lines() == old(self).lines(),
            final(self).complete() == old(self).complete(),
            (
                match r {
                    Ok(dust) => Ok(points_of(dust@)),
                    Err(e) => Err(e@),
                },
                final(self).position(),
            ) == dust_at(old(self).lines(), old(self).complete(), old(self).position()),
    {
        let mut vec: Vec<Point<i32>> = Vec::new();
        let ghost lines = self.lines();
        let ghost complete = self.complete();
        let ghost whole = dust_at(lines, complete, self.position());
        loop
            invariant
                lines == old(self).lines(),
                complete == old(self).complete(),
                whole == dust_at(lines, complete, old(self).position()),
                self.lines() == lines,
                self.complete() == complete,
                whole == (match dust_at(lines, complete, self.position()) {
                    (Ok(rest), next) => (Ok(points_of(vec@) + rest), next),
                    (Err(failure), next) => (Err(failure), next),
                }),
            decreases lines.len() - self.position(),
        {
            proof {
                use_type_invariant(&*self);
            }
            // Grab the next line.
            if self.pos >= self.lines.len() {
                return Err(self.missing());
            }
            // get the first char of the next line. If it is not a digit, try parsing the rover
            // moves instead. Else continue parsing the dust map
            let line = self.lines[self.pos].as_str();
            if line.unicode_len() == 0 {
                return Err(ParseError::InvalidCoordinateFormat);
            }
            let first_char = line.get_char(0);
            // If first char is a digit, try parsing the line as a coordinate tuple
            if '0' <= first_char && first_char <= '9' {
                match self.parse_coordinate() {
                    Ok((x, y)) => {
                        let point = Point::new(x, y);
                        proof {
                            assert(points_of(vec@.push(point)) =~= points_of(vec@).push(point@));
                            let rest = dust_at(lines, complete, self.position());
                            if let (Ok(more), _) = rest {
                                assert(points_of(vec@) + (seq![point@] + more) =~= points_of(
                                    vec@,
                                ).push(point@) + more);
                            }
                        }
                        vec.push(point);
                    },
                    Err(e) => {
                        return Err(e);
                    },
                }
            } else {
                // End of the dust data, start of the rover path
                proof {
                    assert(points_of(vec@) + Seq::<(int, int)>::empty() =~= points_of(vec@));
                }
                return Ok(vec);
            }
        }
    }

    /// Parses the rover moves
    pub fn parse_rover_path(&mut self) -> (r: Result<Vec<RoverMove>, ParseError>)
        ensures
            final(self).lines() == old(self).lines(),
            final(self).complete() == old(self).complete(),
            (
                match r {
                    Ok(moves) => Ok(moves@),
                    Err(e) => Err(e@),
                },
                final(self).position(),
            ) == path_at(old(self).lines(), old(self).complete(), old(self).position()),
    {
        proof {
            use_type_invariant(&*self);
        }
        if self.pos >= self.lines.len() {
            return Err(self.missing());
        }
        let moves = moves_from_line(self.lines[self.pos].as_str());
        self.pos += 1;
        moves
    }

    /// Parses the input data from the parser
    pub fn parse(&mut self) -> (r: Result<
        (Point<i32>, Point<i32>, Vec<Point<i32>>, Vec<RoverMove>),
        ParseError,
    >)
        ensures
            final(self).lines() == old(self).lines(),
            final(self).complete() == old(self).complete(),
            (
                match r {
                    Ok((grid_top, rover, dust, moves)) => Ok(
                        GameText {
                            grid_top: grid_top@,
                            rover: rover@,
                            dust: points_of(dust@),
                            moves: moves@,
                        },
                    ),
                    Err(e) => Err(e@),
                },
                final(self).position(),
            ) == game_at(old(self).lines(), old(self).complete(), old(self).position()),
    {
        // Read the grid size
        let (x, y) = match self.parse_coordinate() {
            Ok(c) => c,
            Err(e) => {
                return Err(e);
            },
        };
        // Read the rover initial position
        let (rx, ry) = match self.parse_coordinate() {
            Ok(c) => c,
            Err(e) => {
                return Err(e);
            },
        };
        let dust = match self.parse_dust() {
            Ok(d) => d,
            Err(e) => {
                return Err(e);
            },
        };
        let moves = match self.parse_rover_path() {
            Ok(m) => m,
            Err(e) => {
                return Err(e);
            },
        };
        Ok((Point::new(x, y), Point::new(rx, ry), dust, moves))
    }
}

} // verus!
