//! A rover that cleans dust from the tiles of a grid.
use vstd::prelude::*;
use crate::geometry::Point;
use crate::geometry::Rect;
use crate::geometry::Tile;
use crate::parser::points_of;
use crate::parser::Failure;
use crate::parser::ParseError;
use crate::parser::RoverMove;
use crate::rtree::RTree;

verus! {

/// The step that a move makes.
pub open spec fn vector_of(dir: RoverMove) -> (int, int) {
    match dir {
        RoverMove::North => (0, 1),
        RoverMove::South => (0, -1),
        RoverMove::East => (1, 0),
        RoverMove::West => (-1, 0),
    }
}

/// The grid from the origin to `grid_top`.
pub open spec fn arena_of(grid_top: (int, int)) -> Rect {
    Rect { lo: (0, 0), hi: grid_top }
}

/// Where the rover stands after a move: one step further if that tile is on
/// the grid, and where it stood if not.
pub open spec fn moved(rover: (int, int), dir: RoverMove, grid_top: (int, int)) -> (int, int) {
    let target = (rover.0 + vector_of(dir).0, rover.1 + vector_of(dir).1);
    if arena_of(grid_top).contains(target) {
        target
    } else {
        rover
    }
}

/// What changes while the rover moves.
pub struct Progress {
    /// Where the rover stands.
    pub rover: (int, int),
    /// The tiles on which dust was laid, each with whether dust still lies there.
    pub dust: Map<(int, int), bool>,
    /// How many tiles the rover has cleaned.
    pub cleaned: nat,
}

/// The progress after one move: the rover moves, and the tile on which it
/// stands then is cleaned, which counts if dust lay there.
pub open spec fn after_move(before: Progress, dir: RoverMove, grid_top: (int, int)) -> Progress {
    let rover = moved(before.rover, dir, grid_top);
    if before.dust.contains_key(rover) {
        Progress {
            rover: rover,
            dust: before.dust.insert(rover, false),
            cleaned: if before.dust[rover] {
                before.cleaned + 1
            } else {
                before.cleaned
            },
        }
    } else {
        Progress { rover: rover, dust: before.dust, cleaned: before.cleaned }
    }
}

/// The progress after the first `n` of the moves.
pub open spec fn after_moves(
    before: Progress,
    moves: Seq<RoverMove>,
    n: nat,
    grid_top: (int, int),
) -> Progress
    decreases n,
{
    if n == 0 || n > moves.len() {
        before
    } else {
        after_move(after_moves(before, moves, (n - 1) as nat, grid_top), moves[n - 1], grid_top)
    }
}

/// A game tile
#[derive(Debug)]
struct Entity {
    dust: bool,
}

impl Entity {
    /// Creates an entity with dust
    fn dust() -> (e: Entity)
        ensures
            e.dust,
    {
        Entity { dust: true }
    }

    /// Removes the dust, and tells whether there was any.
    fn clean_dust(&mut self) -> (is_dust: bool)
        ensures
            is_dust == old(self).dust,
            !final(self).dust,
    {
        let is_dust = self.dust;
        self.dust = false;
        is_dust
    }
}

/// Whether dust lies on each tile of a map of tiles.
spec fn dust_of(tiles: Map<(int, int), Entity>) -> Map<(int, int), bool> {
    Map::new(|p: (int, int)| tiles.contains_key(p), |p: (int, int)| tiles[p].dust)
}

/// A grid with a rover on it, and with dust on some of its tiles.
pub struct GameMap {
    rover: Point<i32>,
    dust_map: RTree<i32, Entity>,
    grid_top: Point<i32>,
}

impl GameMap {
    /// The rover stands on the grid, and the index of the dust is well-formed.
    #[verifier::type_invariant]
    closed spec fn rover_is_on_grid(&self) -> bool {
        &&& arena_of(self.grid_top@).contains(self.rover@)
        &&& self.dust_map.well_formed()
    }

    /// Where the rover stands.
    pub closed spec fn rover(&self) -> (int, int) {
        self.rover@
    }

    /// The top right corner of the grid.
    pub closed spec fn grid_top(&self) -> (int, int) {
        self.grid_top@
    }

    /// The tiles on which dust was laid, each with whether dust still lies there.
    pub closed spec fn dust(&self) -> Map<(int, int), bool> {
        dust_of(self.dust_map@)
    }

    /// What changes while the rover moves, with nothing cleaned yet.
    pub open spec fn progress(&self) -> Progress {
        Progress { rover: self.rover(), dust: self.dust(), cleaned: 0 }
    }

    /// Where the rover stands.
    pub fn rover_pos(&self) -> (p: Point<i32>)
        ensures
            p@ == self.rover(),
    {
        self.rover
    }

    /// Creates the map of a grid from the origin to `grid_top`, with the rover and the dust on
    /// it. Fails where the rover or some dust is not on the grid.
    ///
    /// `grid_top` must not be below or left of the origin.
    pub fn new(grid_top: Point<i32>, rover: Point<i32>, dust: Vec<Point<i32>>) -> (r: Result<
        GameMap,
        ParseError,
    >)
        requires
            0 <= grid_top@.0,
            0 <= grid_top@.1,
        ensures
            match r {
                Ok(map) => {
                    &&& arena_of(grid_top@).contains(rover@)
                    &&& forall|i: int|
                        0 <= i < dust@.len() ==> arena_of(grid_top@).contains(
                            #[trigger] points_of(dust@)[i],
                        )
                    &&& map.rover() == rover@
                    &&& map.grid_top() == grid_top@
                    &&& map.dust() == Map::new(
                        |p: (int, int)| points_of(dust@).contains(p),
                        |p: (int, int)| true,
                    )
                },
                Err(e) => if arena_of(grid_top@).contains(rover@) {
                    &&& e@ == Failure::InvalidDustPosition
                    &&& exists|i: int|
                        0 <= i < dust@.len() && !arena_of(grid_top@).contains(
                            #[trigger] points_of(dust@)[i],
                        )
                } else {
                    e@ == Failure::InvalidRoverPosition
                },
            },
    {
        let arena = Tile::new(Point::new(0, 0), grid_top);

        // Checks that the rover is on the map
        if rover <= arena {
            let mut rtree = RTree::<i32, Entity>::new();
            let ghost tiles = points_of(dust@);
            proof {
                assert(dust_of(rtree@) =~= Map::new(
                    |p: (int, int)| tiles.take(0).contains(p),
                    |p: (int, int)| true,
                ));
            }
            for p in it: dust
                invariant
                    it.seq() == dust@,
                    tiles == points_of(dust@),
                    arena@ == arena_of(grid_top@),
                    arena_of(grid_top@).contains(rover@),
                    rtree.well_formed(),
                    forall|i: int|
                        0 <= i < it.index() ==> arena_of(grid_top@).contains(#[trigger] tiles[i]),
                    dust_of(rtree@) == Map::new(
                        |p: (int, int)| tiles.take(it.index() as int).contains(p),
                        |p: (int, int)| true,
                    ),
            {
                let ghost k = it.index() as int;
                proof {
                    assert(tiles[k] == p@);
                }
                if p <= arena {
                    let ghost before = rtree@;
                    let entity = Entity::dust();
                    let ghost laid = entity;
                    rtree.insert(p, entity);
                    proof {
                        assert(rtree@ == before.insert(p@, laid));
                        assert(dust_of(before) == Map::new(
                            |p: (int, int)| tiles.take(k).contains(p),
                            |p: (int, int)| true,
                        ));
                        assert forall|q: (int, int)| before.contains_key(q)
                            <==> tiles.take(k).contains(q) by {
                            assert(dust_of(before).contains_key(q) <==> before.contains_key(q));
                        }
                        assert forall|q: (int, int)| before.contains_key(q) implies before[q].dust by {
                            assert(dust_of(before)[q] == before[q].dust);
                        }
                        assert(tiles.take(k + 1) =~= tiles.take(k).push(p@));
                        assert forall|q: (int, int)| tiles.take(k + 1).contains(q)
                            <==> tiles.take(k).contains(q) || q == p@ by {
                            if tiles.take(k).contains(q) {
                                let j = choose|j: int| 0 <= j < k && tiles.take(k)[j] == q;
                                assert(tiles.take(k + 1)[j] == q);
                            }
                            if q == p@ {
                                assert(tiles.take(k + 1)[k] == q);
                            }
                        }
                        assert(dust_of(rtree@) =~= Map::new(
                            |p: (int, int)| tiles.take(k + 1).contains(p),
                            |p: (int, int)| true,
                        ));
                    }
                } else {
                    proof {
                        assert(!arena_of(grid_top@).contains(points_of(dust@)[k]));
                    }
                    return Err(ParseError::InvalidDustPosition);
                }
            }
            proof {
                assert(tiles.take(dust@.len() as int) =~= tiles);
            }
            Ok(GameMap { rover: rover, dust_map: rtree, grid_top: grid_top })
        } else {
            Err(ParseError::InvalidRoverPosition)
        }
    }

    /// Moves the rover into the given direction
    fn move_rover(&mut self, dir: RoverMove) -> (p: Point<i32>)
        ensures
            final(self).rover() == moved(old(self).rover(), dir, old(self).grid_top()),
            final(self).grid_top() == old(self).grid_top(),
            final(self).dust_map == old(self).dust_map,
            p@ == final(self).rover(),
    {
        proof {
            use_type_invariant(&*self);
            self.grid_top.lemma_view_in_range();
        }
        let vector = dir.as_vector();
        // A tile whose coordinates the machine cannot hold is not on the grid.
        let x = self.rover.get_x().checked_add(vector.get_x());
        let y = self.rover.get_y().checked_add(vector.get_y());
        if x.is_some() && y.is_some() {
            let new_pos = self.rover + vector;
            if new_pos <= self.grid_top && new_pos >= Point::new(0, 0) {
                self.rover = self.rover + vector;
            }
        }
        self.rover
    }

    /// Moves the rover along the given path and returns the number of cleaned dust tiles
    pub fn move_rover_path(&mut self, moves: &[RoverMove]) -> (count: usize)
        ensures
            final(self).grid_top() == old(self).grid_top(),
            (Progress {
                rover: final(self).rover(),
                dust: final(self).dust(),
                cleaned: count as nat,
            }) == after_moves(
                old(self).progress(),
                moves@,
                moves@.len(),
                old(self).grid_top(),
            ),
    {
        proof {
            use_type_invariant(&*self);
        }
        let mut map = RTree::<i32, Entity>::new();
        core::mem::swap(&mut map, &mut self.dust_map);
        let ghost start = old(self).progress();
        let ghost grid_top = old(self).grid_top();
        let mut count: usize = 0;
        let mut i: usize = 0;
        while i < moves.len()
            invariant
                i <= moves@.len(),
                count <= i,
                start == old(self).progress(),
                grid_top == old(self).grid_top(),
                self.grid_top() == grid_top,
                map.well_formed(),
                (Progress { rover: self.rover(), dust: dust_of(map@), cleaned: count as nat })
                    == after_moves(start, moves@, i as nat, grid_top),
            decreases moves@.len() - i,
        {
            let ghost before = dust_of(map@);
            let pos = self.move_rover(moves[i]);
            let cleaned = match map.find_mut(pos) {
                Some(d) => d.clean_dust(),
                None => false,
            };
            proof {
                let tile = pos@;
                if before.contains_key(tile) {
                    assert(dust_of(map@) =~= before.insert(tile, false));
                } else {
                    assert(dust_of(map@) =~= before);
                }
            }
            if cleaned {
                count += 1;
            }
            i += 1;
        }
        proof {
            use_type_invariant(&*self);
        }
        core::mem::swap(&mut map, &mut self.dust_map);
        count
    }
}

impl RoverMove {
    /// The step that the move makes.
    pub fn as_vector(self) -> (v: Point<i32>)
        ensures
            v@ == vector_of(self),
    {
        match self {
            RoverMove::North => Point::new(0, 1),
            RoverMove::South => Point::new(0, -1),
            RoverMove::East => Point::new(1, 0),
            RoverMove::West => Point::new(-1, 0),
        }
    }
}

} // verus!
