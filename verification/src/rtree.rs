//! A tree of nested bounding boxes that stores points of a 2D plane.
use core::cmp::Ordering;
use vstd::prelude::*;
use vstd::std_specs::cmp::PartialEqSpecImpl;
use vstd::std_specs::cmp::PartialOrdSpecImpl;
use crate::coordinate::Coordinate;
use crate::geometry::bounding_tile;
use crate::geometry::rect_against_point;
use crate::geometry::rect_against_rect;
use crate::geometry::rects_of;
use crate::geometry::reversed;
use crate::geometry::Rect;
use crate::geometry::HorizontalLine;
use crate::geometry::Line;
use crate::geometry::Point;
use crate::geometry::Tile;
use crate::geometry::VerticalLine;
use crate::index_laws::lemma_root_after_insert;
use crate::index_laws::lemma_root_after_insert_fill;
use crate::index_laws::lemma_root_after_replacement;
use crate::split_laws::parts_well;
use crate::node_view::crossings;
use crate::node_view::entries_of_root;
use crate::node_view::root_after_insert;
use crate::node_view::root_branches;
use crate::node_view::root_find;
use crate::node_view::root_lands_in_full_node;
use crate::node_view::root_leaves;
use crate::node_view::root_within_fill;
use crate::node_view::value_at;
use crate::node_view::sweep_line;
use crate::node_view::NodeView;
use crate::node_view::Side;
use crate::sorting::lemma_sort_keeps_members;
use crate::sorting::sorted_coordinates;
use crate::sorting::values_of;

verus! {

/// A subnode entry is either an internal tree node, or a leaf node with a point and associated
/// data
#[derive(Debug)]
pub enum Node<C: Coordinate, V> {
    Leaf { point: Point<C>, data: V },
    Node { coverage: Tile<C>, vector: Vec<Node<C, V>> },
}

impl<C: Coordinate, V> View for Node<C, V> {
    type V = NodeView<V>;

    open spec fn view(&self) -> NodeView<V> {
        self.model()
    }
}

/// The box that an optional tile stands for.
pub open spec fn rect_of<C: Coordinate>(tile: Option<Tile<C>>) -> Option<Rect> {
    match tile {
        Some(t) => Some(t@),
        None => None,
    }
}

/// The tree that an optional node stands for.
pub open spec fn view_of<C: Coordinate, V>(node: Option<Node<C, V>>) -> Option<NodeView<V>> {
    match node {
        Some(n) => Some(n@),
        None => None,
    }
}

impl<C: Coordinate, V> Node<C, V> {
    /// The tree of integer points and boxes that the node stands for.
    pub open spec fn model(self) -> NodeView<V>
        decreases self,
    {
        match self {
            Node::Leaf { point, data } => NodeView::Leaf { point: point@, data: data },
            Node::Node { coverage, vector } => NodeView::Node {
                coverage: coverage@,
                children: Self::models(vector@),
            },
        }
    }

    /// The trees that a sequence of nodes stands for.
    pub open spec fn models(nodes: Seq<Node<C, V>>) -> Seq<NodeView<V>>
        decreases nodes,
    {
        Seq::new(
            nodes.len(),
            |i: int|
                if 0 <= i < nodes.len() {
                    nodes[i].model()
                } else {
                    arbitrary()
                },
        )
    }

    /// The trees of a sequence with one more node are those of the sequence
    /// and the tree of that node.
    pub proof fn lemma_models_push(nodes: Seq<Node<C, V>>, node: Node<C, V>)
        ensures
            Self::models(nodes.push(node)) == Self::models(nodes).push(node@),
    {
        assert(Self::models(nodes.push(node)) =~= Self::models(nodes).push(node@));
    }

    /// The trees of a sequence with one node replaced are those of the
    /// sequence with the tree of the new node in that place.
    pub proof fn lemma_models_update(nodes: Seq<Node<C, V>>, i: int, node: Node<C, V>)
        requires
            0 <= i < nodes.len(),
        ensures
            Self::models(nodes.update(i, node)) == Self::models(nodes).update(i, node@),
    {
        assert(Self::models(nodes.update(i, node)) =~= Self::models(nodes).update(i, node@));
    }

    /// Returns the smallest covering tile for the subtree
    pub fn coverage(&self) -> (t: Tile<C>)
        ensures
            t@ == self@.extent(),
    {
        match self {
            Node::Leaf { point, .. } => Tile::from_point(*point),
            Node::Node { coverage, .. } => *coverage,
        }
    }

    /// Whether the extent of the subtree holds the point.
    pub fn covers(&self, point: &Point<C>) -> (r: bool)
        ensures
            r == self@.covers(point@),
    {
        self.coverage() >= *point
    }

    /// On which side of the line the subtree lies.
    pub fn side_of(&self, line: &Line<C>) -> (r: Side)
        ensures
            r == self@.side_of(line@),
    {
        match line.cmp_with_tile(&self.coverage()) {
            Some(Ordering::Less) => Side::After,
            Some(Ordering::Greater) => Side::Before,
            _ => Side::Across,
        }
    }

    /// The index of the first of `nodes` that covers the point.
    fn locate(nodes: &Vec<Node<C, V>>, point: &Point<C>) -> (r: Option<usize>)
        ensures
            (match r {
                Some(i) => Some(i as int),
                None => None,
            }) == NodeView::first_covering(Self::models(nodes@), point@, 0),
            r matches Some(i) ==> i < nodes@.len(),
    {
        let mut i: usize = 0;
        while i < nodes.len()
            invariant
                i <= nodes.len(),
                NodeView::first_covering(Self::models(nodes@), point@, 0)
                    == NodeView::first_covering(Self::models(nodes@), point@, i as int),
            decreases nodes.len() - i,
        {
            if nodes[i].covers(point) {
                return Some(i);
            }
            i += 1;
        }
        None
    }

    /// Recursively search for a matching point, returns `None` if no point is found or a
    /// reference to the value associated with the point
    pub fn find(&self, point: Point<C>) -> (r: Option<&V>)
        ensures
            (match r {
                Some(v) => Some(*v),
                None => None,
            }) == self@.find(point@),
        decreases self,
    {
        match self {
            Node::Leaf { data, .. } => Some(data),
            Node::Node { vector, .. } => match Self::locate(vector, &point) {
                Some(i) => vector[i].find(point),
                None => None,
            },
        }
    }

    /// Recursively search for a matching point, returns `None` if no point is found or a mutable
    /// reference to the value associated with the point
    pub fn find_mut(&mut self, point: Point<C>) -> (r: Option<&mut V>)
        ensures
            (match r {
                Some(v) => Some(*v),
                None => None,
            }) == old(self)@.find(point@),
            (match r {
                Some(v) => final(self)@ == old(self)@.with_value(point@, *final(v)),
                None => final(self)@ == old(self)@,
            }),
        decreases *old(self),
    {
        match self {
            Node::Leaf { data, .. } => Some(data),
            Node::Node { vector, .. } => match Self::locate(vector, &point) {
                Some(i) => {
                    proof {
                        let before = vector@;
                        assert forall|after: Node<C, V>|
                            after is Node && after->coverage == old(self)->coverage
                                && after->vector@ == before.update(
                                i as int,
                                after->vector@[i as int],
                            ) implies #[trigger] after.model() == (NodeView::Node {
                            coverage: old(self)@->coverage,
                            children: Self::models(before).update(
                                i as int,
                                after->vector@[i as int]@,
                            ),
                        }) by {
                            Self::lemma_models_update(before, i as int, after->vector@[i as int]);
                        }
                        assert(Self::models(before).update(i as int, before[i as int]@)
                            =~= Self::models(before));
                    }
                    vector[i].find_mut(point)
                },
                None => None,
            },
        }
    }

    /// The low corners of the tiles on one axis, in the order of the tiles.
    fn low_corners(tiles: &Vec<Tile<C>>, vertical: bool) -> (r: Vec<C>)
        ensures
            r@.len() == tiles@.len(),
            vertical ==> values_of(r@) == Seq::new(
                tiles@.len(),
                |i: int| rects_of(tiles@)[i].lo.0,
            ),
            !vertical ==> values_of(r@) == Seq::new(
                tiles@.len(),
                |i: int| rects_of(tiles@)[i].lo.1,
            ),
    {
        let mut lows: Vec<C> = Vec::new();
        let mut i: usize = 0;
        while i < tiles.len()
            invariant
                i <= tiles.len(),
                lows@.len() == i,
                forall|j: int|
                    0 <= j < i ==> (#[trigger] lows@[j]).value() == if vertical {
                        tiles@[j]@.lo.0
                    } else {
                        tiles@[j]@.lo.1
                    },
            decreases tiles.len() - i,
        {
            let corner = tiles[i].bottom_left_corner();
            if vertical {
                lows.push(corner.get_x());
            } else {
                lows.push(corner.get_y());
            }
            i += 1;
        }
        proof {
            if vertical {
                assert(values_of(lows@) =~= Seq::new(
                    tiles@.len(),
                    |i: int| rects_of(tiles@)[i].lo.0,
                ));
            } else {
                assert(values_of(lows@) =~= Seq::new(
                    tiles@.len(),
                    |i: int| rects_of(tiles@)[i].lo.1,
                ));
            }
        }
        lows
    }

    /// The number of tiles that the line crosses.
    fn count_crossings(tiles: &Vec<Tile<C>>, line: &Line<C>) -> (n: usize)
        ensures
            n == crossings(rects_of(tiles@), line@, tiles@.len() as int),
    {
        let mut n: usize = 0;
        let mut i: usize = 0;
        while i < tiles.len()
            invariant
                i <= tiles.len(),
                n <= i,
                n == crossings(rects_of(tiles@), line@, i as int),
            decreases tiles.len() - i,
        {
            if *line == tiles[i] {
                n += 1;
            }
            i += 1;
        }
        n
    }

    /// Computes the line along which a node with these child tiles is split, so that at most
    /// `fill_factor` of them start before the line. Of the vertical and the horizontal
    /// candidate it returns the one that crosses fewer tiles, the vertical one on a tie.
    ///
    /// There must be more than `fill_factor` tiles.
    pub fn sweep(tile_set: Vec<Tile<C>>, fill_factor: usize) -> (line: Box<Line<C>>)
        requires
            fill_factor < tile_set@.len(),
        ensures
            line@ == sweep_line(rects_of(tile_set@), fill_factor as int),
    {
        // Use a greedy algorithm. Completely fill the first node and put the remaining elements in
        // the second node.
        // The box can be split either vertically or horizontally.
        // Compute the number of tiles to be split for each case and chose the case which leads to
        // the minimal number of split to minimize the height of the tree
        // Sort by x axis starting points
        let lows_x = Self::low_corners(&tile_set, true);
        let sorted_x = sorted_coordinates(&lows_x);
        proof {
            lemma_sort_keeps_members(values_of(lows_x@), 0);
            assert(values_of(sorted_x@).len() == sorted_x@.len());
        }
        // Compute the vertical splitting line
        let vline = Line::Vertical(VerticalLine::new(sorted_x[fill_factor]));
        // Compute the number of tiles which have to be split
        let vertical_cost = Self::count_crossings(&tile_set, &vline);

        // Sort by y axis starting points
        let lows_y = Self::low_corners(&tile_set, false);
        let sorted_y = sorted_coordinates(&lows_y);
        proof {
            lemma_sort_keeps_members(values_of(lows_y@), 0);
            assert(values_of(sorted_y@).len() == sorted_y@.len());
        }
        // Compute the horizontal splitting line
        let hline = Line::Horizontal(HorizontalLine::new(sorted_y[fill_factor]));
        // Compute the number of tiles which have to be split
        let horizontal_cost = Self::count_crossings(&tile_set, &hline);

        // Decide whether the bounding box should be split vertically or horizontally
        if vertical_cost > horizontal_cost {
            Box::new(hline)
        } else {
            Box::new(vline)
        }
    }

    /// The covering tiles of the nodes, in their order.
    fn coverages(nodes: &Vec<Node<C, V>>) -> (tiles: Vec<Tile<C>>)
        ensures
            rects_of(tiles@) == NodeView::extents(Self::models(nodes@)),
    {
        let mut tiles: Vec<Tile<C>> = Vec::new();
        let mut i: usize = 0;
        while i < nodes.len()
            invariant
                i <= nodes.len(),
                tiles@.len() == i,
                forall|j: int| 0 <= j < i ==> (#[trigger] tiles@[j])@ == nodes@[j]@.extent(),
            decreases nodes.len() - i,
        {
            tiles.push(nodes[i].coverage());
            i += 1;
        }
        proof {
            assert(rects_of(tiles@) =~= NodeView::extents(Self::models(nodes@)));
        }
        tiles
    }

    /// The smallest tile that covers all of the nodes, if there is any node.
    fn cover(nodes: &Vec<Node<C, V>>) -> (r: Option<Tile<C>>)
        ensures
            rect_of(r) == NodeView::cover_of(Self::models(nodes@)),
    {
        let tiles = Self::coverages(nodes);
        bounding_tile(&tiles)
    }

    /// Recursively splits a subtree into two along the line. All of its subtrees strictly
    /// before the line stay in this subtree. Subtrees of it that the line crosses are split in
    /// turn. Other subtrees of it go to the right subtree.
    ///
    /// Returns the right subtree, if anything went there.
    ///
    /// Something must stay in every node that the split reaches.
    #[allow(unused_variables)]
    pub fn partition(&mut self, line: &Line<C>, fill_factor: usize) -> (right: Option<Node<C, V>>)
        requires
            old(self)@.can_partition(line@),
        ensures
            (final(self)@, view_of(right)) == old(self)@.partition(line@),
        decreases *old(self),
    {
        let mut children: Vec<Node<C, V>> = Vec::new();
        match self {
            Node::Leaf { .. } => {
                return None;
            },
            Node::Node { vector, .. } => {
                core::mem::swap(vector, &mut children);
            },
        }
        let ghost kids = children@;
        let mut left_vec: Vec<Node<C, V>> = Vec::new();
        let mut right_vec: Vec<Node<C, V>> = Vec::new();
        proof {
            assert(Self::models(left_vec@) =~= NodeView::kept(Self::models(kids), line@, 0));
            assert(Self::models(right_vec@) =~= NodeView::moved(Self::models(kids), line@, 0));
        }
        for node in it: children
            invariant
                it.seq() == kids,
                *old(self) is Node,
                old(self)->vector@ == kids,
                old(self)@.can_partition(line@),
                Self::models(left_vec@) == NodeView::kept(
                    Self::models(kids),
                    line@,
                    it.index() as int,
                ),
                Self::models(right_vec@) == NodeView::moved(
                    Self::models(kids),
                    line@,
                    it.index() as int,
                ),
        {
            let mut node = node;
            let ghost before = node;
            proof {
                assert(before == kids[it.index() as int]);
                assert(Self::models(kids)[it.index() as int] == before@);
                assert(old(self)@->children == Self::models(kids));
            }
            match node.side_of(line) {
                Side::Before => {
                    proof {
                        Self::lemma_models_push(left_vec@, node);
                    }
                    left_vec.push(node);
                },
                // The current node overlaps the split line. Recursively split the subtree
                Side::Across => {
                    let right_subnode = node.partition(line, fill_factor);
                    proof {
                        Self::lemma_models_push(left_vec@, node);
                    }
                    left_vec.push(node);
                    if let Some(subnode) = right_subnode {
                        proof {
                            Self::lemma_models_push(right_vec@, subnode);
                        }
                        right_vec.push(subnode);
                    }
                },
                Side::After => {
                    proof {
                        Self::lemma_models_push(right_vec@, node);
                    }
                    right_vec.push(node);
                },
            }
        }
        let left_box = Self::cover(&left_vec).unwrap();
        let right_node = if right_vec.len() == 1 {
            right_vec.pop()
        } else {
            match Self::cover(&right_vec) {
                Some(tile) => Some(Node::Node { coverage: tile, vector: right_vec }),
                None => None,
            }
        };
        *self = Node::Node { coverage: left_box, vector: left_vec };
        right_node
    }

    /// If the node children count is greater than the fill factor, split it and returns the new
    /// node
    pub fn split_node(&mut self, fill_factor: usize) -> (right: Option<Node<C, V>>)
        requires
            old(self)@.can_split(fill_factor as nat),
        ensures
            (final(self)@, view_of(right)) == old(self)@.split(fill_factor as nat),
    {
        let line = match &*self {
            Node::Leaf { .. } => {
                return None;
            },
            Node::Node { vector, .. } => if vector.len() <= fill_factor {
                return None;
            } else {
                // The node is full and needs to be split
                let tile_set = Self::coverages(vector);
                // Compute the split line
                Self::sweep(tile_set, fill_factor)
            },
        };
        self.partition(&*line, fill_factor)
    }

    /// Recursively inserts a `Point` into the subtree. If a binding for this point already exists
    /// in the tree, its value is replaced and the old value is returned. Else, `None` is returned.
    ///
    /// The method also returns the overflow subtree which has to be added to the upper level
    pub fn insert(&mut self, point: Point<C>, value: V, fill_factor: usize) -> (r: (
        Option<V>,
        Option<Node<C, V>>,
    ))
        requires
            old(self)@.well_formed(),
        ensures
            (final(self)@, r.0, view_of(r.1)) == old(self)@.insert(
                point@,
                value,
                fill_factor as nat,
            ),
            parts_well(old(self)@.extent().union(Rect::at(point@)), final(self)@, view_of(r.1)),
        decreases *old(self),
    {
        proof {
            self@.lemma_insert_keeps_well_formed(point@, value, fill_factor as nat);
        }
        let old_value = match self {
            // Node is a leaf, swap the value and returns the old one if it is the leaf of this
            // point; the new leaf has to be added to the upper level if it is not
            Node::Leaf { point: at, data } => {
                if *at == point {
                    let mut value = value;
                    core::mem::swap(data, &mut value);
                    return (Some(value), None);
                } else {
                    return (None, Some(Node::Leaf { point: point, data: value }));
                }
            },
            Node::Node { coverage, vector } => {
                // Node is an internal node, recursivly call insert if a subtree contains the point
                // to insert.
                match Self::locate(vector, &point) {
                    Some(i) => {
                        let ghost before = vector@;
                        let (old_value, overflow) = vector[i].insert(point, value, fill_factor);
                        proof {
                            Self::lemma_models_update(before, i as int, vector@[i as int]);
                        }
                        match overflow {
                            Some(node) => {
                                proof {
                                    Self::lemma_models_push(vector@, node);
                                }
                                vector.push(node);
                                old_value
                            },
                            None => {
                                return (old_value, None);
                            },
                        }
                    },
                    None => {
                        // No subtree contains the point, insert it at the current level
                        let leaf = Node::Leaf { point: point, data: value };
                        proof {
                            Self::lemma_models_push(vector@, leaf);
                        }
                        *coverage = coverage.union(Tile::from_point(point));
                        vector.push(leaf);
                        None
                    },
                }
            },
        };
        (old_value, self.split_node(fill_factor))
    }
}

impl<C: Coordinate, V> PartialEqSpecImpl<Point<C>> for Node<C, V> {
    open spec fn obeys_eq_spec() -> bool {
        true
    }

    open spec fn eq_spec(&self, rhs: &Point<C>) -> bool {
        self@.extent() == Rect::at(rhs@)
    }
}

/// A subtree is equal to a point if it covers this point and nothing else
impl<C: Coordinate, V> PartialEq<Point<C>> for Node<C, V> {
    fn eq(&self, rhs: &Point<C>) -> (r: bool) {
        self.coverage() == *rhs
    }
}

impl<C: Coordinate, V> PartialOrdSpecImpl<Point<C>> for Node<C, V> {
    open spec fn obeys_partial_cmp_spec() -> bool {
        true
    }

    open spec fn partial_cmp_spec(&self, rhs: &Point<C>) -> Option<Ordering> {
        Some(rect_against_point(self@.extent(), rhs@))
    }
}

/// A subtree is greater than a point if its extent contains it, and smaller if it does not
impl<C: Coordinate, V> PartialOrd<Point<C>> for Node<C, V> {
    fn partial_cmp(&self, rhs: &Point<C>) -> (r: Option<Ordering>) {
        match rhs.partial_cmp(&self.coverage()) {
            Some(Ordering::Less) => Some(Ordering::Greater),
            Some(Ordering::Greater) => Some(Ordering::Less),
            o => o,
        }
    }
}

impl<C: Coordinate, V> PartialEqSpecImpl<Tile<C>> for Node<C, V> {
    open spec fn obeys_eq_spec() -> bool {
        true
    }

    open spec fn eq_spec(&self, rhs: &Tile<C>) -> bool {
        self@.extent() == rhs@
    }
}

/// A subtree is equal to a tile if the tile is its extent
impl<C: Coordinate, V> PartialEq<Tile<C>> for Node<C, V> {
    fn eq(&self, rhs: &Tile<C>) -> (r: bool) {
        *rhs == self.coverage()
    }
}

impl<C: Coordinate, V> PartialOrdSpecImpl<Tile<C>> for Node<C, V> {
    open spec fn obeys_partial_cmp_spec() -> bool {
        true
    }

    open spec fn partial_cmp_spec(&self, rhs: &Tile<C>) -> Option<Ordering> {
        reversed(rect_against_rect(rhs@, self@.extent()))
    }
}

/// A subtree is greater than a tile if its extent contains it, and smaller if the tile
/// contains its extent
impl<C: Coordinate, V> PartialOrd<Tile<C>> for Node<C, V> {
    fn partial_cmp(&self, rhs: &Tile<C>) -> (r: Option<Ordering>) {
        match rhs.partial_cmp(&self.coverage()) {
            Some(Ordering::Less) => Some(Ordering::Greater),
            Some(Ordering::Greater) => Some(Ordering::Less),
            o => o,
        }
    }
}

impl<C: Coordinate, V> PartialEqSpecImpl<Line<C>> for Node<C, V> {
    open spec fn obeys_eq_spec() -> bool {
        true
    }

    open spec fn eq_spec(&self, rhs: &Line<C>) -> bool {
        rhs@.crosses(self@.extent())
    }
}

/// A subtree is equal to a line if the line crosses its extent
impl<C: Coordinate, V> PartialEq<Line<C>> for Node<C, V> {
    fn eq(&self, rhs: &Line<C>) -> (r: bool) {
        *rhs == self.coverage()
    }
}

impl<C: Coordinate, V> PartialOrdSpecImpl<Line<C>> for Node<C, V> {
    open spec fn obeys_partial_cmp_spec() -> bool {
        true
    }

    open spec fn partial_cmp_spec(&self, rhs: &Line<C>) -> Option<Ordering> {
        reversed(Some(rhs@.against_rect(self@.extent())))
    }
}

/// A subtree is smaller than a line if it lies strictly before it, and greater if it lies
/// strictly after it
impl<C: Coordinate, V> PartialOrd<Line<C>> for Node<C, V> {
    fn partial_cmp(&self, rhs: &Line<C>) -> (r: Option<Ordering>) {
        match rhs.partial_cmp(&self.coverage()) {
            Some(Ordering::Less) => Some(Ordering::Greater),
            Some(Ordering::Greater) => Some(Ordering::Less),
            o => o,
        }
    }
}

/// A balanced tree storing points in a 2D plane
#[derive(Debug)]
pub struct RTree<C: Coordinate, V> {
    fill_factor: usize,
    root: Option<Node<C, V>>,
}

impl<C: Coordinate, V> View for RTree<C, V> {
    type V = Map<(int, int), V>;

    /// The stored points with their values.
    open spec fn view(&self) -> Map<(int, int), V> {
        entries_of_root(self.tree())
    }
}

impl<C: Coordinate, V> RTree<C, V> {
    /// The tree of boxes that the index holds, if it holds any point.
    pub closed spec fn tree(&self) -> Option<NodeView<V>> {
        view_of(self.root)
    }

    /// The number of subtrees above which a node is split.
    pub closed spec fn radix(&self) -> nat {
        self.fill_factor as nat
    }

    /// The invariant of the index: a node is split above two subtrees or
    /// more, and the tree is well-formed.
    pub open spec fn well_formed(&self) -> bool {
        &&& self.radix() >= 2
        &&& self.tree() matches Some(t) ==> t.well_formed()
    }

    /// The number of leaves of the tree.
    pub open spec fn leaves(&self) -> nat {
        root_leaves(self.tree())
    }

    /// The number of nodes of the tree that are no leaves.
    pub open spec fn branches(&self) -> nat {
        root_branches(self.tree())
    }

    /// Whether no node of the tree has more subtrees than the radix.
    pub open spec fn within_fill(&self) -> bool {
        root_within_fill(self.tree(), self.radix())
    }

    /// Whether a new leaf for `p` would come into a node that is full.
    pub open spec fn lands_in_full_node(&self, p: (int, int)) -> bool {
        root_lands_in_full_node(self.tree(), p, self.radix())
    }

    /// Creates a new empty `RTree`
    pub fn new() -> (t: RTree<C, V>)
        ensures
            t.tree() is None,
            t.radix() == 4,
            t.well_formed(),
            t@ == Map::<(int, int), V>::empty(),
    {
        RTree { fill_factor: 4, root: None }
    }

    /// Creates a new empty `RTree` with a user-defined radix, which must be 2 or more
    pub fn with_radix(radix: usize) -> (t: RTree<C, V>)
        requires
            radix >= 2,
        ensures
            t.tree() is None,
            t.radix() == radix,
            t.well_formed(),
            t@ == Map::<(int, int), V>::empty(),
    {
        RTree { fill_factor: radix, root: None }
    }

    /// Inserts a point into the RTree, and returns the old value associated to this point.
    ///
    /// The tree then holds the new value for the point and, for every other point, the value
    /// that it held. Where the point was held before, only its value changes. Where it was
    /// not, a leaf is added to the first node on the way down that covers the point in none of
    /// its subtrees, and that node is split if it was full; a full node keeps all of its
    /// subtrees, whole or in part, when it is split, so it stays above the radix.
    pub fn insert(&mut self, point: Point<C>, data: V) -> (old_value: Option<V>)
        requires
            old(self).well_formed(),
        ensures
            final(self).radix() == old(self).radix(),
            (final(self).tree(), old_value) == root_after_insert(
                old(self).tree(),
                point@,
                data,
                old(self).radix(),
            ),
            final(self).well_formed(),
            old_value == value_at(old(self)@, point@),
            final(self)@ == old(self)@.insert(point@, data),
            old(self)@.contains_key(point@) ==> final(self).tree() == Some(
                old(self).tree().unwrap().with_value(point@, data),
            ) && final(self).leaves() == old(self).leaves() && final(self).branches() == old(
                self,
            ).branches(),
            old(self).within_fill() ==> (final(self).within_fill() <==> !old(
                self,
            ).lands_in_full_node(point@)),
    {
        proof {
            lemma_root_after_insert(self.tree(), point@, data, self.radix());
            if self@.contains_key(point@) {
                lemma_root_after_replacement(self.tree(), point@, data, self.radix());
            }
            if self.within_fill() {
                lemma_root_after_insert_fill(self.tree(), point@, data, self.radix());
            }
        }
        let fill_factor = self.fill_factor;
        match self.root.take() {
            Some(root) => {
                let mut root = root;
                let (ret_val, overflow) = root.insert(point, data, fill_factor);
                match overflow {
                    Some(n) => {
                        // Replace the root
                        let mut vector = Vec::new();
                        let tile = n.coverage().union(root.coverage());
                        proof {
                            assert(Node::models(seq![n, root]) =~= seq![n@, root@]);
                        }
                        vector.push(n);
                        vector.push(root);
                        proof {
                            assert(vector@ =~= seq![vector@[0], vector@[1]]);
                        }
                        self.root = Some(Node::Node { coverage: tile, vector: vector });
                    },
                    None => {
                        self.root = Some(root);
                    },
                }
                ret_val
            },
            None => {
                self.root = Some(Node::Leaf { point: point, data: data });
                None
            },
        }
    }

    /// Recursively search for a matching point, returns `None` if no point is found or a mutable
    /// reference to the value associated with the point
    ///
    /// The tree enters its root as a node enters a subtree: only if the root covers the point.
    /// The search then goes down into the first subtree that covers the point, and ends at the
    /// leaf of the point or where no subtree covers the point.
    pub fn find_mut(&mut self, point: Point<C>) -> (r: Option<&mut V>)
        requires
            old(self).well_formed(),
        ensures
            final(self).radix() == old(self).radix(),
            (match r {
                Some(v) => Some(*v),
                None => None,
            }) == root_find(old(self).tree(), point@),
            (match r {
                Some(v) => Some(*v),
                None => None,
            }) == value_at(old(self)@, point@),
            (match r {
                Some(v) => final(self).tree() == Some(
                    old(self).tree().unwrap().with_value(point@, *final(v)),
                ),
                None => final(self).tree() == old(self).tree(),
            }),
            (match r {
                Some(v) => final(self)@ == old(self)@.insert(point@, *final(v)),
                None => final(self)@ == old(self)@,
            }),
            final(self).well_formed(),
            old(self).tree() is None ==> r is None,
            final(self).leaves() == old(self).leaves(),
            final(self).branches() == old(self).branches(),
    {
        match &mut self.root {
            Some(r) => {
                proof {
                    r@.lemma_find_is_value_at(point@);
                    assert forall|v: V|
                        r@.covers(point@) && r@.find(point@) is Some implies (
                    #[trigger] r@.with_value(point@, v)).well_formed() && r@.with_value(
                        point@,
                        v,
                    ).entries() == r@.entries().insert(point@, v) && r@.with_value(
                        point@,
                        v,
                    ).leaves() == r@.leaves() && r@.with_value(point@, v).branches()
                        == r@.branches() by {
                        r@.lemma_with_value(point@, v);
                        r@.lemma_with_value_keeps_counts(point@, v);
                    }
                }
                if r.covers(&point) {
                    r.find_mut(point)
                } else {
                    None
                }
            },
            None => None,
        }
    }

    /// Recursively search for a matching point, returns `None` if no point is found or a
    /// reference to the value associated with the point
    ///
    /// The tree enters its root as a node enters a subtree: only if the root covers the point.
    /// The search then goes down into the first subtree that covers the point, and ends at the
    /// leaf of the point or where no subtree covers the point.
    pub fn find(&self, point: Point<C>) -> (r: Option<&V>)
        requires
            self.well_formed(),
        ensures
            (match r {
                Some(v) => Some(*v),
                None => None,
            }) == root_find(self.tree(), point@),
            (match r {
                Some(v) => Some(*v),
                None => None,
            }) == value_at(self@, point@),
            self.tree() is None ==> r is None,
    {
        match &self.root {
            Some(r) => {
                proof {
                    r@.lemma_find_is_value_at(point@);
                }
                if r.covers(&point) {
                    r.find(point)
                } else {
                    None
                }
            },
            None => None,
        }
    }
}

} // verus!
