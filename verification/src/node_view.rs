//! The mathematical tree that a node of the index stands for, and what the
//! operations of the index compute on it.
use core::cmp::Ordering;
use vstd::prelude::*;
use crate::geometry::bounding_rect;
use crate::geometry::rect_against_point;
use crate::geometry::LineView;
use crate::geometry::Rect;

verus! {

/// Where a subtree lies when its parent is split along a line.
#[derive(Debug, Clone, Copy, PartialEq, Eq, Structural)]
pub enum Side {
    /// Strictly before the line: it stays.
    Before,
    /// The line runs through its extent: it is split in turn.
    Across,
    /// Strictly after the line: it leaves.
    After,
}

/// A tree of nested boxes over points of the integer plane.
pub enum NodeView<V> {
    /// One stored point with its value.
    Leaf { point: (int, int), data: V },
    /// A box, and the subtrees that it was recorded to cover.
    Node { coverage: Rect, children: Seq<NodeView<V>> },
}

/// The line at the `fill_factor`-th lowest low corner on each axis that is
/// crossed by the fewest boxes; the vertical one where both are crossed
/// by equally many.
pub open spec fn sweep_line(tiles: Seq<Rect>, fill_factor: int) -> LineView {
    let vertical = LineView::Vertical(
        Seq::new(tiles.len(), |i: int| tiles[i].lo.0).sort()[fill_factor],
    );
    let horizontal = LineView::Horizontal(
        Seq::new(tiles.len(), |i: int| tiles[i].lo.1).sort()[fill_factor],
    );
    let n: int = tiles.len() as int;
    if crossings(tiles, vertical, n) > crossings(tiles, horizontal, n) {
        horizontal
    } else {
        vertical
    }
}

/// How many of the first `n` boxes the line crosses.
pub open spec fn crossings(tiles: Seq<Rect>, line: LineView, n: int) -> int
    decreases n,
{
    if n <= 0 || n > tiles.len() {
        0
    } else if line.crosses(tiles[n - 1]) {
        crossings(tiles, line, n - 1) + 1
    } else {
        crossings(tiles, line, n - 1)
    }
}

/// The root of the index after `(p, v)` was inserted, and the value that `p`
/// had. The first pair becomes a leaf. What leaves the root on a later
/// insertion becomes, with what stays, the two subtrees of a new root.
pub open spec fn root_after_insert<V>(
    root: Option<NodeView<V>>,
    p: (int, int),
    v: V,
    fill_factor: nat,
) -> (Option<NodeView<V>>, Option<V>) {
    match root {
        None => (Some(NodeView::Leaf { point: p, data: v }), None),
        Some(r) => {
            let (after, old, overflow) = r.insert(p, v, fill_factor);
            match overflow {
                None => (Some(after), old),
                Some(part) => (
                    Some(
                        NodeView::Node {
                            coverage: part.extent().union(after.extent()),
                            children: seq![part, after],
                        },
                    ),
                    old,
                ),
            }
        },
    }
}

/// The root of the index after the first `n` of `pairs` were inserted into
/// the empty index, one after the other.
pub open spec fn root_after_all<V>(pairs: Seq<((int, int), V)>, n: nat, fill_factor: nat) -> Option<
    NodeView<V>,
>
    decreases n,
{
    if n == 0 || n > pairs.len() {
        None
    } else {
        root_after_insert(
            root_after_all(pairs, (n - 1) as nat, fill_factor),
            pairs[n - 1].0,
            pairs[n - 1].1,
            fill_factor,
        ).0
    }
}

/// The value of the last of the first `n` of `pairs` that is a pair for `p`.
pub open spec fn last_value_for<V>(pairs: Seq<((int, int), V)>, n: nat, p: (int, int)) -> Option<V>
    decreases n,
{
    if n == 0 || n > pairs.len() {
        None
    } else if pairs[n - 1].0 == p {
        Some(pairs[n - 1].1)
    } else {
        last_value_for(pairs, (n - 1) as nat, p)
    }
}

/// Whether no node of an optional tree has more than `fill_factor` subtrees.
pub open spec fn root_within_fill<V>(root: Option<NodeView<V>>, fill_factor: nat) -> bool {
    root matches Some(t) ==> t.within_fill(fill_factor)
}

/// Whether a new leaf for `p` would come into a node of the optional tree
/// that is full.
pub open spec fn root_lands_in_full_node<V>(
    root: Option<NodeView<V>>,
    p: (int, int),
    fill_factor: nat,
) -> bool {
    root matches Some(t) && t.lands_in_full_node(p, fill_factor)
}

/// The number of leaves of an optional tree.
pub open spec fn root_leaves<V>(root: Option<NodeView<V>>) -> nat {
    match root {
        Some(t) => t.leaves(),
        None => 0,
    }
}

/// The number of nodes of an optional tree that are no leaves.
pub open spec fn root_branches<V>(root: Option<NodeView<V>>) -> nat {
    match root {
        Some(t) => t.branches(),
        None => 0,
    }
}

/// The value that a search of the index for `p` ends at. The index enters
/// its root as a node enters a subtree: only where the root covers `p`.
pub open spec fn root_find<V>(root: Option<NodeView<V>>, p: (int, int)) -> Option<V> {
    match root {
        Some(t) => if t.covers(p) {
            t.find(p)
        } else {
            None
        },
        None => None,
    }
}

/// The stored points of an optional tree with their values, as a map.
pub open spec fn entries_of_root<V>(root: Option<NodeView<V>>) -> Map<(int, int), V> {
    match root {
        Some(t) => t.entries(),
        None => Map::empty(),
    }
}

/// The value of a map at a key, if it has one.
pub open spec fn value_at<V>(entries: Map<(int, int), V>, p: (int, int)) -> Option<V> {
    if entries.contains_key(p) {
        Some(entries[p])
    } else {
        None
    }
}

impl<V> NodeView<V> {
    /// The box the subtree is taken to cover: its point for a leaf, its
    /// recorded coverage otherwise.
    pub open spec fn extent(self) -> Rect {
        match self {
            NodeView::Leaf { point, .. } => Rect::at(point),
            NodeView::Node { coverage, .. } => coverage,
        }
    }

    /// Whether a descent for `p` enters this subtree: its extent holds `p`.
    pub open spec fn covers(self, p: (int, int)) -> bool {
        rect_against_point(self.extent(), p) != Ordering::Less
    }

    /// On which side of the line the subtree lies.
    pub open spec fn side_of(self, line: LineView) -> Side {
        match line.against_rect(self.extent()) {
            Ordering::Less => Side::After,
            Ordering::Equal => Side::Across,
            Ordering::Greater => Side::Before,
        }
    }

    /// The extents of a sequence of subtrees.
    pub open spec fn extents(children: Seq<NodeView<V>>) -> Seq<Rect> {
        Seq::new(children.len(), |i: int| children[i].extent())
    }

    /// The smallest box that covers the extents of all of `children`.
    pub open spec fn cover_of(children: Seq<NodeView<V>>) -> Option<Rect> {
        bounding_rect(Self::extents(children), children.len())
    }

    /// The index of the first subtree at or after `from` that covers `p`.
    pub open spec fn first_covering(children: Seq<NodeView<V>>, p: (int, int), from: int) -> Option<
        int,
    >
        decreases children.len() - from,
    {
        if from < 0 || from >= children.len() {
            None
        } else if children[from].covers(p) {
            Some(from)
        } else {
            Self::first_covering(children, p, from + 1)
        }
    }

    /// The value that a descent for `p` ends at: at each level it enters the
    /// first subtree that covers `p`, and it fails where none does.
    pub open spec fn find(self, p: (int, int)) -> Option<V>
        decreases self,
    {
        match self {
            NodeView::Leaf { data, .. } => Some(data),
            NodeView::Node { children, .. } => match Self::first_covering(children, p, 0) {
                Some(i) => if 0 <= i < children.len() {
                    children[i].find(p)
                } else {
                    None
                },
                None => None,
            },
        }
    }

    /// The tree with `v` in place of the value that a descent for `p` ends
    /// at, and unchanged where that descent fails.
    pub open spec fn with_value(self, p: (int, int), v: V) -> NodeView<V>
        decreases self,
    {
        match self {
            NodeView::Leaf { point, .. } => NodeView::Leaf { point: point, data: v },
            NodeView::Node { coverage, children } => match Self::first_covering(children, p, 0) {
                Some(i) => if 0 <= i < children.len() {
                    NodeView::Node {
                        coverage: coverage,
                        children: children.update(i, children[i].with_value(p, v)),
                    }
                } else {
                    self
                },
                None => self,
            },
        }
    }

    /// What stays of the first `n` of `children` when they are split along
    /// `line`: those before the line, and what stays of those it crosses, in
    /// their order.
    pub open spec fn kept(children: Seq<NodeView<V>>, line: LineView, n: int) -> Seq<NodeView<V>>
        decreases children, n,
    {
        if n <= 0 || n > children.len() {
            Seq::empty()
        } else {
            let rest = Self::kept(children, line, n - 1);
            let child = children[n - 1];
            match child.side_of(line) {
                Side::Before => rest.push(child),
                Side::Across => rest.push(child.partition(line).0),
                Side::After => rest,
            }
        }
    }

    /// What leaves of the first `n` of `children` when they are split along
    /// `line`: those after the line, and what leaves of those it crosses, in
    /// their order.
    pub open spec fn moved(children: Seq<NodeView<V>>, line: LineView, n: int) -> Seq<NodeView<V>>
        decreases children, n,
    {
        if n <= 0 || n > children.len() {
            Seq::empty()
        } else {
            let rest = Self::moved(children, line, n - 1);
            let child = children[n - 1];
            match child.side_of(line) {
                Side::Before => rest,
                Side::Across => match child.partition(line).1 {
                    Some(part) => rest.push(part),
                    None => rest,
                },
                Side::After => rest.push(child),
            }
        }
    }

    /// The one subtree that stands for a list of subtrees: none for the
    /// empty list, the subtree itself for a list of one, and a new node
    /// with their smallest cover otherwise.
    pub open spec fn gathered(children: Seq<NodeView<V>>) -> Option<NodeView<V>> {
        if children.len() == 1 {
            Some(children[0])
        } else {
            match Self::cover_of(children) {
                Some(coverage) => Some(NodeView::Node { coverage: coverage, children: children }),
                None => None,
            }
        }
    }

    /// The tree split along `line`: what stays, under its smallest cover,
    /// and what leaves. A leaf stays whole.
    pub open spec fn partition(self, line: LineView) -> (NodeView<V>, Option<NodeView<V>>)
        decreases self,
    {
        match self {
            NodeView::Leaf { .. } => (self, None),
            NodeView::Node { children, .. } => {
                let left = Self::kept(children, line, children.len() as int);
                let right = Self::moved(children, line, children.len() as int);
                (
                    NodeView::Node { coverage: Self::cover_of(left).unwrap(), children: left },
                    Self::gathered(right),
                )
            },
        }
    }

    /// Whether splitting along `line` leaves something in every node that
    /// the split reaches.
    pub open spec fn can_partition(self, line: LineView) -> bool
        decreases self,
    {
        match self {
            NodeView::Leaf { .. } => true,
            NodeView::Node { children, .. } => {
                &&& Self::kept(children, line, children.len() as int).len() > 0
                &&& forall|i: int|
                    0 <= i < children.len() && (#[trigger] children[i]).side_of(line) is Across
                        ==> children[i].can_partition(line)
            },
        }
    }

    /// The line along which a node with more than `fill_factor` subtrees is
    /// split.
    pub open spec fn split_line(self, fill_factor: nat) -> LineView
        recommends
            self is Node,
    {
        sweep_line(Self::extents(self->children), fill_factor as int)
    }

    /// The tree after its root was split, if it held more than `fill_factor`
    /// subtrees, and the part that left it.
    pub open spec fn split(self, fill_factor: nat) -> (NodeView<V>, Option<NodeView<V>>) {
        match self {
            NodeView::Leaf { .. } => (self, None),
            NodeView::Node { children, .. } => if children.len() <= fill_factor {
                (self, None)
            } else {
                self.partition(self.split_line(fill_factor))
            },
        }
    }

    /// Whether the root can be split where it has to be.
    pub open spec fn can_split(self, fill_factor: nat) -> bool {
        self is Node && self->children.len() > fill_factor ==> self.can_partition(
            self.split_line(fill_factor),
        )
    }

    /// The tree with `child` as its last subtree and with `coverage`.
    pub open spec fn grown(self, coverage: Rect, child: NodeView<V>) -> NodeView<V>
        recommends
            self is Node,
    {
        NodeView::Node { coverage: coverage, children: self->children.push(child) }
    }

    /// The tree after `(p, v)` was inserted, the value that `p` had, and the
    /// part that left the tree because its root had to be split.
    ///
    /// A leaf at `p` takes the new value; a leaf elsewhere stays, and the new
    /// leaf leaves in its place. Otherwise the pair goes into the first
    /// subtree that covers `p`, and what leaves that subtree becomes the last
    /// subtree here; where no subtree covers `p`, a new leaf becomes the last
    /// subtree and the coverage grows to hold it. A root that then has more
    /// than `fill_factor` subtrees is split.
    pub open spec fn insert(self, p: (int, int), v: V, fill_factor: nat) -> (
        NodeView<V>,
        Option<V>,
        Option<NodeView<V>>,
    )
        decreases self,
    {
        match self {
            NodeView::Leaf { point, data } => if point == p {
                (NodeView::Leaf { point: point, data: v }, Some(data), None)
            } else {
                (self, None, Some(NodeView::Leaf { point: p, data: v }))
            },
            NodeView::Node { coverage, children } => match Self::first_covering(children, p, 0) {
                Some(i) => if 0 <= i < children.len() {
                    let (child, old, overflow) = children[i].insert(p, v, fill_factor);
                    let updated = NodeView::Node {
                        coverage: coverage,
                        children: children.update(i, child),
                    };
                    match overflow {
                        None => (updated, old, None),
                        Some(part) => {
                            let (left, right) = updated.grown(coverage, part).split(fill_factor);
                            (left, old, right)
                        },
                    }
                } else {
                    (self, None, None)
                },
                None => {
                    let (left, right) = self.grown(
                        coverage.union(Rect::at(p)),
                        NodeView::Leaf { point: p, data: v },
                    ).split(fill_factor);
                    (left, None, right)
                },
            },
        }
    }

    /// Whether every split that inserting `(p, v)` leads to can be made.
    pub open spec fn can_insert(self, p: (int, int), v: V, fill_factor: nat) -> bool
        decreases self,
    {
        match self {
            NodeView::Leaf { .. } => true,
            NodeView::Node { coverage, children } => match Self::first_covering(children, p, 0) {
                Some(i) => {
                    &&& 0 <= i < children.len()
                    &&& children[i].can_insert(p, v, fill_factor)
                    &&& children[i].insert(p, v, fill_factor).2 matches Some(part) ==> (NodeView::Node {
                        coverage: coverage,
                        children: children.update(i, children[i].insert(p, v, fill_factor).0),
                    }).grown(coverage, part).can_split(fill_factor)
                },
                None => self.grown(
                    coverage.union(Rect::at(p)),
                    NodeView::Leaf { point: p, data: v },
                ).can_split(fill_factor),
            },
        }
    }

    /// The stored points, each with its value.
    pub open spec fn pairs(self) -> Set<((int, int), V)>
        decreases self,
    {
        match self {
            NodeView::Leaf { point, data } => set![(point, data)],
            NodeView::Node { children, .. } => Self::pairs_of(children, children.len()),
        }
    }

    /// The points stored in the first `n` of `children`, each with its value.
    pub open spec fn pairs_of(children: Seq<NodeView<V>>, n: nat) -> Set<((int, int), V)>
        decreases children, n,
    {
        if n == 0 || n > children.len() {
            Set::empty()
        } else {
            Self::pairs_of(children, (n - 1) as nat).union(children[n - 1].pairs())
        }
    }

    /// The value stored for `p`, if `p` is stored.
    pub open spec fn lookup(self, p: (int, int)) -> Option<V> {
        if exists|v: V| self.pairs().contains((p, v)) {
            Some(choose|v: V| self.pairs().contains((p, v)))
        } else {
            None
        }
    }

    /// The stored points with their values, as a map.
    pub open spec fn entries(self) -> Map<(int, int), V> {
        Map::new(|p: (int, int)| self.lookup(p) is Some, |p: (int, int)| self.lookup(p).unwrap())
    }

    /// The invariant of the index: in every node the recorded coverage is
    /// the smallest box that covers its subtrees, and no two subtrees of a
    /// node have extents that share a point.
    pub open spec fn well_formed(self) -> bool
        decreases self,
    {
        match self {
            NodeView::Leaf { .. } => true,
            NodeView::Node { coverage, children } => {
                &&& Self::cover_of(children) == Some(coverage)
                &&& forall|i: int|
                    0 <= i < children.len() ==> (#[trigger] children[i]).well_formed()
                &&& forall|i: int, j: int|
                    0 <= i < j < children.len() ==> !(#[trigger] children[i]).extent().meets(
                        (#[trigger] children[j]).extent(),
                    )
            },
        }
    }

    /// The number of leaves of the tree.
    pub open spec fn leaves(self) -> nat
        decreases self,
    {
        match self {
            NodeView::Leaf { .. } => 1,
            NodeView::Node { children, .. } => Self::leaves_of(children, children.len()),
        }
    }

    /// The number of leaves of the first `n` subtrees.
    pub open spec fn leaves_of(children: Seq<NodeView<V>>, n: nat) -> nat
        decreases children, n,
    {
        if n == 0 || n > children.len() {
            0
        } else {
            Self::leaves_of(children, (n - 1) as nat) + children[n - 1].leaves()
        }
    }

    /// The number of nodes of the tree that are no leaves.
    pub open spec fn branches(self) -> nat
        decreases self,
    {
        match self {
            NodeView::Leaf { .. } => 0,
            NodeView::Node { children, .. } => 1 + Self::branches_of(children, children.len()),
        }
    }

    /// The number of nodes of the first `n` subtrees that are no leaves.
    pub open spec fn branches_of(children: Seq<NodeView<V>>, n: nat) -> nat
        decreases children, n,
    {
        if n == 0 || n > children.len() {
            0
        } else {
            Self::branches_of(children, (n - 1) as nat) + children[n - 1].branches()
        }
    }

    /// Whether no node of the tree has more than `fill_factor` subtrees.
    pub open spec fn within_fill(self, fill_factor: nat) -> bool
        decreases self,
    {
        match self {
            NodeView::Leaf { .. } => true,
            NodeView::Node { children, .. } => {
                &&& children.len() <= fill_factor
                &&& forall|i: int|
                    0 <= i < children.len() ==> (#[trigger] children[i]).within_fill(fill_factor)
            },
        }
    }

    /// Whether a descent for `p` ends in a node that covers `p` in none of
    /// its subtrees and has `fill_factor` subtrees or more: a new leaf for
    /// `p` would be one subtree too many there.
    pub open spec fn lands_in_full_node(self, p: (int, int), fill_factor: nat) -> bool
        decreases self,
    {
        match self {
            NodeView::Leaf { .. } => false,
            NodeView::Node { children, .. } => match Self::first_covering(children, p, 0) {
                Some(i) => 0 <= i < children.len() && children[i].lands_in_full_node(
                    p,
                    fill_factor,
                ),
                None => children.len() >= fill_factor,
            },
        }
    }

    /// The number of leaves of the tree that hold `p`.
    pub open spec fn copies(self, p: (int, int)) -> nat
        decreases self,
    {
        match self {
            NodeView::Leaf { point, .. } => if point == p {
                1
            } else {
                0
            },
            NodeView::Node { children, .. } => Self::copies_in(children, p, children.len()),
        }
    }

    /// The number of leaves of the first `n` subtrees that hold `p`.
    pub open spec fn copies_in(children: Seq<NodeView<V>>, p: (int, int), n: nat) -> nat
        decreases children, n,
    {
        if n == 0 || n > children.len() {
            0
        } else {
            Self::copies_in(children, p, (n - 1) as nat) + children[n - 1].copies(p)
        }
    }
}

} // verus!
