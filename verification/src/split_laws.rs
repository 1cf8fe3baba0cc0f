//! What holds of splitting a tree along a line: the parts are well-formed,
//! lie on their sides of the line and keep what the tree stored.
use vstd::prelude::*;
use crate::geometry::LineView;
use crate::geometry::Rect;
use crate::geometry::bounding_rect;
use crate::geometry_laws::lemma_bounding_is_tight;
use crate::node_view::NodeView;
use crate::node_view::Side;
use crate::node_view::sweep_line;
use crate::sorting::lemma_sort_keeps_members;
use crate::sorting::lemma_sorted_member;

verus! {

/// The smallest box that covers both of two optional boxes.
pub open spec fn joined(a: Option<Rect>, b: Option<Rect>) -> Option<Rect> {
    match (a, b) {
        (None, _) => b,
        (_, None) => a,
        (Some(x), Some(y)) => Some(x.union(y)),
    }
}

/// The extent of an optional tree.
pub open spec fn extent_of<V>(tree: Option<NodeView<V>>) -> Option<Rect> {
    match tree {
        Some(t) => Some(t.extent()),
        None => None,
    }
}

/// The pairs stored in an optional tree.
pub open spec fn pairs_in<V>(tree: Option<NodeView<V>>) -> Set<((int, int), V)> {
    match tree {
        Some(t) => t.pairs(),
        None => Set::empty(),
    }
}

/// Whether `left` and `right` can be what a split along `line` leaves of a
/// tree with the extent `whole`: well-formed trees on their sides of the
/// line whose extents together make up `whole`.
pub open spec fn splits_well<V>(
    whole: Rect,
    line: LineView,
    left: NodeView<V>,
    right: Option<NodeView<V>>,
) -> bool {
    &&& left.well_formed()
    &&& line.high_of(left.extent()) <= line.position()
    &&& joined(Some(left.extent()), extent_of(right)) == Some(whole)
    &&& right matches Some(r) ==> r.well_formed() && line.low_of(r.extent()) > line.position()
}

/// Whether `left` and `right` can be what is left of a tree whose extent,
/// with the points that came to it, was `whole`: well-formed trees whose
/// extents share no point and together make up `whole`.
pub open spec fn parts_well<V>(whole: Rect, left: NodeView<V>, right: Option<NodeView<V>>) -> bool {
    &&& left.well_formed()
    &&& joined(Some(left.extent()), extent_of(right)) == Some(whole)
    &&& right matches Some(r) ==> r.well_formed() && !left.extent().meets(r.extent())
}

/// Joining optional boxes does not depend on how they are grouped.
pub proof fn lemma_joined_regroups(
    a: Option<Rect>,
    b: Option<Rect>,
    c: Option<Rect>,
    d: Option<Rect>,
)
    ensures
        joined(joined(a, b), joined(c, d)) == joined(joined(a, c), joined(b, d)),
        joined(a, b) == joined(b, a),
        joined(a, None) == a,
{
}

/// Each of two joined boxes lies in what they are joined to.
pub proof fn lemma_joined_covers(a: Rect, b: Option<Rect>, whole: Rect)
    requires
        joined(Some(a), b) == Some(whole),
    ensures
        a.within(whole),
        b matches Some(r) ==> r.within(whole),
{
}

/// A box inside a box that shares no point with `r` shares no point with
/// `r`.
pub proof fn lemma_inner_avoids(inner: Rect, outer: Rect, r: Rect)
    requires
        inner.within(outer),
        !outer.meets(r),
    ensures
        !inner.meets(r),
        !r.meets(inner),
{
}

/// Boxes on the two sides of a line share no point.
pub proof fn lemma_sides_are_apart(line: LineView, left: Rect, right: Rect)
    requires
        line.high_of(left) <= line.position(),
        line.position() < line.low_of(right),
    ensures
        !left.meets(right),
        !right.meets(left),
{
}

/// The line along which boxes are split begins one of them: it runs along
/// the low side of one of the boxes.
pub proof fn lemma_sweep_line_begins_a_tile(tiles: Seq<Rect>, fill_factor: int)
    requires
        0 <= fill_factor < tiles.len(),
    ensures
        exists|j: int|
            0 <= j < tiles.len() && sweep_line(tiles, fill_factor).low_of(#[trigger] tiles[j])
                == sweep_line(tiles, fill_factor).position(),
{
    let xs = Seq::new(tiles.len(), |i: int| tiles[i].lo.0);
    let ys = Seq::new(tiles.len(), |i: int| tiles[i].lo.1);
    lemma_sorted_member(xs, fill_factor);
    lemma_sorted_member(ys, fill_factor);
    let jx = choose|j: int| 0 <= j < xs.len() && #[trigger] xs[j] == xs.sort()[fill_factor];
    let jy = choose|j: int| 0 <= j < ys.len() && #[trigger] ys[j] == ys.sort()[fill_factor];
    let line = sweep_line(tiles, fill_factor);
    if line is Vertical {
        assert(line.low_of(tiles[jx]) == line.position());
    } else {
        assert(line.low_of(tiles[jy]) == line.position());
    }
}

impl<V> NodeView<V> {
    /// What the side of a subtree says of where its extent ends.
    pub proof fn lemma_side_of(self, line: LineView)
        ensures
            self.side_of(line) is Before ==> line.high_of(self.extent()) < line.position(),
            self.side_of(line) is After ==> line.low_of(self.extent()) > line.position(),
            self.side_of(line) is Across && self.extent().valid() ==> line.low_of(self.extent())
                <= line.position() <= line.high_of(self.extent()),
            line.low_of(self.extent()) <= line.position() ==> !(self.side_of(line) is After),
    {
    }

    /// Whether none of the first `n` subtrees has an extent that shares a
    /// point with `r`.
    pub open spec fn all_avoid(children: Seq<NodeView<V>>, n: nat, r: Rect) -> bool {
        forall|i: int| 0 <= i < n ==> !(#[trigger] children[i]).extent().meets(r)
    }

    /// Whether no two of the subtrees have extents that share a point.
    pub open spec fn all_apart(children: Seq<NodeView<V>>) -> bool {
        forall|i: int, j: int|
            0 <= i < j < children.len() ==> !(#[trigger] children[i]).extent().meets(
                (#[trigger] children[j]).extent(),
            )
    }

    /// The first subtrees of a sequence store the same pairs when another
    /// subtree is put behind the sequence.
    pub proof fn lemma_pairs_of_prefix(children: Seq<NodeView<V>>, child: NodeView<V>, n: nat)
        requires
            n <= children.len(),
        ensures
            Self::pairs_of(children.push(child), n) == Self::pairs_of(children, n),
        decreases n,
    {
        if n > 0 {
            Self::lemma_pairs_of_prefix(children, child, (n - 1) as nat);
        }
    }

    /// A sequence with one more subtree stores the pairs of the sequence and
    /// those of that subtree.
    pub proof fn lemma_pairs_of_push(children: Seq<NodeView<V>>, child: NodeView<V>)
        ensures
            Self::pairs_of(children.push(child), children.len() + 1) == Self::pairs_of(
                children,
                children.len(),
            ).union(child.pairs()),
    {
        Self::lemma_pairs_of_prefix(children, child, children.len());
    }

    /// The one tree that stands for a list of subtrees stores their pairs.
    pub proof fn lemma_gathered_pairs(children: Seq<NodeView<V>>)
        ensures
            pairs_in(Self::gathered(children)) == Self::pairs_of(children, children.len()),
    {
        if children.len() == 1 {
            assert(Self::pairs_of(children, 0) =~= Set::empty());
            assert(Self::pairs_of(children, 1) =~= children[0].pairs());
        } else if children.len() == 0 {
            assert(bounding_rect(Self::extents(children), 0) is None);
        } else {
            lemma_bounding_is_tight(Self::extents(children), children.len());
        }
    }

    /// What stays and what leaves of the first `n` subtrees store, together,
    /// what these subtrees stored.
    pub proof fn lemma_parts_keep_pairs(children: Seq<NodeView<V>>, line: LineView, n: nat)
        requires
            n <= children.len(),
        ensures
            ({
                let left = Self::kept(children, line, n as int);
                let right = Self::moved(children, line, n as int);
                Self::pairs_of(left, left.len()).union(Self::pairs_of(right, right.len()))
                    == Self::pairs_of(children, n)
            }),
        decreases children, n,
    {
        let left = Self::kept(children, line, n as int);
        let right = Self::moved(children, line, n as int);
        if n == 0 {
            assert(Self::pairs_of(left, left.len()).union(Self::pairs_of(right, right.len()))
                =~= Self::pairs_of(children, n));
        } else {
            let child = children[n - 1];
            let left_before = Self::kept(children, line, n - 1);
            let right_before = Self::moved(children, line, n - 1);
            Self::lemma_parts_keep_pairs(children, line, (n - 1) as nat);
            match child.side_of(line) {
                Side::Before => {
                    Self::lemma_pairs_of_push(left_before, child);
                },
                Side::Across => {
                    child.lemma_partition_keeps_pairs(line);
                    Self::lemma_pairs_of_push(left_before, child.partition(line).0);
                    if let Some(part) = child.partition(line).1 {
                        Self::lemma_pairs_of_push(right_before, part);
                    }
                },
                Side::After => {
                    Self::lemma_pairs_of_push(right_before, child);
                },
            }
            assert(Self::pairs_of(left, left.len()).union(Self::pairs_of(right, right.len()))
                =~= Self::pairs_of(children, n));
        }
    }

    /// The two parts that a split leaves store, together, what the tree
    /// stored.
    pub proof fn lemma_partition_keeps_pairs(self, line: LineView)
        ensures
            self.partition(line).0.pairs().union(pairs_in(self.partition(line).1)) == self.pairs(),
        decreases self,
    {
        match self {
            NodeView::Leaf { .. } => {
                assert(self.pairs().union(Set::empty()) =~= self.pairs());
            },
            NodeView::Node { children, .. } => {
                Self::lemma_parts_keep_pairs(children, line, children.len());
                Self::lemma_gathered_pairs(Self::moved(children, line, children.len() as int));
            },
        }
    }

    /// What a split leaves of subtrees whose extents share no point with `r`
    /// has extents that share no point with `r`.
    pub proof fn lemma_parts_avoid(children: Seq<NodeView<V>>, line: LineView, n: nat, r: Rect)
        requires
            n <= children.len(),
            Self::all_well_formed(children),
            Self::all_apart(children),
            Self::all_avoid(children, n, r),
        ensures
            ({
                let left = Self::kept(children, line, n as int);
                let right = Self::moved(children, line, n as int);
                Self::all_avoid(left, left.len(), r) && Self::all_avoid(right, right.len(), r)
            }),
        decreases children, n, 0nat,
    {
        if n > 0 {
            let child = children[n - 1];
            Self::lemma_parts_avoid(children, line, (n - 1) as nat, r);
            if child.side_of(line) is Across {
                child.lemma_extent_is_valid();
                child.lemma_side_of(line);
                child.lemma_partition_splits_well(line);
                let (part, rest) = child.partition(line);
                lemma_joined_covers(part.extent(), extent_of(rest), child.extent());
                lemma_inner_avoids(part.extent(), child.extent(), r);
                if let Some(other) = rest {
                    lemma_inner_avoids(other.extent(), child.extent(), r);
                }
            }
        }
    }

    /// What stays and what leaves of the first `n` of well-formed subtrees
    /// that lie apart are well-formed subtrees that lie apart, each on its
    /// side of the line, and together they cover what the `n` subtrees
    /// covered. Something stays if one of the subtrees begins at or before
    /// the line.
    pub proof fn lemma_parts_split_well(children: Seq<NodeView<V>>, line: LineView, n: nat)
        requires
            n <= children.len(),
            Self::all_well_formed(children),
            Self::all_apart(children),
        ensures
            ({
                let left = Self::kept(children, line, n as int);
                let right = Self::moved(children, line, n as int);
                &&& Self::all_well_formed(left)
                &&& Self::all_well_formed(right)
                &&& Self::all_apart(left)
                &&& Self::all_apart(right)
                &&& forall|k: int|
                    0 <= k < left.len() ==> line.high_of((#[trigger] left[k]).extent())
                        <= line.position()
                &&& forall|k: int|
                    0 <= k < right.len() ==> line.low_of((#[trigger] right[k]).extent())
                        > line.position()
                &&& joined(Self::cover_of(left), Self::cover_of(right)) == bounding_rect(
                    Self::extents(children),
                    n,
                )
                &&& forall|j: int|
                    0 <= j < n && line.low_of((#[trigger] children[j]).extent()) <= line.position()
                        ==> left.len() > 0
                &&& forall|i: int|
                    0 <= i < n && (#[trigger] children[i]).side_of(line) is Across
                        ==> children[i].can_partition(line)
            }),
        decreases children, n, 1nat,
    {
        let left = Self::kept(children, line, n as int);
        let right = Self::moved(children, line, n as int);
        if n == 0 {
            assert(bounding_rect(Self::extents(left), 0) is None);
            assert(bounding_rect(Self::extents(right), 0) is None);
        } else {
            let child = children[n - 1];
            let left_before = Self::kept(children, line, n - 1);
            let right_before = Self::moved(children, line, n - 1);
            Self::lemma_parts_split_well(children, line, (n - 1) as nat);
            assert(Self::all_avoid(children, (n - 1) as nat, child.extent()));
            Self::lemma_parts_avoid(children, line, (n - 1) as nat, child.extent());
            child.lemma_side_of(line);
            child.lemma_extent_is_valid();
            let covered = bounding_rect(Self::extents(children), (n - 1) as nat);
            assert(bounding_rect(Self::extents(children), n) == joined(
                covered,
                Some(child.extent()),
            )) by {
                assert(Self::extents(children)[n - 1] == child.extent());
            }
            match child.side_of(line) {
                Side::Before => {
                    Self::lemma_cover_push(left_before, child);
                    lemma_joined_regroups(
                        Self::cover_of(left_before),
                        Some(child.extent()),
                        Self::cover_of(right_before),
                        None,
                    );
                },
                Side::Across => {
                    child.lemma_partition_splits_well(line);
                    let (part, rest) = child.partition(line);
                    lemma_joined_covers(part.extent(), extent_of(rest), child.extent());
                    Self::lemma_cover_push(left_before, part);
                    assert forall|k: int| 0 <= k < left_before.len() implies !(
                    #[trigger] left_before[k]).extent().meets(part.extent()) by {
                        lemma_inner_avoids(part.extent(), child.extent(), left_before[k].extent());
                    }
                    if let Some(other) = rest {
                        Self::lemma_cover_push(right_before, other);
                        assert forall|k: int| 0 <= k < right_before.len() implies !(
                        #[trigger] right_before[k]).extent().meets(other.extent()) by {
                            lemma_inner_avoids(
                                other.extent(),
                                child.extent(),
                                right_before[k].extent(),
                            );
                        }
                    }
                    lemma_joined_regroups(
                        Self::cover_of(left_before),
                        Some(part.extent()),
                        Self::cover_of(right_before),
                        extent_of(rest),
                    );
                },
                Side::After => {
                    Self::lemma_cover_push(right_before, child);
                    lemma_joined_regroups(
                        Self::cover_of(left_before),
                        None,
                        Self::cover_of(right_before),
                        Some(child.extent()),
                    );
                },
            }
        }
    }

    /// The one tree that stands for a list of well-formed subtrees that lie
    /// apart is well-formed, and its extent is their cover.
    pub proof fn lemma_gathered_is_well_formed(children: Seq<NodeView<V>>)
        requires
            Self::all_well_formed(children),
            Self::all_apart(children),
        ensures
            extent_of(Self::gathered(children)) == Self::cover_of(children),
            Self::gathered(children) matches Some(t) ==> t.well_formed(),
            Self::gathered(children) is Some <==> children.len() > 0,
    {
        if children.len() == 1 {
            assert(bounding_rect(Self::extents(children), 0) is None);
            assert(Self::extents(children)[0] == children[0].extent());
        } else if children.len() == 0 {
            assert(bounding_rect(Self::extents(children), 0) is None);
        } else {
            lemma_bounding_is_tight(Self::extents(children), children.len());
        }
    }

    /// A well-formed tree that begins at or before a line can be split along
    /// it, and the split leaves well-formed trees on their sides of the line
    /// whose extents together make up the extent of the tree.
    pub proof fn lemma_partition_splits_well(self, line: LineView)
        requires
            self.well_formed(),
            line.low_of(self.extent()) <= line.position(),
        ensures
            self.can_partition(line),
            splits_well(self.extent(), line, self.partition(line).0, self.partition(line).1),
        decreases self,
    {
        match self {
            NodeView::Leaf { .. } => {},
            NodeView::Node { coverage, children } => {
                let left = Self::kept(children, line, children.len() as int);
                let right = Self::moved(children, line, children.len() as int);
                self.lemma_coverage_is_tight();
                Self::lemma_parts_split_well(children, line, children.len());
                let rects = Self::extents(children);
                let i0 = choose|i: int|
                    0 <= i < children.len() && (#[trigger] rects[i]).lo.0 == coverage.lo.0;
                let i1 = choose|i: int|
                    0 <= i < children.len() && (#[trigger] rects[i]).lo.1 == coverage.lo.1;
                assert(line.low_of(children[i0].extent()) <= line.position() || line.low_of(
                    children[i1].extent(),
                ) <= line.position());
                assert(left.len() > 0);
                lemma_bounding_is_tight(Self::extents(left), left.len());
                let kept_cover = Self::cover_of(left).unwrap();
                let k0 = choose|i: int|
                    0 <= i < left.len()
                        && (#[trigger] Self::extents(left)[i]).hi.0 == kept_cover.hi.0;
                let k1 = choose|i: int|
                    0 <= i < left.len()
                        && (#[trigger] Self::extents(left)[i]).hi.1 == kept_cover.hi.1;
                assert(Self::extents(left)[k0] == left[k0].extent());
                assert(Self::extents(left)[k1] == left[k1].extent());
                Self::lemma_gathered_is_well_formed(right);
                if right.len() > 0 {
                    lemma_bounding_is_tight(Self::extents(right), right.len());
                    let moved_cover = Self::cover_of(right).unwrap();
                    let m0 = choose|i: int|
                        0 <= i < right.len()
                            && (#[trigger] Self::extents(right)[i]).lo.0 == moved_cover.lo.0;
                    let m1 = choose|i: int|
                        0 <= i < right.len()
                            && (#[trigger] Self::extents(right)[i]).lo.1 == moved_cover.lo.1;
                    assert(Self::extents(right)[m0] == right[m0].extent());
                    assert(Self::extents(right)[m1] == right[m1].extent());
                }
            },
        }
    }

    /// The root of a well-formed tree can be split where it has to be, and
    /// the split leaves well-formed trees that lie apart, with the pairs and
    /// the extent of the tree.
    pub proof fn lemma_split_keeps_well_formed(self, fill_factor: nat)
        requires
            self.well_formed(),
        ensures
            self.can_split(fill_factor),
            parts_well(self.extent(), self.split(fill_factor).0, self.split(fill_factor).1),
            self.split(fill_factor).0.pairs().union(pairs_in(self.split(fill_factor).1))
                == self.pairs(),
    {
        if self is Node && self->children.len() > fill_factor {
            let children = self->children;
            let line = self.split_line(fill_factor);
            self.lemma_coverage_is_tight();
            lemma_sweep_line_begins_a_tile(Self::extents(children), fill_factor as int);
            let j = choose|j: int|
                0 <= j < children.len() && line.low_of(#[trigger] Self::extents(children)[j])
                    == line.position();
            assert(Self::extents(children)[j] == children[j].extent());
            assert(children[j].extent().within(self->coverage));
            self.lemma_partition_splits_well(line);
            self.lemma_partition_keeps_pairs(line);
            if let Some(right) = self.partition(line).1 {
                lemma_sides_are_apart(line, self.partition(line).0.extent(), right.extent());
            }
        } else {
            assert(self.pairs().union(Set::empty()) =~= self.pairs());
        }
    }

    /// The two parts that a split of the root leaves store, together, what
    /// the tree stored.
    pub proof fn lemma_split_keeps_pairs(self, fill_factor: nat)
        ensures
            self.split(fill_factor).0.pairs().union(pairs_in(self.split(fill_factor).1))
                == self.pairs(),
    {
        if self is Node && self->children.len() > fill_factor {
            self.lemma_partition_keeps_pairs(self.split_line(fill_factor));
        } else {
            assert(self.pairs().union(Set::empty()) =~= self.pairs());
        }
    }

    /// Where nothing lies after the line, everything stays.
    pub proof fn lemma_all_kept(children: Seq<NodeView<V>>, line: LineView, n: nat)
        requires
            n <= children.len(),
            forall|j: int|
                0 <= j < n ==> line.low_of((#[trigger] children[j]).extent()) <= line.position(),
        ensures
            Self::kept(children, line, n as int).len() == n,
        decreases n,
    {
        if n > 0 {
            Self::lemma_all_kept(children, line, (n - 1) as nat);
            children[n - 1].lemma_side_of(line);
        }
    }

    /// A node with one subtree more than `fill_factor` keeps all of its
    /// subtrees, whole or in part, when it is split: the line then runs
    /// along the greatest low side, and no subtree lies after it.
    pub proof fn lemma_split_keeps_every_subtree(self, fill_factor: nat)
        requires
            self is Node,
            self->children.len() == fill_factor + 1,
        ensures
            self.split(fill_factor).0 is Node,
            self.split(fill_factor).0->children.len() == fill_factor + 1,
    {
        let children = self->children;
        let tiles = Self::extents(children);
        let line = sweep_line(tiles, fill_factor as int);
        let xs = Seq::new(tiles.len(), |i: int| tiles[i].lo.0);
        let ys = Seq::new(tiles.len(), |i: int| tiles[i].lo.1);
        assert forall|j: int| 0 <= j < children.len() implies line.low_of(
            (#[trigger] children[j]).extent(),
        ) <= line.position() by {
            assert(tiles[j] == children[j].extent());
            lemma_sort_keeps_members(xs, j);
            lemma_sort_keeps_members(ys, j);
            let kx = choose|k: int| 0 <= k < xs.len() && #[trigger] xs.sort()[k] == xs[j];
            let ky = choose|k: int| 0 <= k < ys.len() && #[trigger] ys.sort()[k] == ys[j];
            let leq = |x: int, y: int| x <= y;
            assert(kx < fill_factor ==> leq(xs.sort()[kx], xs.sort()[fill_factor as int]));
            assert(ky < fill_factor ==> leq(ys.sort()[ky], ys.sort()[fill_factor as int]));
        }
        Self::lemma_all_kept(children, line, children.len());
    }
}

} // verus!
