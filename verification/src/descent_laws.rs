//! What holds of a descent into a well-formed tree: it finds what is stored,
//! and every point is stored once.
use vstd::prelude::*;
use crate::geometry::bounding_rect;
use crate::geometry_laws::is_tight_cover;
use crate::geometry_laws::lemma_bounding_is_tight;
use crate::geometry_laws::lemma_bounding_push;
use crate::node_view::NodeView;
use crate::node_view::value_at;

verus! {

impl<V> NodeView<V> {
    /// The extents of a sequence with one more subtree are those of the
    /// sequence and the extent of that subtree.
    pub proof fn lemma_extents_push(children: Seq<NodeView<V>>, child: NodeView<V>)
        ensures
            Self::extents(children.push(child)) == Self::extents(children).push(child.extent()),
    {
        assert(Self::extents(children.push(child)) =~= Self::extents(children).push(
            child.extent(),
        ));
    }

    /// The cover of a sequence with one more subtree is the union of the
    /// cover of the sequence and the extent of that subtree.
    pub proof fn lemma_cover_push(children: Seq<NodeView<V>>, child: NodeView<V>)
        ensures
            Self::cover_of(children.push(child)) == Some(
                match Self::cover_of(children) {
                    None => child.extent(),
                    Some(b) => b.union(child.extent()),
                },
            ),
    {
        Self::lemma_extents_push(children, child);
        lemma_bounding_push(Self::extents(children), child.extent());
    }

    /// The coverage of a well-formed node covers each of its subtrees and
    /// touches one of them on each of its four sides.
    pub proof fn lemma_coverage_is_tight(self)
        requires
            self.well_formed(),
            self is Node,
        ensures
            self->children.len() > 0,
            is_tight_cover(Self::extents(self->children), self->children.len(), self->coverage),
            forall|i: int|
                0 <= i < self->children.len() ==> (#[trigger] self->children[i]).extent().within(
                    self->coverage,
                ),
    {
        let children = self->children;
        assert(children.len() > 0) by {
            if children.len() == 0 {
                assert(bounding_rect(Self::extents(children), 0) is None);
            }
        }
        lemma_bounding_is_tight(Self::extents(children), children.len());
        assert forall|i: int| 0 <= i < children.len() implies (#[trigger] children[i]).extent().within(
            self->coverage,
        ) by {
            assert(Self::extents(children)[i] == children[i].extent());
        }
    }

    /// The extent of a well-formed tree has its low corner below its high
    /// corner.
    pub proof fn lemma_extent_is_valid(self)
        requires
            self.well_formed(),
        ensures
            self.extent().valid(),
        decreases self,
    {
        match self {
            NodeView::Leaf { .. } => {},
            NodeView::Node { coverage, children } => {
                self.lemma_coverage_is_tight();
                let rects = Self::extents(children);
                let i0 = choose|i: int|
                    0 <= i < children.len() && (#[trigger] rects[i]).lo.0 == coverage.lo.0;
                let i1 = choose|i: int|
                    0 <= i < children.len() && (#[trigger] rects[i]).lo.1 == coverage.lo.1;
                children[i0].lemma_extent_is_valid();
                children[i1].lemma_extent_is_valid();
                assert(rects[i0].within(coverage));
                assert(rects[i1].within(coverage));
            },
        }
    }

    /// A pair is stored in the first `n` subtrees exactly when it is stored
    /// in one of them.
    pub proof fn lemma_pairs_of_member(children: Seq<NodeView<V>>, n: nat, e: ((int, int), V))
        requires
            n <= children.len(),
        ensures
            Self::pairs_of(children, n).contains(e) <==> exists|i: int|
                0 <= i < n && (#[trigger] children[i]).pairs().contains(e),
        decreases n,
    {
        if n > 0 {
            Self::lemma_pairs_of_member(children, (n - 1) as nat, e);
            if Self::pairs_of(children, n).contains(e) {
                if children[n - 1].pairs().contains(e) {
                } else {
                    let i = choose|i: int|
                        0 <= i < n - 1 && (#[trigger] children[i]).pairs().contains(e);
                    assert(0 <= i < n && children[i].pairs().contains(e));
                }
            }
        }
    }

    /// Every point stored in a well-formed tree lies in its extent.
    pub proof fn lemma_pairs_in_extent(self, p: (int, int), v: V)
        requires
            self.well_formed(),
            self.pairs().contains((p, v)),
        ensures
            self.extent().contains(p),
        decreases self,
    {
        match self {
            NodeView::Leaf { .. } => {},
            NodeView::Node { coverage, children } => {
                Self::lemma_pairs_of_member(children, children.len(), (p, v));
                let i = choose|i: int|
                    0 <= i < children.len() && (#[trigger] children[i]).pairs().contains((p, v));
                children[i].lemma_pairs_in_extent(p, v);
                self.lemma_coverage_is_tight();
            },
        }
    }

    /// A leaf covers its own point and no other.
    pub proof fn lemma_leaf_covers_its_point(self, p: (int, int))
        requires
            self is Leaf,
        ensures
            self.covers(p) <==> self->point == p,
    {
        let at = self->point;
        if self.covers(p) {
            assert(at.0 == p.0 && at.1 == p.1);
        }
    }

    /// The first subtree that covers `p` is the first: none before it covers
    /// `p`; and where there is none, no subtree covers `p`.
    pub proof fn lemma_first_covering(children: Seq<NodeView<V>>, p: (int, int), from: int)
        requires
            0 <= from,
        ensures
            match Self::first_covering(children, p, from) {
                Some(i) => {
                    &&& from <= i < children.len()
                    &&& children[i].covers(p)
                    &&& forall|j: int| from <= j < i ==> !(#[trigger] children[j]).covers(p)
                },
                None => forall|j: int|
                    from <= j < children.len() ==> !(#[trigger] children[j]).covers(p),
            },
        decreases children.len() - from,
    {
        if from < children.len() && !children[from].covers(p) {
            Self::lemma_first_covering(children, p, from + 1);
        }
    }

    /// In a well-formed node, the only subtree that covers a stored point is
    /// the one that stores it.
    pub proof fn lemma_descent_enters(self, p: (int, int), v: V, i: int)
        requires
            self.well_formed(),
            self is Node,
            0 <= i < self->children.len(),
            self->children[i].pairs().contains((p, v)),
        ensures
            Self::first_covering(self->children, p, 0) == Some(i),
    {
        let children = self->children;
        children[i].lemma_pairs_in_extent(p, v);
        Self::lemma_first_covering(children, p, 0);
        let j = Self::first_covering(children, p, 0).unwrap();
        if j != i {
            assert(children[j].extent().contains(p));
            assert(children[j].extent().meets(children[i].extent()));
        }
    }

    /// A descent for a point that is stored in a well-formed node ends at its
    /// value.
    pub proof fn lemma_descent_finds(self, p: (int, int), v: V)
        requires
            self.well_formed(),
            self is Node,
            self.pairs().contains((p, v)),
        ensures
            self.find(p) == Some(v),
        decreases self,
    {
        let children = self->children;
        Self::lemma_pairs_of_member(children, children.len(), (p, v));
        let i = choose|i: int|
            0 <= i < children.len() && (#[trigger] children[i]).pairs().contains((p, v));
        self.lemma_descent_enters(p, v, i);
        if children[i] is Node {
            children[i].lemma_descent_finds(p, v);
        }
    }

    /// A descent in a well-formed node ends only at the value of the point
    /// that it was made for.
    pub proof fn lemma_found_is_stored(self, p: (int, int))
        requires
            self.well_formed(),
            self is Node,
            self.find(p) is Some,
        ensures
            self.pairs().contains((p, self.find(p).unwrap())),
        decreases self,
    {
        let children = self->children;
        Self::lemma_first_covering(children, p, 0);
        let i = Self::first_covering(children, p, 0).unwrap();
        let v = self.find(p).unwrap();
        if children[i] is Node {
            children[i].lemma_found_is_stored(p);
        } else {
            children[i].lemma_leaf_covers_its_point(p);
            assert(children[i].find(p) == Some(children[i]->data));
            assert(children[i].pairs() == set![(children[i]->point, children[i]->data)]);
        }
        assert(self.find(p) == children[i].find(p));
        assert(children[i].pairs().contains((p, v)));
        Self::lemma_pairs_of_member(children, children.len(), (p, v));
    }

    /// In a well-formed node a descent for a point ends at the value that is
    /// stored for it, and fails when the point is not stored.
    pub proof fn lemma_find_is_lookup(self, p: (int, int))
        requires
            self.well_formed(),
            self is Node,
        ensures
            self.find(p) == self.lookup(p),
    {
        if exists|v: V| self.pairs().contains((p, v)) {
            let v = choose|v: V| self.pairs().contains((p, v));
            self.lemma_descent_finds(p, v);
        } else {
            if self.find(p) is Some {
                self.lemma_found_is_stored(p);
            }
        }
    }

    /// A well-formed tree stores at most one value for a point.
    pub proof fn lemma_stores_one_value(self, p: (int, int), v: V)
        requires
            self.well_formed(),
            self.pairs().contains((p, v)),
        ensures
            self.lookup(p) == Some(v),
    {
        let w = choose|w: V| self.pairs().contains((p, w));
        if self is Node {
            self.lemma_descent_finds(p, v);
            self.lemma_descent_finds(p, w);
        }
    }

    /// A point that is stored in a well-formed node is covered by one of its
    /// subtrees.
    pub proof fn lemma_pairs_in_extent_of_child(self, p: (int, int), v: V)
        requires
            self.well_formed(),
            self is Node,
            self.pairs().contains((p, v)),
        ensures
            exists|j: int| 0 <= j < self->children.len() && (#[trigger] self->children[j]).covers(p),
    {
        let children = self->children;
        Self::lemma_pairs_of_member(children, children.len(), (p, v));
        let j = choose|j: int|
            0 <= j < children.len() && (#[trigger] children[j]).pairs().contains((p, v));
        children[j].lemma_pairs_in_extent(p, v);
        assert(children[j].covers(p));
    }

    /// Whether all of the subtrees are well-formed.
    pub open spec fn all_well_formed(children: Seq<NodeView<V>>) -> bool {
        forall|i: int| 0 <= i < children.len() ==> (#[trigger] children[i]).well_formed()
    }

    /// A well-formed tree has no leaf for a point outside its extent.
    pub proof fn lemma_no_copy_outside(self, p: (int, int))
        requires
            self.well_formed(),
            !self.extent().contains(p),
        ensures
            self.copies(p) == 0,
        decreases self,
    {
        match self {
            NodeView::Leaf { point, .. } => {},
            NodeView::Node { children, .. } => {
                self.lemma_coverage_is_tight();
                Self::lemma_no_copy_in(children, p, children.len(), children.len() as int);
            },
        }
    }

    /// The first `n` of well-formed subtrees have no leaf for a point that
    /// lies in the extent of none of them, the one at `but` left aside,
    /// other than the leaves of that one.
    pub proof fn lemma_no_copy_in(children: Seq<NodeView<V>>, p: (int, int), n: nat, but: int)
        requires
            n <= children.len(),
            Self::all_well_formed(children),
            forall|j: int|
                0 <= j < n && j != but ==> !(#[trigger] children[j]).extent().contains(p),
        ensures
            Self::copies_in(children, p, n) == if 0 <= but < n {
                children[but].copies(p)
            } else {
                0
            },
        decreases children, n,
    {
        if n > 0 {
            Self::lemma_no_copy_in(children, p, (n - 1) as nat, but);
            if n - 1 != but {
                children[n - 1].lemma_no_copy_outside(p);
            }
        }
    }

    /// Uniqueness: a well-formed tree has one leaf for every point that it
    /// stores, and none for any other point.
    pub proof fn lemma_points_are_stored_once(self, p: (int, int))
        requires
            self.well_formed(),
        ensures
            self.copies(p) == if self.lookup(p) is Some {
                1nat
            } else {
                0nat
            },
        decreases self,
    {
        match self {
            NodeView::Leaf { point, data } => {
                if point == p {
                    self.lemma_stores_one_value(p, data);
                } else {
                    assert(point.0 != p.0 || point.1 != p.1);
                }
            },
            NodeView::Node { children, .. } => {
                Self::lemma_first_covering(children, p, 0);
                match Self::first_covering(children, p, 0) {
                    Some(i) => {
                        let child = children[i];
                        assert forall|j: int| 0 <= j < children.len() && j != i implies !(
                        #[trigger] children[j]).extent().contains(p) by {
                            if children[j].extent().contains(p) {
                                if j < i {
                                    assert(children[j].covers(p));
                                } else {
                                    assert(children[i].extent().meets(children[j].extent()));
                                }
                            }
                        }
                        Self::lemma_no_copy_in(children, p, children.len(), i);
                        child.lemma_points_are_stored_once(p);
                        if child.lookup(p) is Some {
                            let w = child.lookup(p).unwrap();
                            assert(child.pairs().contains((p, w)));
                            Self::lemma_pairs_of_member(children, children.len(), (p, w));
                            self.lemma_stores_one_value(p, w);
                        } else if self.lookup(p) is Some {
                            let w = self.lookup(p).unwrap();
                            assert(self.pairs().contains((p, w)));
                            Self::lemma_pairs_of_member(children, children.len(), (p, w));
                            let j = choose|j: int|
                                0 <= j < children.len() && (#[trigger] children[j]).pairs().contains(
                                    (p, w),
                                );
                            self.lemma_descent_enters(p, w, j);
                        }
                    },
                    None => {
                        Self::lemma_no_copy_in(children, p, children.len(), children.len() as int);
                        if self.lookup(p) is Some {
                            let w = self.lookup(p).unwrap();
                            assert(self.pairs().contains((p, w)));
                            self.lemma_pairs_in_extent_of_child(p, w);
                        }
                    },
                }
            },
        }
    }

    /// The map of a well-formed tree has a point with a value exactly when
    /// the tree stores that pair.
    pub proof fn lemma_entries_are_pairs(self, p: (int, int), v: V)
        requires
            self.well_formed(),
        ensures
            value_at(self.entries(), p) == self.lookup(p),
            self.pairs().contains((p, v)) <==> self.lookup(p) == Some(v),
    {
        if self.pairs().contains((p, v)) {
            self.lemma_stores_one_value(p, v);
        }
    }

    /// A descent into a well-formed tree that covers the point ends at the
    /// value that the map of the tree has for the point, and fails where it
    /// has none. A tree that does not cover the point stores no value for it.
    pub proof fn lemma_find_is_value_at(self, p: (int, int))
        requires
            self.well_formed(),
        ensures
            self.covers(p) ==> self.find(p) == value_at(self.entries(), p),
            !self.covers(p) ==> value_at(self.entries(), p) is None,
    {
        match self {
            NodeView::Leaf { point, data } => {
                self.lemma_leaf_covers_its_point(p);
                if point == p {
                    self.lemma_stores_one_value(point, data);
                } else {
                    assert(point.0 != p.0 || point.1 != p.1);
                }
            },
            NodeView::Node { .. } => {
                self.lemma_find_is_lookup(p);
                if self.lookup(p) is Some {
                    let w = self.lookup(p).unwrap();
                    assert(self.pairs().contains((p, w)));
                    self.lemma_pairs_in_extent(p, w);
                }
            },
        }
    }
}

} // verus!
