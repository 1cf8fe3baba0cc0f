//! What holds of inserting into a well-formed tree: the invariant is kept,
//! and the tree stores the new pair and what it stored for other points.
use vstd::prelude::*;
use crate::geometry::Rect;
use crate::geometry_laws::lemma_tight_after_split;
use crate::geometry_laws::lemma_tight_is_bounding;
use crate::node_view::NodeView;
use crate::split_laws::extent_of;
use crate::split_laws::lemma_inner_avoids;
use crate::split_laws::lemma_joined_covers;
use crate::split_laws::pairs_in;
use crate::split_laws::parts_well;

verus! {

/// The pairs of `pairs` for points other than `p`, and the pair `(p, v)`.
pub open spec fn with_pair<V>(pairs: Set<((int, int), V)>, p: (int, int), v: V) -> Set<
    ((int, int), V),
> {
    Set::new(|e: ((int, int), V)| e == (p, v) || (pairs.contains(e) && e.0 != p))
}

impl<V> NodeView<V> {
    /// The pairs stored in the first `n` subtrees but the one at `skip`.
    pub open spec fn pairs_except(children: Seq<NodeView<V>>, n: nat, skip: int) -> Set<
        ((int, int), V),
    >
        decreases n,
    {
        if n == 0 || n > children.len() {
            Set::empty()
        } else if n - 1 == skip {
            Self::pairs_except(children, (n - 1) as nat, skip)
        } else {
            Self::pairs_except(children, (n - 1) as nat, skip).union(children[n - 1].pairs())
        }
    }

    /// The first `n` subtrees store what all of them but one store, and what
    /// that one stores if it is among them. What the others store does not
    /// change when that one is replaced, and each of their pairs is stored in
    /// one of them.
    pub proof fn lemma_pairs_except(
        children: Seq<NodeView<V>>,
        n: nat,
        skip: int,
        other: NodeView<V>,
    )
        requires
            n <= children.len(),
            0 <= skip < children.len(),
        ensures
            Self::pairs_of(children, n) == Self::pairs_except(children, n, skip).union(
                if skip < n {
                    children[skip].pairs()
                } else {
                    Set::empty()
                },
            ),
            Self::pairs_except(children.update(skip, other), n, skip) == Self::pairs_except(
                children,
                n,
                skip,
            ),
            forall|e: ((int, int), V)| #[trigger]
                Self::pairs_except(children, n, skip).contains(e) ==> exists|j: int|
                    0 <= j < n && j != skip && (#[trigger] children[j]).pairs().contains(e),
        decreases n,
    {
        if n > 0 {
            Self::lemma_pairs_except(children, (n - 1) as nat, skip, other);
            assert forall|e: ((int, int), V)| #[trigger]
                Self::pairs_except(children, n, skip).contains(e) implies exists|j: int|
                0 <= j < n && j != skip && (#[trigger] children[j]).pairs().contains(e) by {
                if Self::pairs_except(children, (n - 1) as nat, skip).contains(e) {
                    let j = choose|j: int|
                        0 <= j < n - 1 && j != skip && (#[trigger] children[j]).pairs().contains(e);
                    assert(0 <= j < n && j != skip && children[j].pairs().contains(e));
                } else {
                    assert(children[n - 1].pairs().contains(e));
                }
            }
        }
        assert(Self::pairs_of(children, n) =~= Self::pairs_except(children, n, skip).union(
            if skip < n {
                children[skip].pairs()
            } else {
                Set::empty()
            },
        ));
        assert(Self::pairs_except(children.update(skip, other), n, skip) =~= Self::pairs_except(
            children,
            n,
            skip,
        ));
    }

    /// Inserting a pair into a well-formed tree can be done, and it leaves
    /// well-formed trees that lie apart, whose extents together are the
    /// extent of the tree grown to hold the point.
    pub proof fn lemma_insert_keeps_well_formed(self, p: (int, int), v: V, fill_factor: nat)
        requires
            self.well_formed(),
        ensures
            self.can_insert(p, v, fill_factor),
            parts_well(
                self.extent().union(Rect::at(p)),
                self.insert(p, v, fill_factor).0,
                self.insert(p, v, fill_factor).2,
            ),
        decreases self,
    {
        match self {
            NodeView::Leaf { point, .. } => {
                if point != p {
                    assert(point.0 != p.0 || point.1 != p.1);
                }
            },
            NodeView::Node { coverage, children } => {
                self.lemma_coverage_is_tight();
                Self::lemma_first_covering(children, p, 0);
                match Self::first_covering(children, p, 0) {
                    Some(i) => {
                        let child = children[i];
                        child.lemma_insert_keeps_well_formed(p, v, fill_factor);
                        let (changed, old, overflow) = child.insert(p, v, fill_factor);
                        assert(child.extent().contains(p));
                        assert(child.extent().union(Rect::at(p)) == child.extent());
                        assert(child.extent().within(coverage));
                        assert(coverage.union(Rect::at(p)) == coverage);
                        lemma_joined_covers(changed.extent(), extent_of(overflow), child.extent());
                        let kids = children.update(i, changed);
                        let updated = NodeView::Node { coverage: coverage, children: kids };
                        assert forall|a: int, b: int| 0 <= a < b < kids.len() implies !(
                        #[trigger] kids[a]).extent().meets((#[trigger] kids[b]).extent()) by {
                            if a == i {
                                lemma_inner_avoids(
                                    changed.extent(),
                                    child.extent(),
                                    children[b].extent(),
                                );
                            } else if b == i {
                                assert(!children[a].extent().meets(child.extent()));
                                lemma_inner_avoids(
                                    changed.extent(),
                                    child.extent(),
                                    children[a].extent(),
                                );
                            } else {
                                assert(!children[a].extent().meets(children[b].extent()));
                            }
                        }
                        match overflow {
                            None => {
                                assert(Self::extents(kids) =~= Self::extents(children));
                                assert(updated.well_formed());
                            },
                            Some(part) => {
                                let grown = updated.grown(coverage, part);
                                let all = kids.push(part);
                                assert forall|a: int, b: int| 0 <= a < b < all.len() implies !(
                                #[trigger] all[a]).extent().meets((#[trigger] all[b]).extent()) by {
                                    if b == kids.len() {
                                        if a != i {
                                            if a < i {
                                                assert(!children[a].extent().meets(
                                                    children[i].extent(),
                                                ));
                                            } else {
                                                assert(!children[i].extent().meets(
                                                    children[a].extent(),
                                                ));
                                            }
                                            lemma_inner_avoids(
                                                part.extent(),
                                                child.extent(),
                                                children[a].extent(),
                                            );
                                        }
                                    } else {
                                        assert(!kids[a].extent().meets(kids[b].extent()));
                                    }
                                }
                                assert(Self::extents(all) =~= Self::extents(children).update(
                                    i,
                                    changed.extent(),
                                ).push(part.extent()));
                                assert(Self::extents(children)[i] == child.extent());
                                lemma_tight_after_split(
                                    Self::extents(children),
                                    i,
                                    changed.extent(),
                                    part.extent(),
                                    coverage,
                                );
                                lemma_tight_is_bounding(Self::extents(all), all.len(), coverage);
                                assert(grown.well_formed());
                                grown.lemma_split_keeps_well_formed(fill_factor);
                            },
                        }
                    },
                    None => {
                        let leaf = NodeView::Leaf { point: p, data: v };
                        let grown = self.grown(coverage.union(Rect::at(p)), leaf);
                        let all = children.push(leaf);
                        Self::lemma_cover_push(children, leaf);
                        assert forall|a: int, b: int| 0 <= a < b < all.len() implies !(
                        #[trigger] all[a]).extent().meets((#[trigger] all[b]).extent()) by {
                            if b == children.len() {
                                assert(!children[a].covers(p));
                            } else {
                                assert(!children[a].extent().meets(children[b].extent()));
                            }
                        }
                        assert(Self::cover_of(all) == Some(coverage.union(Rect::at(p))));
                        assert forall|a: int| 0 <= a < all.len() implies (
                        #[trigger] all[a]).well_formed() by {
                            if a < children.len() {
                                assert(children[a].well_formed());
                            }
                        }
                        assert(grown.well_formed());
                        grown.lemma_split_keeps_well_formed(fill_factor);
                    },
                }
            },
        }
    }

    /// Inserting a pair into a well-formed tree hands back the value that
    /// was stored for the point, and leaves trees that store, together, the
    /// new pair and the pairs that the tree stored for other points.
    pub proof fn lemma_insert_pairs(self, p: (int, int), v: V, fill_factor: nat)
        requires
            self.well_formed(),
        ensures
            self.insert(p, v, fill_factor).1 == self.lookup(p),
            self.insert(p, v, fill_factor).0.pairs().union(
                pairs_in(self.insert(p, v, fill_factor).2),
            ) == with_pair(self.pairs(), p, v),
        decreases self,
    {
        let (after, old, overflow) = self.insert(p, v, fill_factor);
        match self {
            NodeView::Leaf { point, data } => {
                if point == p {
                    self.lemma_stores_one_value(p, data);
                } else {
                    assert(point.0 != p.0 || point.1 != p.1);
                }
                assert(after.pairs().union(pairs_in(overflow)) =~= with_pair(self.pairs(), p, v));
            },
            NodeView::Node { coverage, children } => {
                Self::lemma_first_covering(children, p, 0);
                match Self::first_covering(children, p, 0) {
                    Some(i) => {
                        let child = children[i];
                        child.lemma_insert_pairs(p, v, fill_factor);
                        let (changed, _, part) = child.insert(p, v, fill_factor);
                        let kids = children.update(i, changed);
                        let others = Self::pairs_except(children, children.len(), i);
                        Self::lemma_pairs_except(children, children.len(), i, changed);
                        Self::lemma_pairs_except(kids, kids.len(), i, changed);
                        assert(Self::pairs_of(kids, kids.len()) == others.union(changed.pairs()));
                        assert forall|e: ((int, int), V)| others.contains(e) implies e.0 != p by {
                            let j = choose|j: int|
                                0 <= j < children.len() && j != i && (
                                #[trigger] children[j]).pairs().contains(e);
                            if e.0 == p {
                                self.lemma_descent_enters(p, e.1, j);
                            }
                        }
                        assert(self.lookup(p) == child.lookup(p)) by {
                            if child.lookup(p) is Some {
                                let w = child.lookup(p).unwrap();
                                assert(child.pairs().contains((p, w)));
                                assert(self.pairs().contains((p, w)));
                                self.lemma_stores_one_value(p, w);
                            } else {
                                if self.lookup(p) is Some {
                                    let w = self.lookup(p).unwrap();
                                    assert(self.pairs().contains((p, w)));
                                    assert(!others.contains((p, w)));
                                    assert(child.pairs().contains((p, w)));
                                }
                            }
                        }
                        let updated = NodeView::Node { coverage: coverage, children: kids };
                        let combined = others.union(with_pair(child.pairs(), p, v));
                        assert(self.pairs() == others.union(child.pairs()));
                        match part {
                            None => {
                                assert(changed.pairs().union(Set::empty()) =~= changed.pairs());
                                assert(after == updated);
                                assert(after.pairs().union(pairs_in(overflow)) =~= combined);
                            },
                            Some(more) => {
                                let grown = updated.grown(coverage, more);
                                Self::lemma_pairs_of_push(kids, more);
                                grown.lemma_split_keeps_pairs(fill_factor);
                                assert(grown.pairs() =~= combined);
                                assert(after.pairs().union(pairs_in(overflow)) =~= combined);
                            },
                        }
                        assert(combined =~= with_pair(self.pairs(), p, v));
                    },
                    None => {
                        let leaf = NodeView::Leaf { point: p, data: v };
                        let grown = self.grown(coverage.union(Rect::at(p)), leaf);
                        Self::lemma_pairs_of_push(children, leaf);
                        grown.lemma_split_keeps_pairs(fill_factor);
                        assert forall|e: ((int, int), V)| self.pairs().contains(e) implies e.0
                            != p by {
                            if e.0 == p {
                                self.lemma_pairs_in_extent_of_child(p, e.1);
                            }
                        }
                        assert(after.pairs().union(pairs_in(overflow)) =~= with_pair(
                            self.pairs(),
                            p,
                            v,
                        ));
                    },
                }
            },
        }
    }

    /// A well-formed tree that stores the pairs of another for points other
    /// than `p`, and the pair `(p, v)`, has the map of the other with `v` put
    /// at `p`.
    pub proof fn lemma_entries_with_pair(self, before: NodeView<V>, p: (int, int), v: V)
        requires
            self.well_formed(),
            before.well_formed(),
            self.pairs() == with_pair(before.pairs(), p, v),
        ensures
            self.entries() == before.entries().insert(p, v),
    {
        assert forall|q: (int, int)|
            self.lookup(q) == (if q == p {
                Some(v)
            } else {
                before.lookup(q)
            }) by {
            if q == p {
                assert(self.pairs().contains((p, v)));
                self.lemma_stores_one_value(p, v);
            } else if before.lookup(q) is Some {
                let w = before.lookup(q).unwrap();
                assert(before.pairs().contains((q, w)));
                assert(self.pairs().contains((q, w)));
                self.lemma_stores_one_value(q, w);
            } else if self.lookup(q) is Some {
                let w = self.lookup(q).unwrap();
                assert(self.pairs().contains((q, w)));
                assert(before.pairs().contains((q, w)));
            }
        }
        assert(self.entries() =~= before.entries().insert(p, v));
    }

    /// Putting a value where a descent for a point ends, in a tree that
    /// covers the point, keeps the boxes of the tree, and so its invariant;
    /// the tree then stores the new value for the point, and what it stored
    /// for every other point.
    pub proof fn lemma_with_value(self, p: (int, int), v: V)
        requires
            self.well_formed(),
            self.covers(p),
            self.find(p) is Some,
        ensures
            self.with_value(p, v).well_formed(),
            self.with_value(p, v).extent() == self.extent(),
            self.with_value(p, v).pairs() == with_pair(self.pairs(), p, v),
            self.with_value(p, v).entries() == self.entries().insert(p, v),
        decreases self,
    {
        let after = self.with_value(p, v);
        match self {
            NodeView::Leaf { point, data } => {
                self.lemma_leaf_covers_its_point(p);
                assert(after.pairs() =~= with_pair(self.pairs(), p, v));
            },
            NodeView::Node { coverage, children } => {
                Self::lemma_first_covering(children, p, 0);
                let i = Self::first_covering(children, p, 0).unwrap();
                let child = children[i];
                child.lemma_with_value(p, v);
                let changed = child.with_value(p, v);
                let kids = children.update(i, changed);
                assert(Self::extents(kids) =~= Self::extents(children));
                let others = Self::pairs_except(children, children.len(), i);
                Self::lemma_pairs_except(children, children.len(), i, changed);
                Self::lemma_pairs_except(kids, kids.len(), i, changed);
                assert forall|e: ((int, int), V)| others.contains(e) implies e.0 != p by {
                    let j = choose|j: int|
                        0 <= j < children.len() && j != i && (#[trigger] children[j]).pairs().contains(
                            e,
                        );
                    if e.0 == p {
                        self.lemma_descent_enters(p, e.1, j);
                    }
                }
                assert(after.pairs() =~= with_pair(self.pairs(), p, v));
            },
        }
        after.lemma_entries_with_pair(self, p, v);
    }

    /// The leaves and the other nodes of a sequence of subtrees are counted
    /// alike when a subtree is replaced by one with as many of each.
    pub proof fn lemma_counts_of_update(
        children: Seq<NodeView<V>>,
        n: nat,
        i: int,
        other: NodeView<V>,
    )
        requires
            n <= children.len(),
            0 <= i < children.len(),
            other.leaves() == children[i].leaves(),
            other.branches() == children[i].branches(),
        ensures
            Self::leaves_of(children.update(i, other), n) == Self::leaves_of(children, n),
            Self::branches_of(children.update(i, other), n) == Self::branches_of(children, n),
        decreases n,
    {
        if n > 0 {
            Self::lemma_counts_of_update(children, (n - 1) as nat, i, other);
        }
    }

    /// Putting a value where a descent ends changes neither the number of
    /// leaves nor the number of other nodes.
    pub proof fn lemma_with_value_keeps_counts(self, p: (int, int), v: V)
        ensures
            self.with_value(p, v).leaves() == self.leaves(),
            self.with_value(p, v).branches() == self.branches(),
        decreases self,
    {
        match self {
            NodeView::Leaf { .. } => {},
            NodeView::Node { children, .. } => {
                Self::lemma_first_covering(children, p, 0);
                if let Some(i) = Self::first_covering(children, p, 0) {
                    children[i].lemma_with_value_keeps_counts(p, v);
                    Self::lemma_counts_of_update(
                        children,
                        children.len(),
                        i,
                        children[i].with_value(p, v),
                    );
                }
            },
        }
    }

    /// Inserting a value for a point that a well-formed tree stores puts the
    /// value where the descent for the point ends, and changes nothing else:
    /// nothing leaves the tree, and the tree has the leaves and the other
    /// nodes that it had.
    pub proof fn lemma_insert_replaces(self, p: (int, int), v: V, fill_factor: nat)
        requires
            self.well_formed(),
            self.lookup(p) is Some,
        ensures
            self.insert(p, v, fill_factor) == (self.with_value(p, v), self.lookup(p), None::<NodeView<V>>),
            self.insert(p, v, fill_factor).0.leaves() == self.leaves(),
            self.insert(p, v, fill_factor).0.branches() == self.branches(),
        decreases self,
    {
        let w = self.lookup(p).unwrap();
        assert(self.pairs().contains((p, w)));
        match self {
            NodeView::Leaf { point, .. } => {
                assert(point == p);
            },
            NodeView::Node { children, .. } => {
                Self::lemma_pairs_of_member(children, children.len(), (p, w));
                let i = choose|i: int|
                    0 <= i < children.len() && (#[trigger] children[i]).pairs().contains((p, w));
                self.lemma_descent_enters(p, w, i);
                children[i].lemma_stores_one_value(p, w);
                children[i].lemma_insert_replaces(p, v, fill_factor);
            },
        }
        self.lemma_with_value_keeps_counts(p, v);
    }

    /// Inserting a new point into a well-formed tree with no node above the
    /// fill factor leaves such a tree exactly when the leaf for the point
    /// does not come into a node that is full.
    pub proof fn lemma_insert_fill(self, p: (int, int), v: V, fill_factor: nat)
        requires
            self.well_formed(),
            self.within_fill(fill_factor),
            self is Node,
        ensures
            self.lands_in_full_node(p, fill_factor) ==> !self.insert(p, v, fill_factor).0.within_fill(
                fill_factor,
            ),
            !self.lands_in_full_node(p, fill_factor) ==> self.insert(p, v, fill_factor).0.within_fill(
                fill_factor,
            ) && self.insert(p, v, fill_factor).2 is None,
        decreases self,
    {
        let children = self->children;
        let coverage = self->coverage;
        Self::lemma_first_covering(children, p, 0);
        match Self::first_covering(children, p, 0) {
            Some(i) => {
                let child = children[i];
                let (changed, _, overflow) = child.insert(p, v, fill_factor);
                let kids = children.update(i, changed);
                let updated = NodeView::Node { coverage: coverage, children: kids };
                if child is Node {
                    child.lemma_insert_fill(p, v, fill_factor);
                } else {
                    child.lemma_leaf_covers_its_point(p);
                }
                if self.lands_in_full_node(p, fill_factor) {
                    assert(!kids[i].within_fill(fill_factor));
                    match overflow {
                        None => {},
                        Some(part) => {
                            let grown = updated.grown(coverage, part);
                            assert(grown->children[i] == changed);
                            if grown->children.len() > fill_factor {
                                grown.lemma_split_keeps_every_subtree(fill_factor);
                            }
                        },
                    }
                } else {
                    assert forall|j: int| 0 <= j < kids.len() implies (#[trigger] kids[j]).within_fill(
                        fill_factor,
                    ) by {
                        if j != i {
                            assert(children[j].within_fill(fill_factor));
                        }
                    }
                }
            },
            None => {
                let leaf = NodeView::Leaf { point: p, data: v };
                let grown = self.grown(coverage.union(Rect::at(p)), leaf);
                if self.lands_in_full_node(p, fill_factor) {
                    grown.lemma_split_keeps_every_subtree(fill_factor);
                } else {
                    assert forall|j: int|
                        0 <= j < grown->children.len() implies (#[trigger] grown->children[j]).within_fill(
                        fill_factor,
                    ) by {
                        if j < children.len() {
                            assert(children[j].within_fill(fill_factor));
                        }
                    }
                }
            },
        }
    }
}

} // verus!
