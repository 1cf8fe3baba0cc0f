//! The laws of the index: what holds of it after any insertions.
use vstd::prelude::*;
use crate::geometry::bounding_rect;
use crate::node_view::NodeView;
use crate::node_view::entries_of_root;
use crate::node_view::last_value_for;
use crate::node_view::root_after_all;
use crate::node_view::root_after_insert;
use crate::node_view::root_branches;
use crate::node_view::root_find;
use crate::node_view::root_lands_in_full_node;
use crate::node_view::root_leaves;
use crate::node_view::root_within_fill;
use crate::node_view::value_at;

verus! {

/// Inserting a pair into a well-formed index leaves a well-formed index,
/// hands back the value that its map had for the point, and puts the new
/// value at the point in its map.
pub proof fn lemma_root_after_insert<V>(
    root: Option<NodeView<V>>,
    p: (int, int),
    v: V,
    fill_factor: nat,
)
    requires
        root matches Some(r) ==> r.well_formed(),
    ensures
        root matches Some(r) ==> r.can_insert(p, v, fill_factor),
        root_after_insert(root, p, v, fill_factor).0 matches Some(r) && r.well_formed(),
        root_after_insert(root, p, v, fill_factor).1 == value_at(entries_of_root(root), p),
        entries_of_root(root_after_insert(root, p, v, fill_factor).0) == entries_of_root(
            root,
        ).insert(p, v),
{
    let after = root_after_insert(root, p, v, fill_factor).0.unwrap();
    match root {
        None => {
            assert forall|q: (int, int)|
                after.lookup(q) == (if q == p {
                    Some(v)
                } else {
                    None
                }) by {
                if q == p {
                    after.lemma_stores_one_value(p, v);
                } else {
                    assert(q.0 != p.0 || q.1 != p.1);
                }
            }
            assert(after.entries() =~= Map::empty().insert(p, v));
        },
        Some(r) => {
            r.lemma_insert_keeps_well_formed(p, v, fill_factor);
            r.lemma_insert_pairs(p, v, fill_factor);
            r.lemma_entries_are_pairs(p, v);
            let (stays, old, overflow) = r.insert(p, v, fill_factor);
            match overflow {
                None => {
                    assert(stays.pairs().union(Set::empty()) =~= stays.pairs());
                },
                Some(part) => {
                    let children = seq![part, stays];
                    assert(bounding_rect(NodeView::extents(children), 0) is None);
                    assert(NodeView::extents(children)[0] == part.extent());
                    assert(NodeView::extents(children)[1] == stays.extent());
                    assert(bounding_rect(NodeView::extents(children), 1) == Some(part.extent()));
                    assert(!part.extent().meets(stays.extent()));
                    assert(after.pairs() =~= stays.pairs().union(part.pairs())) by {
                        assert(NodeView::pairs_of(children, 0) =~= Set::empty());
                        assert(NodeView::pairs_of(children, 1) =~= part.pairs());
                    }
                },
            }
            after.lemma_entries_with_pair(r, p, v);
        },
    }
}

/// Replacement: inserting a value for a point that a well-formed index
/// stores hands back the value that was stored, puts the new value in its
/// place and changes nothing else; the index has as many leaves and as many
/// other nodes as before.
pub proof fn lemma_root_after_replacement<V>(
    root: Option<NodeView<V>>,
    p: (int, int),
    v: V,
    fill_factor: nat,
)
    requires
        root matches Some(r) ==> r.well_formed(),
        entries_of_root(root).contains_key(p),
    ensures
        root is Some,
        root_after_insert(root, p, v, fill_factor) == (
            Some(root.unwrap().with_value(p, v)),
            Some(entries_of_root(root)[p]),
        ),
        root_leaves(root_after_insert(root, p, v, fill_factor).0) == root_leaves(root),
        root_branches(root_after_insert(root, p, v, fill_factor).0) == root_branches(root),
{
    let r = root.unwrap();
    r.lemma_insert_replaces(p, v, fill_factor);
}

/// Fill factor: inserting into a well-formed index in which no node has
/// more subtrees than the fill factor, which is 2 or more, leaves such an
/// index exactly when the new leaf does not come into a node that is full.
pub proof fn lemma_root_after_insert_fill<V>(
    root: Option<NodeView<V>>,
    p: (int, int),
    v: V,
    fill_factor: nat,
)
    requires
        root matches Some(r) ==> r.well_formed(),
        root_within_fill(root, fill_factor),
        fill_factor >= 2,
    ensures
        root_within_fill(root_after_insert(root, p, v, fill_factor).0, fill_factor)
            <==> !root_lands_in_full_node(root, p, fill_factor),
{
    match root {
        None => {},
        Some(r) => {
            let (stays, _, overflow) = r.insert(p, v, fill_factor);
            if r is Node {
                r.lemma_insert_fill(p, v, fill_factor);
            }
            if let Some(part) = overflow {
                let children = seq![part, stays];
                let above = root_after_insert(root, p, v, fill_factor).0.unwrap();
                assert(above->children == children);
                assert(children[1] == stays);
                assert(children[0] == part);
                if r is Leaf {
                    assert forall|j: int| 0 <= j < children.len() implies (#[trigger] children[j]).within_fill(
                        fill_factor,
                    ) by {
                        assert(children[j] is Leaf);
                    }
                } else {
                    assert(!above.within_fill(fill_factor));
                }
            }
        },
    }
}

/// A search of a well-formed index ends at the value that its map has for
/// the point, and fails where the map has none.
pub proof fn lemma_root_find<V>(root: Option<NodeView<V>>, p: (int, int))
    requires
        root matches Some(r) ==> r.well_formed(),
    ensures
        root_find(root, p) == value_at(entries_of_root(root), p),
{
    if let Some(r) = root {
        r.lemma_find_is_value_at(p);
    }
}

/// Round trip: after any pairs were inserted into the empty index one after
/// the other, the index is well-formed, and a search of it for a point ends
/// at the value of the last pair that was inserted for the point, and fails
/// for a point for which none was. Its map has the same values.
pub proof fn lemma_root_after_all<V>(
    pairs: Seq<((int, int), V)>,
    n: nat,
    fill_factor: nat,
    q: (int, int),
)
    requires
        n <= pairs.len(),
    ensures
        root_after_all(pairs, n, fill_factor) is Some <==> n > 0,
        root_after_all(pairs, n, fill_factor) matches Some(t) ==> t.well_formed(),
        root_find(root_after_all(pairs, n, fill_factor), q) == last_value_for(pairs, n, q),
        value_at(entries_of_root(root_after_all(pairs, n, fill_factor)), q) == last_value_for(
            pairs,
            n,
            q,
        ),
    decreases n,
{
    if n > 0 {
        let before = root_after_all(pairs, (n - 1) as nat, fill_factor);
        lemma_root_after_all(pairs, (n - 1) as nat, fill_factor, q);
        lemma_root_after_insert(before, pairs[n - 1].0, pairs[n - 1].1, fill_factor);
    }
    lemma_root_find(root_after_all(pairs, n, fill_factor), q);
}

} // verus!
