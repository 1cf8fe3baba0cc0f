//! What holds of the containment order and of bounding boxes.
use core::cmp::Ordering;
use vstd::prelude::*;
use crate::geometry::bounding_rect;
use crate::geometry::dominance;
use crate::geometry::rect_against_point;
use crate::geometry::reversed;
use crate::geometry::Rect;

verus! {

/// Two points are equal in the dominance order exactly when both of their
/// coordinates are equal, and they are unrelated exactly when one is lower
/// on one axis and higher on the other.
pub proof fn lemma_dominance_relates(p: (int, int), q: (int, int))
    ensures
        dominance(p, q) == Some(Ordering::Equal) <==> p.0 == q.0 && p.1 == q.1,
        dominance(p, q) is None <==> (p.0 < q.0 && p.1 > q.1) || (p.0 > q.0 && p.1 < q.1),
{
}

/// No two points are each strictly below the other: read from the other
/// side, the dominance order is reversed.
pub proof fn lemma_dominance_is_antisymmetric(p: (int, int), q: (int, int))
    ensures
        dominance(q, p) == reversed(dominance(p, q)),
        !(dominance(p, q) == Some(Ordering::Less) && dominance(q, p) == Some(Ordering::Less)),
{
}

/// A box stands at or above a point exactly when it holds the point, and it
/// equals the point exactly when it holds nothing else.
pub proof fn lemma_rect_against_point_is_containment(r: Rect, p: (int, int))
    ensures
        rect_against_point(r, p) != Ordering::Less <==> r.contains(p),
        rect_against_point(r, p) == Ordering::Equal <==> r == Rect::at(p),
{
}

/// The union of two boxes covers both, and it is the smallest box that does.
pub proof fn lemma_union_is_least(a: Rect, b: Rect, c: Rect)
    ensures
        a.within(a.union(b)),
        b.within(a.union(b)),
        a.within(c) && b.within(c) ==> a.union(b).within(c),
        a.valid() || b.valid() ==> a.union(b).valid(),
{
}

/// The first boxes of a sequence have the same bounding box when another box
/// is put behind the sequence.
pub proof fn lemma_bounding_prefix(rects: Seq<Rect>, x: Rect, n: nat)
    requires
        n <= rects.len(),
    ensures
        bounding_rect(rects.push(x), n) == bounding_rect(rects, n),
    decreases n,
{
    if n > 0 {
        lemma_bounding_prefix(rects, x, (n - 1) as nat);
    }
}

/// The bounding box of a sequence with one more box is the union of the
/// bounding box of the sequence and that box.
pub proof fn lemma_bounding_push(rects: Seq<Rect>, x: Rect)
    ensures
        bounding_rect(rects.push(x), rects.len() + 1) == Some(
            match bounding_rect(rects, rects.len()) {
                None => x,
                Some(b) => b.union(x),
            },
        ),
{
    lemma_bounding_prefix(rects, x, rects.len());
}

/// Whether `b` covers the first `n` boxes and touches one of them on each
/// of its four sides.
pub open spec fn is_tight_cover(rects: Seq<Rect>, n: nat, b: Rect) -> bool {
    &&& 0 < n <= rects.len()
    &&& forall|i: int| 0 <= i < n ==> (#[trigger] rects[i]).within(b)
    &&& exists|i: int| 0 <= i < n && (#[trigger] rects[i]).lo.0 == b.lo.0
    &&& exists|i: int| 0 <= i < n && (#[trigger] rects[i]).lo.1 == b.lo.1
    &&& exists|i: int| 0 <= i < n && (#[trigger] rects[i]).hi.0 == b.hi.0
    &&& exists|i: int| 0 <= i < n && (#[trigger] rects[i]).hi.1 == b.hi.1
}

/// The bounding box of one or more boxes covers each of them and touches
/// one of them on each of its four sides.
pub proof fn lemma_bounding_is_tight(rects: Seq<Rect>, n: nat)
    requires
        0 < n <= rects.len(),
    ensures
        bounding_rect(rects, n) is Some,
        is_tight_cover(rects, n, bounding_rect(rects, n).unwrap()),
    decreases n,
{
    let b = bounding_rect(rects, n).unwrap();
    let last = rects[n - 1];
    if n == 1 {
        assert(bounding_rect(rects, 0) is None);
        assert(b == last);
    } else {
        lemma_bounding_is_tight(rects, (n - 1) as nat);
        let a = bounding_rect(rects, (n - 1) as nat).unwrap();
        assert(b == a.union(last));
        let i0 = choose|i: int| 0 <= i < n - 1 && (#[trigger] rects[i]).lo.0 == a.lo.0;
        let i1 = choose|i: int| 0 <= i < n - 1 && (#[trigger] rects[i]).lo.1 == a.lo.1;
        let i2 = choose|i: int| 0 <= i < n - 1 && (#[trigger] rects[i]).hi.0 == a.hi.0;
        let i3 = choose|i: int| 0 <= i < n - 1 && (#[trigger] rects[i]).hi.1 == a.hi.1;
        assert(rects[i0].lo.0 == b.lo.0 || last.lo.0 == b.lo.0);
        assert(rects[i1].lo.1 == b.lo.1 || last.lo.1 == b.lo.1);
        assert(rects[i2].hi.0 == b.hi.0 || last.hi.0 == b.hi.0);
        assert(rects[i3].hi.1 == b.hi.1 || last.hi.1 == b.hi.1);
        assert forall|i: int| 0 <= i < n implies (#[trigger] rects[i]).within(b) by {
            if i < n - 1 {
                assert(rects[i].within(a));
            }
        }
    }
}

/// A box that covers the first `n` boxes and touches one of them on each of
/// its four sides is their bounding box.
pub proof fn lemma_tight_is_bounding(rects: Seq<Rect>, n: nat, b: Rect)
    requires
        is_tight_cover(rects, n, b),
    ensures
        bounding_rect(rects, n) == Some(b),
{
    lemma_bounding_is_tight(rects, n);
    let c = bounding_rect(rects, n).unwrap();
    let i0 = choose|i: int| 0 <= i < n && (#[trigger] rects[i]).lo.0 == b.lo.0;
    let i1 = choose|i: int| 0 <= i < n && (#[trigger] rects[i]).lo.1 == b.lo.1;
    let i2 = choose|i: int| 0 <= i < n && (#[trigger] rects[i]).hi.0 == b.hi.0;
    let i3 = choose|i: int| 0 <= i < n && (#[trigger] rects[i]).hi.1 == b.hi.1;
    let j0 = choose|i: int| 0 <= i < n && (#[trigger] rects[i]).lo.0 == c.lo.0;
    let j1 = choose|i: int| 0 <= i < n && (#[trigger] rects[i]).lo.1 == c.lo.1;
    let j2 = choose|i: int| 0 <= i < n && (#[trigger] rects[i]).hi.0 == c.hi.0;
    let j3 = choose|i: int| 0 <= i < n && (#[trigger] rects[i]).hi.1 == c.hi.1;
    assert(rects[i0].within(c) && rects[i1].within(c));
    assert(rects[i2].within(c) && rects[i3].within(c));
    assert(rects[j0].within(b) && rects[j1].within(b));
    assert(rects[j2].within(b) && rects[j3].within(b));
}

/// A tight cover of boxes stays one when a box is replaced by two boxes
/// whose union it is.
pub proof fn lemma_tight_after_split(rects: Seq<Rect>, i: int, a: Rect, b: Rect, cover: Rect)
    requires
        is_tight_cover(rects, rects.len(), cover),
        0 <= i < rects.len(),
        a.union(b) == rects[i],
    ensures
        is_tight_cover(rects.update(i, a).push(b), rects.len() + 1, cover),
{
    let n = rects.len();
    let after = rects.update(i, a).push(b);
    let i0 = choose|j: int| 0 <= j < n && (#[trigger] rects[j]).lo.0 == cover.lo.0;
    let i1 = choose|j: int| 0 <= j < n && (#[trigger] rects[j]).lo.1 == cover.lo.1;
    let i2 = choose|j: int| 0 <= j < n && (#[trigger] rects[j]).hi.0 == cover.hi.0;
    let i3 = choose|j: int| 0 <= j < n && (#[trigger] rects[j]).hi.1 == cover.hi.1;
    assert(rects[i].within(cover));
    assert(after[i] == a && after[n as int] == b);
    assert(after[i0].lo.0 == cover.lo.0 || after[i].lo.0 == cover.lo.0 || after[n as int].lo.0
        == cover.lo.0);
    assert(after[i1].lo.1 == cover.lo.1 || after[i].lo.1 == cover.lo.1 || after[n as int].lo.1
        == cover.lo.1);
    assert(after[i2].hi.0 == cover.hi.0 || after[i].hi.0 == cover.hi.0 || after[n as int].hi.0
        == cover.hi.0);
    assert(after[i3].hi.1 == cover.hi.1 || after[i].hi.1 == cover.hi.1 || after[n as int].hi.1
        == cover.hi.1);
    assert forall|j: int| 0 <= j < n + 1 implies (#[trigger] after[j]).within(cover) by {
        if j < n && j != i {
            assert(after[j] == rects[j]);
        }
    }
}

} // verus!
