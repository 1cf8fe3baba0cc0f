//! Sorting coordinates by the integers they stand for.
use vstd::prelude::*;
use vstd::relations::sorted_by;
use vstd::relations::total_ordering;
use vstd::seq_lib::lemma_sorted_unique;
use crate::coordinate::Coordinate;

verus! {

/// The integers that a sequence of coordinates stands for.
pub open spec fn values_of<C: Coordinate>(s: Seq<C>) -> Seq<int> {
    Seq::new(s.len(), |i: int| s[i].value())
}

/// The usual order of the integers is a total order.
pub proof fn lemma_int_order_is_total()
    ensures
        total_ordering(|x: int, y: int| x <= y),
{
    let leq = |x: int, y: int| x <= y;
    assert(vstd::relations::reflexive(leq));
    assert(vstd::relations::antisymmetric(leq));
    assert(vstd::relations::transitive(leq));
    assert(vstd::relations::strongly_connected(leq));
}

/// A sequence in ascending order that holds the same integers as `s`, each
/// as often as `s` does, is the sorted `s`.
pub proof fn lemma_sorted_is_sort(s: Seq<int>, sorted: Seq<int>)
    requires
        sorted_by(sorted, |x: int, y: int| x <= y),
        sorted.to_multiset() == s.to_multiset(),
    ensures
        sorted == s.sort(),
{
    s.lemma_sort_ensures();
    lemma_int_order_is_total();
    lemma_sorted_unique(sorted, s.sort(), |x: int, y: int| x <= y);
}

/// Every member of a sequence is also found in the sorted sequence, which
/// is in ascending order and as long.
pub proof fn lemma_sort_keeps_members(s: Seq<int>, i: int)
    requires
        0 <= i < s.len(),
    ensures
        s.sort().len() == s.len(),
        sorted_by(s.sort(), |x: int, y: int| x <= y),
        exists|j: int| 0 <= j < s.len() && #[trigger] s.sort()[j] == s[i],
{
    broadcast use vstd::seq_lib::group_to_multiset_ensures;

    s.lemma_sort_ensures();
    assert(s.to_multiset().count(s[i]) > 0);
    assert(s.sort().to_multiset().count(s[i]) > 0);
    assert(s.sort().contains(s[i]));
    assert(s.sort().to_multiset().len() == s.to_multiset().len());
}

/// Every member of the sorted sequence is a member of the sequence, which
/// is as long.
pub proof fn lemma_sorted_member(s: Seq<int>, k: int)
    requires
        0 <= k < s.len(),
    ensures
        s.sort().len() == s.len(),
        exists|j: int| 0 <= j < s.len() && #[trigger] s[j] == s.sort()[k],
{
    broadcast use vstd::seq_lib::group_to_multiset_ensures;

    s.lemma_sort_ensures();
    assert(s.sort().to_multiset().len() == s.to_multiset().len());
    let x = s.sort()[k];
    assert(s.sort().to_multiset().count(x) > 0);
    assert(s.to_multiset().count(x) > 0);
    assert(s.contains(x));
}

/// Returns the coordinates of `v` in ascending order.
pub fn sorted_coordinates<C: Coordinate>(v: &Vec<C>) -> (r: Vec<C>)
    ensures
        values_of(r@) == values_of(v@).sort(),
{
    broadcast use vstd::seq_lib::group_to_multiset_ensures;

    let ghost leq = |x: int, y: int| x <= y;
    let ghost all = values_of(v@);
    let mut out: Vec<C> = Vec::new();
    let mut k: usize = 0;
    proof {
        assert(all.take(0) =~= values_of(out@));
    }
    while k < v.len()
        invariant
            k <= v.len(),
            all == values_of(v@),
            leq == |x: int, y: int| x <= y,
            sorted_by(values_of(out@), leq),
            values_of(out@).to_multiset() == all.take(k as int).to_multiset(),
        decreases v.len() - k,
    {
        let x = v[k];
        let mut j: usize = 0;
        while j < out.len() && !x.less_than(out[j])
            invariant
                j <= out.len(),
                forall|i: int| 0 <= i < j ==> (#[trigger] out@[i]).value() <= x.value(),
            decreases out.len() - j,
        {
            j += 1;
        }
        let ghost before = values_of(out@);
        out.insert(j, x);
        proof {
            let after = values_of(out@);
            assert(after =~= before.insert(j as int, x.value()));
            assert forall|a: int, b: int| 0 <= a < b < after.len() implies #[trigger] leq(
                after[a],
                after[b],
            ) by {
                if b < j {
                    assert(leq(before[a], before[b]));
                } else if b == j {
                    assert(before[a] == out@[a].value());
                } else if a < j {
                    assert(before[a] == out@[a].value());
                    assert(leq(before[j as int], before[b - 1]) || b - 1 == j);
                } else if a == j {
                    assert(leq(before[j as int], before[b - 1]) || b - 1 == j);
                } else {
                    assert(leq(before[a - 1], before[b - 1]));
                }
            }
            assert(all.take(k + 1) =~= all.take(k as int).push(x.value()));
            vstd::seq_lib::to_multiset_insert(before, j as int, x.value());
            vstd::seq_lib::to_multiset_build(all.take(k as int), x.value());
        }
        k += 1;
    }
    proof {
        assert(all.take(k as int) =~= all);
        lemma_sorted_is_sort(all, values_of(out@));
    }
    out
}

} // verus!
