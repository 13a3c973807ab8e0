//! Sequences that hold the same items, each equally often.

use vstd::prelude::*;
use vstd::seq_lib::{lemma_multiset_commutative, to_multiset_contains, to_multiset_remove};

verus! {

/// Where two sequences hold the same items, the last item of the first stands somewhere in
/// the second, and without it the two still hold the same items.
pub proof fn lemma_without_last<A>(s1: Seq<A>, s2: Seq<A>) -> (p: int)
    requires
        s1.to_multiset() == s2.to_multiset(),
        s1.len() > 0,
    ensures
        0 <= p < s2.len(),
        s2[p] == s1.last(),
        s1.drop_last().to_multiset() == s2.remove(p).to_multiset(),
{
    broadcast use vstd::multiset::group_multiset_axioms;

    let x = s1.last();
    to_multiset_contains(s1, x);
    to_multiset_contains(s2, x);
    assert(s1.contains(x));
    assert(s2.to_multiset().count(x) > 0);
    let p = choose|p: int| 0 <= p < s2.len() && s2[p] == x;
    to_multiset_remove(s1, s1.len() - 1);
    to_multiset_remove(s2, p);
    assert(s1.remove(s1.len() - 1) =~= s1.drop_last());
    p
}

/// Applying a function to every item keeps two sequences holding the same items.
pub proof fn lemma_map_values_same_items<A, B>(s1: Seq<A>, s2: Seq<A>, f: spec_fn(A) -> B)
    requires
        s1.to_multiset() == s2.to_multiset(),
    ensures
        s1.map_values(f).to_multiset() == s2.map_values(f).to_multiset(),
    decreases s1.len(),
{
    broadcast use vstd::multiset::group_multiset_axioms;

    s1.to_multiset_ensures();
    s2.to_multiset_ensures();
    if s1.len() == 0 {
        assert(s2.len() == 0);
        assert(s1.map_values(f) =~= s2.map_values(f));
    } else {
        let p = lemma_without_last(s1, s2);
        lemma_map_values_same_items(s1.drop_last(), s2.remove(p), f);
        let m1 = s1.map_values(f);
        let m2 = s2.map_values(f);
        assert(m1.drop_last() =~= s1.drop_last().map_values(f));
        assert(m2.remove(p) =~= s2.remove(p).map_values(f));
        assert(m1.remove(m1.len() - 1) =~= m1.drop_last());
        to_multiset_remove(m1, m1.len() - 1);
        to_multiset_remove(m2, p);
        to_multiset_contains(m1, m1.last());
        to_multiset_contains(m2, m2[p]);
        assert(m1.contains(m1.last()));
        assert(m2.contains(m2[p]));
        assert(m1.to_multiset() =~= m1.to_multiset().remove(m1.last()).insert(m1.last()));
        assert(m2.to_multiset() =~= m2.to_multiset().remove(m2[p]).insert(m2[p]));
    }
}

/// Keeping the items that pass a test keeps two sequences holding the same items.
pub proof fn lemma_filter_same_items<A>(s1: Seq<A>, s2: Seq<A>, pred: spec_fn(A) -> bool)
    requires
        s1.to_multiset() == s2.to_multiset(),
    ensures
        s1.filter(pred).to_multiset() == s2.filter(pred).to_multiset(),
    decreases s1.len(),
{
    broadcast use vstd::multiset::group_multiset_axioms;

    s1.to_multiset_ensures();
    s2.to_multiset_ensures();
    if s1.len() == 0 {
        assert(s2.len() == 0);
        assert(s1 =~= s2);
    } else {
        let p = lemma_without_last(s1, s2);
        let x = s1.last();
        lemma_filter_same_items(s1.drop_last(), s2.remove(p), pred);
        let front = s2.take(p);
        let back = s2.skip(p + 1);
        assert(s2 =~= front + seq![x] + back);
        assert(s2.remove(p) =~= front + back);
        assert(s1 =~= s1.drop_last() + seq![x]);
        Seq::filter_distributes_over_add(front + seq![x], back, pred);
        Seq::filter_distributes_over_add(front, seq![x], pred);
        Seq::filter_distributes_over_add(front, back, pred);
        Seq::filter_distributes_over_add(s1.drop_last(), seq![x], pred);
        let one = seq![x].filter(pred);
        lemma_multiset_commutative(front.filter(pred) + one, back.filter(pred));
        lemma_multiset_commutative(front.filter(pred), one);
        lemma_multiset_commutative(front.filter(pred), back.filter(pred));
        lemma_multiset_commutative(s1.drop_last().filter(pred), one);
        assert(s2.filter(pred).to_multiset() =~= s2.remove(p).filter(pred).to_multiset().add(
            one.to_multiset(),
        ));
    }
}

} // verus!
