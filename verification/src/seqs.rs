//! Sequence lemmas shared by the materializer and the compositor:
//! picking rows out of a sequence commutes with permutation.

use vstd::multiset::Multiset;
use vstd::prelude::*;

verus! {

/// Keeps, in order, what `f` makes of each element.
pub open spec fn pick_map<A, B>(s: Seq<A>, f: spec_fn(A) -> Option<B>) -> Seq<B>
    decreases s.len(),
{
    if s.len() == 0 {
        Seq::empty()
    } else {
        let rest = pick_map(s.drop_last(), f);
        match f(s.last()) {
            Some(b) => rest.push(b),
            None => rest,
        }
    }
}

pub proof fn lemma_pick_map_concat<A, B>(a: Seq<A>, b: Seq<A>, f: spec_fn(A) -> Option<B>)
    ensures
        pick_map(a + b, f) =~= pick_map(a, f) + pick_map(b, f),
    decreases b.len(),
{
    if b.len() == 0 {
        assert(a + b =~= a);
        assert(pick_map(b, f) =~= Seq::<B>::empty());
        assert(pick_map(a, f) + pick_map(b, f) =~= pick_map(a, f));
    } else {
        lemma_pick_map_concat(a, b.drop_last(), f);
        assert((a + b).drop_last() =~= a + b.drop_last());
        assert((a + b).last() == b.last());
        match f(b.last()) {
            Some(x) => {
                assert((pick_map(a, f) + pick_map(b.drop_last(), f)).push(x) =~= pick_map(a, f)
                    + pick_map(b.drop_last(), f).push(x));
            },
            None => {},
        }
    }
}

pub proof fn lemma_to_multiset_add<A>(a: Seq<A>, b: Seq<A>)
    ensures
        (a + b).to_multiset() =~= a.to_multiset().add(b.to_multiset()),
    decreases b.len(),
{
    broadcast use vstd::seq_lib::group_to_multiset_ensures;

    if b.len() == 0 {
        assert(a + b =~= a);
        assert forall|t: A| #![trigger b.to_multiset().count(t)] b.to_multiset().count(t)
            == 0 by {
            assert(!b.contains(t));
        }
        assert((a + b).to_multiset() =~= a.to_multiset().add(b.to_multiset()));
    } else {
        lemma_to_multiset_add(a, b.drop_last());
        assert(a + b =~= (a + b.drop_last()).push(b.last()));
        assert(b =~= b.drop_last().push(b.last()));
        assert((a + b.drop_last()).push(b.last()).to_multiset() =~= (a
            + b.drop_last()).to_multiset().insert(b.last()));
        assert(b.drop_last().push(b.last()).to_multiset() =~= b.drop_last().to_multiset().insert(
            b.last(),
        ));
        assert((a + b).to_multiset() =~= a.to_multiset().add(b.to_multiset()));
    }
}

/// Picking from a permutation picks a permutation: only the order of
/// what is kept can differ.
pub proof fn lemma_pick_map_permutation<A, B>(s1: Seq<A>, s2: Seq<A>, f: spec_fn(A) -> Option<B>)
    requires
        s1.to_multiset() == s2.to_multiset(),
    ensures
        pick_map(s1, f).to_multiset() == pick_map(s2, f).to_multiset(),
    decreases s1.len(),
{
    broadcast use vstd::seq_lib::group_to_multiset_ensures;

    s1.to_multiset_ensures();
    s2.to_multiset_ensures();
    if s1.len() == 0 {
        assert(s2.len() == 0);
    } else {
        let x = s1.last();
        let s1p = s1.drop_last();
        assert(s1 =~= s1p.push(x));
        assert(s1.to_multiset() =~= s1p.to_multiset().insert(x));
        assert(s1.contains(x));
        assert(s2.to_multiset().count(x) > 0);
        assert(s2.contains(x));
        let i = choose|i: int| 0 <= i < s2.len() && s2[i] == x;
        let s2p = s2.remove(i);
        s2.remove_ensures(i);
        assert(s2p.to_multiset() =~= s2.to_multiset().remove(x));
        assert(s1p.to_multiset() =~= s1.to_multiset().remove(x));
        assert(s1p.to_multiset() == s2p.to_multiset());
        lemma_pick_map_permutation(s1p, s2p, f);

        let hd = s2.take(i);
        let tl = s2.skip(i + 1);
        assert(s2 =~= hd + seq![x] + tl);
        assert(s2p =~= hd + tl);
        lemma_pick_map_concat(hd + seq![x], tl, f);
        lemma_pick_map_concat(hd, seq![x], f);
        lemma_pick_map_concat(hd, tl, f);
        assert(seq![x].drop_last() =~= Seq::<A>::empty());
        assert(seq![x].last() == x);
        assert(pick_map(Seq::<A>::empty(), f) =~= Seq::<B>::empty());
        match f(x) {
            Some(y) => {
                assert(Seq::<B>::empty().push(y) =~= seq![y]);
                assert(pick_map(seq![x], f) =~= seq![y]);
            },
            None => {
                assert(pick_map(seq![x], f) =~= Seq::<B>::empty());
            },
        }

        let la = pick_map(hd, f);
        let lb = pick_map(seq![x], f);
        let lc = pick_map(tl, f);
        assert(pick_map(s2, f) =~= la + lb + lc);
        assert(pick_map(s2p, f) =~= la + lc);
        lemma_to_multiset_add(la + lb, lc);
        lemma_to_multiset_add(la, lb);
        lemma_to_multiset_add(la, lc);
        assert(pick_map(s2, f).to_multiset() =~= la.to_multiset().add(lb.to_multiset()).add(
            lc.to_multiset(),
        ));
        assert(pick_map(s1p, f).to_multiset() =~= la.to_multiset().add(lc.to_multiset()));
        match f(x) {
            Some(y) => {
                assert(pick_map(s1, f) =~= pick_map(s1p, f).push(y));
                assert(pick_map(s1, f).to_multiset() =~= pick_map(s1p, f).to_multiset().insert(y));
                assert(lb =~= seq![y]);
                assert(seq![y] =~= Seq::<B>::empty().push(y));
                assert(seq![y].to_multiset() =~= Multiset::<B>::empty().insert(y));
                assert(pick_map(s1, f).to_multiset() =~= pick_map(s2, f).to_multiset());
            },
            None => {
                assert(pick_map(s1, f) =~= pick_map(s1p, f));
                assert forall|t: B| #![trigger lb.to_multiset().count(t)] lb.to_multiset().count(t)
                    == 0 by {
                    assert(!lb.contains(t));
                }
                assert(pick_map(s1, f).to_multiset() =~= pick_map(s2, f).to_multiset());
            },
        }
    }
}

} // verus!
