//! Facts about sequences that the proofs of the tree lean on.

use vstd::prelude::*;
use vstd::multiset::Multiset;

verus! {

/// The empty sequence has no element to count.
pub proof fn lemma_no_items<A>()
    ensures
        Seq::<A>::empty().to_multiset() == Multiset::<A>::empty(),
{
    Seq::<A>::empty().to_multiset_ensures();
    assert(Seq::<A>::empty().to_multiset() =~= Multiset::<A>::empty());
}

/// Filtering a sequence of one element keeps it or leaves nothing.
pub proof fn lemma_filter_one<A>(a: A, pred: spec_fn(A) -> bool)
    ensures
        seq![a].filter(pred) == if pred(a) {
            seq![a]
        } else {
            Seq::<A>::empty()
        },
{
    reveal_with_fuel(Seq::filter, 2);
    assert(seq![a].drop_last() =~= Seq::<A>::empty());
    assert(seq![a].last() == a);
    assert(Seq::<A>::empty().push(a) =~= seq![a]);
}

/// Filtering a sequence with one more element at its end.
pub proof fn lemma_filter_push<A>(s: Seq<A>, a: A, pred: spec_fn(A) -> bool)
    ensures
        s.push(a).filter(pred) == if pred(a) {
            s.filter(pred).push(a)
        } else {
            s.filter(pred)
        },
{
    reveal_with_fuel(Seq::filter, 2);
    assert(s.push(a).drop_last() =~= s);
    assert(s.push(a).last() == a);
}

/// A sequence of one or of two elements counts each of them once.
pub proof fn lemma_few_items<A>(a: A, b: A)
    ensures
        seq![a].to_multiset() == Multiset::<A>::empty().insert(a),
        seq![a, b].to_multiset() == Multiset::<A>::empty().insert(a).insert(b),
{
    lemma_no_items::<A>();
    vstd::seq_lib::to_multiset_build(Seq::<A>::empty(), a);
    vstd::seq_lib::to_multiset_build(Seq::<A>::empty().push(a), b);
    assert(seq![a] =~= Seq::<A>::empty().push(a));
    assert(seq![a, b] =~= Seq::<A>::empty().push(a).push(b));
}

/// Filtering keeps a sequence whose elements all pass.
pub proof fn lemma_filter_all<A>(s: Seq<A>, pred: spec_fn(A) -> bool)
    requires
        forall|i: int| 0 <= i < s.len() ==> pred(#[trigger] s[i]),
    ensures
        s.filter(pred) == s,
    decreases s.len(),
{
    reveal_with_fuel(Seq::filter, 2);
    if s.len() > 0 {
        assert forall|i: int| 0 <= i < s.drop_last().len() implies pred(#[trigger] s.drop_last()[i]) by {
            assert(s.drop_last()[i] == s[i]);
        }
        lemma_filter_all(s.drop_last(), pred);
        assert(s.drop_last().push(s.last()) =~= s);
    }
}

} // verus!
