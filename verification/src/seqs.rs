//! Small general facts about sequences and their multisets.

use vstd::multiset::Multiset;
use vstd::prelude::*;
use vstd::seq_lib::lemma_multiset_commutative;

verus! {

broadcast use vstd::seq_lib::group_to_multiset_ensures;

/// The empty sequence converts to the empty multiset.
pub proof fn lemma_empty_to_multiset<A>()
    ensures
        Seq::<A>::empty().to_multiset() == Multiset::<A>::empty(),
{
    assert(Seq::<A>::empty().to_multiset() =~= Multiset::<A>::empty()) by {
        assert forall|a: A| Seq::<A>::empty().to_multiset().count(a) == 0 by {
            assert(!Seq::<A>::empty().contains(a));
        }
    }
}

/// A one-element sequence converts to the one-element multiset.
pub proof fn lemma_singleton_to_multiset<A>(x: A)
    ensures
        seq![x].to_multiset() == Multiset::empty().insert(x),
{
    assert(seq![x] =~= Seq::<A>::empty().push(x));
    lemma_empty_to_multiset::<A>();
    assert(seq![x].to_multiset() =~= Multiset::empty().insert(x));
}

/// Inserting into a sequence inserts into its multiset, wherever the new
/// element lands.
pub proof fn lemma_insert_to_multiset<A>(s: Seq<A>, pos: int, x: A)
    requires
        0 <= pos <= s.len(),
    ensures
        s.insert(pos, x).to_multiset() == s.to_multiset().insert(x),
{
    let front = s.take(pos);
    let back = s.skip(pos);
    assert(s.insert(pos, x) =~= front + (seq![x] + back));
    assert(s =~= front + back);
    lemma_multiset_commutative(front, seq![x] + back);
    lemma_multiset_commutative(seq![x], back);
    lemma_multiset_commutative(front, back);
    lemma_singleton_to_multiset(x);
    assert(s.insert(pos, x).to_multiset() =~= s.to_multiset().insert(x));
}

/// An element a sequence holds stays in it when another is appended.
pub proof fn lemma_push_contains<A>(s: Seq<A>, x: A, y: A)
    requires
        s.contains(y),
    ensures
        s.push(x).contains(y),
{
    let n = choose|n: int| 0 <= n < s.len() && s[n] == y;
    assert(s.push(x)[n] == y);
}

} // verus!
