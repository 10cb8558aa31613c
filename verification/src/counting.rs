//! Counting facts about filtered sequences, used to reason about how many
//! cache entries lie below or at a stamp.

use vstd::prelude::*;

verus! {

broadcast use vstd::seq_lib::group_seq_properties;

/// In a sequence without duplicates, the number of elements satisfying `p`
/// equals the size of the corresponding subset of its elements.
pub proof fn lemma_filter_set_len<A>(s: Seq<A>, p: spec_fn(A) -> bool)
    requires
        s.no_duplicates(),
    ensures
        s.to_set().filter(p).finite(),
        s.to_set().filter(p).len() == s.filter(p).len(),
    decreases s.len(),
{
    broadcast use vstd::set::group_set_axioms;
    if s.len() == 0 {
        reveal(Seq::filter);
        assert(s.to_set() =~= Set::<A>::empty());
        assert(s.to_set().filter(p) =~= Set::<A>::empty());
    } else {
        let s0 = s.drop_last();
        let x = s.last();
        assert(s0.push(x) =~= s);
        assert(s0.no_duplicates()) by {
            assert forall|i: int, j: int| 0 <= i < s0.len() && 0 <= j < s0.len() && i != j implies s0[i]
                != s0[j] by {
                assert(s0[i] == s[i] && s0[j] == s[j]);
            }
        }
        lemma_filter_set_len(s0, p);
        s0.lemma_filter_push(x, p);
        assert(s.to_set() =~= s0.to_set().insert(x));
        assert(!s0.to_set().contains(x)) by {
            if s0.to_set().contains(x) {
                let i = choose|i: int| 0 <= i < s0.len() && s0[i] == x;
                assert(s[i] == s[s.len() - 1]);
            }
        }
        if p(x) {
            assert(s.to_set().filter(p) =~= s0.to_set().filter(p).insert(x));
        } else {
            assert(s.to_set().filter(p) =~= s0.to_set().filter(p));
        }
    }
}

/// Counting the images of a sequence that satisfy `q` is counting the
/// elements whose image satisfies `q`.
pub proof fn lemma_filter_map_len<A, B>(s: Seq<A>, f: spec_fn(A) -> B, q: spec_fn(B) -> bool)
    ensures
        s.map_values(f).filter(q).len() == s.filter(|a: A| q(f(a))).len(),
    decreases s.len(),
{
    if s.len() == 0 {
        reveal(Seq::filter);
        assert(s.map_values(f) =~= Seq::<B>::empty());
    } else {
        let s0 = s.drop_last();
        let x = s.last();
        assert(s0.push(x) =~= s);
        assert(s0.map_values(f).push(f(x)) =~= s.map_values(f));
        lemma_filter_map_len(s0, f, q);
        s0.lemma_filter_push(x, |a: A| q(f(a)));
        s0.map_values(f).lemma_filter_push(f(x), q);
    }
}

/// Two sequences holding the same elements with the same multiplicities
/// have the same number of elements satisfying any predicate.
pub proof fn lemma_filter_len_permutation<A>(a: Seq<A>, b: Seq<A>, q: spec_fn(A) -> bool)
    requires
        a.to_multiset() == b.to_multiset(),
    ensures
        a.filter(q).len() == b.filter(q).len(),
    decreases a.len(),
{
    broadcast use vstd::multiset::group_multiset_axioms;
    broadcast use vstd::seq_lib::group_to_multiset_ensures;
    if a.len() == 0 {
        reveal(Seq::filter);
        assert(b.to_multiset().len() == 0);
        assert(b.len() == 0);
    } else {
        let a0 = a.drop_last();
        let x = a.last();
        assert(a0.push(x) =~= a);
        assert(a.to_multiset() == a0.to_multiset().insert(x));
        assert(b.to_multiset().count(x) > 0);
        assert(b.contains(x));
        let i = choose|i: int| 0 <= i < b.len() && b[i] == x;
        let b0 = b.remove(i);
        assert(b0.to_multiset() == b.to_multiset().remove(x));
        assert(a0.to_multiset() =~= b0.to_multiset());
        lemma_filter_len_permutation(a0, b0, q);
        a0.lemma_filter_push(x, q);
        let lo = b.subrange(0, i);
        let hi = b.subrange(i + 1, b.len() as int);
        assert(b =~= lo + seq![x] + hi);
        assert(b0 =~= lo + hi);
        Seq::filter_distributes_over_add(lo + seq![x], hi, q);
        Seq::filter_distributes_over_add(lo, seq![x], q);
        Seq::filter_distributes_over_add(lo, hi, q);
        assert(seq![x] =~= Seq::<A>::empty().push(x));
        Seq::<A>::empty().lemma_filter_push(x, q);
        reveal(Seq::filter);
        assert(Seq::<A>::empty().filter(q) =~= Seq::<A>::empty());
    }
}

/// A sequence whose elements all satisfy `q` keeps all of them.
pub proof fn lemma_filter_all_len<A>(s: Seq<A>, q: spec_fn(A) -> bool)
    requires
        forall|i: int| 0 <= i < s.len() ==> q(#[trigger] s[i]),
    ensures
        s.filter(q).len() == s.len(),
    decreases s.len(),
{
    if s.len() == 0 {
        reveal(Seq::filter);
    } else {
        let s0 = s.drop_last();
        assert(s0.push(s.last()) =~= s);
        lemma_filter_all_len(s0, q);
        s0.lemma_filter_push(s.last(), q);
    }
}

/// A sequence none of whose elements satisfies `q` keeps none of them.
pub proof fn lemma_filter_none_len<A>(s: Seq<A>, q: spec_fn(A) -> bool)
    requires
        forall|i: int| 0 <= i < s.len() ==> !q(#[trigger] s[i]),
    ensures
        s.filter(q).len() == 0,
    decreases s.len(),
{
    if s.len() == 0 {
        reveal(Seq::filter);
    } else {
        let s0 = s.drop_last();
        assert(s0.push(s.last()) =~= s);
        lemma_filter_none_len(s0, q);
        s0.lemma_filter_push(s.last(), q);
    }
}

} // verus!
