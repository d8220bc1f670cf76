//! Sums of an integer-valued measure over a sequence, together with the
//! update, insertion, removal and permutation lemmas that the ledger and the
//! transfer normalisation proofs rely on.

use vstd::prelude::*;

verus! {

/// The sum of `f` over all elements of `s`.
pub open spec fn seq_sum<T>(s: Seq<T>, f: spec_fn(T) -> int) -> int
    decreases s.len(),
{
    if s.len() == 0 {
        0
    } else {
        seq_sum(s.drop_last(), f) + f(s.last())
    }
}

/// Appending one element adds its measure to the sum.
pub proof fn lemma_seq_sum_push<T>(s: Seq<T>, f: spec_fn(T) -> int, x: T)
    ensures
        seq_sum(s.push(x), f) == seq_sum(s, f) + f(x),
{
    assert(s.push(x).drop_last() =~= s);
}

/// The sum distributes over concatenation.
pub proof fn lemma_seq_sum_append<T>(a: Seq<T>, b: Seq<T>, f: spec_fn(T) -> int)
    ensures
        seq_sum(a + b, f) == seq_sum(a, f) + seq_sum(b, f),
    decreases b.len(),
{
    if b.len() == 0 {
        assert(a + b =~= a);
    } else {
        assert((a + b).drop_last() =~= a + b.drop_last());
        assert((a + b).last() == b.last());
        lemma_seq_sum_append(a, b.drop_last(), f);
    }
}

/// Inserting one element adds its measure to the sum.
pub proof fn lemma_seq_sum_insert<T>(s: Seq<T>, f: spec_fn(T) -> int, i: int, x: T)
    requires
        0 <= i <= s.len(),
    ensures
        seq_sum(s.insert(i, x), f) == seq_sum(s, f) + f(x),
{
    assert(s.insert(i, x) =~= s.take(i) + seq![x] + s.skip(i));
    assert(s =~= s.take(i) + s.skip(i));
    lemma_seq_sum_append(s.take(i) + seq![x], s.skip(i), f);
    lemma_seq_sum_append(s.take(i), seq![x], f);
    lemma_seq_sum_append(s.take(i), s.skip(i), f);
    lemma_seq_sum_single(x, f);
}

/// The sum over a one-element sequence is that element's measure.
pub proof fn lemma_seq_sum_single<T>(x: T, f: spec_fn(T) -> int)
    ensures
        seq_sum(seq![x], f) == f(x),
{
    assert(seq![x].len() == 1);
    assert(seq![x].last() == x);
    assert(seq![x].drop_last() =~= Seq::<T>::empty());
    assert(seq_sum(Seq::<T>::empty(), f) == 0);
}

/// Removing one element subtracts its measure from the sum.
pub proof fn lemma_seq_sum_remove<T>(s: Seq<T>, f: spec_fn(T) -> int, i: int)
    requires
        0 <= i < s.len(),
    ensures
        seq_sum(s.remove(i), f) == seq_sum(s, f) - f(s[i]),
{
    assert(s.remove(i) =~= s.take(i) + s.skip(i + 1));
    assert(s =~= s.take(i) + seq![s[i]] + s.skip(i + 1));
    lemma_seq_sum_append(s.take(i), s.skip(i + 1), f);
    lemma_seq_sum_append(s.take(i) + seq![s[i]], s.skip(i + 1), f);
    lemma_seq_sum_append(s.take(i), seq![s[i]], f);
    lemma_seq_sum_single(s[i], f);
}

/// Replacing one element shifts the sum by the change of its measure.
pub proof fn lemma_seq_sum_update<T>(s: Seq<T>, f: spec_fn(T) -> int, i: int, x: T)
    requires
        0 <= i < s.len(),
    ensures
        seq_sum(s.update(i, x), f) == seq_sum(s, f) - f(s[i]) + f(x),
{
    assert(s.update(i, x) =~= s.remove(i).insert(i, x));
    lemma_seq_sum_remove(s, f, i);
    lemma_seq_sum_insert(s.remove(i), f, i, x);
}

/// Taking one element more extends the prefix sum by that element's measure.
pub proof fn lemma_seq_sum_take_succ<T>(s: Seq<T>, f: spec_fn(T) -> int, i: int)
    requires
        0 <= i < s.len(),
    ensures
        seq_sum(s.take(i + 1), f) == seq_sum(s.take(i), f) + f(s[i]),
{
    assert(s.take(i + 1).drop_last() =~= s.take(i));
    assert(s.take(i + 1).last() == s[i]);
}

/// A whole sequence sums to at least any prefix, for a non-negative measure.
pub proof fn lemma_seq_sum_take_bound<T>(s: Seq<T>, f: spec_fn(T) -> int, i: int)
    requires
        0 <= i <= s.len(),
        forall|x: T| #[trigger] f(x) >= 0,
    ensures
        seq_sum(s.take(i), f) <= seq_sum(s, f),
{
    assert(s =~= s.take(i) + s.skip(i));
    lemma_seq_sum_append(s.take(i), s.skip(i), f);
    lemma_seq_sum_nonneg(s.skip(i), f);
}

/// A non-negative measure sums to a non-negative value.
pub proof fn lemma_seq_sum_nonneg<T>(s: Seq<T>, f: spec_fn(T) -> int)
    requires
        forall|x: T| #[trigger] f(x) >= 0,
    ensures
        seq_sum(s, f) >= 0,
    decreases s.len(),
{
    if s.len() > 0 {
        lemma_seq_sum_nonneg(s.drop_last(), f);
    }
}

/// If the measure vanishes on every element, the sum is zero.
pub proof fn lemma_seq_sum_zero<T>(s: Seq<T>, f: spec_fn(T) -> int)
    requires
        forall|i: int| 0 <= i < s.len() ==> f(s[i]) == 0,
    ensures
        seq_sum(s, f) == 0,
    decreases s.len(),
{
    if s.len() > 0 {
        lemma_seq_sum_zero(s.drop_last(), f);
    }
}

/// If the measure vanishes everywhere but at one index, the sum is the
/// measure of that one element.
pub proof fn lemma_seq_sum_singleton<T>(s: Seq<T>, f: spec_fn(T) -> int, i: int)
    requires
        0 <= i < s.len(),
        forall|j: int| 0 <= j < s.len() && j != i ==> f(s[j]) == 0,
    ensures
        seq_sum(s, f) == f(s[i]),
{
    lemma_seq_sum_remove(s, f, i);
    lemma_seq_sum_zero(s.remove(i), f);
}

/// The sum does not depend on the order of the elements: two sequences with
/// the same multiset of elements have the same sum.
pub proof fn lemma_seq_sum_multiset<T>(s1: Seq<T>, s2: Seq<T>, f: spec_fn(T) -> int)
    requires
        s1.to_multiset() == s2.to_multiset(),
    ensures
        seq_sum(s1, f) == seq_sum(s2, f),
    decreases s1.len(),
{
    broadcast use vstd::seq_lib::group_to_multiset_ensures;

    if s1.len() == 0 {
        assert(s1.to_multiset().len() == s1.len());
        assert(s2.to_multiset().len() == s2.len());
    } else {
        let x = s1.last();
        let i1 = s1.len() - 1;
        assert(s1.contains(x));
        assert(s2.to_multiset().count(x) > 0);
        assert(s2.contains(x));
        let j = choose|j: int| 0 <= j < s2.len() && s2[j] == x;
        assert(s1.remove(i1).to_multiset() == s1.to_multiset().remove(x));
        assert(s2.remove(j).to_multiset() == s2.to_multiset().remove(x));
        assert(s1.remove(i1) =~= s1.drop_last());
        lemma_seq_sum_multiset(s1.drop_last(), s2.remove(j), f);
        lemma_seq_sum_remove(s2, f, j);
    }
}

/// Two sequences with the same multiset of elements contain the same
/// elements.
pub proof fn lemma_multiset_contains<T>(s1: Seq<T>, s2: Seq<T>, x: T)
    requires
        s1.to_multiset() == s2.to_multiset(),
    ensures
        s1.contains(x) <==> s2.contains(x),
{
    broadcast use vstd::seq_lib::group_to_multiset_ensures;

    assert(s1.contains(x) <==> s1.to_multiset().count(x) > 0);
    assert(s2.contains(x) <==> s2.to_multiset().count(x) > 0);
}

} // verus!
