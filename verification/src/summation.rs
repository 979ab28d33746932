//! Summing a weight function over a sequence, with the lemmas the rest of the
//! crate needs: how a sum changes under push, update and remove, how it splits,
//! and that it is invariant under permutation.

use vstd::prelude::*;

verus! {

broadcast use vstd::seq_lib::group_seq_properties;

/// The sum of `f` over the elements of `s`.
pub open spec fn sum_by<A>(s: Seq<A>, f: spec_fn(A) -> int) -> int
    decreases s.len(),
{
    if s.len() == 0 {
        0
    } else {
        f(s[0]) + sum_by(s.skip(1), f)
    }
}

pub proof fn lemma_sum_by_push<A>(s: Seq<A>, f: spec_fn(A) -> int, x: A)
    ensures
        sum_by(s.push(x), f) == sum_by(s, f) + f(x),
    decreases s.len(),
{
    if s.len() == 0 {
        assert(s.push(x).skip(1) =~= Seq::<A>::empty());
    } else {
        assert(s.push(x).skip(1) =~= s.skip(1).push(x));
        lemma_sum_by_push(s.skip(1), f, x);
    }
}

pub proof fn lemma_sum_by_split<A>(s: Seq<A>, f: spec_fn(A) -> int, i: int)
    requires
        0 <= i <= s.len(),
    ensures
        sum_by(s, f) == sum_by(s.take(i), f) + sum_by(s.skip(i), f),
    decreases i,
{
    if i == 0 {
        assert(s.take(0) =~= Seq::<A>::empty());
        assert(s.skip(0) =~= s);
    } else {
        assert(s.take(i).skip(1) =~= s.skip(1).take(i - 1));
        assert(s.skip(i) =~= s.skip(1).skip(i - 1));
        assert(s.take(i)[0] == s[0]);
        lemma_sum_by_split(s.skip(1), f, i - 1);
    }
}

pub proof fn lemma_sum_by_take_succ<A>(s: Seq<A>, f: spec_fn(A) -> int, i: int)
    requires
        0 <= i < s.len(),
    ensures
        sum_by(s.take(i + 1), f) == sum_by(s.take(i), f) + f(s[i]),
{
    assert(s.take(i + 1) =~= s.take(i).push(s[i]));
    lemma_sum_by_push(s.take(i), f, s[i]);
}

pub proof fn lemma_sum_by_nonneg<A>(s: Seq<A>, f: spec_fn(A) -> int)
    requires
        forall|x: A| #[trigger] f(x) >= 0,
    ensures
        sum_by(s, f) >= 0,
    decreases s.len(),
{
    if s.len() > 0 {
        lemma_sum_by_nonneg(s.skip(1), f);
    }
}

/// A sum over weights that vanish everywhere is zero.
pub proof fn lemma_sum_by_zero<A>(s: Seq<A>, f: spec_fn(A) -> int)
    requires
        forall|i: int| 0 <= i < s.len() ==> f(#[trigger] s[i]) == 0,
    ensures
        sum_by(s, f) == 0,
    decreases s.len(),
{
    if s.len() > 0 {
        assert(forall|i: int| 0 <= i < s.skip(1).len() ==> s.skip(1)[i] == s[i + 1]);
        lemma_sum_by_zero(s.skip(1), f);
    }
}

/// A sum over weights that vanish everywhere but at `i` is the weight at `i`.
pub proof fn lemma_sum_by_single<A>(s: Seq<A>, f: spec_fn(A) -> int, i: int)
    requires
        0 <= i < s.len(),
        forall|j: int| 0 <= j < s.len() && j != i ==> f(#[trigger] s[j]) == 0,
    ensures
        sum_by(s, f) == f(s[i]),
    decreases s.len(),
{
    if i == 0 {
        assert(forall|j: int| 0 <= j < s.skip(1).len() ==> s.skip(1)[j] == s[j + 1]);
        lemma_sum_by_zero(s.skip(1), f);
    } else {
        assert(forall|j: int| 0 <= j < s.skip(1).len() ==> s.skip(1)[j] == s[j + 1]);
        lemma_sum_by_single(s.skip(1), f, i - 1);
    }
}

pub proof fn lemma_sum_by_update<A>(s: Seq<A>, f: spec_fn(A) -> int, i: int, x: A)
    requires
        0 <= i < s.len(),
    ensures
        sum_by(s.update(i, x), f) == sum_by(s, f) - f(s[i]) + f(x),
    decreases s.len(),
{
    if i == 0 {
        assert(s.update(0, x).skip(1) =~= s.skip(1));
        assert(s.update(0, x)[0] == x);
    } else {
        assert(s.update(i, x).skip(1) =~= s.skip(1).update(i - 1, x));
        assert(s.update(i, x)[0] == s[0]);
        lemma_sum_by_update(s.skip(1), f, i - 1, x);
    }
}

pub proof fn lemma_sum_by_remove<A>(s: Seq<A>, f: spec_fn(A) -> int, i: int)
    requires
        0 <= i < s.len(),
    ensures
        sum_by(s.remove(i), f) == sum_by(s, f) - f(s[i]),
    decreases s.len(),
{
    if i == 0 {
        assert(s.remove(0) =~= s.skip(1));
    } else {
        assert(s.remove(i).skip(1) =~= s.skip(1).remove(i - 1));
        assert(s.remove(i)[0] == s[0]);
        lemma_sum_by_remove(s.skip(1), f, i - 1);
    }
}

/// A sum of pointwise bounded weights is bounded by the bound times the length.
pub proof fn lemma_sum_by_upper<A>(s: Seq<A>, f: spec_fn(A) -> int, bound: int)
    requires
        forall|x: A| #[trigger] f(x) <= bound,
    ensures
        sum_by(s, f) <= bound * s.len(),
    decreases s.len(),
{
    if s.len() == 0 {
    } else {
        lemma_sum_by_upper(s.skip(1), f, bound);
        assert(bound * s.skip(1).len() + bound == bound * s.len()) by (nonlinear_arith)
            requires s.skip(1).len() == s.len() - 1 && s.len() >= 1;
    }
}

/// Pointwise dominated weights give a dominated sum.
pub proof fn lemma_sum_by_le_pointwise<A>(s: Seq<A>, f: spec_fn(A) -> int, g: spec_fn(A) -> int)
    requires
        forall|i: int| 0 <= i < s.len() ==> f(#[trigger] s[i]) <= g(s[i]),
    ensures
        sum_by(s, f) <= sum_by(s, g),
    decreases s.len(),
{
    if s.len() > 0 {
        assert(forall|i: int| 0 <= i < s.skip(1).len() ==> s.skip(1)[i] == s[i + 1]);
        lemma_sum_by_le_pointwise(s.skip(1), f, g);
    }
}

/// Pointwise equal weights give equal sums.
pub proof fn lemma_sum_by_eq_pointwise<A>(s: Seq<A>, f: spec_fn(A) -> int, g: spec_fn(A) -> int)
    requires
        forall|i: int| 0 <= i < s.len() ==> f(#[trigger] s[i]) == g(s[i]),
    ensures
        sum_by(s, f) == sum_by(s, g),
    decreases s.len(),
{
    if s.len() > 0 {
        assert(forall|i: int| 0 <= i < s.skip(1).len() ==> s.skip(1)[i] == s[i + 1]);
        lemma_sum_by_eq_pointwise(s.skip(1), f, g);
    }
}

/// Pointwise dominated weights, strictly dominated somewhere, give a strictly
/// smaller sum.
pub proof fn lemma_sum_by_lt_pointwise<A>(
    s: Seq<A>,
    f: spec_fn(A) -> int,
    g: spec_fn(A) -> int,
    at: int,
)
    requires
        forall|i: int| 0 <= i < s.len() ==> f(#[trigger] s[i]) <= g(s[i]),
        0 <= at < s.len(),
        f(s[at]) < g(s[at]),
    ensures
        sum_by(s, f) < sum_by(s, g),
    decreases s.len(),
{
    assert(forall|i: int| 0 <= i < s.skip(1).len() ==> s.skip(1)[i] == s[i + 1]);
    if at == 0 {
        lemma_sum_by_le_pointwise(s.skip(1), f, g);
    } else {
        lemma_sum_by_lt_pointwise(s.skip(1), f, g, at - 1);
    }
}

/// Two sequences holding the same elements with the same multiplicities have
/// the same sum, whatever their order.
pub proof fn lemma_sum_by_permutation<A>(a: Seq<A>, b: Seq<A>, f: spec_fn(A) -> int)
    requires
        a.to_multiset() == b.to_multiset(),
    ensures
        sum_by(a, f) == sum_by(b, f),
    decreases a.len(),
{
    broadcast use vstd::seq_lib::group_to_multiset_ensures;

    if a.len() == 0 {
        assert(b.to_multiset().len() == 0);
        assert(b.len() == 0);
    } else {
        let x = a[0];
        assert(a.contains(x));
        assert(a.to_multiset().count(x) > 0);
        assert(b.to_multiset().count(x) > 0);
        assert(b.contains(x));
        let j = b.index_of(x);
        assert(0 <= j < b.len() && b[j] == x);
        assert(a.remove(0).to_multiset() =~= a.to_multiset().remove(x));
        assert(b.remove(j).to_multiset() =~= b.to_multiset().remove(x));
        lemma_sum_by_remove(a, f, 0);
        lemma_sum_by_remove(b, f, j);
        lemma_sum_by_permutation(a.remove(0), b.remove(j), f);
    }
}

} // verus!
