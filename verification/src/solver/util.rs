//! Shared solver utilities: discarding pool items that cannot contribute to a
//! query, and validating a candidate build against a query.

use vstd::prelude::*;

use crate::model::search::{result_level, result_satisfies, SearchPool, SearchQuery, SearchResult};
use crate::model::sigil::Sigil;
use crate::model::traits::{entries_contain, entries_level, Trait, TraitKind};
use crate::model::wrightstone::Wrightstone;

verus! {

/// The query asks (at some level, possibly zero) for this grant's kind.
pub open spec fn trait_desired(t: Trait, desired: Seq<(TraitKind, u32)>) -> bool {
    entries_contain(desired, t.kind)
}

/// The sigil grants at least one kind the query asks for.
pub open spec fn sigil_relevant(s: Sigil, desired: Seq<(TraitKind, u32)>) -> bool {
    trait_desired(s.trait1, desired) || match s.trait2 {
        Some(t) => trait_desired(t, desired),
        None => false,
    }
}

/// The wrightstone grants at least one kind the query asks for.
pub open spec fn stone_relevant(w: Wrightstone, desired: Seq<(TraitKind, u32)>) -> bool {
    trait_desired(w.trait1, desired) || match w.trait2 {
        Some(t) => trait_desired(t, desired),
        None => false,
    } || match w.trait3 {
        Some(t) => trait_desired(t, desired),
        None => false,
    }
}

/// Relevance of a sigil, as a predicate.
pub open spec fn sigil_pred(desired: Seq<(TraitKind, u32)>) -> spec_fn(Sigil) -> bool {
    |s: Sigil| sigil_relevant(s, desired)
}

/// Relevance of a wrightstone, as a predicate.
pub open spec fn stone_pred(desired: Seq<(TraitKind, u32)>) -> spec_fn(Wrightstone) -> bool {
    |w: Wrightstone| stone_relevant(w, desired)
}

/// The sigils of `pool` that grant some desired kind, in pool order.
pub open spec fn filtered_sigils(pool: SearchPool, desired: Seq<(TraitKind, u32)>) -> Seq<Sigil> {
    pool.sigils@.filter(sigil_pred(desired))
}

/// The wrightstones of `pool` that grant some desired kind, in pool order.
pub open spec fn filtered_stones(
    pool: SearchPool,
    desired: Seq<(TraitKind, u32)>,
) -> Seq<Wrightstone> {
    pool.wrightstones@.filter(stone_pred(desired))
}

/// Filtering a singleton keeps or drops its one element.
pub proof fn lemma_filter_singleton<A>(x: A, p: spec_fn(A) -> bool)
    ensures
        seq![x].filter(p) == if p(x) {
            seq![x]
        } else {
            Seq::<A>::empty()
        },
{
    reveal_with_fuel(Seq::filter, 2);
    assert(seq![x].drop_last() =~= Seq::<A>::empty());
    assert(seq![x].last() == x);
    if p(x) {
        assert(seq![x].filter(p) =~= seq![x]);
    } else {
        assert(seq![x].filter(p) =~= Seq::<A>::empty());
    }
}

/// How a filtered prefix grows by one step.
pub proof fn lemma_filter_take_succ<A>(s: Seq<A>, p: spec_fn(A) -> bool, i: int)
    requires
        0 <= i < s.len(),
    ensures
        s.take(i + 1).filter(p) == s.take(i).filter(p) + if p(s[i]) {
            seq![s[i]]
        } else {
            Seq::<A>::empty()
        },
{
    assert(s.take(i + 1) =~= s.take(i) + seq![s[i]]);
    Seq::filter_distributes_over_add(s.take(i), seq![s[i]], p);
    lemma_filter_singleton(s[i], p);
}

/// Whether the query asks for this grant's kind.
pub fn is_desired_trait(t: Trait, query: &SearchQuery) -> (desired: bool)
    ensures
        desired == trait_desired(t, query.desired_traits@),
{
    query.desired_traits.contains(t.kind)
}

/// Discards every sigil and wrightstone that grants no desired kind. The
/// query itself is never filtered.
pub fn filter_pool(pool: SearchPool, query: &SearchQuery) -> (filtered: SearchPool)
    ensures
        filtered.sigils@ == filtered_sigils(pool, query.desired_traits@),
        filtered.wrightstones@ == filtered_stones(pool, query.desired_traits@),
{
    let ghost desired = query.desired_traits@;
    let ghost keep_sigil = sigil_pred(desired);
    let ghost keep_stone = stone_pred(desired);
    let mut sigils: Vec<Sigil> = Vec::new();
    let n = pool.sigils.len();
    let mut i: usize = 0;
    while i < n
        invariant
            0 <= i <= n,
            n == pool.sigils.len(),
            sigils@ == pool.sigils@.take(i as int).filter(keep_sigil),
            desired == query.desired_traits@,
            keep_sigil == sigil_pred(desired),
        decreases n - i,
    {
        let s = pool.sigils[i];
        let keep = if is_desired_trait(s.trait1, query) {
            true
        } else {
            match s.trait2 {
                Some(t) => is_desired_trait(t, query),
                None => false,
            }
        };
        proof {
            lemma_filter_take_succ(pool.sigils@, keep_sigil, i as int);
            assert(keep == keep_sigil(s));
        }
        if keep {
            sigils.push(s);
            proof {
                assert(sigils@ =~= pool.sigils@.take(i + 1 as int).filter(keep_sigil));
            }
        } else {
            proof {
                assert(sigils@ =~= pool.sigils@.take(i + 1 as int).filter(keep_sigil));
            }
        }
        i += 1;
    }
    proof {
        assert(pool.sigils@.take(n as int) =~= pool.sigils@);
    }
    let mut wrightstones: Vec<Wrightstone> = Vec::new();
    let m = pool.wrightstones.len();
    let mut j: usize = 0;
    while j < m
        invariant
            0 <= j <= m,
            m == pool.wrightstones.len(),
            wrightstones@ == pool.wrightstones@.take(j as int).filter(keep_stone),
            desired == query.desired_traits@,
            keep_stone == stone_pred(desired),
        decreases m - j,
    {
        let w = pool.wrightstones[j];
        let keep = if is_desired_trait(w.trait1, query) {
            true
        } else {
            let second = match w.trait2 {
                Some(t) => is_desired_trait(t, query),
                None => false,
            };
            if second {
                true
            } else {
                match w.trait3 {
                    Some(t) => is_desired_trait(t, query),
                    None => false,
                }
            }
        };
        proof {
            lemma_filter_take_succ(pool.wrightstones@, keep_stone, j as int);
            assert(keep == keep_stone(w));
        }
        if keep {
            wrightstones.push(w);
            proof {
                assert(wrightstones@ =~= pool.wrightstones@.take(j + 1 as int).filter(keep_stone));
            }
        } else {
            proof {
                assert(wrightstones@ =~= pool.wrightstones@.take(j + 1 as int).filter(keep_stone));
            }
        }
        j += 1;
    }
    proof {
        assert(pool.wrightstones@.take(m as int) =~= pool.wrightstones@);
    }
    SearchPool { sigils, wrightstones }
}

/// Whether the given build fulfills every requirement of the query.
pub fn is_valid_result(result: &SearchResult, query: &SearchQuery) -> (valid: bool)
    requires
        query.desired_traits.wf(),
        forall|k: TraitKind| result_level(result@, k) <= u32::MAX,
    ensures
        valid == result_satisfies(result@, query.desired_traits@),
{
    let provided = result.traits();
    let valid = provided.is_superset_of(&query.desired_traits);
    proof {
        if valid {
            assert forall|k: TraitKind| entries_level(query.desired_traits@, k) <= result_level(
                result@,
                k,
            ) by {
                assert(entries_level(query.desired_traits@, k) <= entries_level(provided@, k));
                assert(provided.spec_level(k) == result_level(result@, k));
            }
        } else {
            let k = choose|k: TraitKind|
                !(entries_level(query.desired_traits@, k) <= entries_level(provided@, k));
            assert(provided.spec_level(k) == result_level(result@, k));
            assert(!(entries_level(query.desired_traits@, k) <= result_level(result@, k)));
        }
    }
    valid
}

} // verus!
