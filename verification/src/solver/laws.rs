//! The laws the solvers obey as a whole: filtering safety, completeness of
//! the exhaustive strategy within its space and the converse shape of its
//! results, determinism of both strategies, the boundary behaviours at zero
//! slots and at empty requirements, and that every build the evolutionary
//! strategy can return also lies in the exhaustive space.

use vstd::prelude::*;

use crate::model::search::{result_level, result_satisfies, ResultView, SearchPool, SearchQuery};
use crate::model::sigil::{sigil_weight, Sigil};
use crate::model::traits::{entries_level, TraitKind};
use crate::model::wrightstone::{stone_opt_level, Wrightstone};
use crate::solver::enumeration::{
    bare_result, combinations, cross, enumerated, increasing, indices_into, is_selection,
    lemma_combinations_are_selections, lemma_cross_index, lemma_selections_are_combinations,
    num_chosen, select,
};
use crate::solver::genetic_solver::{
    distinct_indices, genetic_results, heuristic_member, GeneticSolver,
};
use crate::solver::naive_solver::{
    candidate_space, cross_member, exhaustive_results, lemma_cross_elems, satisfies_pred,
};
use crate::solver::util::{
    filtered_sigils, filtered_stones, sigil_pred, sigil_relevant, stone_pred, stone_relevant,
};
use crate::summation::lemma_sum_by_nonneg;

verus! {

broadcast use vstd::seq_lib::group_to_multiset_ensures, vstd::multiset::group_multiset_axioms;

/// A build's level for any kind is never negative.
pub proof fn lemma_result_level_nonneg(r: ResultView)
    ensures
        forall|k: TraitKind| #[trigger] result_level(r, k) >= 0,
{
    assert forall|k: TraitKind| #[trigger] result_level(r, k) >= 0 by {
        assert(forall|x: Sigil| #[trigger] sigil_weight(k)(x) >= 0);
        lemma_sum_by_nonneg(r.sigils, sigil_weight(k));
        assert(stone_opt_level(r.wrightstone, k) >= 0);
    }
}

/// What a filter keeps is a sub-multiset of what it was given.
proof fn lemma_filter_submultiset<A>(s: Seq<A>, p: spec_fn(A) -> bool)
    ensures
        s.filter(p).to_multiset().subset_of(s.to_multiset()),
    decreases s.len(),
{
    reveal_with_fuel(Seq::filter, 2);
    if s.len() == 0 {
        assert(s.filter(p) =~= Seq::<A>::empty());
    } else {
        lemma_filter_submultiset(s.drop_last(), p);
        let dl = s.drop_last();
        let x = s.last();
        assert(s =~= dl.push(x));
        assert(s.to_multiset() =~= dl.to_multiset().insert(x));
        if p(x) {
            assert(s.filter(p) == dl.filter(p).push(x));
            assert(s.filter(p).to_multiset() =~= dl.filter(p).to_multiset().insert(x));
            assert forall|y: A| s.filter(p).to_multiset().count(y)
                <= s.to_multiset().count(y) by {
                assert(dl.filter(p).to_multiset().count(y) <= dl.to_multiset().count(y));
            }
        } else {
            assert(s.filter(p) == dl.filter(p));
            assert forall|y: A| s.filter(p).to_multiset().count(y)
                <= s.to_multiset().count(y) by {
                assert(dl.filter(p).to_multiset().count(y) <= dl.to_multiset().count(y));
            }
        }
    }
}

/// A filter whose predicate holds everywhere keeps everything.
proof fn lemma_filter_all<A>(s: Seq<A>, p: spec_fn(A) -> bool)
    requires
        forall|i: int| 0 <= i < s.len() ==> p(#[trigger] s[i]),
    ensures
        s.filter(p) == s,
    decreases s.len(),
{
    reveal_with_fuel(Seq::filter, 2);
    if s.len() == 0 {
        assert(s.filter(p) =~= s);
    } else {
        let dl = s.drop_last();
        assert(forall|i: int| 0 <= i < dl.len() ==> dl[i] == s[i]);
        lemma_filter_all(dl, p);
        assert(p(s.last()));
        assert(s.filter(p) == dl.filter(p).push(s.last()));
        assert(dl.push(s.last()) =~= s);
    }
}

/// Filtering safety: what survives filtering is a sub-multiset of the pool,
/// every surviving item is relevant and drawn from the pool, and no relevant
/// item is discarded — so a discarded item grants no desired kind.
pub proof fn lemma_filtering_safety(pool: SearchPool, desired: Seq<(TraitKind, u32)>)
    ensures
        filtered_sigils(pool, desired).to_multiset().subset_of(pool.sigils@.to_multiset()),
        filtered_stones(pool, desired).to_multiset().subset_of(pool.wrightstones@.to_multiset()),
        forall|i: int| 0 <= i < pool.sigils@.len() && sigil_relevant(
            #[trigger] pool.sigils@[i],
            desired,
        ) ==> filtered_sigils(pool, desired).contains(pool.sigils@[i]),
        forall|i: int| 0 <= i < filtered_sigils(pool, desired).len() ==> sigil_relevant(
            #[trigger] filtered_sigils(pool, desired)[i],
            desired,
        ) && pool.sigils@.contains(filtered_sigils(pool, desired)[i]),
        forall|i: int| 0 <= i < pool.wrightstones@.len() && stone_relevant(
            #[trigger] pool.wrightstones@[i],
            desired,
        ) ==> filtered_stones(pool, desired).contains(pool.wrightstones@[i]),
        forall|i: int| 0 <= i < filtered_stones(pool, desired).len() ==> stone_relevant(
            #[trigger] filtered_stones(pool, desired)[i],
            desired,
        ) && pool.wrightstones@.contains(filtered_stones(pool, desired)[i]),
{
    lemma_filter_submultiset(pool.sigils@, sigil_pred(desired));
    lemma_filter_submultiset(pool.wrightstones@, stone_pred(desired));
    pool.sigils@.filter_lemma(sigil_pred(desired));
    pool.wrightstones@.filter_lemma(stone_pred(desired));
    assert forall|i: int| 0 <= i < filtered_sigils(pool, desired).len() implies sigil_relevant(
        #[trigger] filtered_sigils(pool, desired)[i],
        desired,
    ) && pool.sigils@.contains(filtered_sigils(pool, desired)[i]) by {
        let x = filtered_sigils(pool, desired)[i];
        assert(filtered_sigils(pool, desired).contains(x));
        assert(filtered_sigils(pool, desired).to_multiset().count(x) > 0);
        assert(pool.sigils@.to_multiset().count(x) > 0);
    }
    assert forall|i: int| 0 <= i < filtered_stones(pool, desired).len() implies stone_relevant(
        #[trigger] filtered_stones(pool, desired)[i],
        desired,
    ) && pool.wrightstones@.contains(filtered_stones(pool, desired)[i]) by {
        let x = filtered_stones(pool, desired)[i];
        assert(filtered_stones(pool, desired).contains(x));
        assert(filtered_stones(pool, desired).to_multiset().count(x) > 0);
        assert(pool.wrightstones@.to_multiset().count(x) > 0);
    }
}

/// Completeness of the exhaustive strategy: every selection of exactly the
/// budgeted number of filtered-sigil positions, paired with any filtered
/// wrightstone (or bare when none survives), appears among its results as
/// soon as it satisfies the query. No qualifying combination is omitted.
pub proof fn lemma_exhaustive_complete(
    pool: SearchPool,
    query: SearchQuery,
    ix: Seq<int>,
    stone: Option<Wrightstone>,
)
    requires
        increasing(ix),
        indices_into(ix, filtered_sigils(pool, query.desired_traits@).len() as int),
        ix.len() == num_chosen(filtered_sigils(pool, query.desired_traits@), query.sigil_slots),
        match stone {
            Some(w) => filtered_stones(pool, query.desired_traits@).contains(w),
            None => filtered_stones(pool, query.desired_traits@).len() == 0,
        },
        result_satisfies(
            ResultView {
                sigils: select(filtered_sigils(pool, query.desired_traits@), ix),
                wrightstone: stone,
            },
            query.desired_traits@,
        ),
    ensures
        exhaustive_results(pool, query).contains(
            ResultView {
                sigils: select(filtered_sigils(pool, query.desired_traits@), ix),
                wrightstone: stone,
            },
        ),
{
    let desired = query.desired_traits@;
    let fs = filtered_sigils(pool, desired);
    let fw = filtered_stones(pool, desired);
    let c = select(fs, ix);
    let candidate = ResultView { sigils: c, wrightstone: stone };
    let combos = combinations(fs, num_chosen(fs, query.sigil_slots));
    lemma_selections_are_combinations(fs, ix);
    assert(combos.contains(c));
    let a = choose|a: int| 0 <= a < combos.len() && combos[a] == c;
    let space = candidate_space(pool, query);
    match stone {
        Some(w) => {
            let m = fw.len() as int;
            let b = choose|b: int| 0 <= b < m && fw[b] == w;
            lemma_cross_index(combos, fw);
            assert(0 <= a * m + b < combos.len() * m) by (nonlinear_arith)
                requires
                    0 <= a < combos.len(),
                    0 <= b < m,
            ;
            assert(space[a * m + b] == candidate);
            assert(space.contains(candidate));
        },
        None => {
            assert(space == combos.map_values(|c2: Seq<Sigil>| bare_result(c2)));
            assert(space[a] == candidate);
            assert(space.contains(candidate));
        },
    }
    let t = choose|t: int| 0 <= t < space.len() && space[t] == candidate;
    assert(satisfies_pred(desired)(space[t]));
    space.lemma_filter_contains(satisfies_pred(desired), t);
}

/// The converse of completeness: every build the exhaustive strategy returns
/// picks exactly the budgeted number of pairwise distinct filtered-sigil
/// positions, in pool order, and carries a filtered wrightstone exactly when
/// one survives filtering.
pub proof fn lemma_exhaustive_results_are_selections(pool: SearchPool, query: SearchQuery)
    ensures
        forall|t: int| 0 <= t < exhaustive_results(pool, query).len() ==> {
            let r = #[trigger] exhaustive_results(pool, query)[t];
            is_selection(r.sigils, filtered_sigils(pool, query.desired_traits@)) && r.sigils.len()
                == num_chosen(filtered_sigils(pool, query.desired_traits@), query.sigil_slots)
                && (match r.wrightstone {
                Some(w) => filtered_stones(pool, query.desired_traits@).contains(w),
                None => filtered_stones(pool, query.desired_traits@).len() == 0,
            })
        },
{
    let desired = query.desired_traits@;
    let fs = filtered_sigils(pool, desired);
    let fw = filtered_stones(pool, desired);
    let k = num_chosen(fs, query.sigil_slots);
    let combos = combinations(fs, k);
    let space = candidate_space(pool, query);
    assert forall|t: int| 0 <= t < exhaustive_results(pool, query).len() implies {
        let r = #[trigger] exhaustive_results(pool, query)[t];
        is_selection(r.sigils, fs) && r.sigils.len() == k && (match r.wrightstone {
            Some(w) => fw.contains(w),
            None => fw.len() == 0,
        })
    } by {
        let r = exhaustive_results(pool, query)[t];
        assert(space.filter(satisfies_pred(desired)).contains(r));
        space.lemma_filter_contains_rev(satisfies_pred(desired), r);
        let w = choose|w: int| 0 <= w < space.len() && space[w] == r;
        if fw.len() > 0 {
            lemma_cross_elems(combos, fw);
            assert(cross_member(space[w], combos, fw));
            let (a, b) = choose|a: int, b: int|
                0 <= a < combos.len() && 0 <= b < fw.len() && space[w] == (ResultView {
                    sigils: #[trigger] combos[a],
                    wrightstone: Some(#[trigger] fw[b]),
                });
            assert(combos.contains(combos[a]));
            lemma_combinations_are_selections(fs, k, combos[a]);
            assert(fw.contains(fw[b]));
        } else {
            assert(space[w] == bare_result(combos[w]));
            assert(combos.contains(combos[w]));
            lemma_combinations_are_selections(fs, k, combos[w]);
        }
    }
}

/// Determinism of the exhaustive strategy: its result is a function of the
/// pool and the query alone, so two runs on identical inputs return the
/// identical sequence.
pub proof fn lemma_exhaustive_deterministic(
    pool: SearchPool,
    query: SearchQuery,
    first: Seq<ResultView>,
    second: Seq<ResultView>,
)
    requires
        first == exhaustive_results(pool, query),
        second == exhaustive_results(pool, query),
    ensures
        first == second,
{
}

/// Determinism of the evolutionary strategy: its result is a function of the
/// configuration — the injected seed included — the pool and the query alone,
/// so two runs with the identical seed and inputs return the identical
/// sequence.
pub proof fn lemma_heuristic_deterministic(
    config: GeneticSolver,
    pool: SearchPool,
    query: SearchQuery,
    first: Seq<ResultView>,
    second: Seq<ResultView>,
)
    requires
        first == genetic_results(config, pool, query),
        second == genetic_results(config, pool, query),
    ensures
        first == second,
{
}

/// Zero slots: every result carries no sigil at all, and when wrightstones
/// survive filtering the candidate space is exactly one bare-sigil candidate
/// per surviving wrightstone, kept iff that wrightstone alone satisfies the
/// query.
pub proof fn lemma_zero_slots(pool: SearchPool, query: SearchQuery)
    requires
        query.sigil_slots == 0,
    ensures
        forall|t: int| 0 <= t < exhaustive_results(pool, query).len()
            ==> (#[trigger] exhaustive_results(pool, query)[t]).sigils == Seq::<Sigil>::empty(),
        filtered_stones(pool, query.desired_traits@).len() > 0 ==> candidate_space(pool, query)
            == filtered_stones(pool, query.desired_traits@).map_values(
            |w: Wrightstone| ResultView { sigils: Seq::<Sigil>::empty(), wrightstone: Some(w) },
        ),
        filtered_stones(pool, query.desired_traits@).len() == 0 ==> candidate_space(pool, query)
            == seq![ResultView { sigils: Seq::<Sigil>::empty(), wrightstone: None }],
{
    let desired = query.desired_traits@;
    let fs = filtered_sigils(pool, desired);
    let fw = filtered_stones(pool, desired);
    let space = candidate_space(pool, query);
    assert(num_chosen(fs, 0) == 0);
    let combos = combinations(fs, 0);
    assert(combos == seq![Seq::<Sigil>::empty()]);
    if fw.len() > 0 {
        assert(combos.skip(1) =~= Seq::<Seq<Sigil>>::empty());
        assert(cross(combos.skip(1), fw) =~= Seq::<ResultView>::empty());
        assert(space =~= fw.map_values(
            |w: Wrightstone| ResultView { sigils: Seq::<Sigil>::empty(), wrightstone: Some(w) },
        )) by {
            assert(space == fw.map_values(
                |w: Wrightstone| ResultView { sigils: combos[0], wrightstone: Some(w) },
            ) + cross(combos.skip(1), fw));
            assert(combos[0] == Seq::<Sigil>::empty());
        }
    } else {
        assert(space =~= seq![ResultView { sigils: Seq::<Sigil>::empty(), wrightstone: None }]);
    }
    assert forall|t: int| 0 <= t < space.len() implies (#[trigger] space[t]).sigils
        == Seq::<Sigil>::empty() by {}
    assert forall|t: int| 0 <= t < exhaustive_results(pool, query).len() implies (
        #[trigger] exhaustive_results(pool, query)[t]).sigils == Seq::<Sigil>::empty() by {
        let r = exhaustive_results(pool, query)[t];
        assert(space.filter(satisfies_pred(desired)).contains(r));
        space.lemma_filter_contains_rev(satisfies_pred(desired), r);
        let w = choose|w: int| 0 <= w < space.len() && space[w] == r;
        assert(space[w].sigils == Seq::<Sigil>::empty());
    }
}

/// Selecting by two position lists with the same multiset yields the same
/// multiset of elements.
proof fn lemma_select_multiset(a: Seq<int>, b: Seq<int>, s: Seq<Sigil>)
    requires
        a.to_multiset() == b.to_multiset(),
        forall|t: int| 0 <= t < a.len() ==> 0 <= #[trigger] a[t] < s.len(),
        forall|t: int| 0 <= t < b.len() ==> 0 <= #[trigger] b[t] < s.len(),
    ensures
        select(s, a).to_multiset() == select(s, b).to_multiset(),
    decreases a.len(),
{
    if a.len() == 0 {
        assert(b.to_multiset().len() == 0);
        assert(b.len() == 0);
        assert(select(s, a) =~= select(s, b));
    } else {
        let x = a[0];
        assert(a.contains(x));
        assert(a.to_multiset().count(x) > 0);
        assert(b.to_multiset().count(x) > 0);
        assert(b.contains(x));
        let j = b.index_of(x);
        assert(0 <= j < b.len() && b[j] == x);
        assert(a.remove(0).to_multiset() =~= a.to_multiset().remove(x));
        assert(b.remove(j).to_multiset() =~= b.to_multiset().remove(x));
        assert forall|t: int| 0 <= t < a.remove(0).len() implies 0 <= #[trigger] a.remove(0)[t]
            < s.len() by {
            assert(a.remove(0)[t] == a[t + 1]);
        }
        assert forall|t: int| 0 <= t < b.remove(j).len() implies 0 <= #[trigger] b.remove(j)[t]
            < s.len() by {
            if t < j {
                assert(b.remove(j)[t] == b[t]);
            } else {
                assert(b.remove(j)[t] == b[t + 1]);
            }
        }
        lemma_select_multiset(a.remove(0), b.remove(j), s);
        assert(select(s, a).remove(0) =~= select(s, a.remove(0))) by {
            assert forall|t: int| 0 <= t < select(s, a).remove(0).len() implies select(s, a).remove(
                0,
            )[t] == select(s, a.remove(0))[t] by {
                assert(select(s, a).remove(0)[t] == select(s, a)[t + 1]);
                assert(a.remove(0)[t] == a[t + 1]);
            }
        }
        assert(select(s, b).remove(j) =~= select(s, b.remove(j))) by {
            assert forall|t: int| 0 <= t < select(s, b).remove(j).len() implies select(s, b).remove(
                j,
            )[t] == select(s, b.remove(j))[t] by {
                if t < j {
                    assert(select(s, b).remove(j)[t] == select(s, b)[t]);
                    assert(b.remove(j)[t] == b[t]);
                } else {
                    assert(select(s, b).remove(j)[t] == select(s, b)[t + 1]);
                    assert(b.remove(j)[t] == b[t + 1]);
                }
            }
        }
        assert(select(s, a).remove(0).to_multiset() =~= select(s, a).to_multiset().remove(
            select(s, a)[0],
        ));
        assert(select(s, b).remove(j).to_multiset() =~= select(s, b).to_multiset().remove(
            select(s, b)[j],
        ));
        assert(select(s, a)[0] == s[x]);
        assert(select(s, b)[j] == s[x]);
        assert(select(s, a).contains(select(s, a)[0]));
        assert(select(s, a).to_multiset().count(s[x]) > 0);
        assert(select(s, b).contains(select(s, b)[j]));
        assert(select(s, b).to_multiset().count(s[x]) > 0);
        assert(select(s, a).to_multiset() =~= select(s, b).to_multiset()) by {
            assert forall|y: Sigil| select(s, a).to_multiset().count(y) == select(
                s,
                b,
            ).to_multiset().count(y) by {
                assert(select(s, a).to_multiset().remove(s[x]).count(y) == select(
                    s,
                    b,
                ).to_multiset().remove(s[x]).count(y));
            }
        }
    }
}

/// Any pairwise distinct position list can be reordered increasingly, keeping
/// its multiset.
proof fn lemma_sort_positions(ix: Seq<int>, n: int) -> (sorted: Seq<int>)
    requires
        distinct_indices(ix),
        indices_into(ix, n),
    ensures
        increasing(sorted),
        indices_into(sorted, n),
        sorted.len() == ix.len(),
        sorted.to_multiset() == ix.to_multiset(),
{
    let leq = |x: int, y: int| x <= y;
    let sorted = ix.sort_by(leq);
    ix.lemma_sort_by_ensures(leq);
    assert(sorted.to_multiset() == ix.to_multiset());
    assert(ix.no_duplicates()) by {
        assert forall|a: int, b: int| 0 <= a < ix.len() && 0 <= b < ix.len() && a != b
            implies ix[a] != ix[b] by {
            if a < b {
            } else {
                assert(ix[b] != ix[a]);
            }
        }
    }
    ix.lemma_multiset_has_no_duplicates();
    assert forall|x: int| sorted.to_multiset().contains(x)
        implies sorted.to_multiset().count(x) == 1 by {
        assert(ix.to_multiset().count(x) == sorted.to_multiset().count(x));
    }
    sorted.lemma_multiset_has_no_duplicates_conv();
    assert(increasing(sorted)) by {
        assert forall|a: int, b: int| 0 <= a < b < sorted.len() implies sorted[a] < sorted[b] by {
            assert(leq(sorted[a], sorted[b]));
            assert(sorted[a] != sorted[b]);
        }
    }
    assert(indices_into(sorted, n)) by {
        assert forall|a: int| 0 <= a < sorted.len() implies 0 <= #[trigger] sorted[a] < n by {
            assert(sorted.contains(sorted[a]));
            assert(sorted.to_multiset().count(sorted[a]) > 0);
            assert(ix.to_multiset().count(sorted[a]) > 0);
            assert(ix.contains(sorted[a]));
            let w = choose|w: int| 0 <= w < ix.len() && ix[w] == sorted[a];
        }
    }
    assert(sorted.len() == sorted.to_multiset().len());
    assert(ix.len() == ix.to_multiset().len());
    sorted
}

/// The heuristic subset property: every valid build the evolutionary strategy
/// can return — the full slot budget of pairwise distinct filtered-sigil
/// positions plus a filtered wrightstone exactly when one survives — also
/// appears, up to the order of its sigils, among the exhaustive strategy's
/// results for the same pool and query.
pub proof fn lemma_heuristic_subset(pool: SearchPool, query: SearchQuery, r: ResultView)
    requires
        heuristic_member(r, pool, query),
        result_satisfies(r, query.desired_traits@),
    ensures
        exists|r2: ResultView|
            #[trigger] exhaustive_results(pool, query).contains(r2)
                && r2.sigils.to_multiset() == r.sigils.to_multiset()
                && r2.wrightstone == r.wrightstone,
{
    let desired = query.desired_traits@;
    let fs = filtered_sigils(pool, desired);
    let ix = choose|ix: Seq<int>|
        distinct_indices(ix) && indices_into(ix, fs.len() as int) && ix.len()
            == query.sigil_slots as int && r.sigils == select(fs, ix);
    let sorted = lemma_sort_positions(ix, fs.len() as int);
    let c2 = select(fs, sorted);
    let r2 = ResultView { sigils: c2, wrightstone: r.wrightstone };
    lemma_select_multiset(sorted, ix, fs);
    assert(r2.sigils.to_multiset() == r.sigils.to_multiset());
    assert forall|k: TraitKind| #[trigger] result_level(r2, k) == result_level(r, k) by {
        crate::summation::lemma_sum_by_permutation(r2.sigils, r.sigils, sigil_weight(k));
    }
    assert(result_satisfies(r2, desired));
    assert(sorted.len() == num_chosen(fs, query.sigil_slots)) by {
        if sorted.len() > 0 {
            crate::solver::enumeration::lemma_increasing_gap(sorted, sorted.len() as int - 1);
        }
    }
    lemma_exhaustive_complete(pool, query, sorted, r.wrightstone);
    assert(exhaustive_results(pool, query).contains(r2));
}

/// Empty requirements: a query that asks for level zero everywhere is
/// satisfied by every candidate, so the exhaustive strategy returns the whole
/// enumerated space, unfiltered.
pub proof fn lemma_empty_requirements(pool: SearchPool, query: SearchQuery)
    requires
        forall|k: TraitKind| entries_level(query.desired_traits@, k) == 0,
    ensures
        exhaustive_results(pool, query) == candidate_space(pool, query),
{
    let desired = query.desired_traits@;
    let space = candidate_space(pool, query);
    assert forall|t: int| 0 <= t < space.len() implies satisfies_pred(desired)(
        #[trigger] space[t],
    ) by {
        lemma_result_level_nonneg(space[t]);
    }
    lemma_filter_all(space, satisfies_pred(desired));
}

} // verus!
