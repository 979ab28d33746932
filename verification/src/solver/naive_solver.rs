//! The exhaustive strategy: filter the pool, enumerate every combination of
//! the budgeted size, keep exactly the candidates that satisfy the query.

use vstd::prelude::*;

use crate::model::search::{
    result_level, result_satisfies, ResultView, SearchPool, SearchQuery, SearchResult,
};
use crate::model::sigil::{sigil_weight, Sigil};
use crate::model::traits::TraitKind;
use crate::model::wrightstone::Wrightstone;
use crate::solver::enumeration::{
    all_combinations, binomial, combinations, cross, enumerated, lemma_combinations_count,
    lemma_combinations_elem_len, lemma_cross_index, num_chosen, saturating_binomial,
};
use crate::solver::util::{
    filter_pool, filtered_sigils, filtered_stones, is_valid_result, lemma_filter_take_succ,
};
use crate::solver::Solver;
use crate::summation::{lemma_sum_by_nonneg, lemma_sum_by_upper};

verus! {

/// The views of a list of results.
pub open spec fn views_of(rs: Seq<SearchResult>) -> Seq<ResultView> {
    rs.map_values(|r: SearchResult| r@)
}

/// Satisfaction of the given requirements, as a predicate on one build.
pub open spec fn satisfies_pred(desired: Seq<(TraitKind, u32)>) -> spec_fn(ResultView) -> bool {
    |r: ResultView| result_satisfies(r, desired)
}

/// The candidate space the exhaustive strategy walks: the filtered pool,
/// enumerated at the budgeted combination size.
pub open spec fn candidate_space(pool: SearchPool, query: SearchQuery) -> Seq<ResultView> {
    enumerated(
        filtered_sigils(pool, query.desired_traits@),
        filtered_stones(pool, query.desired_traits@),
        query.sigil_slots,
    )
}

/// Exactly what the exhaustive strategy returns: the candidate space, in
/// enumeration order, restricted to the builds that satisfy the query.
pub open spec fn exhaustive_results(pool: SearchPool, query: SearchQuery) -> Seq<ResultView> {
    candidate_space(pool, query).filter(satisfies_pred(query.desired_traits@))
}

/// A build of at most 255 sigils reaches level at most 130815 for any kind:
/// small enough for `u32` arithmetic everywhere.
pub proof fn lemma_result_level_bound(r: ResultView)
    requires
        r.sigils.len() <= 255,
    ensures
        forall|k: TraitKind| 0 <= #[trigger] result_level(r, k) <= 130815,
{
    assert forall|k: TraitKind| 0 <= #[trigger] result_level(r, k) <= 130815 by {
        assert(forall|x: Sigil| #[trigger] sigil_weight(k)(x) >= 0);
        assert(forall|x: Sigil| #[trigger] sigil_weight(k)(x) <= 510);
        lemma_sum_by_nonneg(r.sigils, sigil_weight(k));
        lemma_sum_by_upper(r.sigils, sigil_weight(k), 510);
        assert(510 * r.sigils.len() <= 510 * 255) by (nonlinear_arith)
            requires r.sigils.len() <= 255,
        ;
    }
}

/// The build pairs one of the listed combinations with one of the listed
/// wrightstones.
pub open spec fn cross_member(
    r: ResultView,
    combos: Seq<Seq<Sigil>>,
    stones: Seq<Wrightstone>,
) -> bool {
    exists|a: int, b: int|
        0 <= a < combos.len() && 0 <= b < stones.len() && r == (ResultView {
            sigils: #[trigger] combos[a],
            wrightstone: Some(#[trigger] stones[b]),
        })
}

/// Every candidate in `cross` pairs some enumerated combination with some
/// wrightstone of the list.
pub proof fn lemma_cross_elems(combos: Seq<Seq<Sigil>>, stones: Seq<Wrightstone>)
    ensures
        cross(combos, stones).len() == combos.len() * stones.len(),
        forall|t: int| 0 <= t < cross(combos, stones).len() ==> cross_member(
            #[trigger] cross(combos, stones)[t],
            combos,
            stones,
        ),
    decreases combos.len(),
{
    let m = stones.len() as int;
    if combos.len() == 0 {
    } else {
        lemma_cross_elems(combos.skip(1), stones);
        let head = stones.map_values(
            |w: Wrightstone| ResultView { sigils: combos[0], wrightstone: Some(w) },
        );
        let rest = cross(combos.skip(1), stones);
        assert((combos.len() as int) * m == m + (combos.len() - 1) * m) by (nonlinear_arith);
        assert forall|t: int| 0 <= t < cross(combos, stones).len() implies cross_member(
            #[trigger] cross(combos, stones)[t],
            combos,
            stones,
        ) by {
            if t < m {
                assert(cross(combos, stones)[t] == head[t]);
                assert(cross(combos, stones)[t] == (ResultView {
                    sigils: combos[0],
                    wrightstone: Some(stones[t]),
                }));
            } else {
                assert(cross(combos, stones)[t] == rest[t - m]);
                assert(cross_member(rest[t - m], combos.skip(1), stones));
                let (a0, b0) = choose|a0: int, b0: int|
                    0 <= a0 < combos.skip(1).len() && 0 <= b0 < stones.len() && rest[t - m]
                        == (ResultView {
                        sigils: #[trigger] combos.skip(1)[a0],
                        wrightstone: Some(#[trigger] stones[b0]),
                    });
                assert(combos.skip(1)[a0] == combos[a0 + 1]);
                assert(cross(combos, stones)[t] == (ResultView {
                    sigils: combos[a0 + 1],
                    wrightstone: Some(stones[b0]),
                }));
            }
        }
    }
}

/// Every enumerated candidate uses exactly the budgeted number of sigils.
pub proof fn lemma_enumerated_sigil_len(sigils: Seq<Sigil>, stones: Seq<Wrightstone>, slots: u8)
    ensures
        forall|t: int| 0 <= t < enumerated(sigils, stones, slots).len()
            ==> (#[trigger] enumerated(sigils, stones, slots)[t]).sigils.len()
                == num_chosen(sigils, slots),
{
    let k = num_chosen(sigils, slots);
    let combos = combinations(sigils, k);
    lemma_combinations_elem_len(sigils, k);
    if stones.len() > 0 {
        lemma_cross_elems(combos, stones);
        assert forall|t: int| 0 <= t < enumerated(sigils, stones, slots).len() implies (
            #[trigger] enumerated(sigils, stones, slots)[t]).sigils.len() == k by {
            assert(cross_member(cross(combos, stones)[t], combos, stones));
            let (a, b) = choose|a: int, b: int|
                0 <= a < combos.len() && 0 <= b < stones.len() && cross(combos, stones)[t]
                    == (ResultView {
                    sigils: #[trigger] combos[a],
                    wrightstone: Some(#[trigger] stones[b]),
                });
            assert(combos[a].len() == k);
        }
    } else {
        assert forall|t: int| 0 <= t < enumerated(sigils, stones, slots).len() implies (
            #[trigger] enumerated(sigils, stones, slots)[t]).sigils.len() == k by {
            assert(enumerated(sigils, stones, slots)[t] == (ResultView {
                sigils: combos[t],
                wrightstone: None,
            }));
        }
    }
}

/// Validates the already filtered pool's whole candidate space against the
/// query and returns, in enumeration order, exactly the satisfying builds.
fn filtered_search(filtered: SearchPool, query: &SearchQuery) -> (results: Vec<SearchResult>)
    requires
        query.desired_traits.wf(),
    ensures
        views_of(results@) == enumerated(
            filtered.sigils@,
            filtered.wrightstones@,
            query.sigil_slots,
        ).filter(satisfies_pred(query.desired_traits@)),
        forall|i: int| 0 <= i < results@.len() ==> result_satisfies(
            (#[trigger] results@[i])@,
            query.desired_traits@,
        ),
{
    let ghost desired = query.desired_traits@;
    let ghost space = enumerated(filtered.sigils@, filtered.wrightstones@, query.sigil_slots);
    let ghost pred = satisfies_pred(desired);
    proof {
        lemma_enumerated_sigil_len(filtered.sigils@, filtered.wrightstones@, query.sigil_slots);
        assert(num_chosen(filtered.sigils@, query.sigil_slots) <= 255);
    }
    let candidates = all_combinations(filtered, query);
    let n = candidates.len();
    let mut results: Vec<SearchResult> = Vec::new();
    let mut i: usize = 0;
    while i < n
        invariant
            0 <= i <= n,
            n == candidates@.len(),
            candidates@.len() == space.len(),
            forall|t: int| 0 <= t < n ==> (#[trigger] candidates@[t])@ == space[t],
            forall|t: int| 0 <= t < n ==> (#[trigger] space[t]).sigils.len() <= 255,
            query.desired_traits.wf(),
            desired == query.desired_traits@,
            pred == satisfies_pred(desired),
            views_of(results@) == space.take(i as int).filter(pred),
        decreases n - i,
    {
        proof {
            lemma_result_level_bound(space[i as int]);
            assert(forall|k: TraitKind| result_level(candidates@[i as int]@, k) <= u32::MAX);
            lemma_filter_take_succ(space, pred, i as int);
        }
        let valid = is_valid_result(&candidates[i], query);
        if valid {
            let kept = SearchResult {
                sigils: crate::solver::enumeration::clone_sigils(&candidates[i].sigils),
                wrightstone: candidates[i].wrightstone,
            };
            results.push(kept);
            proof {
                assert(views_of(results@) =~= space.take(i + 1 as int).filter(pred));
            }
        } else {
            proof {
                assert(views_of(results@) =~= space.take(i + 1 as int).filter(pred));
            }
        }
        i += 1;
    }
    proof {
        assert(space.take(n as int) =~= space);
        assert forall|t: int| 0 <= t < results@.len() implies result_satisfies(
            (#[trigger] results@[t])@,
            query.desired_traits@,
        ) by {
            Seq::lemma_filter_pred(space, pred, t);
            assert(results@[t]@ == views_of(results@)[t]);
        }
    }
    results
}

/// Filters the pool, enumerates every combination of exactly
/// `min(sigil_slots, filtered sigil count)` sigil positions (each paired with
/// every filtered wrightstone, or bare when none survives), and returns, in
/// enumeration order, exactly the candidates satisfying the query.
pub fn exhaustive_search(pool: SearchPool, query: &SearchQuery) -> (results: Vec<SearchResult>)
    requires
        query.desired_traits.wf(),
    ensures
        views_of(results@) == exhaustive_results(pool, *query),
        forall|i: int| 0 <= i < results@.len() ==> result_satisfies(
            (#[trigger] results@[i])@,
            query.desired_traits@,
        ),
{
    let filtered = filter_pool(pool, query);
    filtered_search(filtered, query)
}

/// The exhaustive strategy refused to run: its candidate space was larger
/// than the caller's cutoff.
#[derive(Clone, Copy, Debug, PartialEq, Eq)]
pub enum SearchAborted {
    SpaceTooLarge,
}

/// The exhaustive strategy under a resource guard: searches exactly as
/// `exhaustive_search` does when the candidate space holds at most
/// `max_candidates` builds, and refuses — before enumerating anything — with
/// `SpaceTooLarge` exactly when the space is larger than that.
pub fn exhaustive_search_bounded(
    pool: SearchPool,
    query: &SearchQuery,
    max_candidates: usize,
) -> (outcome: Result<Vec<SearchResult>, SearchAborted>)
    requires
        query.desired_traits.wf(),
    ensures
        match outcome {
            Ok(results) => candidate_space(pool, *query).len() <= max_candidates && views_of(
                results@,
            ) == exhaustive_results(pool, *query) && forall|i: int|
                0 <= i < results@.len() ==> result_satisfies(
                    (#[trigger] results@[i])@,
                    query.desired_traits@,
                ),
            Err(aborted) => aborted == SearchAborted::SpaceTooLarge && candidate_space(
                pool,
                *query,
            ).len() > max_candidates,
        },
{
    let ghost space = candidate_space(pool, *query);
    let filtered = filter_pool(pool, query);
    let nsig = filtered.sigils.len();
    let mstone = filtered.wrightstones.len();
    let slots = query.sigil_slots as usize;
    let num: usize = if slots <= nsig {
        slots
    } else {
        nsig
    };
    let ghost k = num_chosen(filtered.sigils@, query.sigil_slots);
    let cap: u128 = max_candidates as u128 + 1;
    let combos_capped = saturating_binomial(nsig, num, cap);
    let per_combo: u128 = if mstone > 0 {
        mstone as u128
    } else {
        1
    };
    proof {
        lemma_combinations_count(filtered.sigils@, k);
        if mstone > 0 {
            lemma_cross_index(
                combinations(filtered.sigils@, k),
                filtered.wrightstones@,
            );
        }
        assert(space.len() == binomial(nsig as nat, k) * per_combo);
        assert(combos_capped <= cap);
        assert(combos_capped * per_combo <= cap * per_combo && cap * per_combo
            <= 0x10000000000000000u128 * 0xffffffffffffffffu128) by (nonlinear_arith)
            requires
                combos_capped <= cap,
                1 <= per_combo <= 0xffffffffffffffffu128,
                1 <= cap <= 0x10000000000000000u128,
        ;
    }
    let total_capped: u128 = combos_capped * per_combo;
    proof {
        let b = binomial(nsig as nat, k) as int;
        if b >= cap as int {
            assert(total_capped as int == cap as int * per_combo as int);
            assert(cap as int * per_combo as int >= cap as int && b * per_combo as int >= b)
                by (nonlinear_arith)
                requires
                    per_combo as int >= 1,
                    cap as int >= 1,
                    b >= cap as int,
            ;
            assert(total_capped as int > max_candidates as int);
            assert(space.len() > max_candidates as int);
        } else {
            assert(total_capped as int == b * per_combo as int);
            assert(space.len() == total_capped as int);
        }
    }
    if total_capped > max_candidates as u128 {
        Err(SearchAborted::SpaceTooLarge)
    } else {
        Ok(filtered_search(filtered, query))
    }
}

/// A naive solver using a brute force strategy.
pub struct NaiveSolver;

impl Solver for NaiveSolver {
    fn search(&self, pool: SearchPool, query: &SearchQuery) -> (results: Vec<SearchResult>)
        ensures
            views_of(results@) == exhaustive_results(pool, *query),
    {
        exhaustive_search(pool, query)
    }
}

} // verus!
