use gbfr_build_calculator::model::{
    SearchPool, SearchQuery, SearchResult, Sigil, Trait, TraitKind, TraitSet, Wrightstone,
};
use gbfr_build_calculator::solver::enumeration::all_combinations;
use gbfr_build_calculator::solver::genetic_solver::fitness;
use gbfr_build_calculator::solver::util::{filter_pool, is_desired_trait, is_valid_result};
use gbfr_build_calculator::solver::naive_solver::{exhaustive_search_bounded, SearchAborted};
use gbfr_build_calculator::solver::{BasicSolver, GeneticSolver, NaiveSolver, Solver};

fn t(kind: TraitKind, level: u8) -> Trait {
    Trait::new(kind, level)
}

fn single(kind: TraitKind, level: u8) -> Sigil {
    Sigil::new_single(t(kind, level))
}

fn query_of(wants: &[(TraitKind, u8)], slots: u8) -> SearchQuery {
    let mut desired_traits = TraitSet::new();
    for &(kind, level) in wants {
        desired_traits.add(t(kind, level));
    }
    SearchQuery { desired_traits, sigil_slots: slots }
}

fn dmg_pool() -> SearchPool {
    SearchPool {
        sigils: vec![
            single(TraitKind::DMGCap, 1),
            single(TraitKind::DMGCap, 2),
            single(TraitKind::DMGCap, 5),
        ],
        wrightstones: vec![],
    }
}

fn same_build(a: &SearchResult, b: &SearchResult) -> bool {
    // equal wrightstone and equal sigil multiset, order ignored
    if a.wrightstone != b.wrightstone || a.sigils.len() != b.sigils.len() {
        return false;
    }
    a.sigils.iter().all(|s| {
        let in_a = a.sigils.iter().filter(|x| *x == s).count();
        let in_b = b.sigils.iter().filter(|x| *x == s).count();
        in_a == in_b
    })
}

#[test]
fn three_dmg_sigils_two_slots() {
    // pool {1, 2, 5}, two slots, DMGCap >= 5: {1,5} and {2,5} qualify, {1,2} does not
    let query = query_of(&[(TraitKind::DMGCap, 5)], 2);
    let results = NaiveSolver.search(dmg_pool(), &query);
    assert_eq!(results.len(), 2);
    assert_eq!(results[0].trait_level(TraitKind::DMGCap), 6);
    assert_eq!(results[1].trait_level(TraitKind::DMGCap), 7);
    for r in &results {
        assert!(r.wrightstone.is_none());
        assert_eq!(r.sigils.len(), 2);
    }
}

#[test]
fn one_combination_crossed_with_one_wrightstone() {
    // two sigils fill both slots; the single wrightstone joins the only combination
    let pool = SearchPool {
        sigils: vec![single(TraitKind::DMGCap, 3), single(TraitKind::DMGCap, 4)],
        wrightstones: vec![Wrightstone {
            trait1: t(TraitKind::HP, 6),
            trait2: None,
            trait3: None,
        }],
    };
    let query = query_of(&[(TraitKind::DMGCap, 1), (TraitKind::HP, 5)], 2);
    let filtered = filter_pool(pool.clone(), &query);
    let candidates = all_combinations(filtered, &query);
    assert_eq!(candidates.len(), 1);
    let results = NaiveSolver.search(pool, &query);
    assert_eq!(results.len(), 1);
    assert_eq!(results[0].sigils.len(), 2);
    assert!(results[0].wrightstone.is_some());
}

#[test]
fn combinations_come_in_lexicographic_order() {
    let query = query_of(&[(TraitKind::DMGCap, 0)], 2);
    let filtered = filter_pool(dmg_pool(), &query);
    let candidates = all_combinations(filtered, &query);
    assert_eq!(candidates.len(), 3);
    let levels: Vec<Vec<u8>> = candidates
        .iter()
        .map(|c| c.sigils.iter().map(|s| s.trait1.level).collect())
        .collect();
    assert_eq!(levels, vec![vec![1, 2], vec![1, 5], vec![2, 5]]);
}

#[test]
fn product_is_row_major() {
    let pool = SearchPool {
        sigils: vec![single(TraitKind::DMGCap, 1), single(TraitKind::DMGCap, 2)],
        wrightstones: vec![
            Wrightstone { trait1: t(TraitKind::DMGCap, 7), trait2: None, trait3: None },
            Wrightstone { trait1: t(TraitKind::DMGCap, 8), trait2: None, trait3: None },
        ],
    };
    let query = query_of(&[(TraitKind::DMGCap, 0)], 1);
    let filtered = filter_pool(pool, &query);
    let candidates = all_combinations(filtered, &query);
    // combinations [1] then [2], each crossed with stones 7 then 8
    assert_eq!(candidates.len(), 4);
    let shape: Vec<(u8, u8)> = candidates
        .iter()
        .map(|c| (c.sigils[0].trait1.level, c.wrightstone.as_ref().unwrap().trait1.level))
        .collect();
    assert_eq!(shape, vec![(1, 7), (1, 8), (2, 7), (2, 8)]);
}

#[test]
fn filtering_discards_only_irrelevant_items() {
    let relevant = single(TraitKind::DMGCap, 2);
    let also_relevant = Sigil {
        trait1: t(TraitKind::ATK, 3),
        trait2: Some(t(TraitKind::DMGCap, 1)),
    };
    let irrelevant = single(TraitKind::HP, 9);
    let good_stone = Wrightstone {
        trait1: t(TraitKind::Uplift, 2),
        trait2: Some(t(TraitKind::DMGCap, 1)),
        trait3: None,
    };
    let bad_stone = Wrightstone { trait1: t(TraitKind::HP, 9), trait2: None, trait3: None };
    let pool = SearchPool {
        sigils: vec![relevant.clone(), irrelevant.clone(), also_relevant.clone()],
        wrightstones: vec![bad_stone.clone(), good_stone.clone()],
    };
    let query = query_of(&[(TraitKind::DMGCap, 5)], 2);
    let filtered = filter_pool(pool, &query);
    assert_eq!(filtered.sigils, vec![relevant, also_relevant]);
    assert_eq!(filtered.wrightstones, vec![good_stone]);
    // the query itself is untouched
    assert_eq!(query.desired_traits.level(TraitKind::DMGCap), 5);
    assert!(!is_desired_trait(t(TraitKind::HP, 9), &query));
    assert!(is_desired_trait(t(TraitKind::DMGCap, 1), &query));
}

#[test]
fn zero_slots_yields_one_result_per_satisfying_wrightstone() {
    let strong = Wrightstone { trait1: t(TraitKind::DMGCap, 9), trait2: None, trait3: None };
    let weak = Wrightstone { trait1: t(TraitKind::DMGCap, 2), trait2: None, trait3: None };
    let pool = SearchPool {
        sigils: vec![single(TraitKind::DMGCap, 5)],
        wrightstones: vec![strong.clone(), weak],
    };
    let query = query_of(&[(TraitKind::DMGCap, 8)], 0);
    let results = NaiveSolver.search(pool, &query);
    assert_eq!(results.len(), 1);
    assert!(results[0].sigils.is_empty());
    assert_eq!(results[0].wrightstone, Some(strong));
}

#[test]
fn empty_requirements_keep_every_candidate() {
    // nothing is desired, so filtering discards everything and the one empty
    // build is enumerated and kept
    let pool = SearchPool {
        sigils: vec![single(TraitKind::DMGCap, 1), single(TraitKind::HP, 2)],
        wrightstones: vec![Wrightstone {
            trait1: t(TraitKind::Uplift, 1),
            trait2: None,
            trait3: None,
        }],
    };
    let query = query_of(&[], 2);
    let results = NaiveSolver.search(pool, &query);
    assert_eq!(results.len(), 1);
    assert!(results[0].sigils.is_empty());
    assert!(results[0].wrightstone.is_none());
}

#[test]
fn every_returned_build_satisfies_the_query() {
    let pool = SearchPool {
        sigils: vec![
            single(TraitKind::DMGCap, 1),
            single(TraitKind::DMGCap, 2),
            single(TraitKind::DMGCap, 5),
            Sigil { trait1: t(TraitKind::HP, 3), trait2: Some(t(TraitKind::DMGCap, 2)) },
        ],
        wrightstones: vec![Wrightstone {
            trait1: t(TraitKind::DMGCap, 2),
            trait2: None,
            trait3: None,
        }],
    };
    let query = query_of(&[(TraitKind::DMGCap, 6)], 2);
    for r in NaiveSolver.search(pool.clone(), &query) {
        assert!(r.traits().is_superset_of(&query.desired_traits));
        assert!(is_valid_result(&r, &query));
    }
    let genetic = GeneticSolver {
        population_size: 8,
        generations: 5,
        tournament_size: 2,
        crossover_rate: 60,
        mutation_rate: 10,
        seed: 11,
    };
    for r in genetic.search(pool, &query) {
        assert!(r.traits().is_superset_of(&query.desired_traits));
        assert!(is_valid_result(&r, &query));
    }
}

#[test]
fn exhaustive_solvers_are_deterministic_and_agree() {
    let query = query_of(&[(TraitKind::DMGCap, 5)], 2);
    let first = NaiveSolver.search(dmg_pool(), &query);
    let second = NaiveSolver.search(dmg_pool(), &query);
    assert_eq!(first, second);
    let basic = BasicSolver.search(dmg_pool(), &query);
    assert_eq!(first, basic);
}

// The evolutionary strategy is best-effort and non-exhaustive: it may return
// an empty list even when valid builds exist, so these tests assert soundness,
// reproducibility under a fixed seed, and membership in the exhaustive space —
// never completeness.
#[test]
fn genetic_solver_reproduces_a_seeded_run() {
    let pool = SearchPool {
        sigils: vec![
            single(TraitKind::DMGCap, 1),
            single(TraitKind::DMGCap, 2),
            single(TraitKind::DMGCap, 5),
            single(TraitKind::DMGCap, 3),
            single(TraitKind::DMGCap, 4),
        ],
        wrightstones: vec![],
    };
    let query = query_of(&[(TraitKind::DMGCap, 6)], 2);
    let config = GeneticSolver {
        population_size: 10,
        generations: 8,
        tournament_size: 3,
        crossover_rate: 60,
        mutation_rate: 5,
        seed: 42,
    };
    let first = config.search(pool.clone(), &query);
    let second = config.search(pool.clone(), &query);
    assert_eq!(first, second);
    let other_seed = GeneticSolver { seed: 43, ..config };
    // a different seed may explore differently; both runs stay sound
    for r in other_seed.search(pool, &query) {
        assert!(r.trait_level(TraitKind::DMGCap) >= 6);
    }
}

#[test]
fn genetic_results_lie_in_the_exhaustive_space() {
    let pool = SearchPool {
        sigils: vec![
            single(TraitKind::DMGCap, 1),
            single(TraitKind::DMGCap, 2),
            single(TraitKind::DMGCap, 5),
            single(TraitKind::DMGCap, 4),
        ],
        wrightstones: vec![
            Wrightstone { trait1: t(TraitKind::DMGCap, 3), trait2: None, trait3: None },
            Wrightstone { trait1: t(TraitKind::DMGCap, 1), trait2: None, trait3: None },
        ],
    };
    let query = query_of(&[(TraitKind::DMGCap, 7)], 2);
    let exhaustive = NaiveSolver.search(pool.clone(), &query);
    let genetic = GeneticSolver {
        population_size: 12,
        generations: 6,
        tournament_size: 2,
        crossover_rate: 50,
        mutation_rate: 20,
        seed: 7,
    };
    for r in genetic.search(pool, &query) {
        assert!(exhaustive.iter().any(|e| same_build(e, &r)));
    }
}

#[test]
fn genetic_keeps_the_whole_population_when_everything_qualifies() {
    // every pair of these sigils reaches the requirement, so after any number
    // of generations the whole final population is returned
    let pool = SearchPool {
        sigils: vec![
            single(TraitKind::DMGCap, 5),
            single(TraitKind::DMGCap, 6),
            single(TraitKind::DMGCap, 7),
            single(TraitKind::DMGCap, 8),
        ],
        wrightstones: vec![],
    };
    let query = query_of(&[(TraitKind::DMGCap, 10)], 2);
    let config = GeneticSolver {
        population_size: 9,
        generations: 4,
        tournament_size: 3,
        crossover_rate: 70,
        mutation_rate: 15,
        seed: 3,
    };
    let results = config.search(pool, &query);
    assert_eq!(results.len(), 9);
    for r in &results {
        assert_eq!(r.sigils.len(), 2);
        assert!(r.trait_level(TraitKind::DMGCap) >= 10);
    }
}

#[test]
fn genetic_builds_never_duplicate_a_pool_position() {
    // distinct-valued pool: a duplicated position would show as a duplicated
    // value, which sampling, crossover and mutation all have to avoid
    let pool = SearchPool {
        sigils: (1..=6).map(|i| single(TraitKind::DMGCap, i)).collect(),
        wrightstones: vec![],
    };
    let query = query_of(&[(TraitKind::DMGCap, 1)], 3);
    let config = GeneticSolver {
        population_size: 16,
        generations: 12,
        tournament_size: 2,
        crossover_rate: 90,
        mutation_rate: 80,
        seed: 5,
    };
    let results = config.search(pool, &query);
    assert_eq!(results.len(), 16);
    for r in &results {
        assert_eq!(r.sigils.len(), 3);
        for a in 0..r.sigils.len() {
            for b in a + 1..r.sigils.len() {
                assert_ne!(r.sigils[a], r.sigils[b]);
            }
        }
    }
}

#[test]
fn genetic_returns_nothing_when_the_budget_cannot_be_filled() {
    let pool = SearchPool { sigils: vec![single(TraitKind::DMGCap, 5)], wrightstones: vec![] };
    let query = query_of(&[(TraitKind::DMGCap, 1)], 2);
    let config = GeneticSolver {
        population_size: 5,
        generations: 3,
        tournament_size: 2,
        crossover_rate: 50,
        mutation_rate: 10,
        seed: 1,
    };
    assert!(config.search(pool, &query).is_empty());
}

#[test]
fn fitness_caps_each_requirement_at_its_desired_level() {
    // achieved DMGCap 7 of 10 wanted, HP 9 of 6 wanted: 7 + 6
    let query = query_of(&[(TraitKind::DMGCap, 10), (TraitKind::HP, 6)], 2);
    let candidate = SearchResult {
        sigils: vec![
            single(TraitKind::DMGCap, 7),
            Sigil { trait1: t(TraitKind::HP, 9), trait2: None },
        ],
        wrightstone: None,
    };
    assert_eq!(fitness(&candidate, &query), 13);
    // a fully satisfying build scores the maximum, the sum of desired levels
    let full = SearchResult {
        sigils: vec![single(TraitKind::DMGCap, 10), single(TraitKind::HP, 6)],
        wrightstone: None,
    };
    assert_eq!(fitness(&full, &query), 16);
}

#[test]
fn bounded_search_matches_the_unbounded_one_when_the_space_fits() {
    let query = query_of(&[(TraitKind::DMGCap, 5)], 2);
    // 3 choose 2 = 3 candidates, within a cutoff of 10
    let bounded = exhaustive_search_bounded(dmg_pool(), &query, 10);
    assert_eq!(bounded, Ok(NaiveSolver.search(dmg_pool(), &query)));
}

#[test]
fn bounded_search_aborts_when_the_space_is_too_large() {
    // 20 sigils, 10 slots: 184756 combinations, far over a cutoff of 1000
    let pool = SearchPool {
        sigils: (1..=20).map(|i| single(TraitKind::DMGCap, i)).collect(),
        wrightstones: vec![],
    };
    let query = query_of(&[(TraitKind::DMGCap, 50)], 10);
    let outcome = exhaustive_search_bounded(pool, &query, 1000);
    assert_eq!(outcome, Err(SearchAborted::SpaceTooLarge));
}

#[test]
fn exhaustive_uses_min_of_slots_and_pool() {
    // more slots than sigils: combinations of the whole filtered pool
    let query = query_of(&[(TraitKind::DMGCap, 0)], 9);
    let results = NaiveSolver.search(dmg_pool(), &query);
    assert_eq!(results.len(), 1);
    assert_eq!(results[0].sigils.len(), 3);
}
