//! The evolutionary strategy: a population of candidate builds refined over
//! generations by tournament selection, single-point crossover and pointwise
//! mutation, then filtered by the same validity predicate as the exhaustive
//! strategy. Best-effort and non-exhaustive: it may return an empty list even
//! when valid builds exist, but everything it returns is genuinely valid.
//!
//! Randomness is injected as a caller-chosen seed driving a small
//! deterministic generator. Every phase carries a functional contract over
//! the generator state, so the whole run is pinned down as `genetic_results`,
//! a pure function of the configuration, the pool and the query: a fixed seed
//! reproduces a run exactly.

use vstd::prelude::*;

use crate::model::search::{
    result_level, result_satisfies, ResultView, SearchPool, SearchQuery, SearchResult,
};
use crate::model::sigil::Sigil;
use crate::model::traits::{entries_level, entries_wf, TraitKind};
use crate::model::wrightstone::Wrightstone;
use crate::solver::enumeration::{indices_into, select};
use crate::solver::laws::lemma_result_level_nonneg;
use crate::solver::naive_solver::{lemma_result_level_bound, satisfies_pred, views_of};
use crate::solver::util::{filter_pool, filtered_sigils, filtered_stones, is_valid_result};
use crate::solver::Solver;
use crate::summation::{
    lemma_sum_by_le_pointwise, lemma_sum_by_nonneg, lemma_sum_by_split, lemma_sum_by_take_succ,
    lemma_sum_by_upper, sum_by,
};

verus! {

/// A small deterministic generator (a 64-bit linear congruential step); the
/// seed is injected by the caller, and each draw is a pure function of the
/// state, so a fixed seed reproduces the whole stream of draws exactly.
struct Rng {
    state: u64,
}

/// One linear congruential step of the generator, on wrapping arithmetic.
pub open spec fn rng_step(state: u64) -> u64 {
    vstd::wrapping::u64_specs::wrapping_add(
        vstd::wrapping::u64_specs::wrapping_mul(state, 6364136223846793005u64),
        1442695040888963407u64,
    )
}

/// The draw the generator makes from a given state, below a given bound.
pub open spec fn rng_draw(state: u64, bound: usize) -> usize {
    (((rng_step(state) >> 33) as usize) % bound) as usize
}

impl Rng {
    fn new(seed: u64) -> (rng: Rng)
        ensures
            rng.state == seed,
    {
        Rng { state: seed }
    }

    /// The next draw, reduced below `bound`: a pure function of the state.
    fn below(&mut self, bound: usize) -> (draw: usize)
        requires
            bound > 0,
        ensures
            draw < bound,
            draw == rng_draw(old(self).state, bound),
            final(self).state == rng_step(old(self).state),
    {
        self.state = self.state.wrapping_mul(6364136223846793005u64).wrapping_add(
            1442695040888963407u64,
        );
        let ghost s1 = self.state;
        let hi = self.state >> 33;
        proof {
            assert(hi < 0x80000000u64) by (bit_vector)
                requires hi == s1 >> 33u64;
        }
        (hi as usize) % bound
    }
}

/// One population member: positions into the filtered sigil pool, pairwise
/// distinct, plus the position of a chosen wrightstone, if any survives
/// filtering.
struct Genome {
    sigils: Vec<usize>,
    stone: Option<usize>,
}

/// Positions are pairwise distinct.
pub open spec fn distinct_indices(ix: Seq<int>) -> bool {
    forall|a: int, b: int| 0 <= a < b < ix.len() ==> ix[a] != ix[b]
}

spec fn genome_wf(g: Genome, nsig: int, nstone: int, slots: int) -> bool {
    &&& g.sigils@.len() == slots
    &&& forall|a: int| 0 <= a < g.sigils@.len() ==> (#[trigger] g.sigils@[a]) < nsig
    &&& forall|a: int, b: int| 0 <= a < b < g.sigils@.len() ==> g.sigils@[a] != g.sigils@[b]
    &&& match g.stone {
        Some(j) => 0 < nstone && (j as int) < nstone,
        None => nstone == 0,
    }
}

spec fn genomes_wf(gs: Seq<Genome>, nsig: int, nstone: int, slots: int) -> bool {
    forall|t: int| 0 <= t < gs.len() ==> genome_wf(#[trigger] gs[t], nsig, nstone, slots)
}

/// Copies a position list.
fn clone_indices(v: &Vec<usize>) -> (out: Vec<usize>)
    ensures
        out@ == v@,
{
    let n = v.len();
    let mut out: Vec<usize> = Vec::new();
    let mut i: usize = 0;
    while i < n
        invariant
            0 <= i <= n,
            n == v.len(),
            out@ == v@.take(i as int),
        decreases n - i,
    {
        out.push(v[i]);
        proof {
            assert(v@.take(i + 1 as int) =~= v@.take(i as int).push(v@[i as int]));
        }
        i += 1;
    }
    proof {
        assert(v@.take(n as int) =~= v@);
    }
    out
}

fn clone_genome(g: &Genome) -> (out: Genome)
    ensures
        out.sigils@ == g.sigils@,
        out.stone == g.stone,
{
    Genome { sigils: clone_indices(&g.sigils), stone: g.stone }
}

/// Whether `x` occurs among the positions.
fn contains_index(v: &Vec<usize>, x: usize) -> (present: bool)
    ensures
        present == exists|t: int| 0 <= t < v@.len() && v@[t] == x,
{
    let n = v.len();
    let mut i: usize = 0;
    while i < n
        invariant
            0 <= i <= n,
            n == v.len(),
            forall|t: int| 0 <= t < i ==> v@[t] != x,
        decreases n - i,
    {
        if v[i] == x {
            return true;
        }
        i += 1;
    }
    false
}

/// Whether any position occurs twice.
fn has_duplicate(v: &Vec<usize>) -> (dup: bool)
    ensures
        !dup <==> (forall|a: int, b: int| 0 <= a < b < v@.len() ==> v@[a] != v@[b]),
{
    let n = v.len();
    let mut a: usize = 0;
    while a < n
        invariant
            0 <= a <= n,
            n == v.len(),
            forall|x: int, y: int| 0 <= x < y < n && x < a ==> v@[x] != v@[y],
        decreases n - a,
    {
        let mut b: usize = a + 1;
        while b < n
            invariant
                0 <= a < n,
                a < b <= n,
                n == v.len(),
                forall|y: int| a < y < b ==> v@[a as int] != v@[y],
            decreases n - b,
        {
            if v[a] == v[b] {
                return true;
            }
            b += 1;
        }
        a += 1;
    }
    false
}

/// The identity position list `0, 1, …, n-1`.
spec fn fill_positions(n: int) -> Seq<usize> {
    Seq::new(n as nat, |i: int| i as usize)
}

/// The partial shuffle `sample_genome` performs, position by position.
spec fn shuffle_from(idx: Seq<usize>, p: int, slots: int, state: u64) -> (Seq<usize>, u64)
    decreases slots - p,
{
    if p < 0 || p >= slots {
        (idx, state)
    } else {
        let off = rng_draw(state, (idx.len() - p) as usize);
        let stepped = rng_step(state);
        let q = p + off;
        let swapped = if q != p {
            idx.update(p, idx[q]).update(q, idx[p])
        } else {
            idx
        };
        shuffle_from(swapped, p + 1, slots, stepped)
    }
}

/// Exactly the genome `sample_genome` draws from a given generator state.
spec fn sample_spec(nsig: int, nstone: int, slots: int, state: u64) -> (
    Seq<usize>,
    Option<usize>,
    u64,
) {
    let (shuffled, stepped) = shuffle_from(fill_positions(nsig), 0, slots, state);
    let sigils = shuffled.subrange(0, slots);
    if nstone > 0 {
        (sigils, Some(rng_draw(stepped, nstone as usize)), rng_step(stepped))
    } else {
        (sigils, None, stepped)
    }
}

/// Draws `slots` pairwise distinct sigil positions without replacement, and
/// one wrightstone position when any wrightstone is available. The drawn
/// genome is a pure function of the generator state.
fn sample_genome(nsig: usize, nstone: usize, slots: usize, rng: &mut Rng) -> (g: Genome)
    requires
        slots <= nsig,
    ensures
        genome_wf(g, nsig as int, nstone as int, slots as int),
        (g.sigils@, g.stone, final(rng).state) == sample_spec(
            nsig as int,
            nstone as int,
            slots as int,
            old(rng).state,
        ),
{
    let mut idx: Vec<usize> = Vec::new();
    let mut i: usize = 0;
    while i < nsig
        invariant
            0 <= i <= nsig,
            idx@.len() == i,
            forall|t: int| 0 <= t < i ==> idx@[t] == t,
        decreases nsig - i,
    {
        idx.push(i);
        i += 1;
    }
    proof {
        assert(idx@ =~= fill_positions(nsig as int));
    }
    let mut p: usize = 0;
    while p < slots
        invariant
            0 <= p <= slots,
            slots <= nsig,
            idx@.len() == nsig,
            forall|t: int| 0 <= t < nsig ==> (#[trigger] idx@[t]) < nsig,
            forall|a: int, b: int| 0 <= a < b < nsig ==> idx@[a] != idx@[b],
            shuffle_from(fill_positions(nsig as int), 0, slots as int, old(rng).state)
                == shuffle_from(idx@, p as int, slots as int, rng.state),
        decreases slots - p,
    {
        let ghost st0 = rng.state;
        let offset = rng.below(nsig - p);
        let q = p + offset;
        let ghost before = idx@;
        if q != p {
            let vp = idx[p];
            let vq = idx[q];
            idx[p] = vq;
            idx[q] = vp;
            proof {
                let now = idx@;
                assert(now == before.update(p as int, vq).update(q as int, vp));
                assert forall|a: int, b: int| 0 <= a < b < nsig implies now[a] != now[b] by {
                    let xa: usize = if a == p as int {
                        before[q as int]
                    } else if a == q as int {
                        before[p as int]
                    } else {
                        before[a]
                    };
                    assert(now[a] == xa);
                    let xb: usize = if b == p as int {
                        before[q as int]
                    } else if b == q as int {
                        before[p as int]
                    } else {
                        before[b]
                    };
                    assert(now[b] == xb);
                }
            }
        }
        proof {
            assert(offset == rng_draw(st0, (before.len() - p) as usize));
            assert(shuffle_from(before, p as int, slots as int, st0) == shuffle_from(
                idx@,
                p + 1 as int,
                slots as int,
                rng.state,
            ));
        }
        p += 1;
    }
    let ghost shuffle_outcome = shuffle_from(
        fill_positions(nsig as int),
        0,
        slots as int,
        old(rng).state,
    );
    proof {
        assert(shuffle_outcome == (idx@, rng.state));
    }
    let mut chosen: Vec<usize> = Vec::new();
    let mut t: usize = 0;
    while t < slots
        invariant
            0 <= t <= slots,
            slots <= nsig,
            idx@.len() == nsig,
            forall|a: int| 0 <= a < nsig ==> (#[trigger] idx@[a]) < nsig,
            forall|a: int, b: int| 0 <= a < b < nsig ==> idx@[a] != idx@[b],
            chosen@.len() == t,
            forall|a: int| 0 <= a < t ==> chosen@[a] == idx@[a],
        decreases slots - t,
    {
        chosen.push(idx[t]);
        t += 1;
    }
    proof {
        assert(chosen@ =~= idx@.subrange(0, slots as int));
    }
    let stone = if nstone > 0 {
        Some(rng.below(nstone))
    } else {
        None
    };
    Genome { sigils: chosen, stone }
}

/// The mathematical image of one genome: its position list and its
/// wrightstone choice.
spec fn gview(g: Genome) -> (Seq<usize>, Option<usize>) {
    (g.sigils@, g.stone)
}

/// The images of a whole population, in order.
spec fn gviews(gs: Seq<Genome>) -> Seq<(Seq<usize>, Option<usize>)> {
    gs.map_values(|g: Genome| gview(g))
}

/// The build a genome image stands for, over the filtered items.
spec fn view_result(
    v: (Seq<usize>, Option<usize>),
    sigs: Seq<Sigil>,
    stones: Seq<Wrightstone>,
) -> ResultView {
    ResultView {
        sigils: v.0.map_values(|j: usize| sigs[j as int]),
        wrightstone: match v.1 {
            Some(j) => Some(stones[j as int]),
            None => None,
        },
    }
}

/// The build a genome stands for, as a spec value over the filtered pool.
spec fn genome_view(g: Genome, pool: SearchPool) -> ResultView {
    view_result(gview(g), pool.sigils@, pool.wrightstones@)
}

/// Builds the `SearchResult` a genome stands for, from the filtered pool.
fn realize(g: &Genome, pool: &SearchPool) -> (r: SearchResult)
    requires
        forall|a: int| 0 <= a < g.sigils@.len() ==> (#[trigger] g.sigils@[a]) < pool.sigils@.len(),
        match g.stone {
            Some(j) => (j as int) < pool.wrightstones@.len(),
            None => true,
        },
    ensures
        r@.sigils.len() == g.sigils@.len(),
        forall|a: int| 0 <= a < g.sigils@.len() ==> r@.sigils[a] == pool.sigils@[(
            #[trigger] g.sigils@[a]) as int],
        r@.wrightstone == match g.stone {
            Some(j) => Some(pool.wrightstones@[j as int]),
            None => None::<Wrightstone>,
        },
        r@ == genome_view(*g, *pool),
{
    let n = g.sigils.len();
    let mut sigils: Vec<Sigil> = Vec::new();
    let mut i: usize = 0;
    while i < n
        invariant
            0 <= i <= n,
            n == g.sigils.len(),
            forall|a: int| 0 <= a < n ==> (#[trigger] g.sigils@[a]) < pool.sigils@.len(),
            sigils@.len() == i,
            forall|a: int| 0 <= a < i ==> sigils@[a] == pool.sigils@[(
                #[trigger] g.sigils@[a]) as int],
        decreases n - i,
    {
        sigils.push(pool.sigils[g.sigils[i]]);
        i += 1;
    }
    let wrightstone = match g.stone {
        Some(j) => Some(pool.wrightstones[j]),
        None => None,
    };
    let r = SearchResult { sigils, wrightstone };
    proof {
        assert(r@.sigils =~= genome_view(*g, *pool).sigils);
        assert(r@ =~= genome_view(*g, *pool));
    }
    r
}

/// The level one requirement entry asks for.
pub open spec fn level_weight() -> spec_fn((TraitKind, u32)) -> int {
    |e: (TraitKind, u32)| e.1 as int
}

/// The highest fitness any build can score against `desired`: the sum of the
/// desired levels.
pub open spec fn desired_total(desired: Seq<(TraitKind, u32)>) -> int {
    sum_by(desired, level_weight())
}

/// What one requirement entry contributes to a build's fitness: the achieved
/// level, capped at the desired level.
pub open spec fn gain_weight(r: ResultView) -> spec_fn((TraitKind, u32)) -> int {
    |e: (TraitKind, u32)| if result_level(r, e.0) < e.1 as int {
        result_level(r, e.0)
    } else {
        e.1 as int
    }
}

/// The fitness of a build against a requirement set: the sum, over the
/// desired entries, of the achieved level capped at the desired level. A
/// fully satisfying build scores exactly `desired_total`; any other build
/// scores strictly less. Ties are broken by keeping the first-encountered
/// candidate. Scoring is deterministic in the candidate and the query.
pub open spec fn fitness_spec(r: ResultView, desired: Seq<(TraitKind, u32)>) -> int {
    sum_by(desired, gain_weight(r))
}

/// Fitness is maximal exactly on the satisfying builds: every build scores at
/// most `desired_total`, and reaches it iff it satisfies every requirement.
pub proof fn lemma_fitness_maximal_iff_satisfies(r: ResultView, desired: Seq<(TraitKind, u32)>)
    requires
        entries_wf(desired),
    ensures
        0 <= fitness_spec(r, desired) <= desired_total(desired),
        fitness_spec(r, desired) == desired_total(desired) <==> result_satisfies(r, desired),
{
    lemma_result_level_nonneg(r);
    assert forall|i: int| 0 <= i < desired.len() implies gain_weight(r)(#[trigger] desired[i])
        <= level_weight()(desired[i]) by {}
    lemma_sum_by_le_pointwise(desired, gain_weight(r), level_weight());
    assert(forall|x: (TraitKind, u32)| #[trigger] gain_weight(r)(x) >= 0);
    lemma_sum_by_nonneg(desired, gain_weight(r));
    if result_satisfies(r, desired) {
        assert forall|i: int| 0 <= i < desired.len() implies gain_weight(r)(#[trigger] desired[i])
            == level_weight()(desired[i]) by {
            crate::model::traits::lemma_entries_level_at(desired, i);
            assert(entries_level(desired, desired[i].0) <= result_level(r, desired[i].0));
        }
        crate::summation::lemma_sum_by_eq_pointwise(desired, gain_weight(r), level_weight());
    }
    if !result_satisfies(r, desired) {
        let k = choose|k: TraitKind| !(entries_level(desired, k) <= result_level(r, k));
        assert(entries_level(desired, k) > result_level(r, k));
        assert(entries_level(desired, k) > 0);
        assert(crate::model::traits::entries_contain(desired, k)) by {
            if !crate::model::traits::entries_contain(desired, k) {
                crate::model::traits::lemma_entries_level_absent(desired, k);
            }
        }
        let i = choose|i: int| 0 <= i < desired.len() && (#[trigger] desired[i]).0 == k;
        crate::model::traits::lemma_entries_level_at(desired, i);
        assert(gain_weight(r)(desired[i]) < level_weight()(desired[i]));
        crate::summation::lemma_sum_by_lt_pointwise(desired, gain_weight(r), level_weight(), i);
    }
}

/// Scores one build against the query: the sum, over the desired entries, of
/// the achieved level capped at the desired level.
pub fn fitness(result: &SearchResult, query: &SearchQuery) -> (score: u64)
    requires
        query.desired_traits.wf(),
        result@.sigils.len() <= 255,
        desired_total(query.desired_traits@) <= u64::MAX,
    ensures
        score as int == fitness_spec(result@, query.desired_traits@),
{
    let ghost desired = query.desired_traits@;
    let ghost rv = result@;
    proof {
        lemma_result_level_bound(rv);
        lemma_result_level_nonneg(rv);
        assert(forall|x: (TraitKind, u32)| #[trigger] gain_weight(rv)(x) >= 0);
        assert forall|i: int| 0 <= i < desired.len() implies gain_weight(rv)(#[trigger] desired[i])
            <= level_weight()(desired[i]) by {}
        lemma_sum_by_le_pointwise(desired, gain_weight(rv), level_weight());
    }
    let entries = query.desired_traits.iter();
    let n = entries.len();
    let mut score: u64 = 0;
    let mut i: usize = 0;
    while i < n
        invariant
            0 <= i <= n,
            n == entries@.len(),
            entries@ == desired,
            rv == result@,
            rv.sigils.len() <= 255,
            desired_total(desired) <= u64::MAX,
            fitness_spec(rv, desired) <= desired_total(desired),
            forall|x: (TraitKind, u32)| #[trigger] gain_weight(rv)(x) >= 0,
            score as int == sum_by(desired.take(i as int), gain_weight(rv)),
        decreases n - i,
    {
        let (kind, wanted) = entries[i];
        proof {
            lemma_result_level_bound(rv);
            lemma_sum_by_take_succ(desired, gain_weight(rv), i as int);
            lemma_sum_by_split(desired, gain_weight(rv), i + 1 as int);
            lemma_sum_by_nonneg(desired.skip(i + 1 as int), gain_weight(rv));
        }
        let achieved = result.trait_level(kind);
        let capped: u32 = if achieved < wanted {
            achieved
        } else {
            wanted
        };
        proof {
            assert(capped as int == gain_weight(rv)(desired[i as int]));
        }
        score = score + capped as u64;
        i += 1;
    }
    proof {
        assert(desired.take(n as int) =~= desired);
    }
    score
}

/// The rest of one tournament: repeated draws, keeping the strictly fitter
/// challenger, so the first-encountered member wins ties.
spec fn tournament_from(scores: Seq<u64>, t: int, tsize: int, best: int, state: u64) -> (int, u64)
    decreases tsize - t,
{
    if t >= tsize {
        (best, state)
    } else {
        let challenger = rng_draw(state, scores.len() as usize);
        let stepped = rng_step(state);
        let kept: int = if scores[challenger as int] > scores[best] {
            challenger as int
        } else {
            best
        };
        tournament_from(scores, t + 1, tsize, kept, stepped)
    }
}

/// One whole tournament: the first draw opens, the rest challenge.
spec fn pick_parent(scores: Seq<u64>, tsize: int, state: u64) -> (int, u64) {
    let first = rng_draw(state, scores.len() as usize);
    tournament_from(scores, 1, tsize, first as int, rng_step(state))
}

/// The whole selection phase: one tournament per output slot.
spec fn select_spec(
    views: Seq<(Seq<usize>, Option<usize>)>,
    scores: Seq<u64>,
    count: int,
    tsize: int,
    state: u64,
) -> (Seq<(Seq<usize>, Option<usize>)>, u64)
    decreases count,
{
    if count <= 0 {
        (Seq::empty(), state)
    } else {
        let (winner, st) = pick_parent(scores, tsize, state);
        let (rest, st2) = select_spec(views, scores, count - 1, tsize, st);
        (seq![views[winner]] + rest, st2)
    }
}

/// Tournament selection: for each output slot, draws `tournament_size`
/// members uniformly and keeps the fittest, first-encountered on ties. Draws
/// are with replacement, across tournaments and within one tournament alike:
/// a tournament may sample the same member twice, which only re-states its
/// score and never changes the winner. The chosen parents are a pure function
/// of the population, the scores and the generator state.
fn select_parents(
    genomes: &Vec<Genome>,
    scores: &Vec<u64>,
    tournament_size: usize,
    rng: &mut Rng,
    Ghost(nsig): Ghost<int>,
    Ghost(nstone): Ghost<int>,
    Ghost(slots): Ghost<int>,
) -> (parents: Vec<Genome>)
    requires
        genomes@.len() > 0,
        tournament_size > 0,
        scores@.len() == genomes@.len(),
        genomes_wf(genomes@, nsig, nstone, slots),
    ensures
        parents@.len() == genomes@.len(),
        genomes_wf(parents@, nsig, nstone, slots),
        (gviews(parents@), final(rng).state) == select_spec(
            gviews(genomes@),
            scores@,
            genomes@.len() as int,
            tournament_size as int,
            old(rng).state,
        ),
{
    let n = genomes.len();
    let mut parents: Vec<Genome> = Vec::new();
    let mut s: usize = 0;
    proof {
        assert(gviews(parents@) =~= Seq::<(Seq<usize>, Option<usize>)>::empty());
    }
    while s < n
        invariant
            0 <= s <= n,
            n == genomes@.len(),
            n > 0,
            tournament_size > 0,
            genomes_wf(genomes@, nsig, nstone, slots),
            scores@.len() == n,
            parents@.len() == s,
            genomes_wf(parents@, nsig, nstone, slots),
            select_spec(
                gviews(genomes@),
                scores@,
                n as int,
                tournament_size as int,
                old(rng).state,
            ) == {
                let (rest, st) = select_spec(
                    gviews(genomes@),
                    scores@,
                    n - s as int,
                    tournament_size as int,
                    rng.state,
                );
                (gviews(parents@) + rest, st)
            },
        decreases n - s,
    {
        let ghost st0 = rng.state;
        let mut best = rng.below(n);
        let mut t: usize = 1;
        while t < tournament_size
            invariant
                1 <= t <= tournament_size,
                n == genomes@.len(),
                n > 0,
                scores@.len() == n,
                best < n,
                tournament_from(
                    scores@,
                    1,
                    tournament_size as int,
                    rng_draw(st0, n) as int,
                    rng_step(st0),
                ) == tournament_from(
                    scores@,
                    t as int,
                    tournament_size as int,
                    best as int,
                    rng.state,
                ),
            decreases tournament_size - t,
        {
            let ghost stt = rng.state;
            let challenger = rng.below(n);
            proof {
                assert(tournament_from(scores@, t as int, tournament_size as int, best as int, stt)
                    == tournament_from(
                    scores@,
                    t + 1 as int,
                    tournament_size as int,
                    if scores@[challenger as int] > scores@[best as int] {
                        challenger as int
                    } else {
                        best as int
                    },
                    rng.state,
                ));
            }
            if scores[challenger] > scores[best] {
                best = challenger;
            }
            t += 1;
        }
        proof {
            assert(pick_parent(scores@, tournament_size as int, st0) == (best as int, rng.state));
        }
        let pick = clone_genome(&genomes[best]);
        proof {
            assert(genome_wf(genomes@[best as int], nsig, nstone, slots));
            assert(genome_wf(pick, nsig, nstone, slots));
        }
        parents.push(pick);
        proof {
            assert(gview(pick) == gviews(genomes@)[best as int]);
            assert(gviews(parents@) =~= gviews(parents@.drop_last()) + seq![gview(pick)]);
        }
        s += 1;
    }
    parents
}

/// Some position occurs twice.
spec fn has_dup(v: Seq<usize>) -> bool {
    exists|a: int, b: int| 0 <= a < b < v.len() && v[a] == v[b]
}

/// The whole crossover phase, pair by pair.
spec fn crossover_spec(
    parents: Seq<(Seq<usize>, Option<usize>)>,
    slots: int,
    rate: u8,
    state: u64,
) -> (Seq<(Seq<usize>, Option<usize>)>, u64)
    decreases parents.len(),
{
    if parents.len() <= 1 {
        (parents, state)
    } else {
        let p1 = parents[0];
        let p2 = parents[1];
        if slots > 0 {
            let roll = rng_draw(state, 100);
            let rolled = rng_step(state);
            if roll < rate as usize {
                let point = rng_draw(rolled, slots as usize) as int;
                let cut = rng_step(rolled);
                let c1 = p1.0.subrange(0, point) + p2.0.subrange(point, slots);
                let c2 = p2.0.subrange(0, point) + p1.0.subrange(point, slots);
                let kids = if !has_dup(c1) && !has_dup(c2) {
                    seq![(c1, p1.1), (c2, p2.1)]
                } else {
                    seq![p1, p2]
                };
                let (rest, st) = crossover_spec(parents.skip(2), slots, rate, cut);
                (kids + rest, st)
            } else {
                let (rest, st) = crossover_spec(parents.skip(2), slots, rate, rolled);
                (seq![p1, p2] + rest, st)
            }
        } else {
            let (rest, st) = crossover_spec(parents.skip(2), slots, rate, state);
            (seq![p1, p2] + rest, st)
        }
    }
}

/// Single-point crossover over consecutive pairs: with the configured
/// probability the parents' position lists are cut at one point and the
/// suffixes exchanged, each child inheriting one parent's wrightstone; a pair
/// whose cut would duplicate a position passes through unchanged, as does a
/// pair not selected for crossover and a trailing unpaired parent. The
/// children are a pure function of the parents and the generator state.
#[verifier::rlimit(60)]
fn crossover_pairs(
    parents: &Vec<Genome>,
    slots: usize,
    crossover_rate: u8,
    rng: &mut Rng,
    Ghost(nsig): Ghost<int>,
    Ghost(nstone): Ghost<int>,
) -> (children: Vec<Genome>)
    requires
        genomes_wf(parents@, nsig, nstone, slots as int),
    ensures
        children@.len() == parents@.len(),
        genomes_wf(children@, nsig, nstone, slots as int),
        (gviews(children@), final(rng).state) == crossover_spec(
            gviews(parents@),
            slots as int,
            crossover_rate,
            old(rng).state,
        ),
{
    let n = parents.len();
    let mut children: Vec<Genome> = Vec::new();
    let mut p: usize = 0;
    proof {
        assert(gviews(children@) =~= Seq::<(Seq<usize>, Option<usize>)>::empty());
        assert(gviews(parents@).skip(0) =~= gviews(parents@));
    }
    while n - p > 1
        invariant
            0 <= p <= n,
            n == parents@.len(),
            genomes_wf(parents@, nsig, nstone, slots as int),
            children@.len() == p,
            genomes_wf(children@, nsig, nstone, slots as int),
            crossover_spec(gviews(parents@), slots as int, crossover_rate, old(rng).state) == {
                let (rest, st) = crossover_spec(
                    gviews(parents@).skip(p as int),
                    slots as int,
                    crossover_rate,
                    rng.state,
                );
                (gviews(children@) + rest, st)
            },
        decreases n - p,
    {
        let first = &parents[p];
        let second = &parents[p + 1];
        let ghost pending = gviews(parents@).skip(p as int);
        let ghost st0 = rng.state;
        proof {
            assert(pending[0] == gview(parents@[p as int]));
            assert(pending[1] == gview(parents@[p + 1 as int]));
            assert(pending.skip(2) =~= gviews(parents@).skip(p + 2 as int));
        }
        let crossed = slots > 0 && rng.below(100) < crossover_rate as usize;
        if crossed {
            let point = rng.below(slots);
            let mut c1: Vec<usize> = Vec::new();
            let mut c2: Vec<usize> = Vec::new();
            let mut t: usize = 0;
            while t < point
                invariant
                    0 <= t <= point,
                    point < slots,
                    first.sigils@.len() == slots,
                    second.sigils@.len() == slots,
                    c1@ == first.sigils@.take(t as int),
                    c2@ == second.sigils@.take(t as int),
                decreases point - t,
            {
                c1.push(first.sigils[t]);
                c2.push(second.sigils[t]);
                proof {
                    assert(first.sigils@.take(t + 1 as int) =~= first.sigils@.take(
                        t as int,
                    ).push(first.sigils@[t as int]));
                    assert(second.sigils@.take(t + 1 as int) =~= second.sigils@.take(
                        t as int,
                    ).push(second.sigils@[t as int]));
                }
                t += 1;
            }
            let mut u: usize = point;
            while u < slots
                invariant
                    point <= u <= slots,
                    first.sigils@.len() == slots,
                    second.sigils@.len() == slots,
                    c1@ == first.sigils@.take(point as int) + second.sigils@.subrange(
                        point as int,
                        u as int,
                    ),
                    c2@ == second.sigils@.take(point as int) + first.sigils@.subrange(
                        point as int,
                        u as int,
                    ),
                decreases slots - u,
            {
                c1.push(second.sigils[u]);
                c2.push(first.sigils[u]);
                proof {
                    assert(first.sigils@.take(point as int) + second.sigils@.subrange(
                        point as int,
                        u + 1 as int,
                    ) =~= (first.sigils@.take(point as int) + second.sigils@.subrange(
                        point as int,
                        u as int,
                    )).push(second.sigils@[u as int]));
                    assert(second.sigils@.take(point as int) + first.sigils@.subrange(
                        point as int,
                        u + 1 as int,
                    ) =~= (second.sigils@.take(point as int) + first.sigils@.subrange(
                        point as int,
                        u as int,
                    )).push(first.sigils@[u as int]));
                }
                u += 1;
            }
            let ok1 = !has_duplicate(&c1);
            let ok2 = !has_duplicate(&c2);
            proof {
                assert(ok1 == !has_dup(c1@));
                assert(ok2 == !has_dup(c2@));
                assert(c1@ == pending[0].0.subrange(0, point as int) + pending[1].0.subrange(
                    point as int,
                    slots as int,
                ));
                assert(c2@ == pending[1].0.subrange(0, point as int) + pending[0].0.subrange(
                    point as int,
                    slots as int,
                ));
            }
            if ok1 && ok2 {
                let child1 = Genome { sigils: c1, stone: first.stone };
                let child2 = Genome { sigils: c2, stone: second.stone };
                proof {
                    assert(genome_wf(child1, nsig, nstone, slots as int));
                    assert(genome_wf(child2, nsig, nstone, slots as int));
                }
                children.push(child1);
                children.push(child2);
                proof {
                    assert(gviews(children@) =~= gviews(children@.drop_last().drop_last())
                        + seq![gview(child1), gview(child2)]);
                }
            } else {
                let kid1 = clone_genome(first);
                let kid2 = clone_genome(second);
                children.push(kid1);
                children.push(kid2);
                proof {
                    assert(gview(kid1) == pending[0] && gview(kid2) == pending[1]);
                    assert(gviews(children@) =~= gviews(children@.drop_last().drop_last())
                        + seq![pending[0], pending[1]]);
                }
            }
        } else {
            let kid1 = clone_genome(first);
            let kid2 = clone_genome(second);
            children.push(kid1);
            children.push(kid2);
            proof {
                assert(gview(kid1) == pending[0] && gview(kid2) == pending[1]);
                assert(gviews(children@) =~= gviews(children@.drop_last().drop_last())
                    + seq![pending[0], pending[1]]);
            }
        }
        p += 2;
    }
    let ghost tail = gviews(parents@).skip(p as int);
    if p < n {
        let last = clone_genome(&parents[p]);
        children.push(last);
        proof {
            assert(gview(last) == gviews(parents@)[p as int]);
            assert(tail =~= seq![gview(last)]);
            assert(gviews(children@) =~= gviews(children@.drop_last()) + tail);
        }
    } else {
        proof {
            assert(tail =~= Seq::<(Seq<usize>, Option<usize>)>::empty());
            assert(gviews(children@) =~= gviews(children@) + tail);
        }
    }
    children
}

/// Whether a position occurs among the listed ones.
spec fn holds_position(v: Seq<usize>, x: usize) -> bool {
    exists|t: int| 0 <= t < v.len() && v[t] == x
}

/// The pointwise mutation of one position list, position by position.
spec fn mutate_positions(
    sig: Seq<usize>,
    pos: int,
    slots: int,
    nsig: int,
    rate: u8,
    state: u64,
) -> (Seq<usize>, u64)
    decreases slots - pos,
{
    if pos < 0 || pos >= slots {
        (sig, state)
    } else {
        let roll = rng_draw(state, 100);
        let rolled = rng_step(state);
        if roll < rate as usize {
            let candidate = rng_draw(rolled, nsig as usize);
            let drawn = rng_step(rolled);
            let replaced = if holds_position(sig, candidate) {
                sig
            } else {
                sig.update(pos, candidate)
            };
            mutate_positions(replaced, pos + 1, slots, nsig, rate, drawn)
        } else {
            mutate_positions(sig, pos + 1, slots, nsig, rate, rolled)
        }
    }
}

/// The pointwise mutation of a whole population, member by member.
spec fn mutate_spec(
    pending: Seq<(Seq<usize>, Option<usize>)>,
    slots: int,
    nsig: int,
    rate: u8,
    state: u64,
) -> (Seq<(Seq<usize>, Option<usize>)>, u64)
    decreases pending.len(),
{
    if pending.len() == 0 {
        (Seq::empty(), state)
    } else {
        let (sig, st) = mutate_positions(pending[0].0, 0, slots, nsig, rate, state);
        let (rest, st2) = mutate_spec(pending.skip(1), slots, nsig, rate, st);
        (seq![(sig, pending[0].1)] + rest, st2)
    }
}

/// Pointwise mutation: each position is, with the configured probability,
/// replaced by a fresh draw from the filtered pool; a draw already present in
/// the candidate leaves the position unchanged, preserving distinctness. The
/// wrightstone choice is not mutated. The outcome is a pure function of the
/// population and the generator state.
fn mutate_all(
    genomes: Vec<Genome>,
    slots: usize,
    nsig: usize,
    mutation_rate: u8,
    rng: &mut Rng,
    Ghost(nstone): Ghost<int>,
) -> (mutated: Vec<Genome>)
    requires
        slots <= nsig,
        genomes_wf(genomes@, nsig as int, nstone, slots as int),
    ensures
        mutated@.len() == genomes@.len(),
        genomes_wf(mutated@, nsig as int, nstone, slots as int),
        (gviews(mutated@), final(rng).state) == mutate_spec(
            gviews(genomes@),
            slots as int,
            nsig as int,
            mutation_rate,
            old(rng).state,
        ),
{
    let n = genomes.len();
    let mut mutated: Vec<Genome> = Vec::new();
    let mut gi: usize = 0;
    proof {
        assert(gviews(mutated@) =~= Seq::<(Seq<usize>, Option<usize>)>::empty());
        assert(gviews(genomes@).skip(0) =~= gviews(genomes@));
    }
    while gi < n
        invariant
            0 <= gi <= n,
            n == genomes@.len(),
            slots <= nsig,
            genomes_wf(genomes@, nsig as int, nstone, slots as int),
            mutated@.len() == gi,
            genomes_wf(mutated@, nsig as int, nstone, slots as int),
            mutate_spec(gviews(genomes@), slots as int, nsig as int, mutation_rate, old(rng).state)
                == {
                let (rest, st) = mutate_spec(
                    gviews(genomes@).skip(gi as int),
                    slots as int,
                    nsig as int,
                    mutation_rate,
                    rng.state,
                );
                (gviews(mutated@) + rest, st)
            },
        decreases n - gi,
    {
        let mut g = clone_genome(&genomes[gi]);
        let ghost entry_views = gviews(genomes@).skip(gi as int);
        let ghost st_in = rng.state;
        proof {
            assert(genome_wf(genomes@[gi as int], nsig as int, nstone, slots as int));
            assert(entry_views[0] == gview(genomes@[gi as int]));
            assert(g.sigils@ == entry_views[0].0);
        }
        let mut pos: usize = 0;
        while pos < slots
            invariant
                0 <= pos <= slots,
                slots <= nsig,
                genome_wf(g, nsig as int, nstone, slots as int),
                g.stone == genomes@[gi as int].stone,
                0 <= gi < genomes@.len(),
                mutate_positions(
                    gviews(genomes@).skip(gi as int)[0].0,
                    0,
                    slots as int,
                    nsig as int,
                    mutation_rate,
                    st_in,
                ) == mutate_positions(
                    g.sigils@,
                    pos as int,
                    slots as int,
                    nsig as int,
                    mutation_rate,
                    rng.state,
                ),
            decreases slots - pos,
        {
            let ghost st0 = rng.state;
            let ghost sig0 = g.sigils@;
            if rng.below(100) < mutation_rate as usize {
                let candidate = rng.below(nsig);
                if !contains_index(&g.sigils, candidate) {
                    let ghost before = g.sigils@;
                    g.sigils[pos] = candidate;
                    proof {
                        assert(g.sigils@ == before.update(pos as int, candidate));
                        assert forall|a: int, b: int| 0 <= a < b < g.sigils@.len()
                            implies g.sigils@[a] != g.sigils@[b] by {
                            if a != pos as int && b != pos as int {
                                assert(g.sigils@[a] == before[a] && g.sigils@[b] == before[b]);
                            }
                        }
                        assert(genome_wf(g, nsig as int, nstone, slots as int));
                    }
                }
            }
            proof {
                assert(mutate_positions(sig0, pos as int, slots as int, nsig as int, mutation_rate,
                    st0) == mutate_positions(g.sigils@, pos + 1 as int, slots as int, nsig as int,
                    mutation_rate, rng.state));
            }
            pos += 1;
        }
        mutated.push(g);
        proof {
            assert(gviews(mutated@) =~= gviews(mutated@.drop_last()) + seq![gview(g)]);
            assert(gviews(genomes@).skip(gi as int).skip(1) =~= gviews(genomes@).skip(
                gi + 1 as int,
            ));
        }
        gi += 1;
    }
    proof {
        assert(gviews(genomes@).skip(n as int) =~= Seq::<(Seq<usize>, Option<usize>)>::empty());
    }
    mutated
}

/// A solver using an evolutionary strategy. Rates are percentages in
/// `0..=100`; `seed` drives the injected deterministic random source, so a
/// fixed seed reproduces a run exactly.
pub struct GeneticSolver {
    pub population_size: usize,
    pub generations: usize,
    pub tournament_size: usize,
    pub crossover_rate: u8,
    pub mutation_rate: u8,
    pub seed: u64,
}

/// The build could have been assembled by the evolutionary strategy: exactly
/// the slot budget of pairwise distinct filtered-sigil positions, and a
/// filtered wrightstone exactly when one survives filtering.
pub open spec fn heuristic_member(r: ResultView, pool: SearchPool, query: SearchQuery) -> bool {
    let fs = filtered_sigils(pool, query.desired_traits@);
    let fw = filtered_stones(pool, query.desired_traits@);
    &&& exists|ix: Seq<int>|
        distinct_indices(ix) && indices_into(ix, fs.len() as int) && ix.len()
            == query.sigil_slots as int && r.sigils == select(fs, ix)
    &&& match r.wrightstone {
        Some(w) => fw.contains(w),
        None => fw.len() == 0,
    }
}

/// Computes the sum of the desired levels when it fits a `u64`.
fn desired_total_checked(query: &SearchQuery) -> (total: Option<u64>)
    ensures
        match total {
            Some(v) => v as int == desired_total(query.desired_traits@),
            None => desired_total(query.desired_traits@) > u64::MAX,
        },
{
    let ghost desired = query.desired_traits@;
    let entries = query.desired_traits.iter();
    let n = entries.len();
    proof {
        assert(forall|x: (TraitKind, u32)| #[trigger] level_weight()(x) >= 0);
        assert(forall|x: (TraitKind, u32)| #[trigger] level_weight()(x) <= u32::MAX);
        lemma_sum_by_upper(desired, level_weight(), u32::MAX as int);
        assert((u32::MAX as int) * desired.len() < u128::MAX) by (nonlinear_arith)
            requires desired.len() <= usize::MAX,
        ;
    }
    let mut total: u128 = 0;
    let mut i: usize = 0;
    while i < n
        invariant
            0 <= i <= n,
            n == entries@.len(),
            entries@ == desired,
            total as int == sum_by(desired.take(i as int), level_weight()),
            sum_by(desired, level_weight()) < u128::MAX,
        decreases n - i,
    {
        let (_, wanted) = entries[i];
        proof {
            lemma_sum_by_take_succ(desired, level_weight(), i as int);
            lemma_sum_by_split(desired, level_weight(), i + 1 as int);
            assert(forall|x: (TraitKind, u32)| #[trigger] level_weight()(x) >= 0);
            lemma_sum_by_nonneg(desired.skip(i + 1 as int), level_weight());
        }
        total = total + wanted as u128;
        i += 1;
    }
    proof {
        assert(desired.take(n as int) =~= desired);
    }
    if total <= u64::MAX as u128 {
        Some(total as u64)
    } else {
        None
    }
}

/// The initial population: one sampled genome per member, in order.
spec fn init_spec(count: int, nsig: int, nstone: int, slots: int, state: u64) -> (
    Seq<(Seq<usize>, Option<usize>)>,
    u64,
)
    decreases count,
{
    if count <= 0 {
        (Seq::empty(), state)
    } else {
        let (sigils, stone, st) = sample_spec(nsig, nstone, slots, state);
        let (rest, st2) = init_spec(count - 1, nsig, nstone, slots, st);
        (seq![(sigils, stone)] + rest, st2)
    }
}

/// The population after the given number of generations, each one an
/// evaluate-select-crossover-mutate round.
spec fn evolve(
    views: Seq<(Seq<usize>, Option<usize>)>,
    gens: int,
    sigs: Seq<Sigil>,
    stones: Seq<Wrightstone>,
    desired: Seq<(TraitKind, u32)>,
    tsize: int,
    slots: int,
    nsig: int,
    crossover_rate: u8,
    mutation_rate: u8,
    state: u64,
) -> (Seq<(Seq<usize>, Option<usize>)>, u64)
    decreases gens,
{
    if gens <= 0 {
        (views, state)
    } else {
        let scores = scores_spec(views, sigs, stones, desired);
        let (parents, st1) = select_spec(views, scores, views.len() as int, tsize, state);
        let (children, st2) = crossover_spec(parents, slots, crossover_rate, st1);
        let (mutated, st3) = mutate_spec(children, slots, nsig, mutation_rate, st2);
        evolve(mutated, gens - 1, sigs, stones, desired, tsize, slots, nsig, crossover_rate,
            mutation_rate, st3)
    }
}

/// The builds of a final population that satisfy the requirements, in order.
spec fn surviving(
    views: Seq<(Seq<usize>, Option<usize>)>,
    sigs: Seq<Sigil>,
    stones: Seq<Wrightstone>,
    desired: Seq<(TraitKind, u32)>,
) -> Seq<ResultView> {
    views.map_values(|v: (Seq<usize>, Option<usize>)| view_result(v, sigs, stones)).filter(
        satisfies_pred(desired),
    )
}

/// Exactly what the evolutionary strategy returns: a pure function of the
/// configuration (the seed included), the pool and the query — so two runs on
/// identical inputs return the identical sequence.
pub closed spec fn genetic_results(
    config: GeneticSolver,
    pool: SearchPool,
    query: SearchQuery,
) -> Seq<ResultView> {
    let desired = query.desired_traits@;
    let sigs = filtered_sigils(pool, desired);
    let stones = filtered_stones(pool, desired);
    let slots = query.sigil_slots as int;
    if desired_total(desired) > u64::MAX || config.population_size == 0
        || config.tournament_size == 0 || slots > sigs.len() {
        Seq::empty()
    } else {
        let (first, st) = init_spec(
            config.population_size as int,
            sigs.len() as int,
            stones.len() as int,
            slots,
            config.seed,
        );
        let (last, _) = evolve(
            first,
            config.generations as int,
            sigs,
            stones,
            desired,
            config.tournament_size as int,
            slots,
            sigs.len() as int,
            config.crossover_rate,
            config.mutation_rate,
            st,
        );
        surviving(last, sigs, stones, desired)
    }
}

/// Runs the evolutionary search: initialize a population of full-budget
/// candidates sampled without replacement from the filtered pool, then for
/// each generation evaluate, select by tournament, cross over and mutate, and
/// finally return the members of the last population that satisfy the query.
/// Returns nothing when the filtered pool cannot fill the slot budget, when
/// the configuration is degenerate (an empty population or tournament), or
/// when the summed desired levels overflow the score type: the strategy is
/// best-effort and promises soundness only.
pub fn genetic_search(
    config: &GeneticSolver,
    pool: SearchPool,
    query: &SearchQuery,
) -> (results: Vec<SearchResult>)
    requires
        query.desired_traits.wf(),
    ensures
        forall|i: int| 0 <= i < results@.len() ==> result_satisfies(
            (#[trigger] results@[i])@,
            query.desired_traits@,
        ),
        forall|i: int| 0 <= i < results@.len() ==> heuristic_member(
            (#[trigger] results@[i])@,
            pool,
            *query,
        ),
        results@.len() <= config.population_size,
        views_of(results@) == genetic_results(*config, pool, *query),
{
    let ghost desired = query.desired_traits@;
    let ghost fs = filtered_sigils(pool, desired);
    let ghost fw = filtered_stones(pool, desired);
    let slots = query.sigil_slots as usize;
    let total = desired_total_checked(query);
    let filtered = filter_pool(pool, query);
    let nsig = filtered.sigils.len();
    let nstone = filtered.wrightstones.len();
    if total.is_none() || config.population_size == 0 || config.tournament_size == 0
        || slots > nsig {
        let empty: Vec<SearchResult> = Vec::new();
        proof {
            assert(views_of(empty@) =~= Seq::<ResultView>::empty());
            assert(genetic_results(*config, pool, *query) == Seq::<ResultView>::empty());
        }
        return empty;
    }
    let mut rng = Rng::new(config.seed);
    let mut population: Vec<Genome> = Vec::new();
    let mut m: usize = 0;
    proof {
        assert(gviews(population@) =~= Seq::<(Seq<usize>, Option<usize>)>::empty());
    }
    while m < config.population_size
        invariant
            0 <= m <= config.population_size,
            slots <= nsig,
            nsig == filtered.sigils@.len(),
            nstone == filtered.wrightstones@.len(),
            population@.len() == m,
            genomes_wf(population@, nsig as int, nstone as int, slots as int),
            init_spec(
                config.population_size as int,
                nsig as int,
                nstone as int,
                slots as int,
                config.seed,
            ) == {
                let (rest, st) = init_spec(
                    config.population_size - m as int,
                    nsig as int,
                    nstone as int,
                    slots as int,
                    rng.state,
                );
                (gviews(population@) + rest, st)
            },
        decreases config.population_size - m,
    {
        let g = sample_genome(nsig, nstone, slots, &mut rng);
        population.push(g);
        proof {
            assert(gviews(population@) =~= gviews(population@.drop_last()) + seq![gview(g)]);
        }
        m += 1;
    }
    let ghost first_views = gviews(population@);
    let ghost state_after_init = rng.state;
    proof {
        assert(init_spec(
            config.population_size as int,
            nsig as int,
            nstone as int,
            slots as int,
            config.seed,
        ) == (first_views, state_after_init));
    }
    let mut gen: usize = 0;
    while gen < config.generations
        invariant
            0 <= gen <= config.generations,
            slots <= nsig,
            slots <= 255,
            nsig == filtered.sigils@.len(),
            nstone == filtered.wrightstones@.len(),
            config.population_size > 0,
            config.tournament_size > 0,
            query.desired_traits.wf(),
            desired == query.desired_traits@,
            desired_total(desired) <= u64::MAX,
            population@.len() == config.population_size,
            genomes_wf(population@, nsig as int, nstone as int, slots as int),
            evolve(
                first_views,
                config.generations as int,
                filtered.sigils@,
                filtered.wrightstones@,
                desired,
                config.tournament_size as int,
                slots as int,
                nsig as int,
                config.crossover_rate,
                config.mutation_rate,
                state_after_init,
            ) == evolve(
                gviews(population@),
                config.generations - gen as int,
                filtered.sigils@,
                filtered.wrightstones@,
                desired,
                config.tournament_size as int,
                slots as int,
                nsig as int,
                config.crossover_rate,
                config.mutation_rate,
                rng.state,
            ),
        decreases config.generations - gen,
    {
        let ghost old_state = rng.state;
        let scores = evaluate(&population, &filtered, query, Ghost(nstone as int), Ghost(
            slots as int,
        ));
        let parents = select_parents(&population, &scores, config.tournament_size, &mut rng, Ghost(
            nsig as int,
        ), Ghost(nstone as int), Ghost(slots as int));
        let children = crossover_pairs(&parents, slots, config.crossover_rate, &mut rng, Ghost(
            nsig as int,
        ), Ghost(nstone as int));
        let ghost before_views = gviews(population@);
        let ghost state_before = old_state;
        population = mutate_all(children, slots, nsig, config.mutation_rate, &mut rng, Ghost(
            nstone as int,
        ));
        proof {
            assert(evolve(
                before_views,
                config.generations - gen as int,
                filtered.sigils@,
                filtered.wrightstones@,
                desired,
                config.tournament_size as int,
                slots as int,
                nsig as int,
                config.crossover_rate,
                config.mutation_rate,
                state_before,
            ) == evolve(
                gviews(population@),
                config.generations - gen - 1 as int,
                filtered.sigils@,
                filtered.wrightstones@,
                desired,
                config.tournament_size as int,
                slots as int,
                nsig as int,
                config.crossover_rate,
                config.mutation_rate,
                rng.state,
            ));
        }
        gen += 1;
    }
    let ghost last_views = gviews(population@);
    proof {
        assert(evolve(
            first_views,
            config.generations as int,
            filtered.sigils@,
            filtered.wrightstones@,
            desired,
            config.tournament_size as int,
            slots as int,
            nsig as int,
            config.crossover_rate,
            config.mutation_rate,
            state_after_init,
        ).0 == last_views);
    }
    let mut results: Vec<SearchResult> = Vec::new();
    let ghost mapped = last_views.map_values(
        |v: (Seq<usize>, Option<usize>)| view_result(v, filtered.sigils@, filtered.wrightstones@),
    );
    let ghost pred = satisfies_pred(desired);
    let n = population.len();
    let mut i: usize = 0;
    proof {
        assert(views_of(results@) =~= mapped.take(0).filter(pred));
    }
    while i < n
        invariant
            0 <= i <= n,
            n == population@.len(),
            mapped == gviews(population@).map_values(
                |v: (Seq<usize>, Option<usize>)| view_result(
                    v,
                    filtered.sigils@,
                    filtered.wrightstones@,
                ),
            ),
            pred == satisfies_pred(desired),
            views_of(results@) == mapped.take(i as int).filter(pred),
            n == config.population_size,
            results@.len() <= i,
            slots <= 255,
            slots == query.sigil_slots as usize,
            nsig == filtered.sigils@.len(),
            nstone == filtered.wrightstones@.len(),
            filtered.sigils@ == fs,
            filtered.wrightstones@ == fw,
            fs == filtered_sigils(pool, desired),
            fw == filtered_stones(pool, desired),
            query.desired_traits.wf(),
            desired == query.desired_traits@,
            genomes_wf(population@, nsig as int, nstone as int, slots as int),
            forall|t: int| 0 <= t < results@.len() ==> result_satisfies(
                (#[trigger] results@[t])@,
                desired,
            ),
            forall|t: int| 0 <= t < results@.len() ==> heuristic_member(
                (#[trigger] results@[t])@,
                pool,
                *query,
            ),
        decreases n - i,
    {
        proof {
            assert(genome_wf(population@[i as int], nsig as int, nstone as int, slots as int));
        }
        let candidate = realize(&population[i], &filtered);
        proof {
            lemma_result_level_bound(candidate@);
        }
        let valid = is_valid_result(&candidate, query);
        proof {
            assert(candidate@ == mapped[i as int]);
            crate::solver::util::lemma_filter_take_succ(mapped, pred, i as int);
        }
        if valid {
            proof {
                let g = population@[i as int];
                let ix = g.sigils@.map_values(|j: usize| j as int);
                assert(distinct_indices(ix)) by {
                    assert forall|a: int, b: int| 0 <= a < b < ix.len() implies ix[a] != ix[b] by {
                        assert(g.sigils@[a] != g.sigils@[b]);
                    }
                }
                assert(indices_into(ix, fs.len() as int)) by {
                    assert forall|a: int| 0 <= a < ix.len() implies 0 <= #[trigger] ix[a]
                        < fs.len() as int by {
                        assert(g.sigils@[a] < nsig);
                    }
                }
                assert(candidate@.sigils =~= select(fs, ix)) by {
                    assert forall|a: int| 0 <= a < ix.len() implies candidate@.sigils[a]
                        == select(fs, ix)[a] by {
                        assert(candidate@.sigils[a] == filtered.sigils@[g.sigils@[a] as int]);
                    }
                }
                assert(ix.len() == query.sigil_slots as int);
                assert(heuristic_member(candidate@, pool, *query)) by {
                    match g.stone {
                        Some(j) => {
                            assert(candidate@.wrightstone == Some(fw[j as int]));
                            assert(fw.contains(fw[j as int]));
                        },
                        None => {
                            assert(fw.len() == 0);
                        },
                    }
                }
            }
            results.push(candidate);
            proof {
                assert(views_of(results@) =~= mapped.take(i + 1 as int).filter(pred));
            }
        } else {
            proof {
                assert(views_of(results@) =~= mapped.take(i + 1 as int).filter(pred));
            }
        }
        i += 1;
    }
    proof {
        assert(mapped.take(n as int) =~= mapped);
        assert(views_of(results@) == surviving(
            last_views,
            filtered.sigils@,
            filtered.wrightstones@,
            desired,
        ));
        assert(genetic_results(*config, pool, *query) == surviving(
            last_views,
            filtered.sigils@,
            filtered.wrightstones@,
            desired,
        ));
    }
    results
}

/// The score one genome image earns against the requirements.
spec fn score_of(
    v: (Seq<usize>, Option<usize>),
    sigs: Seq<Sigil>,
    stones: Seq<Wrightstone>,
    desired: Seq<(TraitKind, u32)>,
) -> u64 {
    fitness_spec(view_result(v, sigs, stones), desired) as u64
}

/// The scores of a whole population, in order.
spec fn scores_spec(
    views: Seq<(Seq<usize>, Option<usize>)>,
    sigs: Seq<Sigil>,
    stones: Seq<Wrightstone>,
    desired: Seq<(TraitKind, u32)>,
) -> Seq<u64> {
    views.map_values(|v: (Seq<usize>, Option<usize>)| score_of(v, sigs, stones, desired))
}

/// Scores every member of the population; each score is a pure function of
/// the member and the query.
fn evaluate(
    genomes: &Vec<Genome>,
    pool: &SearchPool,
    query: &SearchQuery,
    Ghost(nstone): Ghost<int>,
    Ghost(slots): Ghost<int>,
) -> (scores: Vec<u64>)
    requires
        query.desired_traits.wf(),
        desired_total(query.desired_traits@) <= u64::MAX,
        slots <= 255,
        genomes_wf(genomes@, pool.sigils@.len() as int, nstone, slots),
        nstone == pool.wrightstones@.len(),
    ensures
        scores@.len() == genomes@.len(),
        forall|t: int| 0 <= t < genomes@.len() ==> (#[trigger] scores@[t]) as int == fitness_spec(
            genome_view(genomes@[t], *pool),
            query.desired_traits@,
        ),
        scores@ == scores_spec(
            gviews(genomes@),
            pool.sigils@,
            pool.wrightstones@,
            query.desired_traits@,
        ),
{
    let n = genomes.len();
    let mut scores: Vec<u64> = Vec::new();
    let mut i: usize = 0;
    while i < n
        invariant
            0 <= i <= n,
            n == genomes@.len(),
            query.desired_traits.wf(),
            desired_total(query.desired_traits@) <= u64::MAX,
            slots <= 255,
            genomes_wf(genomes@, pool.sigils@.len() as int, nstone, slots),
            nstone == pool.wrightstones@.len(),
            scores@.len() == i,
            forall|t: int| 0 <= t < i ==> (#[trigger] scores@[t]) as int == fitness_spec(
                genome_view(genomes@[t], *pool),
                query.desired_traits@,
            ),
        decreases n - i,
    {
        proof {
            assert(genome_wf(genomes@[i as int], pool.sigils@.len() as int, nstone, slots));
        }
        let candidate = realize(&genomes[i], pool);
        let score = fitness(&candidate, query);
        scores.push(score);
        i += 1;
    }
    proof {
        assert(scores@ =~= scores_spec(
            gviews(genomes@),
            pool.sigils@,
            pool.wrightstones@,
            query.desired_traits@,
        )) by {
            assert forall|t: int| 0 <= t < genomes@.len() implies scores@[t] == score_of(
                gviews(genomes@)[t],
                pool.sigils@,
                pool.wrightstones@,
                query.desired_traits@,
            ) by {
                lemma_fitness_maximal_iff_satisfies(
                    view_result(gview(genomes@[t]), pool.sigils@, pool.wrightstones@),
                    query.desired_traits@,
                );
            }
        }
    }
    scores
}

impl Solver for GeneticSolver {
    fn search(&self, pool: SearchPool, query: &SearchQuery) -> (results: Vec<SearchResult>)
        ensures
            views_of(results@) == genetic_results(*self, pool, *query),
            forall|i: int| 0 <= i < results@.len() ==> heuristic_member(
                (#[trigger] results@[i])@,
                pool,
                *query,
            ),
            results@.len() <= self.population_size,
    {
        genetic_search(self, pool, query)
    }
}

} // verus!
