//! Pools, queries and results of a build search, with the spec-level measures
//! (per-kind levels, totals, validity) that the solvers' contracts use.

use vstd::prelude::*;

use crate::model::sigil::{sigil_level, sigil_total_weight, sigil_weight, sigils_level, Sigil};
use crate::model::traits::{entries_level, grants_level, grant_weight, Trait, TraitKind, TraitSet};
use crate::model::wrightstone::{stone_opt_level, stone_opt_total, Wrightstone};
use crate::summation::{
    lemma_sum_by_nonneg, lemma_sum_by_push, lemma_sum_by_split, lemma_sum_by_take_succ, sum_by,
};

verus! {

/// A query: desired minimum levels per kind, plus the largest number of sigils
/// a build may use. Wrightstones do not consume slots.
#[derive(Debug)]
pub struct SearchQuery {
    pub desired_traits: TraitSet,
    pub sigil_slots: u8,
}

/// The full candidate universe for one search.
#[derive(Clone, Debug)]
pub struct SearchPool {
    pub sigils: Vec<Sigil>,
    pub wrightstones: Vec<Wrightstone>,
}

/// One candidate build: a chosen sequence of sigils plus at most one chosen
/// wrightstone.
#[derive(Clone, Debug, PartialEq)]
pub struct SearchResult {
    pub sigils: Vec<Sigil>,
    pub wrightstone: Option<Wrightstone>,
}

/// The spec-level image of a `SearchResult`.
#[verifier::ext_equal]
pub struct ResultView {
    pub sigils: Seq<Sigil>,
    pub wrightstone: Option<Wrightstone>,
}

impl View for SearchResult {
    type V = ResultView;

    open spec fn view(&self) -> ResultView {
        ResultView { sigils: self.sigils@, wrightstone: self.wrightstone }
    }
}

/// The level a build reaches for `kind`: the sum of every grant from its
/// sigils and its wrightstone, if any.
pub open spec fn result_level(r: ResultView, kind: TraitKind) -> int {
    sigils_level(r.sigils, kind) + stone_opt_level(r.wrightstone, kind)
}

/// The total level a build reaches, over all kinds.
pub open spec fn result_total(r: ResultView) -> int {
    sum_by(r.sigils, sigil_total_weight()) + stone_opt_total(r.wrightstone)
}

/// A build satisfies a requirement set iff it reaches every desired level.
pub open spec fn result_satisfies(r: ResultView, desired: Seq<(TraitKind, u32)>) -> bool {
    forall|k: TraitKind| entries_level(desired, k) <= result_level(r, k)
}

/// Sigil weights are pointwise nonnegative.
pub proof fn lemma_sigil_weight_nonneg(kind: TraitKind)
    ensures
        forall|x: Sigil| #[trigger] sigil_weight(kind)(x) >= 0,
        forall|x: Sigil| #[trigger] sigil_total_weight()(x) >= 0,
{
}

/// How the sigil-level sum over a prefix grows by one step, and that it never
/// exceeds the sum over the whole sequence.
pub proof fn lemma_sigils_prefix_bound(s: Seq<Sigil>, i: int, kind: TraitKind)
    requires
        0 <= i < s.len(),
    ensures
        sigils_level(s.take(i + 1), kind) == sigils_level(s.take(i), kind)
            + sigil_level(s[i], kind),
        sigils_level(s.take(i + 1), kind) <= sigils_level(s, kind),
        sigils_level(s.take(i), kind) >= 0,
{
    lemma_sigil_weight_nonneg(kind);
    lemma_sum_by_take_succ(s, sigil_weight(kind), i);
    lemma_sum_by_split(s, sigil_weight(kind), i + 1);
    lemma_sum_by_nonneg(s.skip(i + 1), sigil_weight(kind));
    lemma_sum_by_nonneg(s.take(i), sigil_weight(kind));
}

impl SearchResult {
    /// Summed level this build reaches for one kind.
    pub fn trait_level(&self, kind: TraitKind) -> (level: u32)
        requires
            result_level(self@, kind) <= u32::MAX,
        ensures
            level as int == result_level(self@, kind),
    {
        let n = self.sigils.len();
        let mut sum: u32 = 0;
        let mut i: usize = 0;
        while i < n
            invariant
                0 <= i <= n,
                n == self.sigils.len(),
                result_level(self@, kind) <= u32::MAX,
                sum as int == sigils_level(self.sigils@.take(i as int), kind),
            decreases n - i,
        {
            proof {
                lemma_sigils_prefix_bound(self.sigils@, i as int, kind);
                assert(stone_opt_level(self@.wrightstone, kind) >= 0);
            }
            let t1 = self.sigils[i].trait1;
            if t1.kind == kind {
                sum = sum + t1.level as u32;
            }
            if let Some(t2) = self.sigils[i].trait2 {
                if t2.kind == kind {
                    sum = sum + t2.level as u32;
                }
            }
            proof {
                assert(sum as int == sigils_level(self.sigils@.take(i + 1 as int), kind));
            }
            i += 1;
        }
        proof {
            assert(self.sigils@.take(n as int) =~= self.sigils@);
        }
        if let Some(stone) = &self.wrightstone {
            let t1 = stone.trait1;
            if t1.kind == kind {
                sum = sum + t1.level as u32;
            }
            if let Some(t2) = stone.trait2 {
                if t2.kind == kind {
                    sum = sum + t2.level as u32;
                }
            }
            if let Some(t3) = stone.trait3 {
                if t3.kind == kind {
                    sum = sum + t3.level as u32;
                }
            }
        }
        sum
    }

    /// Every grant of this build, sigils first, then the wrightstone's.
    fn all_grants(&self) -> (grants: Vec<Trait>)
        ensures
            forall|k: TraitKind| grants_level(grants@, k) == result_level(self@, k),
    {
        let mut grants: Vec<Trait> = Vec::new();
        let n = self.sigils.len();
        let mut i: usize = 0;
        while i < n
            invariant
                0 <= i <= n,
                n == self.sigils.len(),
                forall|k: TraitKind| grants_level(grants@, k)
                    == sigils_level(self.sigils@.take(i as int), k),
            decreases n - i,
        {
            let ghost before = grants@;
            let t1 = self.sigils[i].trait1;
            grants.push(t1);
            let ghost mid = grants@;
            proof {
                assert forall|k: TraitKind| grants_level(mid, k)
                    == grants_level(before, k) + grant_weight(k)(t1) by {
                    lemma_sum_by_push(before, grant_weight(k), t1);
                }
            }
            if let Some(t2) = self.sigils[i].trait2 {
                grants.push(t2);
                proof {
                    assert forall|k: TraitKind| grants_level(grants@, k)
                        == grants_level(mid, k) + grant_weight(k)(t2) by {
                        lemma_sum_by_push(mid, grant_weight(k), t2);
                    }
                }
            }
            proof {
                assert forall|k: TraitKind| grants_level(grants@, k)
                    == sigils_level(self.sigils@.take(i + 1 as int), k) by {
                    lemma_sum_by_take_succ(self.sigils@, sigil_weight(k), i as int);
                }
            }
            i += 1;
        }
        proof {
            assert(self.sigils@.take(n as int) =~= self.sigils@);
        }
        if let Some(stone) = &self.wrightstone {
            let ghost base = grants@;
            grants.push(stone.trait1);
            let ghost g1 = grants@;
            proof {
                assert forall|k: TraitKind| grants_level(g1, k)
                    == grants_level(base, k) + grant_weight(k)(stone.trait1) by {
                    lemma_sum_by_push(base, grant_weight(k), stone.trait1);
                }
            }
            if let Some(t2) = stone.trait2 {
                grants.push(t2);
                proof {
                    assert forall|k: TraitKind| grants_level(grants@, k)
                        == grants_level(g1, k) + grant_weight(k)(t2) by {
                        lemma_sum_by_push(g1, grant_weight(k), t2);
                    }
                }
            }
            let ghost g2 = grants@;
            if let Some(t3) = stone.trait3 {
                grants.push(t3);
                proof {
                    assert forall|k: TraitKind| grants_level(grants@, k)
                        == grants_level(g2, k) + grant_weight(k)(t3) by {
                        lemma_sum_by_push(g2, grant_weight(k), t3);
                    }
                }
            }
        }
        grants
    }

    /// The `TraitSet` a build provides: every grant from every chosen sigil
    /// and the chosen wrightstone, aggregated by `add`.
    pub fn traits(&self) -> (ts: TraitSet)
        requires
            forall|k: TraitKind| result_level(self@, k) <= u32::MAX,
        ensures
            ts.wf(),
            forall|k: TraitKind| ts.spec_level(k) == result_level(self@, k),
    {
        let grants = self.all_grants();
        TraitSet::from_traits(&grants)
    }

    /// Summed level of this build over all kinds.
    pub fn total_trait_level(&self) -> (total: u32)
        requires
            result_total(self@) <= u32::MAX,
        ensures
            total as int == result_total(self@),
    {
        let n = self.sigils.len();
        let mut sum: u32 = 0;
        let mut i: usize = 0;
        while i < n
            invariant
                0 <= i <= n,
                n == self.sigils.len(),
                result_total(self@) <= u32::MAX,
                sum as int == sum_by(self.sigils@.take(i as int), sigil_total_weight()),
            decreases n - i,
        {
            proof {
                lemma_sigil_weight_nonneg(self.sigils@[i as int].trait1.kind);
                lemma_sum_by_take_succ(self.sigils@, sigil_total_weight(), i as int);
                lemma_sum_by_split(self.sigils@, sigil_total_weight(), i + 1 as int);
                lemma_sum_by_nonneg(self.sigils@.skip(i + 1 as int), sigil_total_weight());
                assert(stone_opt_total(self@.wrightstone) >= 0);
            }
            let t1 = self.sigils[i].trait1;
            sum = sum + t1.level as u32;
            if let Some(t2) = self.sigils[i].trait2 {
                sum = sum + t2.level as u32;
            }
            i += 1;
        }
        proof {
            assert(self.sigils@.take(n as int) =~= self.sigils@);
        }
        if let Some(stone) = &self.wrightstone {
            sum = sum + stone.trait1.level as u32;
            if let Some(t2) = stone.trait2 {
                sum = sum + t2.level as u32;
            }
            if let Some(t3) = stone.trait3 {
                sum = sum + t3.level as u32;
            }
        }
        sum
    }
}

} // verus!
