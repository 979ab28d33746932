//! Trait kinds, graded trait grants, and the `TraitSet` aggregator that maps
//! each kind to a summed level.

use vstd::prelude::*;

use crate::summation::{
    lemma_sum_by_nonneg, lemma_sum_by_push, lemma_sum_by_single, lemma_sum_by_update,
    lemma_sum_by_zero, sum_by,
};

verus! {

/// One identifier from the closed catalog of gameplay modifiers.
#[derive(Clone, Copy, Debug, PartialEq, Eq, Hash, Structural)]
pub enum TraitKind {
    Aegis,
    Alpha,
    ATKDownResistance,
    ATK,
    Autorevive,
    Berserker,
    Beta,
    BlightResistance,
    BreakAssassin,
    BurnResistance,
    ButterflysGrace,
    ButterflysValor,
    Cascade,
    Catastrophe,
    ChargedAttackDMG,
    ComboBooster,
    ComboFinisherDMG,
    ConcentratedFire,
    CrabvestmentReturns,
    CrabbyResonance,
    CrimsonsClout,
    CrimsonsFlight,
    CriticalHitDMG,
    CriticalHitRate,
    DarkflameResistance,
    DEFDownDesistance,
    DizzyResistance,
    DMGCap,
    DodgePayback,
    DragonslayersDominance,
    DragonslayersIngenuity,
    Drain,
    EbonysPoise,
    EbonysPresence,
    Enmity,
    EternalRagesEthos,
    EternalRagesMettle,
    FastLearner,
    FearlessDrive,
    FearlessSpirit,
    FirmStance,
    FlightOverFight,
    FoundersStrategy,
    FoundersTruth,
    Gamma,
    Garrison,
    GlaciateResistance,
    GlassCannon,
    GuardiansConviction,
    GuardiansHonor,
    GuardPayback,
    Guts,
    HeldUnderResistance,
    HelmsmansNavigation,
    HelmsmansTenacity,
    HerosCreed,
    HerosWill,
    HolyKnightsGrandeur,
    HolyKnightsLuster,
    HP,
    ImprovedDodge,
    ImprovedGuard,
    ImprovedHealing,
    InjuryToInsult,
    LessIsMore,
    LifeOnTheLine,
    LinkedTogether,
    LordsAmbition,
    LordsProcession,
    LowProfile,
    LuckyCharge,
    MagesAspiration,
    MagesSavvy,
    NaturalDefenses,
    NimbleDefense,
    NimbleOnslaught,
    OverdriveAssassin,
    ParalysisResistance,
    PathToMastery,
    PhantasmsConcord,
    PhantasmsHarmony,
    PoisonResistance,
    PotentGreens,
    PotionHoarder,
    PowerHungry,
    PreciseResilience,
    PreciseWrath,
    Provoke,
    QuickCharge,
    QuickCooldown,
    Regen,
    RollOfTheDie,
    RosesBlooming,
    RosesProfusion,
    RupieTycoon,
    SandtombResistance,
    SBASealedResistance,
    SigilBooster,
    SkilledAssault,
    SkillSealedResistance,
    SlowResistance,
    Stamina,
    SteadyFocus,
    SteelNerves,
    StoutHeart,
    StunPower,
    SupplementaryDamage,
    SwordmastersArt,
    SwordmastersProwess,
    ThrowDMG,
    Tyranny,
    Uplift,
    VersalisFoundation,
    VersalisIgnition,
    VeteransInsight,
    VeteransVision,
    WarElemental,
    WeakPointDMG,
    WhiteDragonsGlory,
    WhiteDragonsOath,
}

/// A single graded modifier grant: a kind together with its level.
#[derive(Clone, Copy, Debug, PartialEq, Eq, Hash, Structural)]
pub struct Trait {
    pub kind: TraitKind,
    pub level: u8,
}

impl Trait {
    pub fn new(kind: TraitKind, level: u8) -> (t: Trait)
        ensures
            t.kind == kind,
            t.level == level,
    {
        Trait { kind, level }
    }
}

/// The level that one `(kind, level)` entry contributes towards `kind`.
pub open spec fn entry_weight(kind: TraitKind) -> spec_fn((TraitKind, u32)) -> int {
    |e: (TraitKind, u32)| if e.0 == kind { e.1 as int } else { 0 }
}

/// The summed level that a sequence of entries assigns to `kind`.
pub open spec fn entries_level(s: Seq<(TraitKind, u32)>, kind: TraitKind) -> int {
    sum_by(s, entry_weight(kind))
}

/// Some entry names `kind`.
pub open spec fn entries_contain(s: Seq<(TraitKind, u32)>, kind: TraitKind) -> bool {
    exists|i: int| 0 <= i < s.len() && (#[trigger] s[i]).0 == kind
}

/// The entries name pairwise distinct kinds.
pub open spec fn entries_wf(s: Seq<(TraitKind, u32)>) -> bool {
    forall|i: int, j: int| 0 <= i < j < s.len() ==> (#[trigger] s[i]).0 != (#[trigger] s[j]).0
}

pub proof fn lemma_entries_level_nonneg(s: Seq<(TraitKind, u32)>, kind: TraitKind)
    ensures
        entries_level(s, kind) >= 0,
{
    lemma_sum_by_nonneg(s, entry_weight(kind));
}

/// A kind named by no entry has level zero.
pub proof fn lemma_entries_level_absent(s: Seq<(TraitKind, u32)>, kind: TraitKind)
    requires
        !entries_contain(s, kind),
    ensures
        entries_level(s, kind) == 0,
{
    lemma_sum_by_zero(s, entry_weight(kind));
}

/// With pairwise distinct kinds, the summed level of the kind at entry `i` is
/// exactly that entry's level.
pub proof fn lemma_entries_level_at(s: Seq<(TraitKind, u32)>, i: int)
    requires
        entries_wf(s),
        0 <= i < s.len(),
    ensures
        entries_level(s, s[i].0) == s[i].1 as int,
{
    lemma_sum_by_single(s, entry_weight(s[i].0), i);
}

/// An aggregation of trait kinds to summed levels. A kind held by no entry has
/// level zero.
#[derive(Debug)]
pub struct TraitSet {
    entries: Vec<(TraitKind, u32)>,
}

impl View for TraitSet {
    type V = Seq<(TraitKind, u32)>;

    closed spec fn view(&self) -> Seq<(TraitKind, u32)> {
        self.entries@
    }
}

impl TraitSet {
    /// The entries name pairwise distinct kinds.
    pub open spec fn wf(&self) -> bool {
        entries_wf(self@)
    }

    /// The accumulated level of `kind`, zero if absent.
    pub open spec fn spec_level(&self, kind: TraitKind) -> int {
        entries_level(self@, kind)
    }

    pub open spec fn spec_contains(&self, kind: TraitKind) -> bool {
        entries_contain(self@, kind)
    }

    /// Every kind reaches at least the level that `other` asks of it.
    pub open spec fn spec_superset_of(&self, other: &TraitSet) -> bool {
        forall|k: TraitKind| entries_level(other@, k) <= entries_level(self@, k)
    }

    pub fn new() -> (s: TraitSet)
        ensures
            s@ == Seq::<(TraitKind, u32)>::empty(),
            s.wf(),
            forall|k: TraitKind| s.spec_level(k) == 0,
            forall|k: TraitKind| !s.spec_contains(k),
    {
        let s = TraitSet { entries: Vec::new() };
        proof {
            assert forall|k: TraitKind| s.spec_level(k) == 0 by {
                lemma_sum_by_zero(s@, entry_weight(k));
            }
        }
        s
    }

    /// Raises the accumulated level of `t.kind` by `t.level`, inserting the
    /// kind if it was absent. Every other kind keeps its level.
    pub fn add(&mut self, t: Trait)
        requires
            old(self).wf(),
            old(self).spec_level(t.kind) + t.level <= u32::MAX,
        ensures
            final(self).wf(),
            forall|k: TraitKind| final(self).spec_level(k) == old(self).spec_level(k)
                + (if k == t.kind { t.level as int } else { 0 }),
            forall|k: TraitKind| final(self).spec_contains(k)
                <==> (old(self).spec_contains(k) || k == t.kind),
    {
        let ghost pre = self.entries@;
        let n = self.entries.len();
        let mut i: usize = 0;
        while i < n
            invariant
                0 <= i <= n,
                n == self.entries.len(),
                self.entries@ == pre,
                pre == old(self).entries@,
                entries_wf(pre),
                entries_level(pre, t.kind) + t.level <= u32::MAX,
                forall|j: int| 0 <= j < i ==> (#[trigger] pre[j]).0 != t.kind,
            decreases n - i,
        {
            let (k, l) = self.entries[i];
            if k == t.kind {
                proof {
                    lemma_entries_level_at(pre, i as int);
                }
                let raised = l + t.level as u32;
                self.entries[i] = (t.kind, raised);
                proof {
                    assert(self.entries@ == pre.update(i as int, (t.kind, raised)));
                    assert forall|j: int| 0 <= j < pre.len() implies (#[trigger] self.entries@[j]).0
                        == pre[j].0 by {
                        if j != i as int {
                            assert(self.entries@[j] == pre[j]);
                        }
                    }
                    assert(self.wf());
                    assert forall|q: TraitKind| self.spec_level(q) == entries_level(pre, q)
                        + (if q == t.kind { t.level as int } else { 0 }) by {
                        lemma_sum_by_update(pre, entry_weight(q), i as int, (t.kind, raised));
                    }
                    assert forall|q: TraitKind| self.spec_contains(q)
                        <==> (entries_contain(pre, q) || q == t.kind) by {
                        if entries_contain(pre, q) {
                            let w = choose|w: int| 0 <= w < pre.len() && (#[trigger] pre[w]).0 == q;
                            assert(self.entries@[w].0 == q);
                        }
                        if self.spec_contains(q) {
                            let w = choose|w: int|
                                0 <= w < self.entries@.len() && (#[trigger] self.entries@[w]).0 == q;
                            assert(pre[w].0 == q || q == t.kind);
                        }
                    }
                }
                return ;
            }
            i += 1;
        }
        proof {
            lemma_entries_level_absent(pre, t.kind);
        }
        self.entries.push((t.kind, t.level as u32));
        proof {
            assert(self.entries@ == pre.push((t.kind, t.level as u32)));
            assert forall|q: TraitKind| self.spec_level(q) == entries_level(pre, q)
                + (if q == t.kind { t.level as int } else { 0 }) by {
                lemma_sum_by_push(pre, entry_weight(q), (t.kind, t.level as u32));
            }
            assert forall|a: int, b: int| 0 <= a < b < self.entries@.len() implies (
                #[trigger] self.entries@[a]).0 != (#[trigger] self.entries@[b]).0 by {
                assert(self.entries@[a] == pre[a]);
                if b == pre.len() as int {
                    assert(pre[a].0 != t.kind);
                } else {
                    assert(self.entries@[b] == pre[b]);
                }
            }
            assert(self.wf());
            assert forall|q: TraitKind| self.spec_contains(q)
                <==> (old(self).spec_contains(q) || q == t.kind) by {
                assert(entries_contain(pre, q) == old(self).spec_contains(q));
                if entries_contain(pre, q) {
                    let w = choose|w: int| 0 <= w < pre.len() && (#[trigger] pre[w]).0 == q;
                    assert(self.entries@[w].0 == q);
                }
                if q == t.kind {
                    assert(self.entries@[pre.len() as int].0 == q);
                }
                if self.spec_contains(q) {
                    let w = choose|w: int|
                        0 <= w < self.entries@.len() && (#[trigger] self.entries@[w]).0 == q;
                    if w < pre.len() {
                        assert(pre[w].0 == q);
                    } else {
                        assert(q == t.kind);
                    }
                }
            }
        }
    }

    /// The accumulated level of `kind`, zero if the kind is absent.
    pub fn level(&self, kind: TraitKind) -> (level: u32)
        requires
            self.wf(),
        ensures
            level as int == self.spec_level(kind),
    {
        let n = self.entries.len();
        let mut i: usize = 0;
        while i < n
            invariant
                0 <= i <= n,
                n == self.entries.len(),
                self.wf(),
                forall|j: int| 0 <= j < i ==> (#[trigger] self@[j]).0 != kind,
            decreases n - i,
        {
            let (k, l) = self.entries[i];
            if k == kind {
                proof {
                    lemma_entries_level_at(self@, i as int);
                }
                return l;
            }
            i += 1;
        }
        proof {
            lemma_entries_level_absent(self@, kind);
        }
        0
    }

    pub fn contains(&self, kind: TraitKind) -> (present: bool)
        ensures
            present == self.spec_contains(kind),
    {
        let n = self.entries.len();
        let mut i: usize = 0;
        while i < n
            invariant
                0 <= i <= n,
                n == self.entries.len(),
                forall|j: int| 0 <= j < i ==> (#[trigger] self@[j]).0 != kind,
            decreases n - i,
        {
            let (k, _) = self.entries[i];
            if k == kind {
                return true;
            }
            i += 1;
        }
        false
    }

    /// Holds iff every kind that `other` asks for reaches at least the asked
    /// level here; vacuously true when `other` is empty.
    pub fn is_superset_of(&self, other: &TraitSet) -> (superset: bool)
        requires
            self.wf(),
            other.wf(),
        ensures
            superset == self.spec_superset_of(other),
    {
        let n = other.entries.len();
        let mut i: usize = 0;
        while i < n
            invariant
                0 <= i <= n,
                n == other.entries.len(),
                self.wf(),
                other.wf(),
                forall|j: int| 0 <= j < i ==> entries_level(other@, (#[trigger] other@[j]).0)
                    <= entries_level(self@, other@[j].0),
            decreases n - i,
        {
            let (k, l) = other.entries[i];
            let own = self.level(k);
            proof {
                lemma_entries_level_at(other@, i as int);
            }
            if own < l {
                return false;
            }
            i += 1;
        }
        proof {
            assert forall|k: TraitKind| entries_level(other@, k) <= entries_level(self@, k) by {
                if entries_contain(other@, k) {
                    let w = choose|w: int| 0 <= w < other@.len() && (#[trigger] other@[w]).0 == k;
                    assert(entries_level(other@, other@[w].0) <= entries_level(self@, other@[w].0));
                } else {
                    lemma_entries_level_absent(other@, k);
                    lemma_entries_level_nonneg(self@, k);
                }
            }
        }
        true
    }

    /// The `(kind, level)` entries, one per kind held, in no promised order.
    pub fn iter(&self) -> (entries: Vec<(TraitKind, u32)>)
        ensures
            entries@ == self@,
    {
        let n = self.entries.len();
        let mut out: Vec<(TraitKind, u32)> = Vec::new();
        let mut i: usize = 0;
        while i < n
            invariant
                0 <= i <= n,
                n == self.entries.len(),
                out@ == self@.take(i as int),
            decreases n - i,
        {
            out.push(self.entries[i]);
            proof {
                assert(self@.take(i + 1 as int) =~= self@.take(i as int).push(self@[i as int]));
            }
            i += 1;
        }
        proof {
            assert(self@.take(n as int) =~= self@);
        }
        out
    }
}

/// The summed level that a sequence of grants assigns to `kind`.
pub open spec fn grant_weight(kind: TraitKind) -> spec_fn(Trait) -> int {
    |t: Trait| if t.kind == kind { t.level as int } else { 0 }
}

pub open spec fn grants_level(s: Seq<Trait>, kind: TraitKind) -> int {
    sum_by(s, grant_weight(kind))
}

impl TraitSet {
    /// Aggregates a list of grants by repeated `add`; order is irrelevant to
    /// the accumulated levels.
    pub fn from_traits(list: &Vec<Trait>) -> (s: TraitSet)
        requires
            forall|k: TraitKind| grants_level(list@, k) <= u32::MAX,
        ensures
            s.wf(),
            forall|k: TraitKind| s.spec_level(k) == grants_level(list@, k),
    {
        let n = list.len();
        let mut s = TraitSet::new();
        let mut i: usize = 0;
        while i < n
            invariant
                0 <= i <= n,
                n == list.len(),
                s.wf(),
                forall|k: TraitKind| s.spec_level(k) == grants_level(list@.take(i as int), k),
                forall|k: TraitKind| grants_level(list@, k) <= u32::MAX,
            decreases n - i,
        {
            let t = list[i];
            proof {
                lemma_grants_level_prefix_bound(list@, i as int);
            }
            s.add(t);
            proof {
                assert forall|k: TraitKind| s.spec_level(k)
                    == grants_level(list@.take(i + 1 as int), k) by {
                    crate::summation::lemma_sum_by_take_succ(list@, grant_weight(k), i as int);
                }
            }
            i += 1;
        }
        proof {
            assert(list@.take(n as int) =~= list@);
        }
        s
    }
}

/// A prefix sum of grant levels never exceeds the whole sum.
pub proof fn lemma_grants_level_prefix_bound(s: Seq<Trait>, i: int)
    requires
        0 <= i < s.len(),
    ensures
        forall|k: TraitKind| grants_level(s.take(i), k) + grant_weight(k)(s[i])
            <= grants_level(s, k),
{
    assert forall|k: TraitKind| grants_level(s.take(i), k) + grant_weight(k)(s[i])
        <= grants_level(s, k) by {
        crate::summation::lemma_sum_by_take_succ(s, grant_weight(k), i);
        crate::summation::lemma_sum_by_split(s, grant_weight(k), i + 1);
        lemma_sum_by_nonneg(s.skip(i + 1), grant_weight(k));
    }
}

} // verus!
