//! Enumerating the exhaustive candidate space: every combination of a fixed
//! number of sigil positions from a pool, each crossed with every wrightstone
//! (or left bare when no wrightstone is available).

use vstd::prelude::*;

use itertools::Itertools;

use crate::model::search::{ResultView, SearchQuery, SearchPool, SearchResult};
use crate::model::sigil::Sigil;
use crate::model::wrightstone::Wrightstone;

verus! {

/// Every combination of exactly `k` elements of `s`, chosen by position, each
/// combination keeping input order, emitted in lexicographic order over
/// positions.
pub open spec fn combinations(s: Seq<Sigil>, k: nat) -> Seq<Seq<Sigil>>
    decreases s.len(),
{
    if k == 0 {
        seq![Seq::<Sigil>::empty()]
    } else if s.len() < k {
        Seq::<Seq<Sigil>>::empty()
    } else {
        combinations(s.skip(1), (k - 1) as nat).map_values(|c: Seq<Sigil>| seq![s[0]] + c)
            + combinations(s.skip(1), k)
    }
}

/// Each combination paired with each wrightstone, combinations outermost.
pub open spec fn cross(combos: Seq<Seq<Sigil>>, stones: Seq<Wrightstone>) -> Seq<ResultView>
    decreases combos.len(),
{
    if combos.len() == 0 {
        Seq::<ResultView>::empty()
    } else {
        stones.map_values(
            |w: Wrightstone| ResultView { sigils: combos[0], wrightstone: Some(w) },
        ) + cross(combos.skip(1), stones)
    }
}

pub open spec fn bare_result(c: Seq<Sigil>) -> ResultView {
    ResultView { sigils: c, wrightstone: None }
}

/// How many sigils each enumerated candidate uses: the full slot budget, or
/// the whole pool when it is smaller.
pub open spec fn num_chosen(sigils: Seq<Sigil>, slots: u8) -> nat {
    if slots as int <= sigils.len() {
        slots as nat
    } else {
        sigils.len()
    }
}

/// The whole candidate space over the given (already filtered) items.
pub open spec fn enumerated(
    sigils: Seq<Sigil>,
    stones: Seq<Wrightstone>,
    slots: u8,
) -> Seq<ResultView> {
    let combos = combinations(sigils, num_chosen(sigils, slots));
    if stones.len() > 0 {
        cross(combos, stones)
    } else {
        combos.map_values(|c: Seq<Sigil>| bare_result(c))
    }
}

/// Relies on itertools' `Itertools::combinations`: it emits every `k`-element
/// combination of the input positions, each combination in input order, in
/// lexicographic order over positions; a single empty combination when
/// `k == 0`, and nothing when `k` exceeds the input length.
#[verifier::external_body]
fn sigil_combinations(sigils: &Vec<Sigil>, k: usize) -> (combos: Vec<Vec<Sigil>>)
    ensures
        combos@.len() == combinations(sigils@, k as nat).len(),
        forall|i: int| 0 <= i < combos@.len() ==> (#[trigger] combos@[i])@
            == combinations(sigils@, k as nat)[i],
{
    sigils.iter().cloned().combinations(k).collect()
}

/// Relies on itertools' `Itertools::cartesian_product`: it emits all pairs in
/// row-major order, the first factor outermost.
#[verifier::external_body]
fn stone_product(
    combos: Vec<Vec<Sigil>>,
    stones: &Vec<Wrightstone>,
) -> (pairs: Vec<(Vec<Sigil>, Wrightstone)>)
    ensures
        pairs@.len() == combos@.len() * stones@.len(),
        forall|i: int, j: int| 0 <= i < combos@.len() && 0 <= j < stones@.len()
            ==> (#[trigger] pairs@[i * stones@.len() + j]).0@ == combos@[i]@
                && pairs@[i * stones@.len() + j].1 == stones@[j],
{
    combos.into_iter().cartesian_product(stones.iter().cloned()).collect()
}

/// Where each pair sits in `cross`: combination `i` with wrightstone `j`
/// stands at `i * stones.len() + j`.
pub proof fn lemma_cross_index(combos: Seq<Seq<Sigil>>, stones: Seq<Wrightstone>)
    ensures
        cross(combos, stones).len() == combos.len() * stones.len(),
        forall|i: int, j: int| 0 <= i < combos.len() && 0 <= j < stones.len()
            ==> #[trigger] cross(combos, stones)[i * stones.len() + j]
                == (ResultView { sigils: combos[i], wrightstone: Some(stones[j]) }),
    decreases combos.len(),
{
    let m = stones.len() as int;
    if combos.len() == 0 {
    } else {
        lemma_cross_index(combos.skip(1), stones);
        let head = stones.map_values(
            |w: Wrightstone| ResultView { sigils: combos[0], wrightstone: Some(w) },
        );
        let rest = cross(combos.skip(1), stones);
        assert(rest.len() == combos.skip(1).len() * m);
        assert((combos.len() as int) * m == m + (combos.len() - 1) * m) by (nonlinear_arith);
        assert forall|i: int, j: int| 0 <= i < combos.len() && 0 <= j < m implies
            #[trigger] cross(combos, stones)[i * m + j]
                == (ResultView { sigils: combos[i], wrightstone: Some(stones[j]) }) by {
            if i == 0 {
                assert(cross(combos, stones)[j] == head[j]);
            } else {
                assert(i * m + j == m + ((i - 1) * m + j)) by (nonlinear_arith);
                assert(0 <= (i - 1) * m + j < rest.len()) by (nonlinear_arith)
                    requires
                        1 <= i,
                        0 <= j < m,
                        i < combos.len(),
                        rest.len() == (combos.len() - 1) * m,
                ;
                assert(cross(combos, stones)[m + ((i - 1) * m + j)] == rest[(i - 1) * m + j]);
                assert(combos.skip(1)[i - 1] == combos[i]);
            }
        }
    }
}

/// Every enumerated combination has exactly `k` elements.
pub proof fn lemma_combinations_elem_len(s: Seq<Sigil>, k: nat)
    ensures
        forall|i: int| 0 <= i < combinations(s, k).len()
            ==> (#[trigger] combinations(s, k)[i]).len() == k,
    decreases s.len(),
{
    if k == 0 {
    } else if s.len() < k {
    } else {
        lemma_combinations_elem_len(s.skip(1), (k - 1) as nat);
        lemma_combinations_elem_len(s.skip(1), k);
        let head = combinations(s.skip(1), (k - 1) as nat).map_values(
            |c: Seq<Sigil>| seq![s[0]] + c,
        );
        let rest = combinations(s.skip(1), k);
        assert forall|i: int| 0 <= i < combinations(s, k).len() implies (
            #[trigger] combinations(s, k)[i]).len() == k by {
            if i < head.len() {
                assert(combinations(s, k)[i] == seq![s[0]]
                    + combinations(s.skip(1), (k - 1) as nat)[i]);
            } else {
                assert(combinations(s, k)[i] == rest[i - head.len()]);
            }
        }
    }
}

/// How many combinations of `k` out of `n` exist, by Pascal's rule.
pub open spec fn binomial(n: nat, k: nat) -> nat
    decreases n,
{
    if k == 0 {
        1
    } else if n == 0 {
        0
    } else {
        binomial((n - 1) as nat, (k - 1) as nat) + binomial((n - 1) as nat, k)
    }
}

/// Choosing more elements than there are leaves nothing.
pub proof fn lemma_binomial_above(n: nat, k: nat)
    requires
        n < k,
    ensures
        binomial(n, k) == 0,
    decreases n,
{
    if n > 0 {
        lemma_binomial_above((n - 1) as nat, (k - 1) as nat);
        lemma_binomial_above((n - 1) as nat, k);
    }
}

/// The enumeration is exactly as large as the binomial coefficient says.
pub proof fn lemma_combinations_count(s: Seq<Sigil>, k: nat)
    ensures
        combinations(s, k).len() == binomial(s.len(), k),
    decreases s.len(),
{
    if k == 0 {
    } else if s.len() < k {
        lemma_binomial_above(s.len(), k);
    } else {
        lemma_combinations_count(s.skip(1), (k - 1) as nat);
        lemma_combinations_count(s.skip(1), k);
    }
}

/// Computes `binomial(n, k)` capped at `cap`, by Pascal's rule with
/// saturating additions.
pub fn saturating_binomial(n: usize, k: usize, cap: u128) -> (count: u128)
    requires
        1 <= cap,
        k <= 255,
    ensures
        count as int == if binomial(n as nat, k as nat) <= cap as nat {
            binomial(n as nat, k as nat) as int
        } else {
            cap as int
        },
{
    let width = k + 1;
    let mut row: Vec<u128> = Vec::new();
    row.push(1);
    let mut j: usize = 1;
    while j < width
        invariant
            1 <= j <= width,
            width == k + 1,
            row@.len() == j,
            row@[0] == 1,
            forall|t: int| 1 <= t < j ==> (#[trigger] row@[t]) == 0,
        decreases width - j,
    {
        row.push(0);
        j += 1;
    }
    proof {
        assert forall|t: int| 0 <= t < width implies (#[trigger] row@[t]) as int == (
        if binomial(0, t as nat) <= cap as nat {
            binomial(0, t as nat) as int
        } else {
            cap as int
        }) by {
            if t > 0 {
                assert(binomial(0, t as nat) == 0);
            }
        }
    }
    let mut i: usize = 0;
    while i < n
        invariant
            0 <= i <= n,
            width == k + 1,
            1 <= cap,
            row@.len() == width,
            forall|t: int| 0 <= t < width ==> (#[trigger] row@[t]) as int == (
            if binomial(i as nat, t as nat) <= cap as nat {
                binomial(i as nat, t as nat) as int
            } else {
                cap as int
            }),
        decreases n - i,
    {
        let mut next: Vec<u128> = Vec::new();
        next.push(1);
        let mut t: usize = 1;
        proof {
            assert(next@[0] as int == (if binomial((i + 1) as nat, 0) <= cap as nat {
                binomial((i + 1) as nat, 0) as int
            } else {
                cap as int
            }));
        }
        while t < width
            invariant
                1 <= t <= width,
                width == k + 1,
                1 <= cap,
                0 <= i < n,
                row@.len() == width,
                forall|u: int| 0 <= u < width ==> (#[trigger] row@[u]) as int == (
                if binomial(i as nat, u as nat) <= cap as nat {
                    binomial(i as nat, u as nat) as int
                } else {
                    cap as int
                }),
                next@.len() == t,
                forall|u: int| 0 <= u < t ==> (#[trigger] next@[u]) as int == (
                if binomial((i + 1) as nat, u as nat) <= cap as nat {
                    binomial((i + 1) as nat, u as nat) as int
                } else {
                    cap as int
                }),
            decreases width - t,
        {
            let left = row[t - 1];
            let right = row[t];
            let sum = if cap - right <= left {
                cap
            } else {
                left + right
            };
            proof {
                assert(binomial((i + 1) as nat, t as nat) == binomial(i as nat, (t - 1) as nat)
                    + binomial(i as nat, t as nat));
            }
            next.push(sum);
            t += 1;
        }
        row = next;
        i += 1;
    }
    proof {
        assert(row@[k as int] as int == (if binomial(n as nat, k as nat) <= cap as nat {
            binomial(n as nat, k as nat) as int
        } else {
            cap as int
        }));
    }
    row[k]
}

/// The positions are strictly increasing.
pub open spec fn increasing(ix: Seq<int>) -> bool {
    forall|a: int, b: int| 0 <= a < b < ix.len() ==> ix[a] < ix[b]
}

/// Every position falls inside a sequence of length `n`.
pub open spec fn indices_into(ix: Seq<int>, n: int) -> bool {
    forall|a: int| 0 <= a < ix.len() ==> 0 <= #[trigger] ix[a] < n
}

/// The elements of `s` at the given positions, in position order.
pub open spec fn select(s: Seq<Sigil>, ix: Seq<int>) -> Seq<Sigil> {
    ix.map_values(|j: int| s[j])
}

/// `c` picks some strictly increasing positions of `s`.
pub open spec fn is_selection(c: Seq<Sigil>, s: Seq<Sigil>) -> bool {
    exists|ix: Seq<int>|
        increasing(ix) && indices_into(ix, s.len() as int) && c == select(s, ix)
}

/// Strictly increasing positions climb at least one per step.
pub proof fn lemma_increasing_gap(ix: Seq<int>, a: int)
    requires
        increasing(ix),
        0 <= a < ix.len(),
    ensures
        ix[a] >= ix[0] + a,
    decreases a,
{
    if a > 0 {
        lemma_increasing_gap(ix, a - 1);
        assert(ix[a - 1] < ix[a]);
    }
}

/// Every enumerated combination selects strictly increasing positions of `s`.
pub proof fn lemma_combinations_are_selections(s: Seq<Sigil>, k: nat, c: Seq<Sigil>)
    requires
        combinations(s, k).contains(c),
    ensures
        c.len() == k,
        is_selection(c, s),
    decreases s.len(),
{
    let combos = combinations(s, k);
    if k == 0 {
        assert(c == combos[0]);
        let ix = Seq::<int>::empty();
        assert(select(s, ix) =~= c);
        assert(increasing(ix) && indices_into(ix, s.len() as int) && c == select(s, ix));
    } else if s.len() < k {
        assert(false);
    } else {
        let head = combinations(s.skip(1), (k - 1) as nat).map_values(
            |c2: Seq<Sigil>| seq![s[0]] + c2,
        );
        let rest = combinations(s.skip(1), k);
        let t = choose|t: int| 0 <= t < combos.len() && combos[t] == c;
        if t < head.len() {
            let c2 = combinations(s.skip(1), (k - 1) as nat)[t];
            assert(combinations(s.skip(1), (k - 1) as nat).contains(c2));
            lemma_combinations_are_selections(s.skip(1), (k - 1) as nat, c2);
            assert(c == seq![s[0]] + c2);
            let ix2 = choose|ix2: Seq<int>|
                increasing(ix2) && indices_into(ix2, s.skip(1).len() as int) && c2 == select(
                    s.skip(1),
                    ix2,
                );
            let ix = seq![0int] + ix2.map_values(|j: int| j + 1);
            assert forall|a: int| 0 <= a < ix.len() implies 0 <= #[trigger] ix[a]
                < s.len() as int by {
                if a > 0 {
                    assert(ix[a] == ix2[a - 1] + 1);
                }
            }
            assert(increasing(ix)) by {
                assert forall|a: int, b: int| 0 <= a < b < ix.len() implies ix[a] < ix[b] by {
                    if a > 0 {
                        assert(ix[a] == ix2[a - 1] + 1 && ix[b] == ix2[b - 1] + 1);
                        assert(ix2[a - 1] < ix2[b - 1]);
                    } else {
                        assert(ix[b] == ix2[b - 1] + 1);
                        assert(0 <= ix2[b - 1]);
                    }
                }
            }
            assert(select(s, ix) =~= c) by {
                assert forall|a: int| 0 <= a < ix.len() implies select(s, ix)[a] == c[a] by {
                    if a == 0 {
                        assert(select(s, ix)[0] == s[0]);
                    } else {
                        assert(select(s, ix)[a] == s[ix2[a - 1] + 1]);
                        assert(s[ix2[a - 1] + 1] == s.skip(1)[ix2[a - 1]]);
                        assert(c[a] == c2[a - 1]);
                        assert(c2[a - 1] == select(s.skip(1), ix2)[a - 1]);
                    }
                }
            }
            assert(increasing(ix) && indices_into(ix, s.len() as int) && c == select(s, ix));
        } else {
            let c2 = rest[t - head.len()];
            assert(rest.contains(c2));
            lemma_combinations_are_selections(s.skip(1), k, c2);
            assert(c == c2);
            let ix2 = choose|ix2: Seq<int>|
                increasing(ix2) && indices_into(ix2, s.skip(1).len() as int) && c2 == select(
                    s.skip(1),
                    ix2,
                );
            let ix = ix2.map_values(|j: int| j + 1);
            assert(increasing(ix));
            assert(indices_into(ix, s.len() as int));
            assert(select(s, ix) =~= c) by {
                assert forall|a: int| 0 <= a < ix.len() implies select(s, ix)[a] == c[a] by {
                    assert(select(s, ix)[a] == s[ix2[a] + 1]);
                    assert(s[ix2[a] + 1] == s.skip(1)[ix2[a]]);
                    assert(c2[a] == select(s.skip(1), ix2)[a]);
                }
            }
            assert(increasing(ix) && indices_into(ix, s.len() as int) && c == select(s, ix));
        }
    }
}

/// Every selection of `k` strictly increasing positions is enumerated: the
/// exhaustive space misses no combination of its size.
pub proof fn lemma_selections_are_combinations(s: Seq<Sigil>, ix: Seq<int>)
    requires
        increasing(ix),
        indices_into(ix, s.len() as int),
    ensures
        combinations(s, ix.len()).contains(select(s, ix)),
    decreases s.len(),
{
    let k = ix.len();
    let c = select(s, ix);
    if k == 0 {
        assert(c =~= Seq::<Sigil>::empty());
        assert(combinations(s, 0)[0] == c);
        assert(combinations(s, 0).contains(c));
    } else {
        lemma_increasing_gap(ix, k as int - 1);
        assert(ix[k as int - 1] < s.len() as int);
        assert(s.len() >= k);
        let head = combinations(s.skip(1), (k - 1) as nat).map_values(
            |c2: Seq<Sigil>| seq![s[0]] + c2,
        );
        let rest = combinations(s.skip(1), k);
        if ix[0] == 0 {
            let ix2 = ix.skip(1).map_values(|j: int| j - 1);
            assert forall|a: int| 0 <= a < ix2.len() implies 0 <= #[trigger] ix2[a]
                < s.skip(1).len() as int by {
                assert(ix2[a] == ix[a + 1] - 1);
                assert(ix[0] < ix[a + 1]);
            }
            assert(increasing(ix2)) by {
                assert forall|a: int, b: int| 0 <= a < b < ix2.len() implies ix2[a] < ix2[b] by {
                    assert(ix2[a] == ix[a + 1] - 1 && ix2[b] == ix[b + 1] - 1);
                    assert(ix[a + 1] < ix[b + 1]);
                }
            }
            lemma_selections_are_combinations(s.skip(1), ix2);
            let c2 = select(s.skip(1), ix2);
            assert(c =~= seq![s[0]] + c2) by {
                assert forall|a: int| 0 <= a < c.len() implies c[a] == (seq![s[0]] + c2)[a] by {
                    if a == 0 {
                        assert(c[0] == s[ix[0]]);
                    } else {
                        assert(c[a] == s[ix[a]]);
                        assert(c2[a - 1] == s.skip(1)[ix2[a - 1]]);
                        assert(s.skip(1)[ix2[a - 1]] == s[ix[a]]);
                    }
                }
            }
            assert(ix2.len() == k - 1);
            let w = choose|w: int|
                0 <= w < combinations(s.skip(1), (k - 1) as nat).len() && #[trigger] combinations(
                    s.skip(1),
                    (k - 1) as nat,
                )[w] == c2;
            assert(head[w] == seq![s[0]] + c2);
            assert(combinations(s, k)[w] == head[w]);
            assert(combinations(s, k).contains(c));
        } else {
            let ix2 = ix.map_values(|j: int| j - 1);
            assert forall|a: int| 0 <= a < ix2.len() implies 0 <= #[trigger] ix2[a]
                < s.skip(1).len() as int by {
                assert(ix2[a] == ix[a] - 1);
                if a > 0 {
                    assert(ix[0] < ix[a]);
                }
            }
            assert(increasing(ix2)) by {
                assert forall|a: int, b: int| 0 <= a < b < ix2.len() implies ix2[a] < ix2[b] by {
                    assert(ix2[a] == ix[a] - 1 && ix2[b] == ix[b] - 1);
                    assert(ix[a] < ix[b]);
                }
            }
            lemma_selections_are_combinations(s.skip(1), ix2);
            let c2 = select(s.skip(1), ix2);
            assert(c =~= c2) by {
                assert forall|a: int| 0 <= a < c.len() implies c[a] == c2[a] by {
                    assert(c[a] == s[ix[a]]);
                    assert(c2[a] == s.skip(1)[ix2[a]]);
                    assert(s.skip(1)[ix2[a]] == s[ix[a]]);
                }
            }
            assert(ix2.len() == k);
            let w = choose|w: int| 0 <= w < rest.len() && rest[w] == c2;
            assert(combinations(s, k)[head.len() + w] == rest[w]);
            assert(combinations(s, k).contains(c));
        }
    }
}

/// Copies a sigil list.
pub fn clone_sigils(v: &Vec<Sigil>) -> (out: Vec<Sigil>)
    ensures
        out@ == v@,
{
    let n = v.len();
    let mut out: Vec<Sigil> = Vec::new();
    let mut i: usize = 0;
    while i < n
        invariant
            0 <= i <= n,
            n == v.len(),
            out@ == v@.take(i as int),
        decreases n - i,
    {
        out.push(v[i]);
        proof {
            assert(v@.take(i + 1 as int) =~= v@.take(i as int).push(v@[i as int]));
        }
        i += 1;
    }
    proof {
        assert(v@.take(n as int) =~= v@);
    }
    out
}

/// Enumerates the whole candidate space of `pool` (taken as already filtered):
/// every combination of `num_chosen` sigil positions, each paired with every
/// wrightstone, or bare when the pool holds no wrightstone.
pub fn all_combinations(pool: SearchPool, query: &SearchQuery) -> (candidates: Vec<SearchResult>)
    ensures
        candidates@.len() == enumerated(pool.sigils@, pool.wrightstones@, query.sigil_slots).len(),
        forall|i: int| 0 <= i < candidates@.len() ==> (#[trigger] candidates@[i])@
            == enumerated(pool.sigils@, pool.wrightstones@, query.sigil_slots)[i],
{
    let ghost expected = enumerated(pool.sigils@, pool.wrightstones@, query.sigil_slots);
    let slots = query.sigil_slots as usize;
    let num: usize = if slots <= pool.sigils.len() {
        slots
    } else {
        pool.sigils.len()
    };
    proof {
        assert(num as nat == num_chosen(pool.sigils@, query.sigil_slots));
    }
    let ghost cspec = combinations(pool.sigils@, num as nat);
    let combos = sigil_combinations(&pool.sigils, num);
    let ncombos = combos.len();
    let mut candidates: Vec<SearchResult> = Vec::new();
    if pool.wrightstones.len() > 0 {
        let m = pool.wrightstones.len();
        let pairs = stone_product(combos, &pool.wrightstones);
        let plen = pairs.len();
        proof {
            lemma_cross_index(cspec, pool.wrightstones@);
            assert(expected == cross(cspec, pool.wrightstones@));
            assert(pairs@.len() <= usize::MAX);
        }
        let mut i: usize = 0;
        while i < ncombos
            invariant
                0 <= i <= ncombos,
                ncombos == cspec.len(),
                m == pool.wrightstones@.len(),
                m > 0,
                pairs@.len() == cspec.len() * m,
                pairs@.len() <= usize::MAX,
                forall|a: int, b: int| 0 <= a < cspec.len() && 0 <= b < m
                    ==> (#[trigger] pairs@[a * m + b]).0@ == cspec[a]
                        && pairs@[a * m + b].1 == pool.wrightstones@[b],
                expected.len() == cspec.len() * m,
                forall|a: int, b: int| 0 <= a < cspec.len() && 0 <= b < m
                    ==> #[trigger] expected[a * m + b]
                        == (ResultView { sigils: cspec[a], wrightstone: Some(pool.wrightstones@[b]) }),
                candidates@.len() == i * m,
                forall|t: int| 0 <= t < candidates@.len() ==> (#[trigger] candidates@[t])@
                    == expected[t],
            decreases ncombos - i,
        {
            let mut j: usize = 0;
            while j < m
                invariant
                    0 <= i < ncombos,
                    0 <= j <= m,
                    ncombos == cspec.len(),
                    m == pool.wrightstones@.len(),
                    pairs@.len() == cspec.len() * m,
                    pairs@.len() <= usize::MAX,
                    forall|a: int, b: int| 0 <= a < cspec.len() && 0 <= b < m
                        ==> (#[trigger] pairs@[a * m + b]).0@ == cspec[a]
                            && pairs@[a * m + b].1 == pool.wrightstones@[b],
                    expected.len() == cspec.len() * m,
                    forall|a: int, b: int| 0 <= a < cspec.len() && 0 <= b < m
                        ==> #[trigger] expected[a * m + b]
                            == (ResultView {
                            sigils: cspec[a],
                            wrightstone: Some(pool.wrightstones@[b]),
                        }),
                    candidates@.len() == i * m + j,
                    forall|t: int| 0 <= t < candidates@.len() ==> (#[trigger] candidates@[t])@
                        == expected[t],
                decreases m - j,
            {
                proof {
                    assert(i * m + j < cspec.len() * m && i * m + j <= usize::MAX && (i + 1) * m
                        == i * m + m) by (nonlinear_arith)
                        requires
                            0 <= i < cspec.len(),
                            0 <= j < m,
                            cspec.len() * m == pairs@.len(),
                            pairs@.len() <= usize::MAX,
                    ;
                }
                let idx = i * m + j;
                let sigils = clone_sigils(&pairs[idx].0);
                let stone = pairs[idx].1;
                candidates.push(SearchResult { sigils, wrightstone: Some(stone) });
                proof {
                    assert(candidates@.last()@ == expected[i * m + j]);
                }
                j += 1;
            }
            proof {
                assert((i + 1) * m == i * m + m) by (nonlinear_arith);
            }
            i += 1;
        }
        proof {
            assert(candidates@.len() == expected.len()) by (nonlinear_arith)
                requires
                    candidates@.len() == cspec.len() * m,
                    expected.len() == cspec.len() * m,
            ;
        }
    } else {
        proof {
            assert(expected == cspec.map_values(|c: Seq<Sigil>| bare_result(c)));
            assert(expected.len() == cspec.len());
        }
        let mut i: usize = 0;
        while i < ncombos
            invariant
                0 <= i <= ncombos,
                ncombos == cspec.len(),
                ncombos == combos@.len(),
                forall|t: int| 0 <= t < combos@.len() ==> (#[trigger] combos@[t])@ == cspec[t],
                expected.len() == cspec.len(),
                forall|t: int| 0 <= t < cspec.len() ==> #[trigger] expected[t] == bare_result(
                    cspec[t],
                ),
                candidates@.len() == i,
                forall|t: int| 0 <= t < candidates@.len() ==> (#[trigger] candidates@[t])@
                    == expected[t],
            decreases ncombos - i,
        {
            let sigils = clone_sigils(&combos[i]);
            candidates.push(SearchResult { sigils, wrightstone: None });
            i += 1;
        }
    }
    candidates
}

} // verus!
