//! Allocation policies: pure functions from a capacity vector and a set of
//! demand vectors to one coefficient per flow.
//!
//! A coefficient is the fraction of a flow's demand that is granted,
//! expressed in millionths (`0 ..= SCALE`). Every policy is computed in
//! exact integer arithmetic and is therefore deterministic: the result is
//! pinned, value for value, to the spec function [`spec_allocate`].
//!
//! Each policy first assigns every flow a *scale*: the amount of the
//! policy's fairness metric that one whole unit of the flow's demand would
//! consume. Progressive filling then raises a common level over the
//! constrained flows, round by round: a flow whose whole demand fits at
//! the current level freezes at one whole demand, its demand is set
//! aside, and the level is recomputed over the rest until nothing more
//! freezes. Every remaining flow is proposed the same final level, so
//! their metric totals agree up to integer rounding (see
//! `lemma_common_level_equalizes`). Two conservative passes follow: a
//! feasibility pass that lowers any grant the remaining capacity cannot
//! cover, and a top-up pass that hands capacity idle at the common level
//! back out, so that the granted amounts never exceed capacity in any
//! dimension and a workload that fits is not left short.

use vstd::arithmetic::div_mod::{
    lemma_div_by_multiple, lemma_div_is_ordered, lemma_div_nonincreasing, lemma_div_pos_is_pos,
    lemma_fundamental_div_mod, lemma_mod_bound,
};
use vstd::arithmetic::mul::{
    lemma_mul_inequality, lemma_mul_is_distributive_add_other_way, lemma_mul_nonnegative,
    lemma_mul_upper_bound,
};
use vstd::prelude::*;

use crate::{MAX_FLOWS, MAX_UNITS, SCALE, SCALE_SQ, SimError};

verus! {

/// The closed set of allocation strategies.
#[derive(Clone, Copy, Debug, PartialEq, Eq, Structural)]
pub enum Algorithm {
    /// Dominant Resource Fairness: equalize dominant shares by
    /// progressive filling.
    Drf,
    /// Competitive Equilibrium with Equal Incomes: equal budgets spent at
    /// prices concentrated on the most contended resource.
    Ceei,
    /// Asset Fairness: equalize capacity-weighted total usage.
    AssetFairness,
}

/// The per-row views of a vector of demand vectors.
pub open spec fn rows(d: Seq<Vec<u64>>) -> Seq<Seq<u64>> {
    Seq::new(d.len(), |i: int| d[i]@)
}

/// Every entry small enough for the fixed-point arithmetic.
pub open spec fn entries_bounded(v: Seq<u64>) -> bool {
    forall|k: int| 0 <= k < v.len() ==> #[trigger] v[k] <= MAX_UNITS
}

/// Every demand vector has bounded entries.
pub open spec fn demands_bounded(d: Seq<Seq<u64>>) -> bool {
    forall|i: int| 0 <= i < d.len() ==> entries_bounded(#[trigger] d[i])
}

/// The inputs an allocation policy accepts: strictly positive capacity in
/// every dimension, and demand vectors of matching length.
pub open spec fn inputs_ok(c: Seq<u64>, d: Seq<Seq<u64>>) -> bool {
    &&& forall|k: int| 0 <= k < c.len() ==> #[trigger] c[k] >= 1
    &&& forall|i: int| 0 <= i < d.len() ==> (#[trigger] d[i]).len() == c.len()
}

/// A demand vector that asks for nothing at all.
pub open spec fn zero_demand(di: Seq<u64>) -> bool {
    forall|k: int| 0 <= k < di.len() ==> #[trigger] di[k] == 0
}

/// Dominant share of one whole unit of demand `di`, in millionths:
/// the maximum over the first `r` dimensions of `demand / capacity`.
pub open spec fn drf_scale(di: Seq<u64>, c: Seq<u64>, r: int) -> int
    decreases r,
{
    if r <= 0 {
        0
    } else {
        let prev = drf_scale(di, c, r - 1);
        let term = SCALE * di[r - 1] / (c[r - 1] as int);
        if term > prev {
            term
        } else {
            prev
        }
    }
}

/// Capacity-weighted total usage of one whole unit of demand `di`, in
/// millionths: the sum over the first `r` dimensions of `demand / capacity`.
pub open spec fn asset_scale(di: Seq<u64>, c: Seq<u64>, r: int) -> int
    decreases r,
{
    if r <= 0 {
        0
    } else {
        asset_scale(di, c, r - 1) + SCALE * di[r - 1] / (c[r - 1] as int)
    }
}

/// Total demand of the first `n` flows in dimension `k`.
pub open spec fn col_sum(d: Seq<Seq<u64>>, k: int, n: int) -> int
    decreases n,
{
    if n <= 0 {
        0
    } else {
        col_sum(d, k, n - 1) + d[n - 1][k]
    }
}

/// How contended dimension `k` is: total demand over capacity, in millionths.
pub open spec fn pressure(c: Seq<u64>, d: Seq<Seq<u64>>, k: int) -> int {
    SCALE * col_sum(d, k, d.len() as int) / (c[k] as int)
}

/// The first dimension of maximal pressure among the first `r` dimensions.
pub open spec fn bottleneck(c: Seq<u64>, d: Seq<Seq<u64>>, r: int) -> int
    decreases r,
{
    if r <= 1 {
        0
    } else {
        let b = bottleneck(c, d, r - 1);
        if pressure(c, d, r - 1) > pressure(c, d, b) {
            r - 1
        } else {
            b
        }
    }
}

/// The policy's fairness metric consumed by one whole unit of flow `i`'s
/// demand, in millionths. A scale of zero marks a flow that no dimension
/// constrains (or that demands nothing at all).
pub open spec fn scale_of(alg: Algorithm, c: Seq<u64>, d: Seq<Seq<u64>>, i: int) -> int {
    match alg {
        Algorithm::Drf => drf_scale(d[i], c, c.len() as int),
        Algorithm::AssetFairness => asset_scale(d[i], c, c.len() as int),
        Algorithm::Ceei => if c.len() == 0 {
            0
        } else {
            let b = bottleneck(c, d, c.len() as int);
            SCALE * d[i][b] / (c[b] as int)
        },
    }
}

/// Demand of flow `i` in dimension `k` per millionth of the policy metric,
/// in millionths of a unit.
pub open spec fn weight(alg: Algorithm, c: Seq<u64>, d: Seq<Seq<u64>>, i: int, k: int) -> int {
    SCALE_SQ * d[i][k] / scale_of(alg, c, d, i)
}

/// Total weight, in dimension `k`, of the first `n` constrained flows not
/// yet frozen at one whole demand.
pub open spec fn sum_weight(
    alg: Algorithm,
    c: Seq<u64>,
    d: Seq<Seq<u64>>,
    mask: Seq<bool>,
    k: int,
    n: int,
) -> int
    decreases n,
{
    if n <= 0 {
        0
    } else {
        sum_weight(alg, c, d, mask, k, n - 1) + if scale_of(alg, c, d, n - 1) > 0 && !mask[n - 1] {
            weight(alg, c, d, n - 1, k)
        } else {
            0
        }
    }
}

/// Whole units of dimension `k` consumed by the first `n` flows frozen at
/// one whole demand.
pub open spec fn frozen_units(d: Seq<Seq<u64>>, mask: Seq<bool>, k: int, n: int) -> int
    decreases n,
{
    if n <= 0 {
        0
    } else {
        frozen_units(d, mask, k, n - 1) + if mask[n - 1] {
            d[n - 1][k] as int
        } else {
            0
        }
    }
}

/// Millionths-squared of dimension `k` still available to the unfrozen
/// flows: capacity minus what the frozen flows consume whole.
pub open spec fn level_num(c: Seq<u64>, d: Seq<Seq<u64>>, mask: Seq<bool>, k: int) -> int {
    SCALE_SQ * (c[k] - frozen_units(d, mask, k, d.len() as int))
}

/// The highest common metric level the first `r` dimensions allow for the
/// unfrozen flows, in millionths, or -1 when no dimension constrains any.
pub open spec fn level_upto(
    alg: Algorithm,
    c: Seq<u64>,
    d: Seq<Seq<u64>>,
    mask: Seq<bool>,
    r: int,
) -> int
    decreases r,
{
    if r <= 0 {
        -1
    } else {
        let prev = level_upto(alg, c, d, mask, r - 1);
        let sw = sum_weight(alg, c, d, mask, r - 1, d.len() as int);
        if sw > 0 {
            let num = level_num(c, d, mask, r - 1);
            let cand = if num <= 0 {
                0
            } else {
                num / sw
            };
            if prev < 0 || cand < prev {
                cand
            } else {
                prev
            }
        } else {
            prev
        }
    }
}

/// The common water-filling level for a given frozen set, in millionths of
/// the policy metric.
pub open spec fn level(alg: Algorithm, c: Seq<u64>, d: Seq<Seq<u64>>, mask: Seq<bool>) -> int {
    let l = level_upto(alg, c, d, mask, c.len() as int);
    if l < 0 {
        0
    } else {
        l
    }
}

/// One round of progressive filling: additionally freeze, at one whole
/// demand, every constrained flow whose whole demand fits at the current
/// common level.
pub open spec fn freeze_round(alg: Algorithm, c: Seq<u64>, d: Seq<Seq<u64>>, mask: Seq<bool>) -> Seq<
    bool,
> {
    Seq::new(d.len(), |i: int| mask[i] || 1 <= scale_of(alg, c, d, i) <= level(alg, c, d, mask))
}

/// `rounds` rounds of progressive filling, starting with nothing frozen.
/// Each round either freezes another flow or is already a fixpoint, so
/// one round per flow reaches the fixpoint.
pub open spec fn fill_mask(alg: Algorithm, c: Seq<u64>, d: Seq<Seq<u64>>, rounds: int) -> Seq<bool>
    decreases rounds,
{
    if rounds <= 0 {
        Seq::new(d.len(), |i: int| false)
    } else {
        freeze_round(alg, c, d, fill_mask(alg, c, d, rounds - 1))
    }
}

/// The fixpoint frozen set of progressive filling.
pub open spec fn final_mask(alg: Algorithm, c: Seq<u64>, d: Seq<Seq<u64>>) -> Seq<bool> {
    fill_mask(alg, c, d, d.len() as int)
}

/// The common level that progressive filling settles on.
pub open spec fn final_level(alg: Algorithm, c: Seq<u64>, d: Seq<Seq<u64>>) -> int {
    level(alg, c, d, final_mask(alg, c, d))
}

/// The coefficient progressive filling proposes for flow `i`, before the
/// feasibility passes: zero for a flow that demands nothing, one for a
/// flow that no dimension constrains or that froze at a whole demand, and
/// otherwise the final common level divided by the flow's scale.
pub open spec fn candidate(alg: Algorithm, c: Seq<u64>, d: Seq<Seq<u64>>, i: int) -> int {
    if zero_demand(d[i]) {
        0
    } else {
        let s = scale_of(alg, c, d, i);
        if s <= 0 {
            SCALE as int
        } else if final_mask(alg, c, d)[i] {
            SCALE as int
        } else {
            let x = final_level(alg, c, d) * SCALE / s;
            if x > SCALE {
                SCALE as int
            } else {
                x
            }
        }
    }
}

/// All proposed coefficients.
pub open spec fn candidates(alg: Algorithm, c: Seq<u64>, d: Seq<Seq<u64>>) -> Seq<int> {
    Seq::new(d.len(), |i: int| candidate(alg, c, d, i))
}

/// Unallocated capacity, in millionths of a unit per dimension, before any
/// flow is granted anything.
pub open spec fn init_rem(c: Seq<u64>) -> Seq<int> {
    Seq::new(c.len(), |k: int| SCALE * c[k])
}

/// The largest coefficient at most `n0` that the remaining capacity `rem`
/// still admits for a flow of demand `di`, considering the first `r`
/// dimensions.
pub open spec fn take_cap(n0: int, di: Seq<u64>, rem: Seq<int>, r: int) -> int
    decreases r,
{
    if r <= 0 {
        n0
    } else {
        let m = take_cap(n0, di, rem, r - 1);
        if di[r - 1] > 0 {
            let q = rem[r - 1] / (di[r - 1] as int);
            if q < m {
                q
            } else {
                m
            }
        } else {
            m
        }
    }
}

/// Remaining capacity after granting coefficient `n` to a flow of demand `di`.
pub open spec fn drain(rem: Seq<int>, di: Seq<u64>, n: int) -> Seq<int> {
    Seq::new(rem.len(), |k: int| rem[k] - n * di[k])
}

/// The feasibility pass over the first `i` flows: grants each proposed
/// coefficient, lowered where the remaining capacity would be exceeded.
/// Returns the granted coefficients and the remaining capacity.
pub open spec fn clamp_coeffs(cands: Seq<int>, d: Seq<Seq<u64>>, c: Seq<u64>, i: int) -> (Seq<
    int,
>, Seq<int>)
    decreases i,
{
    if i <= 0 {
        (Seq::<int>::empty(), init_rem(c))
    } else {
        let (out, rem) = clamp_coeffs(cands, d, c, i - 1);
        let n = take_cap(cands[i - 1], d[i - 1], rem, c.len() as int);
        (out.push(n), drain(rem, d[i - 1], n))
    }
}

/// The largest top-up above an already granted coefficient `n` that the
/// leftover capacity `rem` still admits for a flow of demand `di`,
/// considering the first `r` dimensions and never exceeding one whole
/// demand in total.
pub open spec fn raise_cap(n: int, di: Seq<u64>, rem: Seq<int>, r: int) -> int
    decreases r,
{
    if r <= 0 {
        SCALE - n
    } else {
        let m = raise_cap(n, di, rem, r - 1);
        if di[r - 1] > 0 {
            let q = rem[r - 1] / (di[r - 1] as int);
            if q < m {
                q
            } else {
                m
            }
        } else {
            m
        }
    }
}

/// The top-up one flow receives: nothing for a flow that demands nothing,
/// else whatever the leftover capacity admits.
pub open spec fn raise_of(n: int, di: Seq<u64>, rem: Seq<int>, r: int) -> int {
    if zero_demand(di) {
        0
    } else {
        raise_cap(n, di, rem, r)
    }
}

/// The top-up pass over the first `i` flows: once every flow has taken its
/// water-filling grant, capacity that would otherwise sit idle is handed
/// back out in flow order, so no flow is left short while every resource
/// it needs has slack.
pub open spec fn raise_coeffs(
    base: Seq<int>,
    d: Seq<Seq<u64>>,
    c: Seq<u64>,
    rem0: Seq<int>,
    i: int,
) -> (Seq<int>, Seq<int>)
    decreases i,
{
    if i <= 0 {
        (Seq::<int>::empty(), rem0)
    } else {
        let (out, rem) = raise_coeffs(base, d, c, rem0, i - 1);
        let e = raise_of(base[i - 1], d[i - 1], rem, c.len() as int);
        (out.push(base[i - 1] + e), drain(rem, d[i - 1], e))
    }
}

/// What a policy returns on valid inputs: water-filling candidates put
/// through the feasibility pass, then the top-up pass.
pub open spec fn spec_allocate(alg: Algorithm, c: Seq<u64>, d: Seq<Seq<u64>>) -> Seq<int> {
    let base = clamp_coeffs(candidates(alg, c, d), d, c, d.len() as int);
    raise_coeffs(base.0, d, c, base.1, d.len() as int).0
}

/// Millionths of a unit of dimension `k` consumed by the first `n` flows
/// under coefficients `v`.
pub open spec fn usage(v: Seq<u64>, d: Seq<Seq<u64>>, k: int, n: int) -> int
    decreases n,
{
    if n <= 0 {
        0
    } else {
        usage(v, d, k, n - 1) + v[n - 1] * d[n - 1][k]
    }
}

/// `usage` reads only the first `n` coefficients, so appending one more
/// leaves it unchanged.
proof fn lemma_usage_push(v: Seq<u64>, x: u64, d: Seq<Seq<u64>>, k: int, n: int)
    requires
        n <= v.len(),
    ensures
        usage(v.push(x), d, k, n) == usage(v, d, k, n),
    decreases n,
{
    if n > 0 {
        lemma_usage_push(v, x, d, k, n - 1);
        assert(v.push(x)[n - 1] == v[n - 1]);
    }
}

/// Whether `v` asks for nothing in any dimension.
fn is_zero_vec(v: &Vec<u64>) -> (b: bool)
    ensures
        b == zero_demand(v@),
{
    let mut k: usize = 0;
    while k < v.len()
        invariant
            k <= v@.len(),
            forall|j: int| 0 <= j < k ==> #[trigger] v@[j] == 0,
        decreases v@.len() - k,
    {
        if v[k] != 0 {
            assert(!zero_demand(v@));
            return false;
        }
        k += 1;
    }
    true
}

/// The dominant-share scale of one demand vector.
fn drf_scale_exec(di: &Vec<u64>, c: &Vec<u64>) -> (s: u128)
    requires
        di@.len() == c@.len(),
        forall|k: int| 0 <= k < c@.len() ==> #[trigger] c@[k] >= 1,
        entries_bounded(di@),
    ensures
        s as int == drf_scale(di@, c@, c@.len() as int),
{
    let mut s: u128 = 0;
    let mut k: usize = 0;
    while k < c.len()
        invariant
            k <= c@.len(),
            di@.len() == c@.len(),
            forall|j: int| 0 <= j < c@.len() ==> #[trigger] c@[j] >= 1,
            entries_bounded(di@),
            s as int == drf_scale(di@, c@, k as int),
        decreases c@.len() - k,
    {
        assert(di@[k as int] <= MAX_UNITS);
        let num: u128 = (SCALE as u128) * (di[k] as u128);
        let term: u128 = num / (c[k] as u128);
        assert(term <= num) by {
            lemma_div_nonincreasing(num as int, c@[k as int] as int);
        }
        if term > s {
            s = term;
        }
        k += 1;
    }
    s
}

/// The asset scale (capacity-weighted total usage) of one demand vector.
fn asset_scale_exec(di: &Vec<u64>, c: &Vec<u64>) -> (s: u128)
    requires
        di@.len() == c@.len(),
        forall|k: int| 0 <= k < c@.len() ==> #[trigger] c@[k] >= 1,
        entries_bounded(di@),
    ensures
        s as int == asset_scale(di@, c@, c@.len() as int),
{
    let mut s: u128 = 0;
    let mut k: usize = 0;
    while k < c.len()
        invariant
            k <= c@.len(),
            di@.len() == c@.len(),
            forall|j: int| 0 <= j < c@.len() ==> #[trigger] c@[j] >= 1,
            entries_bounded(di@),
            s as int == asset_scale(di@, c@, k as int),
            s as int <= k as int * 1000000000000000000,
        decreases c@.len() - k,
    {
        assert(di@[k as int] <= MAX_UNITS);
        let num: u128 = (SCALE as u128) * (di[k] as u128);
        assert(num as int <= 1000000000000000000) by {
            lemma_mul_upper_bound(SCALE as int, 1000000, di@[k as int] as int, 1000000000000);
        }
        let term: u128 = num / (c[k] as u128);
        assert(term <= num) by {
            lemma_div_nonincreasing(num as int, c@[k as int] as int);
        }
        s = s + term;
        k += 1;
    }
    s
}

/// Total demand across flows in dimension `k`.
fn col_sum_exec(d: &Vec<Vec<u64>>, k: usize) -> (s: u128)
    requires
        d@.len() <= MAX_FLOWS,
        demands_bounded(rows(d@)),
        forall|i: int| 0 <= i < d@.len() ==> k < (#[trigger] d@[i])@.len(),
    ensures
        s as int == col_sum(rows(d@), k as int, d@.len() as int),
        s as int <= d@.len() as int * 1000000000000,
{
    let mut s: u128 = 0;
    let mut i: usize = 0;
    while i < d.len()
        invariant
            i <= d@.len(),
            d@.len() <= MAX_FLOWS,
            demands_bounded(rows(d@)),
            forall|j: int| 0 <= j < d@.len() ==> k < (#[trigger] d@[j])@.len(),
            s as int == col_sum(rows(d@), k as int, i as int),
            s as int <= i as int * 1000000000000,
        decreases d@.len() - i,
    {
        assert(rows(d@)[i as int] == d@[i as int]@);
        assert(d@[i as int]@[k as int] <= MAX_UNITS);
        s = s + (d[i][k] as u128);
        i += 1;
    }
    s
}

/// The most contended dimension (first of maximal pressure).
fn bottleneck_exec(c: &Vec<u64>, d: &Vec<Vec<u64>>) -> (b: usize)
    requires
        c@.len() >= 1,
        d@.len() <= MAX_FLOWS,
        forall|k: int| 0 <= k < c@.len() ==> #[trigger] c@[k] >= 1,
        demands_bounded(rows(d@)),
        forall|i: int| 0 <= i < d@.len() ==> (#[trigger] d@[i])@.len() == c@.len(),
    ensures
        b as int == bottleneck(c@, rows(d@), c@.len() as int),
        b < c@.len(),
{
    let mut b: usize = 0;
    let mut pb: u128 = {
        let s0 = col_sum_exec(d, 0);
        assert(SCALE as int * s0 as int <= 1000000000000000000000000000) by {
            lemma_mul_upper_bound(SCALE as int, 1000000, s0 as int, 1000000000000000000000);
        }
        (SCALE as u128) * s0 / (c[0] as u128)
    };
    assert(pb as int == pressure(c@, rows(d@), 0));
    let mut k: usize = 1;
    while k < c.len()
        invariant
            1 <= k <= c@.len(),
            c@.len() >= 1,
            d@.len() <= MAX_FLOWS,
            forall|j: int| 0 <= j < c@.len() ==> #[trigger] c@[j] >= 1,
            demands_bounded(rows(d@)),
            forall|i: int| 0 <= i < d@.len() ==> (#[trigger] d@[i])@.len() == c@.len(),
            b < k,
            b as int == bottleneck(c@, rows(d@), k as int),
            pb as int == pressure(c@, rows(d@), b as int),
        decreases c@.len() - k,
    {
        let sk = col_sum_exec(d, k);
        assert(SCALE as int * sk as int <= 1000000000000000000000000000) by {
            lemma_mul_upper_bound(SCALE as int, 1000000, sk as int, 1000000000000000000000);
        }
        let pk: u128 = (SCALE as u128) * sk / (c[k] as u128);
        assert(pk as int == pressure(c@, rows(d@), k as int));
        if pk > pb {
            b = k;
            pb = pk;
        }
        k += 1;
    }
    b
}

/// The per-flow scales of every flow under the given policy.
fn scales_exec(alg: Algorithm, c: &Vec<u64>, d: &Vec<Vec<u64>>) -> (v: Vec<u128>)
    requires
        d@.len() <= MAX_FLOWS,
        forall|k: int| 0 <= k < c@.len() ==> #[trigger] c@[k] >= 1,
        demands_bounded(rows(d@)),
        forall|i: int| 0 <= i < d@.len() ==> (#[trigger] d@[i])@.len() == c@.len(),
    ensures
        v@.len() == d@.len(),
        forall|i: int| 0 <= i < d@.len() ==> #[trigger] v@[i] as int == scale_of(
            alg,
            c@,
            rows(d@),
            i,
        ),
{
    let mut v: Vec<u128> = Vec::new();
    match alg {
        Algorithm::Drf => {
            let mut i: usize = 0;
            while i < d.len()
                invariant
                    i <= d@.len(),
                    v@.len() == i,
                    forall|k: int| 0 <= k < c@.len() ==> #[trigger] c@[k] >= 1,
                    demands_bounded(rows(d@)),
                    forall|j: int| 0 <= j < d@.len() ==> (#[trigger] d@[j])@.len() == c@.len(),
                    forall|j: int| 0 <= j < i ==> #[trigger] v@[j] as int == scale_of(
                        Algorithm::Drf,
                        c@,
                        rows(d@),
                        j,
                    ),
                decreases d@.len() - i,
            {
                assert(rows(d@)[i as int] == d@[i as int]@);
                assert(entries_bounded(d@[i as int]@));
                let s = drf_scale_exec(&d[i], c);
                v.push(s);
                i += 1;
            }
        },
        Algorithm::AssetFairness => {
            let mut i: usize = 0;
            while i < d.len()
                invariant
                    i <= d@.len(),
                    v@.len() == i,
                    forall|k: int| 0 <= k < c@.len() ==> #[trigger] c@[k] >= 1,
                    demands_bounded(rows(d@)),
                    forall|j: int| 0 <= j < d@.len() ==> (#[trigger] d@[j])@.len() == c@.len(),
                    forall|j: int| 0 <= j < i ==> #[trigger] v@[j] as int == scale_of(
                        Algorithm::AssetFairness,
                        c@,
                        rows(d@),
                        j,
                    ),
                decreases d@.len() - i,
            {
                assert(rows(d@)[i as int] == d@[i as int]@);
                assert(entries_bounded(d@[i as int]@));
                let s = asset_scale_exec(&d[i], c);
                v.push(s);
                i += 1;
            }
        },
        Algorithm::Ceei => {
            if c.len() == 0 {
                let mut i: usize = 0;
                while i < d.len()
                    invariant
                        i <= d@.len(),
                        v@.len() == i,
                        c@.len() == 0,
                        forall|j: int| 0 <= j < i ==> #[trigger] v@[j] as int == scale_of(
                            Algorithm::Ceei,
                            c@,
                            rows(d@),
                            j,
                        ),
                    decreases d@.len() - i,
                {
                    v.push(0u128);
                    i += 1;
                }
            } else {
                let b = bottleneck_exec(c, d);
                let mut i: usize = 0;
                while i < d.len()
                    invariant
                        i <= d@.len(),
                        v@.len() == i,
                        c@.len() >= 1,
                        b < c@.len(),
                        b as int == bottleneck(c@, rows(d@), c@.len() as int),
                        forall|k: int| 0 <= k < c@.len() ==> #[trigger] c@[k] >= 1,
                        demands_bounded(rows(d@)),
                        forall|j: int| 0 <= j < d@.len() ==> (#[trigger] d@[j])@.len() == c@.len(),
                        forall|j: int| 0 <= j < i ==> #[trigger] v@[j] as int == scale_of(
                            Algorithm::Ceei,
                            c@,
                            rows(d@),
                            j,
                        ),
                    decreases d@.len() - i,
                {
                    assert(rows(d@)[i as int] == d@[i as int]@);
                    assert(d@[i as int]@[b as int] <= MAX_UNITS);
                    let numb: u128 = (SCALE as u128) * (d[i][b] as u128);
                    assert(numb as int <= 1000000000000000000) by {
                        lemma_mul_upper_bound(SCALE as int, 1000000, d@[i as int]@[b as int] as int, 1000000000000);
                    }
                    let s: u128 = numb / (c[b] as u128);
                    v.push(s);
                    i += 1;
                }
            }
        },
    }
    v
}

/// The per-dimension total weights of the constrained flows not yet
/// frozen at one whole demand.
fn sum_weights_exec(
    alg: Algorithm,
    c: &Vec<u64>,
    d: &Vec<Vec<u64>>,
    scales: &Vec<u128>,
    mask: &Vec<bool>,
) -> (v: Vec<u128>)
    requires
        d@.len() <= MAX_FLOWS,
        scales@.len() == d@.len(),
        mask@.len() == d@.len(),
        forall|k: int| 0 <= k < c@.len() ==> #[trigger] c@[k] >= 1,
        demands_bounded(rows(d@)),
        forall|i: int| 0 <= i < d@.len() ==> (#[trigger] d@[i])@.len() == c@.len(),
        forall|i: int| 0 <= i < d@.len() ==> #[trigger] scales@[i] as int == scale_of(
            alg,
            c@,
            rows(d@),
            i,
        ),
    ensures
        v@.len() == c@.len(),
        forall|k: int| 0 <= k < c@.len() ==> #[trigger] v@[k] as int == sum_weight(
            alg,
            c@,
            rows(d@),
            mask@,
            k,
            d@.len() as int,
        ),
{
    let mut v: Vec<u128> = Vec::new();
    let mut k: usize = 0;
    while k < c.len()
        invariant
            k <= c@.len(),
            v@.len() == k,
            forall|j: int| 0 <= j < k ==> #[trigger] v@[j] == 0,
        decreases c@.len() - k,
    {
        v.push(0u128);
        k += 1;
    }
    let mut i: usize = 0;
    while i < d.len()
        invariant
            i <= d@.len(),
            d@.len() <= MAX_FLOWS,
            v@.len() == c@.len(),
            scales@.len() == d@.len(),
            mask@.len() == d@.len(),
            forall|j: int| 0 <= j < c@.len() ==> #[trigger] c@[j] >= 1,
            demands_bounded(rows(d@)),
            forall|j: int| 0 <= j < d@.len() ==> (#[trigger] d@[j])@.len() == c@.len(),
            forall|j: int| 0 <= j < d@.len() ==> #[trigger] scales@[j] as int == scale_of(
                alg,
                c@,
                rows(d@),
                j,
            ),
            forall|j: int| 0 <= j < c@.len() ==> #[trigger] v@[j] as int == sum_weight(
                alg,
                c@,
                rows(d@),
                mask@,
                j,
                i as int,
            ),
            forall|j: int| 0 <= j < c@.len() ==> #[trigger] v@[j] as int <= i as int
                * 1000000000000000000000000,
        decreases d@.len() - i,
    {
        if scales[i] > 0 && !mask[i] {
            let mut k2: usize = 0;
            while k2 < c.len()
                invariant
                    k2 <= c@.len(),
                    i < d@.len(),
                    d@.len() <= MAX_FLOWS,
                    v@.len() == c@.len(),
                    scales@.len() == d@.len(),
                    mask@.len() == d@.len(),
                    scales@[i as int] > 0,
                    !mask@[i as int],
                    forall|j: int| 0 <= j < c@.len() ==> #[trigger] c@[j] >= 1,
                    demands_bounded(rows(d@)),
                    forall|j: int| 0 <= j < d@.len() ==> (#[trigger] d@[j])@.len() == c@.len(),
                    forall|j: int| 0 <= j < d@.len() ==> #[trigger] scales@[j] as int == scale_of(
                        alg,
                        c@,
                        rows(d@),
                        j,
                    ),
                    forall|j: int| k2 <= j < c@.len() ==> #[trigger] v@[j] as int == sum_weight(
                        alg,
                        c@,
                        rows(d@),
                        mask@,
                        j,
                        i as int,
                    ),
                    forall|j: int| 0 <= j < k2 ==> #[trigger] v@[j] as int == sum_weight(
                        alg,
                        c@,
                        rows(d@),
                        mask@,
                        j,
                        i as int + 1,
                    ),
                    forall|j: int| k2 <= j < c@.len() ==> #[trigger] v@[j] as int <= i as int
                        * 1000000000000000000000000,
                    forall|j: int| 0 <= j < k2 ==> #[trigger] v@[j] as int <= (i as int + 1)
                        * 1000000000000000000000000,
                decreases c@.len() - k2,
            {
                assert(rows(d@)[i as int] == d@[i as int]@);
                assert(d@[i as int]@[k2 as int] <= MAX_UNITS);
                let num: u128 = (SCALE_SQ as u128) * (d[i][k2] as u128);
                assert(num as int <= 1000000000000000000000000) by {
                    lemma_mul_upper_bound(
                        SCALE_SQ as int,
                        1000000000000,
                        d@[i as int]@[k2 as int] as int,
                        1000000000000,
                    );
                }
                let w: u128 = num / scales[i];
                assert(w <= num) by {
                    lemma_div_nonincreasing(num as int, scales@[i as int] as int);
                }
                let old_v = v[k2];
                v.set(k2, old_v + w);
                k2 += 1;
            }
        } else {
            assert(forall|j: int|
                0 <= j < c@.len() ==> sum_weight(alg, c@, rows(d@), mask@, j, i as int + 1)
                    == sum_weight(alg, c@, rows(d@), mask@, j, i as int));
        }
        i += 1;
    }
    v
}

/// Whole units of dimension `k` consumed by the flows frozen at one whole
/// demand.
fn frozen_units_exec(d: &Vec<Vec<u64>>, mask: &Vec<bool>, k: usize) -> (s: u128)
    requires
        d@.len() <= MAX_FLOWS,
        mask@.len() == d@.len(),
        demands_bounded(rows(d@)),
        forall|i: int| 0 <= i < d@.len() ==> k < (#[trigger] d@[i])@.len(),
    ensures
        s as int == frozen_units(rows(d@), mask@, k as int, d@.len() as int),
        s as int <= d@.len() as int * 1000000000000,
{
    let mut s: u128 = 0;
    let mut i: usize = 0;
    while i < d.len()
        invariant
            i <= d@.len(),
            d@.len() <= MAX_FLOWS,
            mask@.len() == d@.len(),
            demands_bounded(rows(d@)),
            forall|j: int| 0 <= j < d@.len() ==> k < (#[trigger] d@[j])@.len(),
            s as int == frozen_units(rows(d@), mask@, k as int, i as int),
            s as int <= i as int * 1000000000000,
        decreases d@.len() - i,
    {
        assert(rows(d@)[i as int] == d@[i as int]@);
        assert(d@[i as int]@[k as int] <= MAX_UNITS);
        if mask[i] {
            s = s + (d[i][k] as u128);
        }
        i += 1;
    }
    s
}

/// The common water-filling level for a given frozen set.
fn level_exec(
    alg: Algorithm,
    c: &Vec<u64>,
    d: &Vec<Vec<u64>>,
    scales: &Vec<u128>,
    mask: &Vec<bool>,
) -> (x: u128)
    requires
        d@.len() <= MAX_FLOWS,
        scales@.len() == d@.len(),
        mask@.len() == d@.len(),
        entries_bounded(c@),
        forall|k: int| 0 <= k < c@.len() ==> #[trigger] c@[k] >= 1,
        demands_bounded(rows(d@)),
        forall|i: int| 0 <= i < d@.len() ==> (#[trigger] d@[i])@.len() == c@.len(),
        forall|i: int| 0 <= i < d@.len() ==> #[trigger] scales@[i] as int == scale_of(
            alg,
            c@,
            rows(d@),
            i,
        ),
    ensures
        x as int == level(alg, c@, rows(d@), mask@),
        x as int <= 1000000000000000000000000,
{
    let sums = sum_weights_exec(alg, c, d, scales, mask);
    let mut found = false;
    let mut x: u128 = 0;
    let mut k: usize = 0;
    while k < c.len()
        invariant
            k <= c@.len(),
            sums@.len() == c@.len(),
            mask@.len() == d@.len(),
            d@.len() <= MAX_FLOWS,
            entries_bounded(c@),
            demands_bounded(rows(d@)),
            forall|j: int| 0 <= j < d@.len() ==> (#[trigger] d@[j])@.len() == c@.len(),
            forall|j: int| 0 <= j < c@.len() ==> #[trigger] sums@[j] as int == sum_weight(
                alg,
                c@,
                rows(d@),
                mask@,
                j,
                d@.len() as int,
            ),
            !found ==> level_upto(alg, c@, rows(d@), mask@, k as int) == -1,
            found ==> x as int == level_upto(alg, c@, rows(d@), mask@, k as int),
            x as int <= 1000000000000000000000000,
        decreases c@.len() - k,
    {
        if sums[k] > 0 {
            assert(c@[k as int] <= MAX_UNITS);
            let fu = frozen_units_exec(d, mask, k);
            let cand: u128 = if fu >= c[k] as u128 {
                assert(level_num(c@, rows(d@), mask@, k as int) <= 0) by {
                    lemma_mul_nonpos_factor(
                        SCALE_SQ as int,
                        c@[k as int] - frozen_units(rows(d@), mask@, k as int, d@.len() as int),
                    );
                }
                0
            } else {
                let room: u128 = (c[k] as u128) - fu;
                proof {
                    lemma_mul_upper_bound(SCALE_SQ as int, 1000000000000, room as int, 1000000000000);
                }
                let num: u128 = (SCALE_SQ as u128) * room;
                assert(num as int <= 1000000000000000000000000);
                assert(num as int == level_num(c@, rows(d@), mask@, k as int));
                assert(num as int >= 1) by {
                    lemma_mul_pos_factor(SCALE_SQ as int, room as int);
                }
                let q: u128 = num / sums[k];
                assert(q <= num) by {
                    lemma_div_nonincreasing(num as int, sums@[k as int] as int);
                }
                q
            };
            if !found || cand < x {
                x = cand;
            }
            found = true;
        }
        k += 1;
    }
    if found {
        x
    } else {
        0
    }
}

/// The product of a positive factor and a nonpositive one is nonpositive.
proof fn lemma_mul_nonpos_factor(a: int, b: int)
    requires
        a >= 0,
        b <= 0,
    ensures
        a * b <= 0,
{
    lemma_mul_inequality(b, 0, a);
}

/// The product of two positive factors is positive.
proof fn lemma_mul_pos_factor(a: int, b: int)
    requires
        a >= 1,
        b >= 1,
    ensures
        a * b >= 1,
{
    lemma_mul_inequality(1, b, a);
}

/// The fixpoint frozen set of progressive filling: one round per flow,
/// each round freezing every constrained flow whose whole demand fits at
/// the current common level.
fn fill_mask_exec(alg: Algorithm, c: &Vec<u64>, d: &Vec<Vec<u64>>, scales: &Vec<u128>) -> (m: Vec<
    bool,
>)
    requires
        d@.len() <= MAX_FLOWS,
        scales@.len() == d@.len(),
        entries_bounded(c@),
        forall|k: int| 0 <= k < c@.len() ==> #[trigger] c@[k] >= 1,
        demands_bounded(rows(d@)),
        forall|i: int| 0 <= i < d@.len() ==> (#[trigger] d@[i])@.len() == c@.len(),
        forall|i: int| 0 <= i < d@.len() ==> #[trigger] scales@[i] as int == scale_of(
            alg,
            c@,
            rows(d@),
            i,
        ),
    ensures
        m@.len() == d@.len(),
        m@ == final_mask(alg, c@, rows(d@)),
{
    let n = d.len();
    let mut mask: Vec<bool> = Vec::new();
    let mut j: usize = 0;
    while j < n
        invariant
            j <= d@.len(),
            n == d@.len(),
            mask@.len() == j,
            forall|m2: int| 0 <= m2 < j ==> #[trigger] mask@[m2] == false,
        decreases d@.len() - j,
    {
        mask.push(false);
        j += 1;
    }
    proof {
        assert(mask@ =~= fill_mask(alg, c@, rows(d@), 0));
    }
    let mut round: usize = 0;
    while round < n
        invariant
            round <= d@.len(),
            n == d@.len(),
            d@.len() <= MAX_FLOWS,
            scales@.len() == d@.len(),
            mask@.len() == d@.len(),
            entries_bounded(c@),
            forall|k: int| 0 <= k < c@.len() ==> #[trigger] c@[k] >= 1,
            demands_bounded(rows(d@)),
            forall|i: int| 0 <= i < d@.len() ==> (#[trigger] d@[i])@.len() == c@.len(),
            forall|i: int| 0 <= i < d@.len() ==> #[trigger] scales@[i] as int == scale_of(
                alg,
                c@,
                rows(d@),
                i,
            ),
            mask@ == fill_mask(alg, c@, rows(d@), round as int),
        decreases d@.len() - round,
    {
        let x = level_exec(alg, c, d, scales, &mask);
        let ghost mask_old = mask@;
        let mut i: usize = 0;
        while i < n
            invariant
                i <= d@.len(),
                n == d@.len(),
                scales@.len() == d@.len(),
                mask@.len() == d@.len(),
                x as int == level(alg, c@, rows(d@), mask_old),
                forall|j2: int| 0 <= j2 < d@.len() ==> #[trigger] scales@[j2] as int == scale_of(
                    alg,
                    c@,
                    rows(d@),
                    j2,
                ),
                forall|j2: int| i <= j2 < d@.len() ==> #[trigger] mask@[j2] == mask_old[j2],
                forall|j2: int|
                    0 <= j2 < i ==> #[trigger] mask@[j2] == (mask_old[j2] || 1 <= scale_of(
                        alg,
                        c@,
                        rows(d@),
                        j2,
                    ) <= level(alg, c@, rows(d@), mask_old)),
            decreases d@.len() - i,
        {
            let already = mask[i];
            let s = scales[i];
            let fr = already || (s >= 1 && s <= x);
            mask.set(i, fr);
            i += 1;
        }
        proof {
            assert(mask@ =~= freeze_round(alg, c@, rows(d@), mask_old));
        }
        round += 1;
    }
    mask
}

/// Splits `resources` among `demands` under the policy `self`.
///
/// On success the result holds one coefficient per flow, each in
/// `0 ..= SCALE` millionths: the fraction of that flow's demand that is
/// granted. The result is exactly `spec_allocate`, so identical inputs
/// always produce identical outputs; a flow that demands nothing receives
/// zero; and the granted amounts never exceed capacity in any dimension.
/// Progressive filling holds every unsaturated flow at one common level
/// (`lemma_common_level_equalizes`), a workload that fits is granted
/// whole (`lemma_fitting_workload_saturates`), and no coefficient can be
/// raised without exceeding capacity (`lemma_no_coefficient_can_rise`).
///
/// Fails with `InfeasibleInput` exactly when some capacity entry is zero or
/// some demand vector's length differs from the capacity vector's.
impl Algorithm {
    pub fn allocate(&self, resources: &Vec<u64>, demands: &Vec<Vec<u64>>) -> (r: Result<
        Vec<u64>,
        SimError,
    >)
        requires
            entries_bounded(resources@),
            demands_bounded(rows(demands@)),
            demands@.len() <= MAX_FLOWS,
        ensures
            r is Ok <==> inputs_ok(resources@, rows(demands@)),
            r is Err ==> r == Result::<Vec<u64>, SimError>::Err(SimError::InfeasibleInput),
            r matches Ok(v) ==> {
                &&& v@.len() == demands@.len()
                &&& forall|i: int| 0 <= i < v@.len() ==> #[trigger] v@[i] <= SCALE
                &&& forall|i: int| 0 <= i < v@.len() ==> #[trigger] v@[i] as int == spec_allocate(
                    *self,
                    resources@,
                    rows(demands@),
                )[i]
                &&& forall|k: int|
                    0 <= k < resources@.len() ==> usage(
                        v@,
                        rows(demands@),
                        k,
                        demands@.len() as int,
                    ) <= SCALE * (#[trigger] resources@[k])
                &&& forall|i: int|
                    0 <= i < v@.len() && zero_demand(rows(demands@)[i]) ==> #[trigger] v@[i] == 0
            },
    {
        // Validation: reject a zero capacity entry or a length mismatch.
        let mut k: usize = 0;
        while k < resources.len()
            invariant
                k <= resources@.len(),
                forall|j: int| 0 <= j < k ==> #[trigger] resources@[j] >= 1,
            decreases resources@.len() - k,
        {
            if resources[k] == 0 {
                assert(!inputs_ok(resources@, rows(demands@)));
                return Err(SimError::InfeasibleInput);
            }
            k += 1;
        }
        let mut i: usize = 0;
        while i < demands.len()
            invariant
                i <= demands@.len(),
                forall|j: int| 0 <= j < i ==> (#[trigger] rows(demands@)[j]).len()
                    == resources@.len(),
            decreases demands@.len() - i,
        {
            if demands[i].len() != resources.len() {
                assert(rows(demands@)[i as int].len() != resources@.len());
                return Err(SimError::InfeasibleInput);
            }
            i += 1;
        }
        let ghost c = resources@;
        let ghost dv = rows(demands@);
        assert(inputs_ok(c, dv));
        assert(forall|j: int|
            0 <= j < demands@.len() ==> (#[trigger] demands@[j])@.len() == resources@.len()) by {
            assert forall|j: int|
                0 <= j < demands@.len() implies (#[trigger] demands@[j])@.len()
                == resources@.len() by {
                assert(rows(demands@)[j] == demands@[j]@);
            }
        }

        // Water-filling candidates.
        let scales = scales_exec(*self, resources, demands);
        let mask = fill_mask_exec(*self, resources, demands, &scales);
        let x = level_exec(*self, resources, demands, &scales, &mask);
        let mut cands: Vec<u64> = Vec::new();
        let mut i2: usize = 0;
        while i2 < demands.len()
            invariant
                i2 <= demands@.len(),
                cands@.len() == i2,
                scales@.len() == demands@.len(),
                inputs_ok(c, dv),
                c == resources@,
                dv == rows(demands@),
                mask@.len() == demands@.len(),
                mask@ == final_mask(*self, c, dv),
                x as int == final_level(*self, c, dv),
                x as int <= 1000000000000000000000000,
                forall|j: int| 0 <= j < demands@.len() ==> #[trigger] scales@[j] as int == scale_of(
                    *self,
                    c,
                    dv,
                    j,
                ),
                forall|j: int| 0 <= j < i2 ==> #[trigger] cands@[j] as int == candidate(
                    *self,
                    c,
                    dv,
                    j,
                ),
                forall|j: int| 0 <= j < i2 ==> #[trigger] cands@[j] <= SCALE,
            decreases demands@.len() - i2,
        {
            assert(dv[i2 as int] == demands@[i2 as int]@);
            let zi = is_zero_vec(&demands[i2]);
            if zi {
                cands.push(0u64);
            } else if scales[i2] == 0 {
                cands.push(SCALE);
            } else if mask[i2] {
                cands.push(SCALE);
            } else {
                assert(x as int * SCALE as int <= 1000000000000000000000000000000) by {
                    lemma_mul_upper_bound(x as int, 1000000000000000000000000, SCALE as int, 1000000);
                }
                let q: u128 = x * (SCALE as u128) / scales[i2];
                if q > SCALE as u128 {
                    cands.push(SCALE);
                } else {
                    cands.push(q as u64);
                }
            }
            i2 += 1;
        }

        // Feasibility pass: never exceed the remaining capacity.
        let mut rem: Vec<u64> = Vec::new();
        let mut k2: usize = 0;
        while k2 < resources.len()
            invariant
                k2 <= resources@.len(),
                rem@.len() == k2,
                entries_bounded(resources@),
                forall|j: int| 0 <= j < k2 ==> #[trigger] rem@[j] as int == SCALE * resources@[j],
            decreases resources@.len() - k2,
        {
            assert(SCALE as int * resources@[k2 as int] as int <= 1000000000000000000) by {
                lemma_mul_upper_bound(SCALE as int, 1000000, resources@[k2 as int] as int, 1000000000000);
            }
            rem.push(SCALE * resources[k2]);
            k2 += 1;
        }
        let ghost cands0 = cands@.map_values(|u: u64| u as int);
        assert(forall|j: int| 0 <= j < dv.len() ==> cands0[j] == candidates(*self, c, dv)[j]);
        assert(cands0 =~= candidates(*self, c, dv));
        let mut out: Vec<u64> = Vec::new();
        let mut i3: usize = 0;
        while i3 < demands.len()
            invariant
                i3 <= demands@.len(),
                out@.len() == i3,
                rem@.len() == resources@.len(),
                cands@.len() == demands@.len(),
                inputs_ok(c, dv),
                c == resources@,
                dv == rows(demands@),
                entries_bounded(c),
                demands_bounded(dv),
                cands0 == candidates(*self, c, dv),
                forall|j: int| 0 <= j < demands@.len() ==> #[trigger] cands@[j] <= SCALE,
                forall|j: int| 0 <= j < demands@.len() ==> cands0[j] == #[trigger] cands@[j] as int,
                out@.map_values(|u: u64| u as int) =~= clamp_coeffs(cands0, dv, c, i3 as int).0,
                rem@.map_values(|u: u64| u as int) =~= clamp_coeffs(cands0, dv, c, i3 as int).1,
                forall|j: int| 0 <= j < i3 ==> #[trigger] out@[j] <= SCALE,
                forall|j: int| 0 <= j < resources@.len() ==> #[trigger] rem@[j] as int == SCALE
                    * resources@[j] - usage(out@, dv, j, i3 as int),
            decreases demands@.len() - i3,
        {
            let ghost rem_pre = rem@.map_values(|u: u64| u as int);
            let ghost out_pre = out@;
            let mut n: u64 = cands[i3];
            let mut k3: usize = 0;
            while k3 < resources.len()
                invariant
                    k3 <= resources@.len(),
                    i3 < demands@.len(),
                    rem@.len() == resources@.len(),
                    dv == rows(demands@),
                    dv[i3 as int].len() == resources@.len(),
                    cands@.len() == demands@.len(),
                    cands@[i3 as int] <= SCALE,
                    rem_pre == rem@.map_values(|u: u64| u as int),
                    n as int == take_cap(cands@[i3 as int] as int, dv[i3 as int], rem_pre, k3 as int),
                    n <= cands@[i3 as int],
                decreases resources@.len() - k3,
            {
                assert(dv[i3 as int][k3 as int] == demands@[i3 as int]@[k3 as int]);
                let dk = demands[i3][k3];
                if dk > 0 {
                    let q = rem[k3] / dk;
                    if q < n {
                        n = q;
                    }
                }
                k3 += 1;
            }
            // Subtract this flow's granted usage from the remaining capacity.
            let mut k4: usize = 0;
            while k4 < resources.len()
                invariant
                    k4 <= resources@.len(),
                    i3 < demands@.len(),
                    rem@.len() == resources@.len(),
                    c == resources@,
                    dv == rows(demands@),
                    dv[i3 as int].len() == resources@.len(),
                    entries_bounded(dv[i3 as int]),
                    n <= SCALE,
                    n as int == take_cap(cands@[i3 as int] as int, dv[i3 as int], rem_pre, c.len() as int),
                    rem_pre == clamp_coeffs(cands0, dv, c, i3 as int).1,
                    forall|j: int| k4 <= j < resources@.len() ==> #[trigger] rem@[j] as int
                        == rem_pre[j],
                    forall|j: int| 0 <= j < k4 ==> #[trigger] rem@[j] as int == rem_pre[j] - n
                        * dv[i3 as int][j],
                    forall|j: int| 0 <= j < resources@.len() ==> rem_pre[j] >= 0,
                decreases resources@.len() - k4,
            {
                let dk = demands[i3][k4];
                assert(dv[i3 as int][k4 as int] == demands@[i3 as int]@[k4 as int]);
                proof {
                    if dk > 0 {
                        lemma_take_cap_bounds(
                            cands@[i3 as int] as int,
                            dv[i3 as int],
                            rem_pre,
                            c.len() as int,
                            k4 as int,
                        );
                        // n <= rem_pre[k4] / dk, hence n * dk <= rem_pre[k4]
                        lemma_fundamental_div_mod(rem_pre[k4 as int], dk as int);
                        lemma_mod_bound(rem_pre[k4 as int], dk as int);
                        lemma_mul_inequality(
                            n as int,
                            rem_pre[k4 as int] / (dk as int),
                            dk as int,
                        );
                    }
                    lemma_mul_upper_bound(n as int, 1000000, dk as int, 1000000000000);
                }
                let used = n * dk;
                let old_r = rem[k4];
                rem.set(k4, old_r - used);
                k4 += 1;
            }
            out.push(n);
            proof {
                lemma_usage_push(out_pre, n, dv, 0, i3 as int);
                assert(forall|j: int|
                    0 <= j < resources@.len() ==> usage(out@, dv, j, i3 as int + 1) == usage(
                        out_pre,
                        dv,
                        j,
                        i3 as int,
                    ) + n * dv[i3 as int][j]) by {
                    assert forall|j: int| 0 <= j < resources@.len() implies usage(
                        out@,
                        dv,
                        j,
                        i3 as int + 1,
                    ) == usage(out_pre, dv, j, i3 as int) + n * dv[i3 as int][j] by {
                        lemma_usage_push(out_pre, n, dv, j, i3 as int);
                        assert(out@[i3 as int] == n);
                    }
                }
                assert(out@.map_values(|u: u64| u as int) =~= clamp_coeffs(
                    cands0,
                    dv,
                    c,
                    i3 as int + 1,
                ).0);
                assert(rem@.map_values(|u: u64| u as int) =~= clamp_coeffs(
                    cands0,
                    dv,
                    c,
                    i3 as int + 1,
                ).1);
            }
            i3 += 1;
        }
        // Top-up pass: hand leftover capacity back out in flow order.
        let ghost base_s = out@.map_values(|u: u64| u as int);
        let ghost rem0_s = rem@.map_values(|u: u64| u as int);
        let n_flows = demands.len();
        let mut out2: Vec<u64> = Vec::new();
        let mut i4: usize = 0;
        while i4 < n_flows
            invariant
                i4 <= demands@.len(),
                n_flows == demands@.len(),
                out2@.len() == i4,
                out@.len() == demands@.len(),
                rem@.len() == resources@.len(),
                inputs_ok(c, dv),
                c == resources@,
                dv == rows(demands@),
                entries_bounded(c),
                demands_bounded(dv),
                base_s == out@.map_values(|u: u64| u as int),
                forall|j: int| 0 <= j < demands@.len() ==> #[trigger] out@[j] <= SCALE,
                out2@.map_values(|u: u64| u as int) =~= raise_coeffs(
                    base_s,
                    dv,
                    c,
                    rem0_s,
                    i4 as int,
                ).0,
                rem@.map_values(|u: u64| u as int) =~= raise_coeffs(
                    base_s,
                    dv,
                    c,
                    rem0_s,
                    i4 as int,
                ).1,
                forall|j: int| 0 <= j < i4 ==> #[trigger] out2@[j] <= SCALE,
                forall|j: int| 0 <= j < resources@.len() ==> #[trigger] rem@[j] as int == SCALE
                    * resources@[j] - usage(out@, dv, j, demands@.len() as int) - (usage(
                    out2@,
                    dv,
                    j,
                    i4 as int,
                ) - usage(out@, dv, j, i4 as int)),
            decreases demands@.len() - i4,
        {
            let ghost rem_pre = rem@.map_values(|u: u64| u as int);
            let ghost out2_pre = out2@;
            let n = out[i4];
            let zi = is_zero_vec(&demands[i4]);
            let mut e: u64 = 0;
            if !zi {
                e = SCALE - n;
                let mut k5: usize = 0;
                while k5 < resources.len()
                    invariant
                        k5 <= resources@.len(),
                        i4 < demands@.len(),
                        rem@.len() == resources@.len(),
                        dv == rows(demands@),
                        dv[i4 as int].len() == resources@.len(),
                        out@.len() == demands@.len(),
                        n == out@[i4 as int],
                        n <= SCALE,
                        rem_pre == rem@.map_values(|u: u64| u as int),
                        e as int == raise_cap(n as int, dv[i4 as int], rem_pre, k5 as int),
                        e <= SCALE - n,
                    decreases resources@.len() - k5,
                {
                    assert(dv[i4 as int][k5 as int] == demands@[i4 as int]@[k5 as int]);
                    let dk = demands[i4][k5];
                    if dk > 0 {
                        let q = rem[k5] / dk;
                        if q < e {
                            e = q;
                        }
                    }
                    k5 += 1;
                }
            }
            assert(e as int == raise_of(n as int, dv[i4 as int], rem_pre, c.len() as int));
            let mut k6: usize = 0;
            while k6 < resources.len()
                invariant
                    k6 <= resources@.len(),
                    i4 < demands@.len(),
                    rem@.len() == resources@.len(),
                    c == resources@,
                    dv == rows(demands@),
                    dv[i4 as int].len() == resources@.len(),
                    entries_bounded(dv[i4 as int]),
                    out@.len() == demands@.len(),
                    n == out@[i4 as int],
                    e <= SCALE,
                    e as int == raise_of(n as int, dv[i4 as int], rem_pre, c.len() as int),
                    rem_pre == raise_coeffs(base_s, dv, c, rem0_s, i4 as int).1,
                    forall|j: int| k6 <= j < resources@.len() ==> #[trigger] rem@[j] as int
                        == rem_pre[j],
                    forall|j: int| 0 <= j < k6 ==> #[trigger] rem@[j] as int == rem_pre[j] - e
                        * dv[i4 as int][j],
                    forall|j: int| 0 <= j < resources@.len() ==> rem_pre[j] >= 0,
                decreases resources@.len() - k6,
            {
                let dk = demands[i4][k6];
                assert(dv[i4 as int][k6 as int] == demands@[i4 as int]@[k6 as int]);
                proof {
                    if zero_demand(dv[i4 as int]) {
                        assert(dv[i4 as int][k6 as int] == 0);
                    } else if dk > 0 {
                        lemma_raise_cap_bounds(
                            n as int,
                            dv[i4 as int],
                            rem_pre,
                            c.len() as int,
                            k6 as int,
                        );
                        lemma_fundamental_div_mod(rem_pre[k6 as int], dk as int);
                        lemma_mod_bound(rem_pre[k6 as int], dk as int);
                        lemma_mul_inequality(
                            e as int,
                            rem_pre[k6 as int] / (dk as int),
                            dk as int,
                        );
                    }
                    lemma_mul_upper_bound(e as int, 1000000, dk as int, 1000000000000);
                }
                let used = e * dk;
                let old_r = rem[k6];
                rem.set(k6, old_r - used);
                k6 += 1;
            }
            out2.push(n + e);
            proof {
                assert forall|j: int| 0 <= j < resources@.len() implies usage(
                    out2@,
                    dv,
                    j,
                    i4 as int + 1,
                ) == usage(out2_pre, dv, j, i4 as int) + n * dv[i4 as int][j] + e * dv[i4 as int][j] by {
                    lemma_usage_push(out2_pre, (n + e) as u64, dv, j, i4 as int);
                    assert(out2@[i4 as int] == n + e);
                    lemma_mul_is_distributive_add_other_way(
                        dv[i4 as int][j] as int,
                        n as int,
                        e as int,
                    );
                }
                assert(forall|j: int|
                    0 <= j < resources@.len() ==> usage(out@, dv, j, i4 as int + 1) == usage(
                        out@,
                        dv,
                        j,
                        i4 as int,
                    ) + n * dv[i4 as int][j]);
                assert(out2@.map_values(|u: u64| u as int) =~= raise_coeffs(
                    base_s,
                    dv,
                    c,
                    rem0_s,
                    i4 as int + 1,
                ).0);
                assert(rem@.map_values(|u: u64| u as int) =~= raise_coeffs(
                    base_s,
                    dv,
                    c,
                    rem0_s,
                    i4 as int + 1,
                ).1);
            }
            i4 += 1;
        }
        proof {
            assert forall|j: int|
                0 <= j < resources@.len() implies usage(out2@, dv, j, demands@.len() as int)
                <= SCALE * resources@[j] by {
                assert(rem@[j] as int == SCALE * resources@[j] - usage(
                    out@,
                    dv,
                    j,
                    demands@.len() as int,
                ) - (usage(out2@, dv, j, i4 as int) - usage(out@, dv, j, i4 as int)));
            }
            assert(forall|i: int|
                0 <= i < out2@.len() && zero_demand(dv[i]) ==> out2@[i] == 0) by {
                assert forall|i: int|
                    0 <= i < out2@.len() && zero_demand(dv[i]) implies out2@[i] == 0 by {
                    lemma_zero_candidate(*self, c, dv, i);
                    assert(out2@.map_values(|u: u64| u as int)[i] == spec_allocate(
                        *self,
                        c,
                        dv,
                    )[i]);
                    lemma_raise_zero_at(base_s, dv, c, rem0_s, demands@.len() as int, i);
                    lemma_clamp_le_cand(cands0, dv, c, demands@.len() as int, i);
                }
            }
        }
        Ok(out2)
    }
}

/// `raise_cap` respects every dimension it has looked at.
proof fn lemma_raise_cap_bounds(n0: int, di: Seq<u64>, rem: Seq<int>, r: int, k: int)
    requires
        0 <= k < r,
        di[k] > 0,
    ensures
        raise_cap(n0, di, rem, r) <= rem[k] / (di[k] as int),
    decreases r,
{
    if k < r - 1 {
        lemma_raise_cap_bounds(n0, di, rem, r - 1, k);
    }
}

/// The top-up pass yields one coefficient per flow considered.
proof fn lemma_raise_len(base: Seq<int>, d: Seq<Seq<u64>>, c: Seq<u64>, rem0: Seq<int>, n: int)
    ensures
        raise_coeffs(base, d, c, rem0, n).0.len() == (if n <= 0 { 0int } else { n }),
        raise_coeffs(base, d, c, rem0, n).1.len() == rem0.len(),
    decreases n,
{
    if n > 0 {
        lemma_raise_len(base, d, c, rem0, n - 1);
    }
}

/// A flow that demands nothing is not topped up.
proof fn lemma_raise_zero_at(
    base: Seq<int>,
    d: Seq<Seq<u64>>,
    c: Seq<u64>,
    rem0: Seq<int>,
    n: int,
    i: int,
)
    requires
        0 <= i < n,
        zero_demand(d[i]),
    ensures
        raise_coeffs(base, d, c, rem0, n).0[i] == base[i],
        raise_coeffs(base, d, c, rem0, n).0.len() == n,
    decreases n,
{
    lemma_raise_len(base, d, c, rem0, n);
    if i < n - 1 {
        lemma_raise_zero_at(base, d, c, rem0, n - 1, i);
    }
}

/// Determinism: what a policy returns is a function of the capacity and
/// the demand vectors alone. Since `Algorithm::allocate` returns exactly
/// `spec_allocate` of its inputs, two calls on identical inputs yield
/// identical coefficient sequences.
pub proof fn lemma_allocate_deterministic(
    alg: Algorithm,
    c1: Seq<u64>,
    d1: Seq<Seq<u64>>,
    c2: Seq<u64>,
    d2: Seq<Seq<u64>>,
)
    requires
        c1 == c2,
        d1 == d2,
    ensures
        spec_allocate(alg, c1, d1) == spec_allocate(alg, c2, d2),
{
}

/// The fairness criterion the progressive fill equalizes. Any two flows
/// whose proposed coefficients lie strictly below one whole demand are
/// both held at the same final common level, so their metric totals —
/// dominant share under `Drf`, spend on the priced bottleneck under
/// `Ceei`, capacity-weighted usage under `AssetFairness` — are equal up
/// to integer rounding: each flow's total exceeds the other's by less
/// than one coefficient step of the other flow's metric.
pub proof fn lemma_common_level_equalizes(
    alg: Algorithm,
    c: Seq<u64>,
    d: Seq<Seq<u64>>,
    i: int,
    j: int,
)
    requires
        0 <= i < d.len(),
        0 <= j < d.len(),
        !zero_demand(d[i]),
        !zero_demand(d[j]),
        candidate(alg, c, d, i) < SCALE,
        candidate(alg, c, d, j) < SCALE,
    ensures
        scale_of(alg, c, d, i) * candidate(alg, c, d, i) <= scale_of(alg, c, d, j) * candidate(
            alg,
            c,
            d,
            j,
        ) + scale_of(alg, c, d, j),
{
    let si = scale_of(alg, c, d, i);
    let sj = scale_of(alg, c, d, j);
    assert(si >= 1);
    assert(sj >= 1);
    let lv = final_level(alg, c, d);
    assert(lv >= 0);
    lemma_mul_nonnegative(lv, SCALE as int);
    lemma_fundamental_div_mod(lv * SCALE, si);
    lemma_mod_bound(lv * SCALE, si);
    lemma_fundamental_div_mod(lv * SCALE, sj);
    lemma_mod_bound(lv * SCALE, sj);
}

/// Flows the policy metric weighs identically are proposed identical
/// coefficients: the common level does not depend on flow order.
pub proof fn lemma_equal_scales_equal_proposals(
    alg: Algorithm,
    c: Seq<u64>,
    d: Seq<Seq<u64>>,
    i: int,
    j: int,
)
    requires
        0 <= i < d.len(),
        0 <= j < d.len(),
        !zero_demand(d[i]),
        !zero_demand(d[j]),
        scale_of(alg, c, d, i) == scale_of(alg, c, d, j),
        final_mask(alg, c, d)[i] == final_mask(alg, c, d)[j],
    ensures
        candidate(alg, c, d, i) == candidate(alg, c, d, j),
{
}

/// `take_cap` never raises the coefficient, and respects every dimension it
/// has looked at: for `k < r` with positive demand, the result times the
/// demand stays within the remaining capacity.
proof fn lemma_take_cap_bounds(n0: int, di: Seq<u64>, rem: Seq<int>, r: int, k: int)
    requires
        0 <= k < r,
        di[k] > 0,
    ensures
        take_cap(n0, di, rem, r) <= n0,
        take_cap(n0, di, rem, r) <= rem[k] / (di[k] as int),
    decreases r,
{
    lemma_take_cap_le(n0, di, rem, r);
    if k == r - 1 {
        lemma_take_cap_le(n0, di, rem, r - 1);
    } else {
        lemma_take_cap_bounds(n0, di, rem, r - 1, k);
    }
}

/// `take_cap` never exceeds its starting coefficient.
proof fn lemma_take_cap_le(n0: int, di: Seq<u64>, rem: Seq<int>, r: int)
    ensures
        take_cap(n0, di, rem, r) <= n0,
    decreases r,
{
    if r > 0 {
        lemma_take_cap_le(n0, di, rem, r - 1);
    }
}

/// A flow that demands nothing is proposed a zero coefficient.
proof fn lemma_zero_candidate(alg: Algorithm, c: Seq<u64>, d: Seq<Seq<u64>>, i: int)
    requires
        0 <= i < d.len(),
        zero_demand(d[i]),
    ensures
        candidate(alg, c, d, i) == 0,
{
}

/// The feasibility pass never raises a coefficient above its proposal.
proof fn lemma_clamp_le_cand(cands: Seq<int>, d: Seq<Seq<u64>>, c: Seq<u64>, n: int, i: int)
    requires
        0 <= i < n,
    ensures
        clamp_coeffs(cands, d, c, n).0[i] <= cands[i],
        clamp_coeffs(cands, d, c, n).0.len() == n,
    decreases n,
{
    lemma_clamp_len(cands, d, c, n);
    if i == n - 1 {
        lemma_take_cap_le(
            cands[n - 1],
            d[n - 1],
            clamp_coeffs(cands, d, c, n - 1).1,
            c.len() as int,
        );
        lemma_clamp_len(cands, d, c, n - 1);
    } else {
        lemma_clamp_le_cand(cands, d, c, n - 1, i);
    }
}

/// The feasibility pass yields one coefficient per flow considered.
proof fn lemma_clamp_len(cands: Seq<int>, d: Seq<Seq<u64>>, c: Seq<u64>, n: int)
    ensures
        clamp_coeffs(cands, d, c, n).0.len() == (if n <= 0 { 0int } else { n }),
        clamp_coeffs(cands, d, c, n).1.len() == c.len(),
    decreases n,
{
    if n > 0 {
        lemma_clamp_len(cands, d, c, n - 1);
    }
}


/// Millionths of a unit of dimension `k` consumed by the first `n` flows
/// under spec-level grants `v`.
pub open spec fn grant_usage(v: Seq<int>, d: Seq<Seq<u64>>, k: int, n: int) -> int
    decreases n,
{
    if n <= 0 {
        0
    } else {
        grant_usage(v, d, k, n - 1) + v[n - 1] * d[n - 1][k]
    }
}

/// Grants of at most one whole demand each use at most `SCALE` times the
/// total demand, over any index window.
proof fn lemma_grant_usage_window(v: Seq<int>, d: Seq<Seq<u64>>, k: int, lo: int, hi: int)
    requires
        0 <= lo <= hi,
        forall|j: int| lo <= j < hi ==> 0 <= #[trigger] v[j] <= SCALE,
    ensures
        grant_usage(v, d, k, hi) - grant_usage(v, d, k, lo) <= SCALE * (col_sum(d, k, hi)
            - col_sum(d, k, lo)),
        grant_usage(v, d, k, hi) - grant_usage(v, d, k, lo) >= 0,
    decreases hi - lo,
{
    if hi > lo {
        lemma_grant_usage_window(v, d, k, lo, hi - 1);
        lemma_mul_inequality(v[hi - 1], SCALE as int, d[hi - 1][k] as int);
        lemma_mul_nonnegative(v[hi - 1], d[hi - 1][k] as int);
    }
}

/// The candidates are always whole-demand coefficients at most one.
proof fn lemma_candidate_range(alg: Algorithm, c: Seq<u64>, d: Seq<Seq<u64>>, i: int)
    ensures
        0 <= candidate(alg, c, d, i) <= SCALE,
{
    if !zero_demand(d[i]) {
        let s = scale_of(alg, c, d, i);
        if s >= 1 {
            lemma_mul_nonnegative(final_level(alg, c, d), SCALE as int);
            lemma_div_pos_is_pos(final_level(alg, c, d) * SCALE, s);
        }
    }
}

/// The feasibility pass keeps every grant within one whole demand and
/// leaves exactly the unconsumed capacity, never negative.
proof fn lemma_clamp_state(cands: Seq<int>, d: Seq<Seq<u64>>, c: Seq<u64>, i: int)
    requires
        forall|j: int| 0 <= j < cands.len() ==> 0 <= #[trigger] cands[j] <= SCALE,
        i <= cands.len(),
        forall|j: int| 0 <= j < i ==> (#[trigger] d[j]).len() == c.len(),
    ensures
        forall|j: int| 0 <= j < i ==> 0 <= #[trigger] clamp_coeffs(cands, d, c, i).0[j] <= SCALE,
        forall|k: int| 0 <= k < c.len() ==> #[trigger] clamp_coeffs(cands, d, c, i).1[k] == SCALE
            * c[k] - grant_usage(clamp_coeffs(cands, d, c, i).0, d, k, i),
        forall|k: int| 0 <= k < c.len() ==> #[trigger] clamp_coeffs(cands, d, c, i).1[k] >= 0,
    decreases i,
{
    lemma_clamp_len(cands, d, c, i);
    if i > 0 {
        lemma_clamp_state(cands, d, c, i - 1);
        lemma_clamp_len(cands, d, c, i - 1);
        let prev = clamp_coeffs(cands, d, c, i - 1);
        let n = take_cap(cands[i - 1], d[i - 1], prev.1, c.len() as int);
        lemma_take_cap_le(cands[i - 1], d[i - 1], prev.1, c.len() as int);
        assert(n >= 0) by {
            lemma_take_cap_nonneg(cands[i - 1], d[i - 1], prev.1, c.len() as int);
        }
        assert forall|k: int| 0 <= k < c.len() implies #[trigger] clamp_coeffs(
            cands,
            d,
            c,
            i,
        ).1[k] == SCALE * c[k] - grant_usage(clamp_coeffs(cands, d, c, i).0, d, k, i)
            && clamp_coeffs(cands, d, c, i).1[k] >= 0 by {
            lemma_grant_usage_push(prev.0, n, d, k, i - 1);
            if d[i - 1][k] > 0 {
                lemma_take_cap_bounds(cands[i - 1], d[i - 1], prev.1, c.len() as int, k);
                lemma_fundamental_div_mod(prev.1[k], d[i - 1][k] as int);
                lemma_mod_bound(prev.1[k], d[i - 1][k] as int);
                lemma_mul_inequality(n, prev.1[k] / (d[i - 1][k] as int), d[i - 1][k] as int);
            } else {
                assert(n * d[i - 1][k] == 0) by {
                    lemma_mul_by_zero(n);
                }
            }
        }
    }
}

/// Multiplying by zero yields zero.
proof fn lemma_mul_by_zero(n: int)
    ensures
        n * 0 == 0,
{
}

/// `take_cap` stays nonnegative over nonnegative remaining capacity.
proof fn lemma_take_cap_nonneg(n0: int, di: Seq<u64>, rem: Seq<int>, r: int)
    requires
        n0 >= 0,
        forall|k: int| 0 <= k < r ==> #[trigger] rem[k] >= 0,
    ensures
        take_cap(n0, di, rem, r) >= 0,
    decreases r,
{
    if r > 0 {
        lemma_take_cap_nonneg(n0, di, rem, r - 1);
        if di[r - 1] > 0 {
            lemma_div_pos_is_pos(rem[r - 1], di[r - 1] as int);
        }
    }
}

/// `grant_usage` reads only the first `n` grants.
proof fn lemma_grant_usage_push(v: Seq<int>, x: int, d: Seq<Seq<u64>>, k: int, n: int)
    requires
        n <= v.len(),
    ensures
        grant_usage(v.push(x), d, k, n) == grant_usage(v, d, k, n),
    decreases n,
{
    if n > 0 {
        lemma_grant_usage_push(v, x, d, k, n - 1);
        assert(v.push(x)[n - 1] == v[n - 1]);
    }
}

/// When every dimension has room for the whole top-up, the top-up is the
/// whole room.
proof fn lemma_raise_cap_full(n0: int, di: Seq<u64>, rem: Seq<int>, r: int)
    requires
        forall|k: int|
            0 <= k < r && #[trigger] di[k] > 0 ==> rem[k] / (di[k] as int) >= SCALE - n0,
    ensures
        raise_cap(n0, di, rem, r) == SCALE - n0,
    decreases r,
{
    if r > 0 {
        lemma_raise_cap_full(n0, di, rem, r - 1);
    }
}

/// In a workload whose total demand fits within capacity, the top-up pass
/// saturates every flow that demands anything: after it, each such flow
/// holds one whole demand, and the remaining capacity is what the full
/// workload leaves over.
proof fn lemma_raise_saturates(
    base: Seq<int>,
    d: Seq<Seq<u64>>,
    c: Seq<u64>,
    rem0: Seq<int>,
    i: int,
)
    requires
        base.len() == d.len(),
        rem0.len() == c.len(),
        i <= d.len(),
        forall|j: int| 0 <= j < d.len() ==> 0 <= #[trigger] base[j] <= SCALE,
        forall|j: int| 0 <= j < d.len() ==> (#[trigger] d[j]).len() == c.len(),
        forall|k: int| 0 <= k < c.len() ==> #[trigger] rem0[k] == SCALE * c[k] - grant_usage(
            base,
            d,
            k,
            d.len() as int,
        ),
        forall|k: int| 0 <= k < c.len() ==> col_sum(d, k, d.len() as int) <= #[trigger] c[k],
    ensures
        forall|j: int|
            0 <= j < i && !zero_demand(d[j]) ==> #[trigger] raise_coeffs(
                base,
                d,
                c,
                rem0,
                i,
            ).0[j] == SCALE,
        forall|j: int|
            0 <= j < i && zero_demand(d[j]) ==> #[trigger] raise_coeffs(base, d, c, rem0, i).0[j]
                == base[j],
        forall|j: int| 0 <= j < i ==> 0 <= #[trigger] raise_coeffs(base, d, c, rem0, i).0[j]
            <= SCALE,
        forall|k: int| 0 <= k < c.len() ==> #[trigger] raise_coeffs(base, d, c, rem0, i).1[k]
            == SCALE * c[k] - grant_usage(raise_coeffs(base, d, c, rem0, i).0, d, k, i) - (
        grant_usage(base, d, k, d.len() as int) - grant_usage(base, d, k, i)),
    decreases i,
{
    lemma_raise_len(base, d, c, rem0, i);
    if i > 0 {
        lemma_raise_saturates(base, d, c, rem0, i - 1);
        lemma_raise_len(base, d, c, rem0, i - 1);
        let prev = raise_coeffs(base, d, c, rem0, i - 1);
        let n = base[i - 1];
        let e = raise_of(n, d[i - 1], prev.1, c.len() as int);
        if !zero_demand(d[i - 1]) {
            // Every dimension still has room for this flow's whole top-up.
            assert forall|k: int|
                0 <= k < c.len() && #[trigger] d[i - 1][k] > 0 implies prev.1[k] / (d[i - 1][k]
                as int) >= SCALE - n by {
                let nn = d.len() as int;
                lemma_grant_usage_window(prev.0, d, k, 0, i - 1);
                lemma_grant_usage_window(base, d, k, i, nn);
                assert(grant_usage(base, d, k, i) == grant_usage(base, d, k, i - 1) + n * d[i
                    - 1][k]);
                assert(grant_usage(base, d, k, i - 1) >= 0) by {
                    lemma_grant_usage_window(base, d, k, 0, i - 1);
                }
                assert(col_sum(d, k, i) == col_sum(d, k, i - 1) + d[i - 1][k]);
                assert(col_sum(d, k, i - 1) >= 0) by {
                    lemma_col_sum_nonneg(d, k, i - 1);
                }
                assert(col_sum(d, k, nn) - col_sum(d, k, i) >= 0) by {
                    lemma_col_sum_mono(d, k, i, nn);
                }
                assert(grant_usage(prev.0, d, k, i - 1) <= SCALE * col_sum(d, k, i - 1));
                assert(grant_usage(base, d, k, nn) - grant_usage(base, d, k, i) <= SCALE * (
                col_sum(d, k, nn) - col_sum(d, k, i)));
                assert(SCALE * col_sum(d, k, nn) <= SCALE * c[k]) by {
                    lemma_mul_inequality(col_sum(d, k, nn), c[k] as int, SCALE as int);
                }
                assert(prev.1[k] >= SCALE * c[k] - SCALE * col_sum(d, k, i - 1) - (SCALE * (
                col_sum(d, k, nn) - col_sum(d, k, i))) - n * d[i - 1][k]);
                assert(SCALE * c[k] - SCALE * col_sum(d, k, i - 1) - (SCALE * (col_sum(d, k, nn)
                    - col_sum(d, k, i))) - n * d[i - 1][k] >= (SCALE - n) * d[i - 1][k]) by (nonlinear_arith)
                    requires
                        col_sum(d, k, i) == col_sum(d, k, i - 1) + d[i - 1][k],
                        SCALE * col_sum(d, k, nn) <= SCALE * c[k],
                ;
                lemma_div_is_ordered((SCALE - n) * (d[i - 1][k] as int), prev.1[k], d[i
                    - 1][k] as int);
                lemma_div_by_multiple(SCALE - n, d[i - 1][k] as int);
            }
            lemma_raise_cap_full(n, d[i - 1], prev.1, c.len() as int);
            assert(e == SCALE - n);
        } else {
            assert(e == 0);
        }
        // Remaining-capacity bookkeeping for the next flow.
        assert forall|k: int| 0 <= k < c.len() implies #[trigger] raise_coeffs(
            base,
            d,
            c,
            rem0,
            i,
        ).1[k] == SCALE * c[k] - grant_usage(raise_coeffs(base, d, c, rem0, i).0, d, k, i) - (
        grant_usage(base, d, k, d.len() as int) - grant_usage(base, d, k, i)) by {
            lemma_grant_usage_push(prev.0, n + e, d, k, i - 1);
            assert(grant_usage(base, d, k, i) == grant_usage(base, d, k, i - 1) + n * d[i
                - 1][k]);
            if zero_demand(d[i - 1]) {
                assert(d[i - 1][k] == 0);
                assert((n + e) * d[i - 1][k] == 0 && n * d[i - 1][k] == 0 && e * d[i - 1][k]
                    == 0) by {
                    lemma_mul_by_zero(n + e);
                    lemma_mul_by_zero(n);
                    lemma_mul_by_zero(e);
                }
            } else {
                lemma_mul_is_distributive_add_other_way(d[i - 1][k] as int, n, e);
            }
        }
    }
}

/// Full utilization: when the whole workload fits — the summed demands do
/// not exceed capacity in any dimension — every policy grants every flow
/// that demands anything its whole demand, and flows that demand nothing
/// get nothing.
pub proof fn lemma_fitting_workload_saturates(alg: Algorithm, c: Seq<u64>, d: Seq<Seq<u64>>)
    requires
        inputs_ok(c, d),
        forall|k: int| 0 <= k < c.len() ==> col_sum(d, k, d.len() as int) <= #[trigger] c[k],
    ensures
        forall|i: int|
            0 <= i < d.len() && !zero_demand(#[trigger] d[i]) ==> spec_allocate(alg, c, d)[i]
                == SCALE,
        forall|i: int|
            0 <= i < d.len() && zero_demand(#[trigger] d[i]) ==> spec_allocate(alg, c, d)[i] == 0,
{
    let cands = candidates(alg, c, d);
    let nn = d.len() as int;
    assert(forall|j: int| 0 <= j < cands.len() ==> 0 <= #[trigger] cands[j] <= SCALE) by {
        assert forall|j: int| 0 <= j < cands.len() implies 0 <= #[trigger] cands[j] <= SCALE by {
            lemma_candidate_range(alg, c, d, j);
        }
    }
    lemma_clamp_state(cands, d, c, nn);
    lemma_clamp_len(cands, d, c, nn);
    let base = clamp_coeffs(cands, d, c, nn);
    lemma_raise_saturates(base.0, d, c, base.1, nn);
    assert forall|i: int|
        0 <= i < d.len() && zero_demand(#[trigger] d[i]) implies spec_allocate(alg, c, d)[i]
        == 0 by {
        lemma_zero_candidate(alg, c, d, i);
        lemma_clamp_le_cand(cands, d, c, nn, i);
    }
}

/// `raise_cap` never exceeds the room up to one whole demand.
proof fn lemma_raise_cap_le(n0: int, di: Seq<u64>, rem: Seq<int>, r: int)
    ensures
        raise_cap(n0, di, rem, r) <= SCALE - n0,
    decreases r,
{
    if r > 0 {
        lemma_raise_cap_le(n0, di, rem, r - 1);
    }
}

/// With leftover capacity everywhere nonnegative, a top-up is never
/// negative.
proof fn lemma_raise_cap_nonneg(n0: int, di: Seq<u64>, rem: Seq<int>, r: int)
    requires
        n0 <= SCALE,
        forall|k: int| 0 <= k < r ==> #[trigger] rem[k] >= 0,
    ensures
        raise_cap(n0, di, rem, r) >= 0,
    decreases r,
{
    if r > 0 {
        lemma_raise_cap_nonneg(n0, di, rem, r - 1);
        if di[r - 1] > 0 {
            lemma_div_pos_is_pos(rem[r - 1], di[r - 1] as int);
        }
    }
}

/// A top-up short of the whole room was limited by some dimension the
/// flow demands.
proof fn lemma_raise_cap_witness(n0: int, di: Seq<u64>, rem: Seq<int>, r: int) -> (k: int)
    requires
        raise_cap(n0, di, rem, r) < SCALE - n0,
    ensures
        0 <= k < r,
        di[k] > 0,
        raise_cap(n0, di, rem, r) == rem[k] / (di[k] as int),
    decreases r,
{
    let e = raise_cap(n0, di, rem, r);
    if di[r - 1] > 0 && rem[r - 1] / (di[r - 1] as int) == e {
        r - 1
    } else if raise_cap(n0, di, rem, r - 1) == e {
        lemma_raise_cap_witness(n0, di, rem, r - 1)
    } else {
        assert(di[r - 1] > 0 && e == rem[r - 1] / (di[r - 1] as int));
        r - 1
    }
}

/// The top-up pass, without any fitting assumption: each coefficient ends
/// between its water-filling grant and one whole demand, and the leftover
/// capacity is exactly what the final grants leave, never negative.
proof fn lemma_raise_state(base: Seq<int>, d: Seq<Seq<u64>>, c: Seq<u64>, rem0: Seq<int>, i: int)
    requires
        base.len() == d.len(),
        rem0.len() == c.len(),
        i <= d.len(),
        forall|j: int| 0 <= j < d.len() ==> 0 <= #[trigger] base[j] <= SCALE,
        forall|j: int| 0 <= j < d.len() ==> (#[trigger] d[j]).len() == c.len(),
        forall|k: int| 0 <= k < c.len() ==> #[trigger] rem0[k] == SCALE * c[k] - grant_usage(
            base,
            d,
            k,
            d.len() as int,
        ),
        forall|k: int| 0 <= k < c.len() ==> #[trigger] rem0[k] >= 0,
    ensures
        forall|j: int| 0 <= j < i ==> base[j] <= #[trigger] raise_coeffs(base, d, c, rem0, i).0[j]
            <= SCALE,
        forall|k: int| 0 <= k < c.len() ==> #[trigger] raise_coeffs(base, d, c, rem0, i).1[k]
            == SCALE * c[k] - grant_usage(raise_coeffs(base, d, c, rem0, i).0, d, k, i) - (
        grant_usage(base, d, k, d.len() as int) - grant_usage(base, d, k, i)),
        forall|k: int| 0 <= k < c.len() ==> #[trigger] raise_coeffs(base, d, c, rem0, i).1[k] >= 0,
    decreases i,
{
    lemma_raise_len(base, d, c, rem0, i);
    if i > 0 {
        lemma_raise_state(base, d, c, rem0, i - 1);
        lemma_raise_len(base, d, c, rem0, i - 1);
        let prev = raise_coeffs(base, d, c, rem0, i - 1);
        let n = base[i - 1];
        let e = raise_of(n, d[i - 1], prev.1, c.len() as int);
        if !zero_demand(d[i - 1]) {
            lemma_raise_cap_le(n, d[i - 1], prev.1, c.len() as int);
            lemma_raise_cap_nonneg(n, d[i - 1], prev.1, c.len() as int);
        }
        assert(0 <= e <= SCALE - n);
        assert forall|k: int| 0 <= k < c.len() implies #[trigger] raise_coeffs(
            base,
            d,
            c,
            rem0,
            i,
        ).1[k] == SCALE * c[k] - grant_usage(raise_coeffs(base, d, c, rem0, i).0, d, k, i) - (
        grant_usage(base, d, k, d.len() as int) - grant_usage(base, d, k, i)) && raise_coeffs(
            base,
            d,
            c,
            rem0,
            i,
        ).1[k] >= 0 by {
            lemma_grant_usage_push(prev.0, n + e, d, k, i - 1);
            assert(grant_usage(base, d, k, i) == grant_usage(base, d, k, i - 1) + n * d[i
                - 1][k]);
            if zero_demand(d[i - 1]) {
                assert(d[i - 1][k] == 0);
                assert((n + e) * d[i - 1][k] == 0 && n * d[i - 1][k] == 0 && e * d[i - 1][k]
                    == 0) by {
                    lemma_mul_by_zero(n + e);
                    lemma_mul_by_zero(n);
                    lemma_mul_by_zero(e);
                }
            } else {
                lemma_mul_is_distributive_add_other_way(d[i - 1][k] as int, n, e);
                if d[i - 1][k] > 0 {
                    lemma_raise_cap_bounds(n, d[i - 1], prev.1, c.len() as int, k);
                    lemma_fundamental_div_mod(prev.1[k], d[i - 1][k] as int);
                    lemma_mod_bound(prev.1[k], d[i - 1][k] as int);
                    lemma_mul_inequality(e, prev.1[k] / (d[i - 1][k] as int), d[i - 1][k] as int);
                } else {
                    assert(e * d[i - 1][k] == 0) by {
                        lemma_mul_by_zero(e);
                    }
                }
            }
        }
    }
}

/// Coefficients already granted do not change in later top-up steps.
proof fn lemma_raise_prefix(
    base: Seq<int>,
    d: Seq<Seq<u64>>,
    c: Seq<u64>,
    rem0: Seq<int>,
    m: int,
    n: int,
    j: int,
)
    requires
        0 <= j < m <= n,
    ensures
        raise_coeffs(base, d, c, rem0, n).0[j] == raise_coeffs(base, d, c, rem0, m).0[j],
    decreases n,
{
    lemma_raise_len(base, d, c, rem0, n);
    lemma_raise_len(base, d, c, rem0, n - 1);
    if m < n {
        lemma_raise_prefix(base, d, c, rem0, m, n - 1, j);
    }
}

/// Each coefficient of the top-up pass is its grant plus the top-up that
/// the leftover capacity of its own step admits.
proof fn lemma_raise_at(
    base: Seq<int>,
    d: Seq<Seq<u64>>,
    c: Seq<u64>,
    rem0: Seq<int>,
    n: int,
    i: int,
)
    requires
        0 <= i < n,
    ensures
        raise_coeffs(base, d, c, rem0, n).0[i] == base[i] + raise_of(
            base[i],
            d[i],
            raise_coeffs(base, d, c, rem0, i).1,
            c.len() as int,
        ),
    decreases n,
{
    lemma_raise_len(base, d, c, rem0, n);
    lemma_raise_len(base, d, c, rem0, n - 1);
    if i < n - 1 {
        lemma_raise_at(base, d, c, rem0, n - 1, i);
    }
}

/// A window of grants never uses less than a window of smaller grants.
proof fn lemma_grant_usage_window_mono(
    v1: Seq<int>,
    v2: Seq<int>,
    d: Seq<Seq<u64>>,
    k: int,
    lo: int,
    hi: int,
)
    requires
        0 <= lo <= hi,
        forall|j: int| lo <= j < hi ==> 0 <= #[trigger] v1[j] <= v2[j],
    ensures
        grant_usage(v2, d, k, hi) - grant_usage(v2, d, k, lo) >= grant_usage(v1, d, k, hi)
            - grant_usage(v1, d, k, lo),
    decreases hi - lo,
{
    if hi > lo {
        lemma_grant_usage_window_mono(v1, v2, d, k, lo, hi - 1);
        lemma_mul_inequality(v1[hi - 1], v2[hi - 1], d[hi - 1][k] as int);
    }
}

/// `grant_usage` reads only the first `n` grants, so sequences that agree
/// there use the same amount.
proof fn lemma_grant_usage_congruent(v1: Seq<int>, v2: Seq<int>, d: Seq<Seq<u64>>, k: int, n: int)
    requires
        forall|j: int| 0 <= j < n ==> #[trigger] v1[j] == v2[j],
    ensures
        grant_usage(v1, d, k, n) == grant_usage(v2, d, k, n),
    decreases n,
{
    if n > 0 {
        lemma_grant_usage_congruent(v1, v2, d, k, n - 1);
    }
}

/// Pareto efficiency at the integer granularity: a flow left below one
/// whole demand demands some dimension where even one more coefficient
/// step — one millionth of its demand — would exceed capacity. No
/// feasible split grants any flow more without taking from another.
pub proof fn lemma_no_coefficient_can_rise(alg: Algorithm, c: Seq<u64>, d: Seq<Seq<u64>>, i: int)
    requires
        inputs_ok(c, d),
        0 <= i < d.len(),
        !zero_demand(d[i]),
        spec_allocate(alg, c, d)[i] < SCALE,
    ensures
        exists|k: int|
            0 <= k < c.len() && d[i][k] > 0 && grant_usage(
                spec_allocate(alg, c, d),
                d,
                k,
                d.len() as int,
            ) + d[i][k] > SCALE * (#[trigger] c[k]),
{
    let nn = d.len() as int;
    let cands = candidates(alg, c, d);
    assert(forall|j: int| 0 <= j < cands.len() ==> 0 <= #[trigger] cands[j] <= SCALE) by {
        assert forall|j: int| 0 <= j < cands.len() implies 0 <= #[trigger] cands[j] <= SCALE by {
            lemma_candidate_range(alg, c, d, j);
        }
    }
    lemma_clamp_state(cands, d, c, nn);
    lemma_clamp_len(cands, d, c, nn);
    let base = clamp_coeffs(cands, d, c, nn);
    let result = spec_allocate(alg, c, d);
    lemma_raise_state(base.0, d, c, base.1, nn);
    lemma_raise_state(base.0, d, c, base.1, i);
    lemma_raise_state(base.0, d, c, base.1, i + 1);
    lemma_raise_len(base.0, d, c, base.1, nn);
    lemma_raise_len(base.0, d, c, base.1, i);
    lemma_raise_len(base.0, d, c, base.1, i + 1);
    lemma_raise_at(base.0, d, c, base.1, nn, i);
    let rem_at = raise_coeffs(base.0, d, c, base.1, i).1;
    let n0 = base.0[i];
    let e = raise_of(n0, d[i], rem_at, c.len() as int);
    assert(result[i] == n0 + e);
    assert(e < SCALE - n0);
    let k = lemma_raise_cap_witness(n0, d[i], rem_at, c.len() as int);
    // One more step of flow `i` would not fit the capacity left after its
    // own top-up.
    lemma_fundamental_div_mod(rem_at[k], d[i][k] as int);
    lemma_mod_bound(rem_at[k], d[i][k] as int);
    lemma_mul_inequality(e, rem_at[k] / (d[i][k] as int), d[i][k] as int);
    let rem_next = raise_coeffs(base.0, d, c, base.1, i + 1).1;
    assert(rem_next[k] == rem_at[k] - e * d[i][k]);
    assert(rem_at[k] - (rem_at[k] / (d[i][k] as int)) * d[i][k] < d[i][k]) by {
        vstd::arithmetic::mul::lemma_mul_is_commutative(
            d[i][k] as int,
            rem_at[k] / (d[i][k] as int),
        );
    }
    // rem_next is small, and later flows only shrink the leftover.
    let used_prefix1 = grant_usage(result, d, k, i + 1);
    assert(forall|j: int| 0 <= j < i + 1 ==> #[trigger] raise_coeffs(
        base.0,
        d,
        c,
        base.1,
        i + 1,
    ).0[j] == result[j]) by {
        assert forall|j: int| 0 <= j < i + 1 implies #[trigger] raise_coeffs(
            base.0,
            d,
            c,
            base.1,
            i + 1,
        ).0[j] == result[j] by {
            lemma_raise_prefix(base.0, d, c, base.1, i + 1, nn, j);
        }
    }
    lemma_grant_usage_congruent(
        raise_coeffs(base.0, d, c, base.1, i + 1).0,
        result,
        d,
        k,
        i + 1,
    );
    assert(rem_next[k] == SCALE * c[k] - used_prefix1 - (grant_usage(base.0, d, k, nn)
        - grant_usage(base.0, d, k, i + 1)));
    let rem_final = raise_coeffs(base.0, d, c, base.1, nn).1;
    assert(rem_final[k] == SCALE * c[k] - grant_usage(result, d, k, nn));
    assert(grant_usage(result, d, k, nn) - grant_usage(result, d, k, i + 1) >= grant_usage(
        base.0,
        d,
        k,
        nn,
    ) - grant_usage(base.0, d, k, i + 1)) by {
        lemma_grant_usage_window_mono(base.0, result, d, k, i + 1, nn);
        assert(forall|j: int| i + 1 <= j < nn ==> 0 <= base.0[j] <= #[trigger] result[j]);
    }
    assert(rem_final[k] <= rem_next[k]);
    assert(rem_next[k] < d[i][k]);
    assert(grant_usage(result, d, k, nn) + d[i][k] > SCALE * c[k]);
    assert(0 <= k < c.len() && d[i][k] > 0);
}

/// `col_sum` is nonnegative.
proof fn lemma_col_sum_nonneg(d: Seq<Seq<u64>>, k: int, n: int)
    ensures
        col_sum(d, k, n) >= 0,
    decreases n,
{
    if n > 0 {
        lemma_col_sum_nonneg(d, k, n - 1);
    }
}

/// `col_sum` grows with the number of flows.
proof fn lemma_col_sum_mono(d: Seq<Seq<u64>>, k: int, lo: int, hi: int)
    requires
        0 <= lo <= hi,
    ensures
        col_sum(d, k, lo) <= col_sum(d, k, hi),
    decreases hi - lo,
{
    if hi > lo {
        lemma_col_sum_mono(d, k, lo, hi - 1);
    }
}

} // verus!
