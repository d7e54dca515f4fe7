use vstd::prelude::*;

use crate::depth::MAX_BLOCKS;
use vstd::relations::{sorted_by, total_ordering};
use vstd::seq_lib::{lemma_multiset_commutative, lemma_sorted_unique};

verus! {

/// Largest number of contigs that one estimator folds in for one entity: a
/// contig id is an `i32`.
pub const MAX_CONTIGS: u64 = 0x8000_0000;

/// Largest unobserved length that `calculate_coverage` accepts.
pub const MAX_UNOBSERVED: u64 = 0x7fff_ffff_ffff_ffff;

/// A fraction `num / den` between 0 and 1.
#[derive(Clone, Copy, Debug, PartialEq, Eq)]
pub struct Fraction {
    pub num: u32,
    pub den: u32,
}

impl Fraction {
    pub open spec fn wf(self) -> bool {
        self.den > 0 && self.num <= self.den
    }

    /// The fraction `num / den`, when `den > 0` and `num <= den`.
    pub fn new(num: u32, den: u32) -> (r: Option<Fraction>)
        ensures
            r == (if den > 0 && num <= den {
                Some(Fraction { num, den })
            } else {
                None::<Fraction>
            }),
    {
        if den > 0 && num <= den {
            Some(Fraction { num, den })
        } else {
            None
        }
    }

    /// The fraction 0.
    pub fn zero() -> (r: Fraction)
        ensures
            r == (Fraction { num: 0, den: 1 }),
    {
        Fraction { num: 0, den: 1 }
    }
}

/// The statistic that an estimator computes.
#[derive(Clone, Copy, Debug, PartialEq, Eq)]
pub enum EstimatorKind {
    Mean,
    Variance,
    /// Mean of the sorted depths after dropping the lowest `min` part and
    /// keeping nothing above the `max` part.
    TrimmedMean { min: Fraction, max: Fraction },
    CoveredFraction,
    PileupCounts,
}

/// The value an estimator reports for one entity.
#[derive(Clone, Debug, PartialEq, Eq)]
pub enum Stat {
    /// The value `num / den`; `den` is never 0.
    Ratio { num: u128, den: u128 },
    /// The sample variance of `count` values with the given sum and sum of
    /// squares: `(count * sum_sq - sum * sum) / (count * (count - 1))`, and 0
    /// when `count < 2`.
    Moments { count: u128, sum: u128, sum_sq: u128 },
    /// Pairs `(depth, number of positions)`, by increasing depth.
    Histogram(Vec<(u64, u64)>),
}

pub open spec fn seq_sum(s: Seq<u64>) -> int
    decreases s.len(),
{
    if s.len() == 0 {
        0
    } else {
        seq_sum(s.drop_last()) + s.last()
    }
}

pub open spec fn seq_sum_sq(s: Seq<u64>) -> int
    decreases s.len(),
{
    if s.len() == 0 {
        0
    } else {
        seq_sum_sq(s.drop_last()) + s.last() * s.last()
    }
}

/// Number of positions with a depth above 0.
pub open spec fn count_covered(s: Seq<u64>) -> int
    decreases s.len(),
{
    if s.len() == 0 {
        0
    } else {
        count_covered(s.drop_last()) + (if s.last() > 0 {
            1int
        } else {
            0
        })
    }
}

/// Not all values are equal.
pub open spec fn varies(s: Seq<u64>) -> bool {
    exists|i: int, j: int| 0 <= i < s.len() && 0 <= j < s.len() && s[i] != s[j]
}

/// The depths of a contig that count, once `k` positions at each end are
/// left out.
pub open spec fn eligible(d: Seq<u64>, k: int) -> Seq<u64> {
    if d.len() > 2 * k {
        d.subrange(k, d.len() - k)
    } else {
        Seq::empty()
    }
}

/// `u` zero depths followed by the observed ones.
pub open spec fn with_unobserved(u: nat, s: Seq<u64>) -> Seq<u64> {
    Seq::new(u, |i: int| 0u64) + s
}

/// The covered fraction falls below `f`, or there is no position at all.
pub open spec fn gated(f: Fraction, s: Seq<u64>) -> bool {
    s.len() == 0 || count_covered(s) * f.den < f.num * s.len()
}


/// Ascending order on depths.
pub open spec fn depth_le() -> spec_fn(u64, u64) -> bool {
    |a: u64, b: u64| a <= b
}

/// `t` holds the values of `s` in ascending order.
pub open spec fn is_sorted_version(t: Seq<u64>, s: Seq<u64>) -> bool {
    sorted_by(t, depth_le()) && t.to_multiset() == s.to_multiset()
}

/// The values of `s` in ascending order.
pub open spec fn sorted_of(s: Seq<u64>) -> Seq<u64> {
    choose|t: Seq<u64>| is_sorted_version(t, s)
}

/// `floor(f * n)`.
pub open spec fn floor_part(f: Fraction, n: int) -> int {
    (f.num * n) / (f.den as int)
}

/// `ceil(f * n)`.
pub open spec fn ceil_part(f: Fraction, n: int) -> int {
    (f.num * n + f.den - 1) / (f.den as int)
}

/// The values that a histogram stands for, each depth repeated by its count.
pub open spec fn expand(h: Seq<(u64, u64)>) -> Seq<u64>
    decreases h.len(),
{
    if h.len() == 0 {
        Seq::empty()
    } else {
        expand(h.drop_last()) + Seq::new(h.last().1 as nat, |i: int| h.last().0)
    }
}

/// `h` lists each depth of `s` once, by increasing depth, with the number of
/// positions at that depth.
pub open spec fn is_histogram_of(h: Seq<(u64, u64)>, s: Seq<u64>) -> bool {
    &&& expand(h) == sorted_of(s)
    &&& forall|i: int| 0 <= i < h.len() ==> #[trigger] h[i].1 > 0
    &&& forall|i: int, j: int| 0 <= i < j < h.len() ==> h[i].0 < h[j].0
}

pub open spec fn is_ratio(r: Stat, num: int, den: int) -> bool {
    match r {
        Stat::Ratio { num: a, den: b } => a == num && b == den,
        _ => false,
    }
}

/// What an estimator of `kind` reports for an entity whose eligible depths
/// are `all`, when the covered fraction lets it report anything.
pub open spec fn ungated_stat(kind: EstimatorKind, all: Seq<u64>, r: Stat) -> bool {
    let n = all.len() as int;
    match kind {
        EstimatorKind::Mean => is_ratio(r, seq_sum(all), n),
        EstimatorKind::CoveredFraction => is_ratio(r, count_covered(all), n),
        EstimatorKind::Variance => r == (Stat::Moments {
            count: n as u128,
            sum: seq_sum(all) as u128,
            sum_sq: seq_sum_sq(all) as u128,
        }) && seq_sum(all) <= u128::MAX && seq_sum_sq(all) <= u128::MAX,
        EstimatorKind::TrimmedMean { min, max } => {
            let lo = floor_part(min, n);
            let hi = ceil_part(max, n);
            if lo < hi {
                is_ratio(r, seq_sum(sorted_of(all).subrange(lo, hi)), hi - lo)
            } else {
                is_ratio(r, 0, 1)
            }
        },
        EstimatorKind::PileupCounts => match r {
            Stat::Histogram(h) => is_histogram_of(h@, all),
            _ => false,
        },
    }
}

/// What an estimator of `kind` reports for an entity it leaves at zero.
pub open spec fn zero_stat(kind: EstimatorKind, r: Stat) -> bool {
    match kind {
        EstimatorKind::Variance => r == (Stat::Moments { count: 0, sum: 0, sum_sq: 0 }),
        EstimatorKind::PileupCounts => match r {
            Stat::Histogram(h) => h@.len() == 0,
            _ => false,
        },
        _ => is_ratio(r, 0, 1),
    }
}

/// The statistic of an entity with eligible depths `all`.
pub open spec fn stat_of(kind: EstimatorKind, f: Fraction, all: Seq<u64>, r: Stat) -> bool {
    if gated(f, all) {
        zero_stat(kind, r)
    } else {
        ungated_stat(kind, all, r)
    }
}

/// The statistic of an entity with eligible depths `all` is above zero (a
/// variance is, exactly when the values are not all equal; a histogram,
/// when it is not empty).
pub open spec fn stat_positive(kind: EstimatorKind, f: Fraction, all: Seq<u64>) -> bool {
    let n = all.len() as int;
    &&& !gated(f, all)
    &&& match kind {
        EstimatorKind::Mean => seq_sum(all) > 0,
        EstimatorKind::CoveredFraction => count_covered(all) > 0,
        EstimatorKind::Variance => varies(all),
        EstimatorKind::TrimmedMean { min, max } => floor_part(min, n) < ceil_part(max, n)
            && seq_sum(sorted_of(all).subrange(floor_part(min, n), ceil_part(max, n))) > 0,
        EstimatorKind::PileupCounts => true,
    }
}

/// With no covered-fraction threshold and no end exclusion, the mean is the
/// sum of the observed depths over all positions, the unobserved ones
/// included.
pub proof fn lemma_mean_is_average(depths: Seq<u64>, unobserved: nat, r: Stat)
    requires
        depths.len() + unobserved > 0,
        stat_of(
            EstimatorKind::Mean,
            Fraction { num: 0, den: 1 },
            with_unobserved(unobserved, eligible(depths, 0)),
            r,
        ),
    ensures
        is_ratio(r, seq_sum(depths), (depths.len() + unobserved) as int),
{
    assert(eligible(depths, 0) =~= depths);
    lemma_zeros(unobserved, depths);
    lemma_covered_non_negative(depths);
    let all = with_unobserved(unobserved, depths);
    assert(all.len() > 0);
    assert(0 * all.len() == 0);
    assert(count_covered(all) * 1 == count_covered(all));
    assert(!gated(Fraction { num: 0, den: 1 }, all));
}

proof fn lemma_covered_non_negative(s: Seq<u64>)
    ensures
        count_covered(s) >= 0,
    decreases s.len(),
{
    if s.len() > 0 {
        lemma_covered_non_negative(s.drop_last());
    }
}

/// Relies on `slice::sort_unstable`: afterwards the vector holds the same
/// values in ascending order.
#[verifier::external_body]
fn sort_ascending(v: &mut Vec<u64>)
    ensures
        final(v)@.to_multiset() == old(v)@.to_multiset(),
        sorted_by(final(v)@, depth_le()),
{
    v.sort_unstable();
}

proof fn lemma_zeros(u: nat, s: Seq<u64>)
    ensures
        seq_sum(with_unobserved(u, s)) == seq_sum(s),
        seq_sum_sq(with_unobserved(u, s)) == seq_sum_sq(s),
        count_covered(with_unobserved(u, s)) == count_covered(s),
        with_unobserved(u, s).len() == u + s.len(),
    decreases s.len(), u,
{
    if s.len() > 0 {
        assert(with_unobserved(u, s).drop_last() =~= with_unobserved(u, s.drop_last()));
        assert(with_unobserved(u, s).last() == s.last());
        lemma_zeros(u, s.drop_last());
        assert(seq_sum_sq(with_unobserved(u, s)) == seq_sum_sq(with_unobserved(u, s.drop_last()))
            + s.last() * s.last());
    } else if u > 0 {
        assert(with_unobserved(u, s).drop_last() =~= with_unobserved((u - 1) as nat, s));
        assert(with_unobserved(u, s).last() == 0);
        lemma_zeros((u - 1) as nat, s);
        assert(seq_sum_sq(with_unobserved(u, s)) == seq_sum_sq(with_unobserved((u - 1) as nat, s))
            + 0 * 0);
    }
}

proof fn lemma_sum_of_zeros(s: Seq<u64>)
    requires
        forall|i: int| 0 <= i < s.len() ==> s[i] == 0,
    ensures
        seq_sum(s) == 0,
    decreases s.len(),
{
    if s.len() > 0 {
        lemma_sum_of_zeros(s.drop_last());
    }
}

proof fn lemma_depth_le_total()
    ensures
        total_ordering(depth_le()),
{
}

/// A sorted version of `s` is `sorted_of(s)`.
proof fn lemma_sorted_of(t: Seq<u64>, s: Seq<u64>)
    requires
        is_sorted_version(t, s),
    ensures
        sorted_of(s) == t,
{
    let c = sorted_of(s);
    assert(is_sorted_version(c, s));
    lemma_depth_le_total();
    lemma_sorted_unique(c, t, depth_le());
}

proof fn lemma_expand_push(h: Seq<(u64, u64)>, x: u64)
    ensures
        expand(h.push((x, 1))) =~= expand(h).push(x),
{
    assert(h.push((x, 1)).drop_last() =~= h);
}

proof fn lemma_expand_bump(h: Seq<(u64, u64)>, c: u64)
    requires
        h.len() > 0,
        h.last().1 + 1 == c,
    ensures
        expand(h.update(h.len() - 1, (h.last().0, c))) =~= expand(h).push(h.last().0),
{
    let h2 = h.update(h.len() - 1, (h.last().0, c));
    assert(h2.drop_last() =~= h.drop_last());
}


proof fn lemma_varies(u: nat, obs: Seq<u64>, first: u64, differs: bool)
    requires
        obs.len() > 0 ==> first == obs[0],
        differs == (exists|i: int| 0 <= i < obs.len() && #[trigger] obs[i] != obs[0]),
    ensures
        varies(with_unobserved(u, obs)) == (if u > 0 {
            obs.len() > 0 && (differs || first != 0)
        } else {
            differs
        }),
{
    let all = with_unobserved(u, obs);
    if u == 0 {
        assert(all =~= obs);
        if varies(all) {
            let (i, j) = choose|i: int, j: int|
                0 <= i < all.len() && 0 <= j < all.len() && all[i] != all[j];
            if obs[i] == obs[0] {
                assert(obs[j] != obs[0]);
            }
        }
        if differs {
            let i = choose|i: int| 0 <= i < obs.len() && #[trigger] obs[i] != obs[0];
            assert(all[i] != all[0]);
        }
    } else {
        if varies(all) {
            let (i, j) = choose|i: int, j: int|
                0 <= i < all.len() && 0 <= j < all.len() && all[i] != all[j];
            if first == 0 && obs.len() > 0 {
                if all[i] != 0 {
                    assert(obs[i - u] != obs[0]);
                } else {
                    assert(obs[j - u] != obs[0]);
                }
            }
        }
        if obs.len() > 0 && first != 0 {
            assert(all[0] != all[u as int]);
        }
        if obs.len() > 0 && differs {
            let i = choose|i: int| 0 <= i < obs.len() && #[trigger] obs[i] != obs[0];
            if obs[0] != 0 {
                assert(all[0] != all[u as int]);
            } else {
                assert(all[0] != all[u + i]);
            }
        }
    }
}

proof fn lemma_push_drop_last(s: Seq<u64>, x: u64)
    ensures
        s.push(x).drop_last() =~= s,
        s.push(x).last() == x,
{
}

/// Folds the depths of the contigs of one entity into one statistic.
pub struct CoverageEstimator {
    kind: EstimatorKind,
    min_fraction_covered: Fraction,
    contig_end_exclusion: u64,
    count: u128,
    covered: u128,
    sum: u128,
    sum_sq: u128,
    first: u64,
    differs: bool,
    contigs: u64,
    buffer: Vec<u64>,
    observed: Ghost<Seq<u64>>,
}

impl CoverageEstimator {
    /// The statistic this estimator computes.
    pub closed spec fn kind(&self) -> EstimatorKind {
        self.kind
    }

    /// Below this covered fraction the statistic is 0.
    pub closed spec fn min_covered(&self) -> Fraction {
        self.min_fraction_covered
    }

    /// Positions left out at each end of every contig.
    pub closed spec fn end_exclusion(&self) -> nat {
        self.contig_end_exclusion as nat
    }
    /// The eligible depths folded in since the last `setup`, in order.
    pub closed spec fn observed(&self) -> Seq<u64> {
        self.observed@
    }

    /// Number of contigs folded in since the last `setup`.
    pub closed spec fn num_contigs(&self) -> nat {
        self.contigs as nat
    }

    pub open spec fn keeps_depths(kind: EstimatorKind) -> bool {
        match kind {
            EstimatorKind::TrimmedMean { .. } => true,
            EstimatorKind::PileupCounts => true,
            _ => false,
        }
    }

    pub closed spec fn config_wf(&self) -> bool {
        &&& self.min_fraction_covered.wf()
        &&& match self.kind {
            EstimatorKind::TrimmedMean { min, max } => min.wf() && max.wf(),
            _ => true,
        }
    }

    pub closed spec fn wf(&self) -> bool {
        let obs = self.observed@;
        &&& self.config_wf()
        &&& self.contigs <= MAX_CONTIGS
        &&& obs.len() <= self.contigs * 0x1_0000_0000
        &&& forall|i: int| 0 <= i < obs.len() ==> #[trigger] obs[i] <= MAX_BLOCKS
        &&& self.count == obs.len()
        &&& self.sum == seq_sum(obs)
        &&& self.sum_sq == seq_sum_sq(obs)
        &&& self.covered == count_covered(obs)
        &&& self.sum <= obs.len() * MAX_BLOCKS
        &&& self.sum_sq <= obs.len() * (MAX_BLOCKS * MAX_BLOCKS)
        &&& self.covered <= obs.len()
        &&& (obs.len() > 0 ==> self.first == obs[0])
        &&& self.differs == (exists|i: int| 0 <= i < obs.len() && #[trigger] obs[i] != obs[0])
        &&& (Self::keeps_depths(self.kind) ==> self.buffer@ == obs)
    }

    /// A fresh estimator of `kind` with nothing folded in.
    fn with_kind(kind: EstimatorKind, min_fraction_covered: Fraction, contig_end_exclusion: u64) -> (r:
        CoverageEstimator)
        requires
            min_fraction_covered.wf(),
            match kind {
                EstimatorKind::TrimmedMean { min, max } => min.wf() && max.wf(),
                _ => true,
            },
        ensures
            r.wf(),
            r.kind() == kind,
            r.min_covered() == min_fraction_covered,
            r.end_exclusion() == contig_end_exclusion as nat,
            r.observed() == Seq::<u64>::empty(),
            r.num_contigs() == 0,
    {
        CoverageEstimator {
            kind,
            min_fraction_covered,
            contig_end_exclusion,
            count: 0,
            covered: 0,
            sum: 0,
            sum_sq: 0,
            first: 0,
            differs: false,
            contigs: 0,
            buffer: Vec::new(),
            observed: Ghost(Seq::empty()),
        }
    }

    /// Mean depth over the eligible positions.
    pub fn new_estimator_mean(min_fraction_covered: Fraction, contig_end_exclusion: u64) -> (r:
        CoverageEstimator)
        requires
            min_fraction_covered.wf(),
        ensures
            r.wf(),
            r.kind() == EstimatorKind::Mean,
            r.min_covered() == min_fraction_covered,
            r.end_exclusion() == contig_end_exclusion as nat,
            r.observed() == Seq::<u64>::empty(),
            r.num_contigs() == 0,
    {
        Self::with_kind(EstimatorKind::Mean, min_fraction_covered, contig_end_exclusion)
    }

    /// Sample variance of the depth over the eligible positions.
    pub fn new_estimator_variance(min_fraction_covered: Fraction, contig_end_exclusion: u64) -> (r:
        CoverageEstimator)
        requires
            min_fraction_covered.wf(),
        ensures
            r.wf(),
            r.kind() == EstimatorKind::Variance,
            r.min_covered() == min_fraction_covered,
            r.end_exclusion() == contig_end_exclusion as nat,
            r.observed() == Seq::<u64>::empty(),
            r.num_contigs() == 0,
    {
        Self::with_kind(EstimatorKind::Variance, min_fraction_covered, contig_end_exclusion)
    }

    /// Mean of the sorted depths between the `min` and `max` parts.
    pub fn new_estimator_trimmed_mean(
        min: Fraction,
        max: Fraction,
        min_fraction_covered: Fraction,
        contig_end_exclusion: u64,
    ) -> (r: CoverageEstimator)
        requires
            min.wf(),
            max.wf(),
            min_fraction_covered.wf(),
        ensures
            r.wf(),
            r.kind() == (EstimatorKind::TrimmedMean { min, max }),
            r.min_covered() == min_fraction_covered,
            r.end_exclusion() == contig_end_exclusion as nat,
            r.observed() == Seq::<u64>::empty(),
            r.num_contigs() == 0,
    {
        Self::with_kind(
            EstimatorKind::TrimmedMean { min, max },
            min_fraction_covered,
            contig_end_exclusion,
        )
    }

    /// Fraction of eligible positions with a depth above 0.
    pub fn new_estimator_covered_fraction(
        min_fraction_covered: Fraction,
        contig_end_exclusion: u64,
    ) -> (r: CoverageEstimator)
        requires
            min_fraction_covered.wf(),
        ensures
            r.wf(),
            r.kind() == EstimatorKind::CoveredFraction,
            r.min_covered() == min_fraction_covered,
            r.end_exclusion() == contig_end_exclusion as nat,
            r.observed() == Seq::<u64>::empty(),
            r.num_contigs() == 0,
    {
        Self::with_kind(EstimatorKind::CoveredFraction, min_fraction_covered, contig_end_exclusion)
    }

    /// Number of eligible positions at each depth.
    pub fn new_estimator_pileup_counts(min_fraction_covered: Fraction, contig_end_exclusion: u64) -> (r:
        CoverageEstimator)
        requires
            min_fraction_covered.wf(),
        ensures
            r.wf(),
            r.kind() == EstimatorKind::PileupCounts,
            r.min_covered() == min_fraction_covered,
            r.end_exclusion() == contig_end_exclusion as nat,
            r.observed() == Seq::<u64>::empty(),
            r.num_contigs() == 0,
    {
        Self::with_kind(EstimatorKind::PileupCounts, min_fraction_covered, contig_end_exclusion)
    }

    /// The same configuration with nothing folded in.
    pub fn fresh_copy(&self) -> (r: CoverageEstimator)
        requires
            self.wf(),
        ensures
            r.wf(),
            r.kind() == self.kind(),
            r.min_covered() == self.min_covered(),
            r.end_exclusion() == self.end_exclusion(),
            r.observed() == Seq::<u64>::empty(),
            r.num_contigs() == 0,
    {
        Self::with_kind(self.kind, self.min_fraction_covered, self.contig_end_exclusion)
    }

    /// Forgets all that was folded in, for a new entity.
    pub fn setup(&mut self)
        requires
            old(self).wf(),
        ensures
            final(self).wf(),
            final(self).kind() == old(self).kind(),
            final(self).min_covered() == old(self).min_covered(),
            final(self).end_exclusion() == old(self).end_exclusion(),
            final(self).observed() == Seq::<u64>::empty(),
            final(self).num_contigs() == 0,
    {
        *self = Self::with_kind(self.kind, self.min_fraction_covered, self.contig_end_exclusion);
    }

    fn push_depth(&mut self, x: u64)
        requires
            old(self).wf(),
            x <= MAX_BLOCKS,
            old(self).observed().len() < old(self).contigs * 0x1_0000_0000,
        ensures
            final(self).wf(),
            final(self).kind() == old(self).kind(),
            final(self).min_covered() == old(self).min_covered(),
            final(self).end_exclusion() == old(self).end_exclusion(),
            final(self).contigs == old(self).contigs,
            final(self).observed() == old(self).observed().push(x),
    {
        let ghost obs = self.observed@;
        let ghost n = obs.len();
        proof {
            lemma_push_drop_last(obs, x);
            assert(x * x <= MAX_BLOCKS * MAX_BLOCKS) by (nonlinear_arith)
                requires
                    x <= MAX_BLOCKS,
            ;
            assert(n * MAX_BLOCKS + MAX_BLOCKS == (n + 1) * MAX_BLOCKS) by (nonlinear_arith);
            assert(n * (MAX_BLOCKS * MAX_BLOCKS) + MAX_BLOCKS * MAX_BLOCKS == (n + 1) * (MAX_BLOCKS
                * MAX_BLOCKS)) by (nonlinear_arith);
            assert(n < MAX_CONTIGS * 0x1_0000_0000) by (nonlinear_arith)
                requires
                    n < self.contigs * 0x1_0000_0000,
                    self.contigs <= MAX_CONTIGS,
            ;
            assert((n + 1) * (MAX_BLOCKS * MAX_BLOCKS) <= 0x8000_0000_0000_0000 * (MAX_BLOCKS
                * MAX_BLOCKS)) by (nonlinear_arith)
                requires
                    n + 1 <= 0x8000_0000_0000_0000,
            ;
            assert((n + 1) * MAX_BLOCKS <= 0x8000_0000_0000_0000 * MAX_BLOCKS) by (nonlinear_arith)
                requires
                    n + 1 <= 0x8000_0000_0000_0000,
            ;
        }
        if self.count == 0 {
            self.first = x;
        } else if x != self.first {
            self.differs = true;
        }
        self.count = self.count + 1;
        self.sum = self.sum + x as u128;
        self.sum_sq = self.sum_sq + (x as u128) * (x as u128);
        if x > 0 {
            self.covered = self.covered + 1;
        }
        if Self::keeps_depths_exec(self.kind) {
            self.buffer.push(x);
        }
        self.observed = Ghost(obs.push(x));
        proof {
            let o2 = obs.push(x);
            assert(o2.drop_last() =~= obs);
            assert forall|i: int| 0 <= i < o2.len() implies #[trigger] o2[i] <= MAX_BLOCKS by {
                if i < n {
                    assert(o2[i] == obs[i]);
                }
            }
            if n == 0 {
                assert(!(exists|i: int| 0 <= i < o2.len() && #[trigger] o2[i] != o2[0]));
            } else {
                if self.differs && !(exists|i: int| 0 <= i < obs.len() && #[trigger] obs[i] != obs[0]) {
                    assert(o2[n as int] != o2[0]);
                }
                if exists|i: int| 0 <= i < obs.len() && #[trigger] obs[i] != obs[0] {
                    let i = choose|i: int| 0 <= i < obs.len() && #[trigger] obs[i] != obs[0];
                    assert(o2[i] != o2[0]);
                }
            }
        }
    }

    fn keeps_depths_exec(kind: EstimatorKind) -> (r: bool)
        ensures
            r == Self::keeps_depths(kind),
    {
        match kind {
            EstimatorKind::TrimmedMean { .. } => true,
            EstimatorKind::PileupCounts => true,
            _ => false,
        }
    }


    proof fn lemma_count_bound(&self)
        requires
            self.wf(),
        ensures
            self.count <= 0x8000_0000_0000_0000,
    {
        assert(self.observed@.len() <= MAX_CONTIGS * 0x1_0000_0000) by (nonlinear_arith)
            requires
                self.observed@.len() <= self.contigs * 0x1_0000_0000,
                self.contigs <= MAX_CONTIGS,
        ;
    }

    /// What this estimator reports for an entity it leaves at zero.
    pub fn zero_coverage(&self) -> (r: Stat)
        ensures
            zero_stat(self.kind(), r),
    {
        match self.kind {
            EstimatorKind::Variance => Stat::Moments { count: 0, sum: 0, sum_sq: 0 },
            EstimatorKind::PileupCounts => Stat::Histogram(Vec::new()),
            _ => Stat::Ratio { num: 0, den: 1 },
        }
    }

    /// The kept depths in ascending order; with `unobserved` zeros in front
    /// they are the sorted eligible depths of the entity.
    fn sorted_depths(&self, unobserved: u64) -> (v: Vec<u64>)
        requires
            self.wf(),
            Self::keeps_depths(self.kind()),
        ensures
            v@.len() == self.observed().len(),
            forall|k: int| 0 <= k < v@.len() ==> #[trigger] v@[k] <= MAX_BLOCKS,
            is_sorted_version(
                with_unobserved(unobserved as nat, v@),
                with_unobserved(unobserved as nat, self.observed()),
            ),
    {
        broadcast use vstd::seq_lib::group_to_multiset_ensures;

        let mut v = self.buffer.clone();
        assert(v@ == self.observed@);
        sort_ascending(&mut v);
        let ghost obs = self.observed@;
        assert(v@.len() == obs.len()) by {
            assert(v@.to_multiset().len() == v@.len());
            assert(obs.to_multiset().len() == obs.len());
        }
        let ghost z = Seq::new(unobserved as nat, |i: int| 0u64);
        proof {
            assert forall|k: int| 0 <= k < v@.len() implies #[trigger] v@[k] <= MAX_BLOCKS by {
                assert(v@.contains(v@[k]));
                assert(obs.to_multiset().count(v@[k]) > 0);
                assert(obs.contains(v@[k]));
            }
            let t = with_unobserved(unobserved as nat, v@);
            assert forall|i: int, j: int| 0 <= i < j < t.len() implies #[trigger] depth_le()(
                t[i],
                t[j],
            ) by {
                if i >= unobserved {
                    assert(depth_le()(v@[i - unobserved], v@[j - unobserved]));
                }
            }
            lemma_multiset_commutative(z, v@);
            lemma_multiset_commutative(z, obs);
        }
        v
    }

    fn trimmed_mean(&self, min: Fraction, max: Fraction, unobserved: u64) -> (r: (Stat, bool))
        requires
            self.wf(),
            self.kind() == (EstimatorKind::TrimmedMean { min, max }),
            unobserved <= MAX_UNOBSERVED,
        ensures
            ungated_stat(self.kind(), with_unobserved(unobserved as nat, self.observed()), r.0),
            r.1 == (floor_part(min, self.observed().len() + unobserved) < ceil_part(
                max,
                self.observed().len() + unobserved,
            ) && seq_sum(
                sorted_of(with_unobserved(unobserved as nat, self.observed())).subrange(
                    floor_part(min, self.observed().len() + unobserved),
                    ceil_part(max, self.observed().len() + unobserved),
                ),
            ) > 0),
    {
        let ghost all = with_unobserved(unobserved as nat, self.observed@);
        proof {
            lemma_zeros(unobserved as nat, self.observed@);
        }
        let n: u128 = self.count + unobserved as u128;
        proof {
            self.lemma_count_bound();
            assert(min.num * n <= 0x1_0000_0000 * 0x1_0000_0000_0000_0000) by (nonlinear_arith)
                requires
                    n <= 0x1_0000_0000_0000_0000,
                    min.num <= 0x1_0000_0000,
            ;
            assert(max.num * n <= 0x1_0000_0000 * 0x1_0000_0000_0000_0000) by (nonlinear_arith)
                requires
                    n <= 0x1_0000_0000_0000_0000,
                    max.num <= 0x1_0000_0000,
            ;
        }
        let lo: u128 = (min.num as u128 * n) / (min.den as u128);
        let hi: u128 = (max.num as u128 * n + max.den as u128 - 1) / (max.den as u128);
        proof {
            assert(lo <= n) by (nonlinear_arith)
                requires
                    lo == (min.num * n) / (min.den as int),
                    min.num <= min.den,
                    min.den > 0,
            ;
            assert(hi <= n) by (nonlinear_arith)
                requires
                    hi == (max.num * n + max.den - 1) / (max.den as int),
                    max.num <= max.den,
                    max.den > 0,
            ;
        }
        if lo >= hi {
            return (Stat::Ratio { num: 0, den: 1 }, false);
        }
        let v = self.sorted_depths(unobserved);
        let ghost t = with_unobserved(unobserved as nat, v@);
        proof {
            lemma_sorted_of(t, all);
        }
        let u = unobserved as u128;
        let start: u128 = if lo > u {
            lo
        } else if hi < u {
            hi
        } else {
            u
        };
        proof {
            let zs = t.subrange(lo as int, start as int);
            assert forall|i: int| 0 <= i < zs.len() implies zs[i] == 0 by {
                assert(zs[i] == t[lo + i]);
            }
            lemma_sum_of_zeros(zs);
        }
        let mut acc: u128 = 0;
        let mut i: u128 = start;
        while i < hi
            invariant
                lo <= start <= i <= hi,
                hi <= n,
                n <= 0x1_0000_0000_0000_0000,
                n == t.len(),
                n == u + v@.len(),
                u == unobserved,
                i >= u || i == hi,
                t == with_unobserved(unobserved as nat, v@),
                forall|k: int| 0 <= k < v@.len() ==> #[trigger] v@[k] <= MAX_BLOCKS,
                acc == seq_sum(t.subrange(lo as int, i as int)),
                acc <= (i - lo) * MAX_BLOCKS,
            decreases hi - i,
        {
            let x = v[(i - u) as usize];
            proof {
                assert(t[i as int] == v@[i - u]);
                assert(t.subrange(lo as int, i + 1) =~= t.subrange(lo as int, i as int).push(x));
                lemma_push_drop_last(t.subrange(lo as int, i as int), x);
                assert((i - lo) * MAX_BLOCKS + MAX_BLOCKS == (i + 1 - lo) * MAX_BLOCKS) by (
                nonlinear_arith);
                assert((i + 1 - lo) * MAX_BLOCKS <= 0x1_0000_0000_0000_0000 * MAX_BLOCKS) by (
                nonlinear_arith)
                    requires
                        i + 1 - lo <= 0x1_0000_0000_0000_0000,
                ;
            }
            acc = acc + x as u128;
            i = i + 1;
        }
        (Stat::Ratio { num: acc, den: hi - lo }, acc > 0)
    }

    fn histogram(&self, unobserved: u64) -> (h: Vec<(u64, u64)>)
        requires
            self.wf(),
            self.kind() == EstimatorKind::PileupCounts,
            unobserved <= MAX_UNOBSERVED,
        ensures
            is_histogram_of(h@, with_unobserved(unobserved as nat, self.observed())),
    {
        let ghost all = with_unobserved(unobserved as nat, self.observed@);
        let v = self.sorted_depths(unobserved);
        let ghost t = with_unobserved(unobserved as nat, v@);
        proof {
            lemma_sorted_of(t, all);
        }
        let mut h: Vec<(u64, u64)> = Vec::new();
        if unobserved > 0 {
            h.push((0, unobserved));
            proof {
                assert(h@.drop_last() =~= Seq::<(u64, u64)>::empty());
                assert(expand(h@) == expand(h@.drop_last()) + Seq::new(
                    unobserved as nat,
                    |i: int| 0u64,
                ));
                assert(expand(h@) =~= t.subrange(0, unobserved as int));
            }
        } else {
            assert(expand(h@) =~= t.subrange(0, 0));
        }
        let mut i: usize = 0;
        while i < v.len()
            invariant
                0 <= i <= v@.len(),
                v@.len() <= 0x8000_0000_0000_0000,
                unobserved <= MAX_UNOBSERVED,
                t == with_unobserved(unobserved as nat, v@),
                sorted_by(t, depth_le()),
                expand(h@) == t.subrange(0, unobserved + i),
                h@.len() > 0 ==> h@.last().0 == t[unobserved + i - 1],
                h@.len() == 0 ==> unobserved + i == 0,
                forall|k: int| 0 <= k < h@.len() ==> #[trigger] h@[k].1 > 0,
                forall|k: int| 0 <= k < h@.len() ==> #[trigger] h@[k].1 <= unobserved + i,
                forall|a: int, b: int| 0 <= a < b < h@.len() ==> h@[a].0 < h@[b].0,
            decreases v@.len() - i,
        {
            let x = v[i];
            let ghost h0 = h@;
            proof {
                assert(t[unobserved + i] == x);
                assert(t.subrange(0, unobserved + i + 1) =~= t.subrange(0, unobserved + i).push(x));
            }
            let m = h.len();
            if m > 0 && h[m - 1].0 == x {
                let c = h[m - 1].1;
                h.set(m - 1, (x, c + 1));
                proof {
                    lemma_expand_bump(h0, (c + 1) as u64);
                }
            } else {
                proof {
                    if m > 0 {
                        assert(depth_le()(t[unobserved + i - 1], t[unobserved + i]));
                    }
                }
                h.push((x, 1));
                proof {
                    lemma_expand_push(h0, x);
                }
            }
            i = i + 1;
        }
        proof {
            assert(t.subrange(0, t.len() as int) =~= t);
        }
        h
    }

    /// The statistic of the entity, with `unobserved` further positions of
    /// depth 0, and whether that statistic is above zero.
    pub fn calculate_coverage(&self, unobserved: u64) -> (r: (Stat, bool))
        requires
            self.wf(),
            unobserved <= MAX_UNOBSERVED,
        ensures
            stat_of(
                self.kind(),
                self.min_covered(),
                with_unobserved(unobserved as nat, self.observed()),
                r.0,
            ),
            r.1 == stat_positive(
                self.kind(),
                self.min_covered(),
                with_unobserved(unobserved as nat, self.observed()),
            ),
    {
        let ghost obs = self.observed@;
        let ghost all = with_unobserved(unobserved as nat, obs);
        proof {
            lemma_zeros(unobserved as nat, obs);
        }
        let n: u128 = self.count + unobserved as u128;
        let f = self.min_fraction_covered;
        proof {
            self.lemma_count_bound();
            assert(self.covered * f.den <= 0x1_0000_0000_0000_0000 * 0x1_0000_0000) by (
            nonlinear_arith)
                requires
                    self.covered <= 0x1_0000_0000_0000_0000,
                    f.den <= 0x1_0000_0000,
            ;
            assert(f.num * n <= 0x1_0000_0000 * 0x1_0000_0000_0000_0000) by (nonlinear_arith)
                requires
                    n <= 0x1_0000_0000_0000_0000,
                    f.num <= 0x1_0000_0000,
            ;
        }
        if n == 0 || self.covered * (f.den as u128) < (f.num as u128) * n {
            return (self.zero_coverage(), false);
        }
        match self.kind {
            EstimatorKind::Mean => (Stat::Ratio { num: self.sum, den: n }, self.sum > 0),
            EstimatorKind::CoveredFraction => (
                Stat::Ratio { num: self.covered, den: n },
                self.covered > 0,
            ),
            EstimatorKind::Variance => {
                let v = if unobserved > 0 {
                    self.count > 0 && (self.differs || self.first != 0)
                } else {
                    self.differs
                };
                proof {
                    lemma_varies(unobserved as nat, obs, self.first, self.differs);
                }
                (Stat::Moments { count: n, sum: self.sum, sum_sq: self.sum_sq }, v)
            },
            EstimatorKind::TrimmedMean { min, max } => self.trimmed_mean(min, max, unobserved),
            EstimatorKind::PileupCounts => (Stat::Histogram(self.histogram(unobserved)), true),
        }
    }

    /// Folds in the depths of one contig, without the `contig_end_exclusion`
    /// positions at each end.
    pub fn add_contig(&mut self, depths: &Vec<u64>)
        requires
            old(self).wf(),
            old(self).num_contigs() < MAX_CONTIGS,
            depths@.len() <= u32::MAX,
            forall|i: int| 0 <= i < depths@.len() ==> #[trigger] depths@[i] <= MAX_BLOCKS,
        ensures
            final(self).wf(),
            final(self).kind() == old(self).kind(),
            final(self).min_covered() == old(self).min_covered(),
            final(self).end_exclusion() == old(self).end_exclusion(),
            final(self).num_contigs() == old(self).num_contigs() + 1,
            final(self).observed() == old(self).observed() + eligible(
                depths@,
                old(self).end_exclusion() as int,
            ),
    {
        let ghost obs0 = self.observed@;
        let k = self.contig_end_exclusion;
        let len = depths.len() as u64;
        proof {
            assert(obs0.len() + 0x1_0000_0000 <= (self.contigs + 1) * 0x1_0000_0000) by (
            nonlinear_arith)
                requires
                    obs0.len() <= self.contigs * 0x1_0000_0000,
            ;
        }
        self.contigs = self.contigs + 1;
        proof {
            let obs = self.observed@;
            assert(obs.len() <= self.contigs * 0x1_0000_0000);
            assert(self.differs == (exists|i: int| 0 <= i < obs.len() && #[trigger] obs[i] != obs[0]));
        }
        if len > k && len - k > k {
            let hi = (len - k) as usize;
            let mut i = k as usize;
            while i < hi
                invariant
                    self.wf(),
                    k <= i <= hi,
                    hi == depths@.len() - k,
                    hi <= depths@.len() <= u32::MAX,
                    self.contigs == old(self).contigs + 1,
                    obs0.len() + 0x1_0000_0000 <= self.contigs * 0x1_0000_0000,
                    self.kind == old(self).kind(),
                    self.min_fraction_covered == old(self).min_covered(),
                    self.contig_end_exclusion == k,
                    forall|j: int| 0 <= j < depths@.len() ==> #[trigger] depths@[j] <= MAX_BLOCKS,
                    self.observed@ == obs0 + depths@.subrange(k as int, i as int),
                decreases hi - i,
            {
                let x = depths[i];
                self.push_depth(x);
                proof {
                    assert(obs0 + depths@.subrange(k as int, i + 1) =~= (obs0 + depths@.subrange(
                        k as int,
                        i as int,
                    )).push(x));
                }
                i = i + 1;
            }
        } else {
            assert(obs0 + eligible(depths@, k as int) =~= obs0);
        }
    }
}

} // verus!
