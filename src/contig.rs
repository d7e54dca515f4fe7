use vstd::prelude::*;

use crate::aggregate::{
    accepted, clipped_total, contig_depth_sum, contig_depths, entity_coverage, entity_depths,
    entity_values, estimators_wf, kept_count, lemma_total_depth, observed, records_on_header,
    records_valid, rows_match, tid_depth, tid_ops, unobserved_len, AlignmentRecord, CoverageError,
    Header, SampleCoverage,
};
use crate::depth::{read_depth_upto, MAX_BLOCKS};
use crate::estimator::{
    eligible, is_ratio, lemma_mean_is_average, seq_sum, stat_of, CoverageEstimator, EstimatorKind,
    Fraction, Stat,
};

verus! {

/// Per-contig mode: contig `t` is entity `t`.
pub open spec fn contig_entities(count: nat) -> Seq<Option<usize>> {
    Seq::new(count, |t: int| Some(t as usize))
}

/// Per-contig mode: a contig's key is its id.
pub open spec fn contig_indices(count: nat) -> Seq<usize> {
    Seq::new(count, |t: int| t as usize)
}

/// Coverage of each contig of one sample, in contig order: one row per
/// contig when `print_zero_coverage_contigs`, else one per contig that a
/// kept record lies on and that has a statistic above zero.
pub fn contig_coverage(
    header: &Header,
    records: &Vec<AlignmentRecord>,
    coverage_estimators: &Vec<CoverageEstimator>,
    print_zero_coverage_contigs: bool,
    flag_filtering: bool,
) -> (r: Result<SampleCoverage, CoverageError>)
    requires
        header.wf(),
        estimators_wf(coverage_estimators@),
        records_on_header(header.lengths@, records@, flag_filtering),
    ensures
        r is Ok <==> records_valid(header.lengths@, records@, flag_filtering),
        r matches Ok(res) ==> {
            &&& rows_match(
                header.lengths@,
                records@,
                flag_filtering,
                contig_entities(header.count()),
                coverage_estimators@,
                header.names@.map_values(|v: Vec<u8>| v@),
                contig_indices(header.count()),
                print_zero_coverage_contigs,
                false,
                res.rows@,
                header.count() as int,
            )
            &&& res.num_mapped_reads == kept_count(
                records@,
                flag_filtering,
                contig_entities(header.count()),
                false,
                records@.len() as int,
            )
        },
{
    let n = header.lengths.len();
    let mut entity_of: Vec<Option<usize>> = Vec::new();
    let mut indices: Vec<usize> = Vec::new();
    let mut t: usize = 0;
    while t < n
        invariant
            n == header.count(),
            0 <= t <= n,
            entity_of@ == contig_entities(t as nat),
            indices@ == contig_indices(t as nat),
        decreases n - t,
    {
        entity_of.push(Some(t));
        indices.push(t);
        t = t + 1;
        assert(entity_of@ =~= contig_entities(t as nat));
        assert(indices@ =~= contig_indices(t as nat));
    }
    entity_coverage(
        header,
        records,
        &entity_of,
        n,
        &header.names,
        &indices,
        coverage_estimators,
        print_zero_coverage_contigs,
        false,
        flag_filtering,
        false,
    )
}

proof fn lemma_read_depth_bound(pos: int, cigar: Seq<crate::depth::CigarOp>, k: int, p: int)
    requires
        0 <= k,
    ensures
        read_depth_upto(pos, cigar, k, p) <= k,
    decreases k,
{
    if k > 0 {
        lemma_read_depth_bound(pos, cigar, k - 1, p);
    }
}

proof fn lemma_tid_depth_bound(recs: Seq<AlignmentRecord>, ff: bool, t: int, i: int, p: int)
    requires
        0 <= i <= recs.len(),
    ensures
        tid_depth(recs, ff, t, i, p) <= tid_ops(recs, ff, t, i),
    decreases i,
{
    if i > 0 {
        lemma_tid_depth_bound(recs, ff, t, i - 1, p);
        let r = recs[i - 1];
        lemma_read_depth_bound(r.pos as int, r.cigar@, r.cigar@.len() as int, p);
    }
}

proof fn lemma_depths_sum(recs: Seq<AlignmentRecord>, ff: bool, t: int, m: int)
    requires
        0 <= m,
        tid_ops(recs, ff, t, recs.len() as int) <= MAX_BLOCKS,
    ensures
        seq_sum(contig_depths(m as nat, recs, ff, t)) == contig_depth_sum(
            recs,
            ff,
            t,
            recs.len() as int,
            m,
        ),
    decreases m,
{
    if m > 0 {
        lemma_depths_sum(recs, ff, t, m - 1);
        assert(contig_depths(m as nat, recs, ff, t).drop_last() =~= contig_depths(
            (m - 1) as nat,
            recs,
            ff,
            t,
        ));
        lemma_tid_depth_bound(recs, ff, t, recs.len() as int, m - 1);
    }
}

proof fn lemma_clipped_total_unobserved(
    recs: Seq<AlignmentRecord>,
    ff: bool,
    t: int,
    i: int,
    limit: int,
)
    requires
        0 <= i <= recs.len(),
        !observed(recs, ff, t),
    ensures
        clipped_total(recs, ff, t, i, limit) == 0,
    decreases i,
{
    if i > 0 {
        lemma_clipped_total_unobserved(recs, ff, t, i - 1, limit);
        if accepted(recs[i - 1], ff) && recs[i - 1].tid == t {
            assert(observed(recs, ff, t));
        }
    }
}

proof fn lemma_contig_entity(
    lengths: Seq<u32>,
    recs: Seq<AlignmentRecord>,
    ff: bool,
    t: int,
    k: int,
    bound: int,
)
    requires
        lengths.len() <= i32::MAX,
        0 <= t < lengths.len(),
        0 <= bound <= lengths.len(),
    ensures
        entity_depths(lengths, recs, ff, contig_entities(lengths.len()), t, k, bound) == if t
            < bound && observed(recs, ff, t) {
            eligible(contig_depths(lengths[t] as nat, recs, ff, t), k)
        } else {
            Seq::<u64>::empty()
        },
        unobserved_len(lengths, recs, ff, contig_entities(lengths.len()), t, bound) == if t < bound
            && !observed(recs, ff, t) {
            lengths[t] as nat
        } else {
            0
        },
    decreases bound,
{
    if bound > 0 {
        lemma_contig_entity(lengths, recs, ff, t, k, bound - 1);
        let eo = contig_entities(lengths.len());
        assert(eo[bound - 1] == Some((bound - 1) as usize));
        if bound - 1 != t {
            assert(eo[bound - 1] != Some(t as usize));
        }
        assert(entity_depths(lengths, recs, ff, eo, t, k, bound - 1) + Seq::<u64>::empty()
            =~= entity_depths(lengths, recs, ff, eo, t, k, bound - 1));
        assert(Seq::<u64>::empty() + eligible(contig_depths(lengths[t] as nat, recs, ff, t), k)
            =~= eligible(contig_depths(lengths[t] as nat, recs, ff, t), k));
    }
}

/// In per-contig mode, a mean estimator with no covered-fraction threshold
/// and no end exclusion reports for contig `t` the aligned lengths of the
/// kept reads on it, each clipped to the contig, over the contig length: 0
/// over the length when no kept read lies on it.
pub proof fn lemma_contig_mean(
    lengths: Seq<u32>,
    recs: Seq<AlignmentRecord>,
    ff: bool,
    t: int,
    r: Stat,
)
    requires
        lengths.len() <= i32::MAX,
        records_valid(lengths, recs, ff),
        0 <= t < lengths.len(),
        lengths[t] > 0,
        stat_of(
            EstimatorKind::Mean,
            Fraction { num: 0, den: 1 },
            entity_values(lengths, recs, ff, contig_entities(lengths.len()), t, 0),
            r,
        ),
    ensures
        is_ratio(
            r,
            clipped_total(recs, ff, t, recs.len() as int, lengths[t] as int),
            lengths[t] as int,
        ),
{
    let n = lengths.len() as int;
    lemma_contig_entity(lengths, recs, ff, t, 0, n);
    let cd = contig_depths(lengths[t] as nat, recs, ff, t);
    if observed(recs, ff, t) {
        let i = choose|i: int| 0 <= i < recs.len() && accepted(recs[i], ff) && #[trigger] recs[i].tid == t;
        assert(accepted(recs[i], ff));
        assert(tid_ops(recs, ff, t, recs.len() as int) <= MAX_BLOCKS);
        assert(entity_values(lengths, recs, ff, contig_entities(lengths.len()), t, 0)
            == crate::estimator::with_unobserved(0, eligible(cd, 0)));
        lemma_mean_is_average(cd, 0, r);
        lemma_depths_sum(recs, ff, t, lengths[t] as int);
        lemma_total_depth(recs, ff, t, recs.len() as int, lengths[t] as int);
    } else {
        let e = Seq::<u64>::empty();
        assert(eligible(e, 0) =~= e);
        assert(entity_values(lengths, recs, ff, contig_entities(lengths.len()), t, 0)
            == crate::estimator::with_unobserved(lengths[t] as nat, eligible(e, 0)));
        lemma_mean_is_average(e, lengths[t] as nat, r);
        lemma_clipped_total_unobserved(recs, ff, t, recs.len() as int, lengths[t] as int);
    }
}

} // verus!
