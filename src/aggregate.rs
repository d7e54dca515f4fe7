use vstd::prelude::*;

use crate::depth::{
    lemma_read_total, read_clipped, read_depth, read_depth_sum, CigarOp, DepthSignal, MAX_BLOCKS,
};
use crate::estimator::{
    eligible, stat_of, stat_positive, with_unobserved, CoverageEstimator, Stat, MAX_CONTIGS,
    MAX_UNOBSERVED,
};

verus! {

/// One alignment of a read, as the aligner's record gives it.
#[derive(Clone, Debug)]
pub struct AlignmentRecord {
    /// Reference contig id; negative when the read is unmapped.
    pub tid: i32,
    /// 0-based position of the leftmost aligned base.
    pub pos: u32,
    pub cigar: Vec<CigarOp>,
    pub is_secondary: bool,
    pub is_supplementary: bool,
    pub is_proper_pair: bool,
}

/// Names and lengths of the reference contigs, by contig id.
#[derive(Clone, Debug)]
pub struct Header {
    pub names: Vec<Vec<u8>>,
    pub lengths: Vec<u32>,
}

impl Header {
    pub open spec fn wf(&self) -> bool {
        &&& self.names@.len() == self.lengths@.len()
        &&& self.lengths@.len() <= i32::MAX
    }

    pub open spec fn count(&self) -> nat {
        self.lengths@.len()
    }
}

/// Why coverage of a sample could not be computed.
#[derive(Clone, Copy, Debug, PartialEq, Eq)]
pub enum CoverageError {
    /// The kept records of one contig hold more CIGAR operations than
    /// `MAX_BLOCKS`.
    DepthLimit { tid: i32 },
    /// A kept record names a lower contig id than one before it.
    Unsorted { index: usize },
}

/// The record is mapped and, when filtering, primary and properly paired.
pub open spec fn accepted(r: AlignmentRecord, flag_filtering: bool) -> bool {
    &&& r.tid >= 0
    &&& !(flag_filtering && (r.is_secondary || r.is_supplementary || !r.is_proper_pair))
}

/// Depth at position `p` of contig `t` from the first `i` records.
pub open spec fn tid_depth(recs: Seq<AlignmentRecord>, ff: bool, t: int, i: int, p: int) -> nat
    decreases i,
{
    if i <= 0 {
        0
    } else {
        tid_depth(recs, ff, t, i - 1, p) + (if accepted(recs[i - 1], ff) && recs[i - 1].tid == t {
            read_depth(recs[i - 1].pos as int, recs[i - 1].cigar@, p)
        } else {
            0
        })
    }
}

/// CIGAR operations of the first `i` kept records on contig `t`.
pub open spec fn tid_ops(recs: Seq<AlignmentRecord>, ff: bool, t: int, i: int) -> nat
    decreases i,
{
    if i <= 0 {
        0
    } else {
        tid_ops(recs, ff, t, i - 1) + (if accepted(recs[i - 1], ff) && recs[i - 1].tid == t {
            recs[i - 1].cigar@.len()
        } else {
            0
        })
    }
}

/// Some kept record lies on contig `t`.
pub open spec fn observed(recs: Seq<AlignmentRecord>, ff: bool, t: int) -> bool {
    exists|i: int| 0 <= i < recs.len() && accepted(recs[i], ff) && #[trigger] recs[i].tid == t
}

/// The depth at each position of contig `t`, of length `len`.
pub open spec fn contig_depths(len: nat, recs: Seq<AlignmentRecord>, ff: bool, t: int) -> Seq<u64> {
    Seq::new(len, |p: int| tid_depth(recs, ff, t, recs.len() as int, p) as u64)
}

/// Every kept record names a contig of the header with a length above 0.
pub open spec fn records_on_header(lengths: Seq<u32>, recs: Seq<AlignmentRecord>, ff: bool) -> bool {
    forall|i: int|
        0 <= i < recs.len() && accepted(#[trigger] recs[i], ff) ==> recs[i].tid < lengths.len()
            && lengths[recs[i].tid as int] > 0
}

/// The records can be processed: kept records are sorted by contig, name
/// contigs of the header with a length above 0, and hold at most
/// `MAX_BLOCKS` CIGAR operations per contig.
pub open spec fn records_valid(lengths: Seq<u32>, recs: Seq<AlignmentRecord>, ff: bool) -> bool {
    &&& forall|i: int|
        0 <= i < recs.len() && accepted(#[trigger] recs[i], ff) ==> {
            &&& recs[i].tid < lengths.len()
            &&& lengths[recs[i].tid as int] > 0
            &&& tid_ops(recs, ff, recs[i].tid as int, recs.len() as int) <= MAX_BLOCKS
        }
    &&& forall|i: int, j: int|
        0 <= i < j < recs.len() && accepted(#[trigger] recs[i], ff) && accepted(
            #[trigger] recs[j],
            ff,
        ) ==> recs[i].tid <= recs[j].tid
}

/// The eligible depths of entity `e`, contig after contig, from the contigs
/// below `bound` that some kept record lies on.
pub open spec fn entity_depths(
    lengths: Seq<u32>,
    recs: Seq<AlignmentRecord>,
    ff: bool,
    entity_of: Seq<Option<usize>>,
    e: int,
    k: int,
    bound: int,
) -> Seq<u64>
    decreases bound,
{
    if bound <= 0 {
        Seq::empty()
    } else {
        let t = bound - 1;
        entity_depths(lengths, recs, ff, entity_of, e, k, t) + (if entity_of[t] == Some(e as usize)
            && observed(recs, ff, t) {
            eligible(contig_depths(lengths[t] as nat, recs, ff, t), k)
        } else {
            Seq::empty()
        })
    }
}

/// Total length of the contigs of entity `e` below `bound` that no kept
/// record lies on.
pub open spec fn unobserved_len(
    lengths: Seq<u32>,
    recs: Seq<AlignmentRecord>,
    ff: bool,
    entity_of: Seq<Option<usize>>,
    e: int,
    bound: int,
) -> nat
    decreases bound,
{
    if bound <= 0 {
        0
    } else {
        let t = bound - 1;
        unobserved_len(lengths, recs, ff, entity_of, e, t) + (if entity_of[t] == Some(e as usize)
            && !observed(recs, ff, t) {
            lengths[t] as nat
        } else {
            0
        })
    }
}

/// All eligible depths of entity `e` for an estimator that leaves out `k`
/// positions at each contig end: unobserved contigs count as zeros in front.
pub open spec fn entity_values(
    lengths: Seq<u32>,
    recs: Seq<AlignmentRecord>,
    ff: bool,
    entity_of: Seq<Option<usize>>,
    e: int,
    k: int,
) -> Seq<u64> {
    with_unobserved(
        unobserved_len(lengths, recs, ff, entity_of, e, lengths.len() as int),
        entity_depths(lengths, recs, ff, entity_of, e, k, lengths.len() as int),
    )
}

proof fn lemma_tid_ops_monotone(recs: Seq<AlignmentRecord>, ff: bool, t: int, i: int, j: int)
    requires
        0 <= i <= j,
    ensures
        tid_ops(recs, ff, t, i) <= tid_ops(recs, ff, t, j),
    decreases j,
{
    if j > i {
        lemma_tid_ops_monotone(recs, ff, t, i, j - 1);
    }
}

proof fn lemma_tid_depth_zero(recs: Seq<AlignmentRecord>, ff: bool, t: int, i: int, p: int)
    requires
        0 <= i <= recs.len(),
        forall|j: int| 0 <= j < i && accepted(#[trigger] recs[j], ff) ==> recs[j].tid < t,
    ensures
        tid_depth(recs, ff, t, i, p) == 0,
    decreases i,
{
    if i > 0 {
        lemma_tid_depth_zero(recs, ff, t, i - 1, p);
    }
}

proof fn lemma_tid_ops_zero(recs: Seq<AlignmentRecord>, ff: bool, t: int, i: int)
    requires
        0 <= i <= recs.len(),
        forall|j: int| 0 <= j < i && accepted(#[trigger] recs[j], ff) ==> recs[j].tid < t,
    ensures
        tid_ops(recs, ff, t, i) == 0,
    decreases i,
{
    if i > 0 {
        lemma_tid_ops_zero(recs, ff, t, i - 1);
    }
}

/// Whether every kept record names a contig of the header with a length
/// above 0; a header that fails this is corrupt.
pub fn records_fit_header(header: &Header, records: &Vec<AlignmentRecord>, flag_filtering: bool) -> (r:
    bool)
    ensures
        r == records_on_header(header.lengths@, records@, flag_filtering),
{
    let mut i: usize = 0;
    while i < records.len()
        invariant
            0 <= i <= records@.len(),
            forall|j: int|
                0 <= j < i && accepted(#[trigger] records@[j], flag_filtering) ==> records@[j].tid
                    < header.lengths@.len() && header.lengths@[records@[j].tid as int] > 0,
        decreases records@.len() - i,
    {
        let rec = &records[i];
        let acc = rec.tid >= 0 && !(flag_filtering && (rec.is_secondary || rec.is_supplementary
            || !rec.is_proper_pair));
        if acc && (rec.tid as usize >= header.lengths.len() || header.lengths[rec.tid as usize] == 0) {
            assert(accepted(records@[i as int], flag_filtering));
            return false;
        }
        i = i + 1;
    }
    true
}

/// Checks that the records can be processed: sorted by contig, and within
/// `MAX_BLOCKS` CIGAR operations per contig.
pub fn validate_records(header: &Header, records: &Vec<AlignmentRecord>, flag_filtering: bool) -> (r:
    Result<(), CoverageError>)
    requires
        header.wf(),
        records_on_header(header.lengths@, records@, flag_filtering),
    ensures
        r is Ok <==> records_valid(header.lengths@, records@, flag_filtering),
        r matches Err(CoverageError::DepthLimit { tid }) ==> tid >= 0 && tid_ops(
            records@,
            flag_filtering,
            tid as int,
            records@.len() as int,
        ) > MAX_BLOCKS,
        r matches Err(CoverageError::Unsorted { index }) ==> index < records@.len() && exists|j: int|
            0 <= j < index && accepted(#[trigger] records@[j], flag_filtering) && accepted(
                records@[index as int],
                flag_filtering,
            ) && records@[j].tid > records@[index as int].tid,
{
    let ghost recs = records@;
    let ghost ff = flag_filtering;
    let mut last: i64 = -1;
    let mut ops: u64 = 0;
    let mut i: usize = 0;
    while i < records.len()
        invariant
            header.wf(),
            recs == records@,
            ff == flag_filtering,
            records_on_header(header.lengths@, recs, ff),
            0 <= i <= recs.len(),
            -1 <= last < header.count(),
            last == -1 ==> forall|j: int| 0 <= j < i ==> !accepted(#[trigger] recs[j], ff),
            last >= 0 ==> exists|j: int|
                0 <= j < i && accepted(#[trigger] recs[j], ff) && recs[j].tid == last,
            forall|j: int| 0 <= j < i && accepted(#[trigger] recs[j], ff) ==> recs[j].tid <= last,
            forall|j: int|
                0 <= j < i && accepted(#[trigger] recs[j], ff) ==> {
                    &&& recs[j].tid < header.count()
                    &&& header.lengths@[recs[j].tid as int] > 0
                    &&& tid_ops(recs, ff, recs[j].tid as int, i as int) <= MAX_BLOCKS
                },
            forall|a: int, b: int|
                0 <= a < b < i && accepted(#[trigger] recs[a], ff) && accepted(#[trigger] recs[b], ff)
                    ==> recs[a].tid <= recs[b].tid,
            last >= 0 ==> ops == tid_ops(recs, ff, last as int, i as int),
            ops <= MAX_BLOCKS,
        decreases recs.len() - i,
    {
        let rec = &records[i];
        let acc = rec.tid >= 0 && !(flag_filtering && (rec.is_secondary || rec.is_supplementary
            || !rec.is_proper_pair));
        if acc {
            let t = rec.tid;
            assert(accepted(recs[i as int], ff));
            if (t as i64) < last {
                proof {
                    let j = choose|j: int|
                        0 <= j < i && accepted(#[trigger] recs[j], ff) && recs[j].tid == last;
                    assert(recs[j].tid > recs[i as int].tid);
                }
                return Err(CoverageError::Unsorted { index: i });
            }
            if (t as i64) > last {
                proof {
                    lemma_tid_ops_zero(recs, ff, t as int, i as int);
                }
                ops = 0;
                last = t as i64;
            }
            let n = rec.cigar.len() as u64;
            if n > MAX_BLOCKS - ops {
                proof {
                    lemma_tid_ops_monotone(recs, ff, t as int, i + 1, recs.len() as int);
                }
                return Err(CoverageError::DepthLimit { tid: t });
            }
            ops = ops + n;
        }
        proof {
            assert forall|j: int| 0 <= j < i + 1 && accepted(#[trigger] recs[j], ff) implies tid_ops(
                recs,
                ff,
                recs[j].tid as int,
                i + 1,
            ) <= MAX_BLOCKS by {
                if j < i && recs[j].tid != last {
                    assert(tid_ops(recs, ff, recs[j].tid as int, i + 1) == tid_ops(
                        recs,
                        ff,
                        recs[j].tid as int,
                        i as int,
                    ));
                }
            }
        }
        i = i + 1;
    }
    Ok(())
}

/// Kept records among the first `i`; with `only_grouped`, only those whose
/// contig belongs to an entity.
pub open spec fn kept_count(
    recs: Seq<AlignmentRecord>,
    ff: bool,
    entity_of: Seq<Option<usize>>,
    only_grouped: bool,
    i: int,
) -> nat
    decreases i,
{
    if i <= 0 {
        0
    } else {
        kept_count(recs, ff, entity_of, only_grouped, i - 1) + (if accepted(recs[i - 1], ff) && (
        !only_grouped || entity_of[recs[i - 1].tid as int] is Some) {
            1nat
        } else {
            0
        })
    }
}

/// The entity map sends each contig id below `count` to no entity or to
/// one below `num_entities`.
pub open spec fn entity_map_wf(entity_of: Seq<Option<usize>>, count: nat, num_entities: nat) -> bool {
    &&& entity_of.len() == count
    &&& forall|t: int|
        0 <= t < entity_of.len() && #[trigger] entity_of[t] is Some ==> entity_of[t]->0
            < num_entities
}

pub open spec fn estimators_wf(estimators: Seq<CoverageEstimator>) -> bool {
    forall|j: int| 0 <= j < estimators.len() ==> #[trigger] estimators[j].wf()
}

/// One output row: an entity and one statistic for each estimator.
#[derive(Clone, Debug, PartialEq, Eq)]
pub struct EntityRow {
    /// Stable key of the entity: its contig id, or its first contig id, or
    /// its genome index.
    pub entry_index: usize,
    pub name: Vec<u8>,
    pub values: Vec<Stat>,
}

/// The rows of one sample and the number of kept records.
#[derive(Clone, Debug, PartialEq, Eq)]
pub struct SampleCoverage {
    pub rows: Vec<EntityRow>,
    pub num_mapped_reads: u64,
}

/// Some estimator's statistic of entity `e` is above zero.
pub open spec fn entity_positive(
    lengths: Seq<u32>,
    recs: Seq<AlignmentRecord>,
    ff: bool,
    entity_of: Seq<Option<usize>>,
    estimators: Seq<CoverageEstimator>,
    e: int,
) -> bool {
    exists|j: int|
        0 <= j < estimators.len() && #[trigger] stat_positive(
            estimators[j].kind(),
            estimators[j].min_covered(),
            entity_values(lengths, recs, ff, entity_of, e, estimators[j].end_exclusion() as int),
        )
}

/// Some contig of entity `e` below `bound` has a kept record on it.
pub open spec fn entity_observed(
    recs: Seq<AlignmentRecord>,
    ff: bool,
    entity_of: Seq<Option<usize>>,
    e: int,
    bound: int,
) -> bool
    decreases bound,
{
    if bound <= 0 {
        false
    } else {
        entity_observed(recs, ff, entity_of, e, bound - 1) || (entity_of[bound - 1] == Some(
            e as usize,
        ) && observed(recs, ff, bound - 1))
    }
}

/// Entity `e` gets a row: always when zero rows are printed; else when a
/// statistic of it is above zero and, unless every entity is finalised,
/// some kept record lies on one of its contigs.
pub open spec fn entity_kept(
    lengths: Seq<u32>,
    recs: Seq<AlignmentRecord>,
    ff: bool,
    entity_of: Seq<Option<usize>>,
    estimators: Seq<CoverageEstimator>,
    print_zero: bool,
    every_entity: bool,
    e: int,
) -> bool {
    print_zero || (entity_positive(lengths, recs, ff, entity_of, estimators, e) && (every_entity
        || entity_observed(recs, ff, entity_of, e, entity_of.len() as int)))
}

/// The entities below `n` that get a row, in order.
pub open spec fn kept_entities(
    lengths: Seq<u32>,
    recs: Seq<AlignmentRecord>,
    ff: bool,
    entity_of: Seq<Option<usize>>,
    estimators: Seq<CoverageEstimator>,
    print_zero: bool,
    every_entity: bool,
    n: int,
) -> Seq<int>
    decreases n,
{
    if n <= 0 {
        Seq::empty()
    } else {
        kept_entities(lengths, recs, ff, entity_of, estimators, print_zero, every_entity, n - 1) + (
        if entity_kept(lengths, recs, ff, entity_of, estimators, print_zero, every_entity, n - 1) {
            seq![n - 1]
        } else {
            Seq::empty()
        })
    }
}

/// `rows` holds one row for each kept entity below `n`, in order, with the
/// entity's key, its name and each estimator's statistic.
pub open spec fn rows_match(
    lengths: Seq<u32>,
    recs: Seq<AlignmentRecord>,
    ff: bool,
    entity_of: Seq<Option<usize>>,
    estimators: Seq<CoverageEstimator>,
    names: Seq<Seq<u8>>,
    entry_indices: Seq<usize>,
    print_zero: bool,
    every_entity: bool,
    rows: Seq<EntityRow>,
    n: int,
) -> bool {
    let kept = kept_entities(lengths, recs, ff, entity_of, estimators, print_zero, every_entity, n);
    &&& rows.len() == kept.len()
    &&& forall|i: int|
        0 <= i < rows.len() ==> {
            let e = kept[i];
            &&& (#[trigger] rows[i]).entry_index == entry_indices[e]
            &&& rows[i].name@ == names[e]
            &&& rows[i].values@.len() == estimators.len()
            &&& forall|j: int|
                0 <= j < estimators.len() ==> stat_of(
                    estimators[j].kind(),
                    estimators[j].min_covered(),
                    entity_values(lengths, recs, ff, entity_of, e, estimators[j].end_exclusion() as int),
                    #[trigger] rows[i].values@[j],
                )
        }
}

/// When zero rows are printed, every entity gets exactly one row, in entity
/// order, with its key and its name.
pub proof fn lemma_one_row_per_entity(
    lengths: Seq<u32>,
    recs: Seq<AlignmentRecord>,
    ff: bool,
    entity_of: Seq<Option<usize>>,
    estimators: Seq<CoverageEstimator>,
    names: Seq<Seq<u8>>,
    entry_indices: Seq<usize>,
    every_entity: bool,
    rows: Seq<EntityRow>,
    n: int,
)
    requires
        0 <= n,
        rows_match(
            lengths,
            recs,
            ff,
            entity_of,
            estimators,
            names,
            entry_indices,
            true,
            every_entity,
            rows,
            n,
        ),
    ensures
        rows.len() == n,
        forall|i: int|
            0 <= i < n ==> (#[trigger] rows[i]).entry_index == entry_indices[i] && rows[i].name@
                == names[i],
{
    lemma_all_kept(lengths, recs, ff, entity_of, estimators, every_entity, n);
}

proof fn lemma_all_kept(
    lengths: Seq<u32>,
    recs: Seq<AlignmentRecord>,
    ff: bool,
    entity_of: Seq<Option<usize>>,
    estimators: Seq<CoverageEstimator>,
    every_entity: bool,
    n: int,
)
    requires
        0 <= n,
    ensures
        kept_entities(lengths, recs, ff, entity_of, estimators, true, every_entity, n) =~= Seq::new(
            n as nat,
            |i: int| i,
        ),
    decreases n,
{
    if n > 0 {
        lemma_all_kept(lengths, recs, ff, entity_of, estimators, every_entity, n - 1);
    }
}

/// Total length of the contigs below `bound` that belong to some entity.
pub open spec fn grouped_len(lengths: Seq<u32>, entity_of: Seq<Option<usize>>, bound: int) -> nat
    decreases bound,
{
    if bound <= 0 {
        0
    } else {
        grouped_len(lengths, entity_of, bound - 1) + (if entity_of[bound - 1] is Some {
            lengths[bound - 1] as nat
        } else {
            0
        })
    }
}

/// Sum over the entities below `n` of the number of positions each one
/// hands its estimators, with no end exclusion.
pub open spec fn values_len_sum(
    lengths: Seq<u32>,
    recs: Seq<AlignmentRecord>,
    ff: bool,
    entity_of: Seq<Option<usize>>,
    n: int,
) -> nat
    decreases n,
{
    if n <= 0 {
        0
    } else {
        values_len_sum(lengths, recs, ff, entity_of, n - 1) + entity_values(
            lengths,
            recs,
            ff,
            entity_of,
            n - 1,
            0,
        ).len()
    }
}

/// Total length of the contigs of entity `e` below `bound`.
pub open spec fn entity_len(lengths: Seq<u32>, entity_of: Seq<Option<usize>>, e: int, bound: int) -> nat
    decreases bound,
{
    if bound <= 0 {
        0
    } else {
        entity_len(lengths, entity_of, e, bound - 1) + (if entity_of[bound - 1] == Some(e as usize) {
            lengths[bound - 1] as nat
        } else {
            0
        })
    }
}

spec fn entity_len_sum(lengths: Seq<u32>, entity_of: Seq<Option<usize>>, n: int, bound: int) -> nat
    decreases n,
{
    if n <= 0 {
        0
    } else {
        entity_len_sum(lengths, entity_of, n - 1, bound) + entity_len(lengths, entity_of, n - 1, bound)
    }
}

proof fn lemma_entity_len(
    lengths: Seq<u32>,
    recs: Seq<AlignmentRecord>,
    ff: bool,
    entity_of: Seq<Option<usize>>,
    e: int,
    bound: int,
)
    requires
        0 <= e,
        0 <= bound <= lengths.len(),
        bound <= entity_of.len(),
    ensures
        unobserved_len(lengths, recs, ff, entity_of, e, bound) + entity_depths(
            lengths,
            recs,
            ff,
            entity_of,
            e,
            0,
            bound,
        ).len() == entity_len(lengths, entity_of, e, bound),
    decreases bound,
{
    if bound > 0 {
        let t = bound - 1;
        lemma_entity_len(lengths, recs, ff, entity_of, e, t);
        let d = contig_depths(lengths[t] as nat, recs, ff, t);
        if d.len() > 0 {
            assert(eligible(d, 0) =~= d);
        }
    }
}

proof fn lemma_entity_len_sum_step(
    lengths: Seq<u32>,
    entity_of: Seq<Option<usize>>,
    n: int,
    b: int,
)
    requires
        0 <= n <= usize::MAX,
        0 <= b < entity_of.len(),
    ensures
        entity_len_sum(lengths, entity_of, n, b + 1) == entity_len_sum(lengths, entity_of, n, b) + (
        if entity_of[b] is Some && entity_of[b]->0 < n {
            lengths[b] as nat
        } else {
            0
        }),
    decreases n,
{
    if n > 0 {
        lemma_entity_len_sum_step(lengths, entity_of, n - 1, b);
        assert(entity_len(lengths, entity_of, n - 1, b + 1) == entity_len(lengths, entity_of, n - 1, b)
            + (if entity_of[b] == Some((n - 1) as usize) {
            lengths[b] as nat
        } else {
            0
        }));
        if entity_of[b] is Some {
            if entity_of[b]->0 == n - 1 {
                assert(entity_of[b] == Some((n - 1) as usize));
            } else {
                assert(entity_of[b] != Some((n - 1) as usize));
            }
        }
    }
}

proof fn lemma_entity_len_sum(
    lengths: Seq<u32>,
    entity_of: Seq<Option<usize>>,
    n: int,
    b: int,
)
    requires
        0 <= n <= usize::MAX,
        0 <= b <= entity_of.len(),
        entity_map_wf(entity_of, entity_of.len(), n as nat),
    ensures
        entity_len_sum(lengths, entity_of, n, b) == grouped_len(lengths, entity_of, b),
    decreases b,
{
    if b > 0 {
        lemma_entity_len_sum(lengths, entity_of, n, b - 1);
        lemma_entity_len_sum_step(lengths, entity_of, n, b - 1);
    } else {
        lemma_entity_len_sum_zero(lengths, entity_of, n);
    }
}

proof fn lemma_entity_len_sum_zero(lengths: Seq<u32>, entity_of: Seq<Option<usize>>, n: int)
    requires
        0 <= n,
    ensures
        entity_len_sum(lengths, entity_of, n, 0) == 0,
    decreases n,
{
    if n > 0 {
        lemma_entity_len_sum_zero(lengths, entity_of, n - 1);
    }
}

proof fn lemma_values_len_is_entity_len(
    lengths: Seq<u32>,
    recs: Seq<AlignmentRecord>,
    ff: bool,
    entity_of: Seq<Option<usize>>,
    n: int,
)
    requires
        0 <= n,
        entity_of.len() == lengths.len(),
    ensures
        values_len_sum(lengths, recs, ff, entity_of, n) == entity_len_sum(
            lengths,
            entity_of,
            n,
            lengths.len() as int,
        ),
    decreases n,
{
    if n > 0 {
        lemma_values_len_is_entity_len(lengths, recs, ff, entity_of, n - 1);
        lemma_entity_len(lengths, recs, ff, entity_of, n - 1, lengths.len() as int);
    }
}

/// With no end exclusion, an entity hands its estimators one position per
/// base of its contigs, unobserved contigs included.
pub proof fn lemma_entity_positions(
    lengths: Seq<u32>,
    recs: Seq<AlignmentRecord>,
    ff: bool,
    entity_of: Seq<Option<usize>>,
    e: int,
)
    requires
        0 <= e,
        entity_of.len() == lengths.len(),
    ensures
        entity_values(lengths, recs, ff, entity_of, e, 0).len() == entity_len(
            lengths,
            entity_of,
            e,
            lengths.len() as int,
        ),
{
    lemma_entity_len(lengths, recs, ff, entity_of, e, lengths.len() as int);
}

/// Over the entities of a sample, the numbers of positions handed to the
/// estimators (unobserved contigs included, no end exclusion) add up to the
/// total length of the contigs that belong to an entity: the whole header
/// when every contig belongs to one.
pub proof fn lemma_lengths_add_up(
    lengths: Seq<u32>,
    recs: Seq<AlignmentRecord>,
    ff: bool,
    entity_of: Seq<Option<usize>>,
    num_entities: nat,
)
    requires
        entity_map_wf(entity_of, lengths.len(), num_entities),
        num_entities <= usize::MAX,
    ensures
        values_len_sum(lengths, recs, ff, entity_of, num_entities as int) == grouped_len(
            lengths,
            entity_of,
            lengths.len() as int,
        ),
{
    lemma_values_len_is_entity_len(lengths, recs, ff, entity_of, num_entities as int);
    lemma_entity_len_sum(lengths, entity_of, num_entities as int, lengths.len() as int);
}

/// Sum over `p < n` of the depth at `p` of contig `t` from the first `i`
/// records.
pub open spec fn contig_depth_sum(recs: Seq<AlignmentRecord>, ff: bool, t: int, i: int, n: int) -> int
    decreases n,
{
    if n <= 0 {
        0
    } else {
        contig_depth_sum(recs, ff, t, i, n - 1) + tid_depth(recs, ff, t, i, n - 1)
    }
}

/// Sum over the first `i` records that are kept and lie on contig `t` of
/// their aligned lengths clipped to `[0, limit)`.
pub open spec fn clipped_total(recs: Seq<AlignmentRecord>, ff: bool, t: int, i: int, limit: int) -> int
    decreases i,
{
    if i <= 0 {
        0
    } else {
        clipped_total(recs, ff, t, i - 1, limit) + (if accepted(recs[i - 1], ff) && recs[i - 1].tid
            == t {
            read_clipped(recs[i - 1].pos as int, recs[i - 1].cigar@, limit)
        } else {
            0
        })
    }
}

proof fn lemma_contig_depth_sum_step(recs: Seq<AlignmentRecord>, ff: bool, t: int, i: int, n: int)
    requires
        0 < i <= recs.len(),
        n >= 0,
    ensures
        contig_depth_sum(recs, ff, t, i, n) == contig_depth_sum(recs, ff, t, i - 1, n) + (if accepted(
            recs[i - 1],
            ff,
        ) && recs[i - 1].tid == t {
            read_depth_sum(
                recs[i - 1].pos as int,
                recs[i - 1].cigar@,
                recs[i - 1].cigar@.len() as int,
                n,
            )
        } else {
            0
        }),
    decreases n,
{
    if n > 0 {
        lemma_contig_depth_sum_step(recs, ff, t, i, n - 1);
    }
}

proof fn lemma_contig_depth_sum_zero(recs: Seq<AlignmentRecord>, ff: bool, t: int, n: int)
    requires
        n >= 0,
    ensures
        contig_depth_sum(recs, ff, t, 0, n) == 0,
    decreases n,
{
    if n > 0 {
        lemma_contig_depth_sum_zero(recs, ff, t, n - 1);
    }
}

/// Over the positions of a contig of length `limit`, the depths from the
/// first `i` records add up to the aligned lengths of the kept reads on that
/// contig, each clipped to the contig.
pub proof fn lemma_total_depth(recs: Seq<AlignmentRecord>, ff: bool, t: int, i: int, limit: int)
    requires
        0 <= i <= recs.len(),
        limit >= 0,
    ensures
        contig_depth_sum(recs, ff, t, i, limit) == clipped_total(recs, ff, t, i, limit),
    decreases i,
{
    if i > 0 {
        lemma_total_depth(recs, ff, t, i - 1, limit);
        lemma_contig_depth_sum_step(recs, ff, t, i, limit);
        let r = recs[i - 1];
        lemma_read_total(r.pos as int, r.cigar@, r.cigar@.len() as int, limit);
    } else {
        lemma_contig_depth_sum_zero(recs, ff, t, limit);
    }
}

proof fn lemma_tid_depth_stable(recs: Seq<AlignmentRecord>, ff: bool, t: int, i: int, j: int, p: int)
    requires
        0 <= i <= j <= recs.len(),
        forall|k: int| i <= k < j && accepted(#[trigger] recs[k], ff) ==> recs[k].tid != t,
    ensures
        tid_depth(recs, ff, t, j, p) == tid_depth(recs, ff, t, i, p),
    decreases j,
{
    if j > i {
        lemma_tid_depth_stable(recs, ff, t, i, j - 1, p);
    }
}

proof fn lemma_entity_depths_skip(
    lengths: Seq<u32>,
    recs: Seq<AlignmentRecord>,
    ff: bool,
    entity_of: Seq<Option<usize>>,
    e: int,
    k: int,
    a: int,
    b: int,
)
    requires
        0 <= a <= b,
        forall|t: int| a <= t < b ==> !observed(recs, ff, t),
    ensures
        entity_depths(lengths, recs, ff, entity_of, e, k, b) == entity_depths(
            lengths,
            recs,
            ff,
            entity_of,
            e,
            k,
            a,
        ),
    decreases b,
{
    if b > a {
        lemma_entity_depths_skip(lengths, recs, ff, entity_of, e, k, a, b - 1);
        assert(entity_depths(lengths, recs, ff, entity_of, e, k, b) =~= entity_depths(
            lengths,
            recs,
            ff,
            entity_of,
            e,
            k,
            b - 1,
        ));
    }
}

/// Folds the depths of one contig into each estimator of entity `e`.
fn fold_contig(states: &mut Vec<Vec<CoverageEstimator>>, e: usize, depths: &Vec<u64>, Ghost(
    bound,
): Ghost<nat>)
    requires
        e < old(states)@.len(),
        bound < MAX_CONTIGS,
        depths@.len() <= u32::MAX,
        forall|p: int| 0 <= p < depths@.len() ==> #[trigger] depths@[p] <= MAX_BLOCKS,
        forall|j: int|
            0 <= j < old(states)@[e as int]@.len() ==> (#[trigger] old(states)@[e as int]@[j]).wf()
                && old(states)@[e as int]@[j].num_contigs() <= bound,
    ensures
        final(states)@.len() == old(states)@.len(),
        forall|f: int| 0 <= f < old(states)@.len() && f != e ==> #[trigger] final(states)@[f] == old(states)@[f],
        final(states)@[e as int]@.len() == old(states)@[e as int]@.len(),
        forall|j: int|
            0 <= j < old(states)@[e as int]@.len() ==> {
                let o = old(states)@[e as int]@[j];
                let n = #[trigger] final(states)@[e as int]@[j];
                &&& n.wf()
                &&& n.kind() == o.kind()
                &&& n.min_covered() == o.min_covered()
                &&& n.end_exclusion() == o.end_exclusion()
                &&& n.num_contigs() <= bound + 1
                &&& n.observed() == o.observed() + eligible(depths@, o.end_exclusion() as int)
            },
{
    let m = states[e].len();
    let mut j: usize = 0;
    while j < m
        invariant
            e < states@.len(),
            states@.len() == old(states)@.len(),
            m == old(states)@[e as int]@.len(),
            states@[e as int]@.len() == m,
            0 <= j <= m,
            bound < MAX_CONTIGS,
            depths@.len() <= u32::MAX,
            forall|p: int| 0 <= p < depths@.len() ==> #[trigger] depths@[p] <= MAX_BLOCKS,
            forall|f: int| 0 <= f < old(states)@.len() && f != e ==> #[trigger] states@[f] == old(states)@[f],
            forall|i: int| j <= i < m ==> #[trigger] states@[e as int]@[i] == old(states)@[e as int]@[i],
            forall|i: int|
                0 <= i < m ==> (#[trigger] old(states)@[e as int]@[i]).wf()
                    && old(states)@[e as int]@[i].num_contigs() <= bound,
            forall|i: int|
                0 <= i < j ==> {
                    let o = old(states)@[e as int]@[i];
                    let n = #[trigger] states@[e as int]@[i];
                    &&& n.wf()
                    &&& n.kind() == o.kind()
                    &&& n.min_covered() == o.min_covered()
                    &&& n.end_exclusion() == o.end_exclusion()
                    &&& n.num_contigs() <= bound + 1
                    &&& n.observed() == o.observed() + eligible(depths@, o.end_exclusion() as int)
                },
        decreases m - j,
    {
        states[e][j].add_contig(depths);
        j = j + 1;
    }
}

/// Computes the rows of one sample: every estimator's statistic of every
/// entity that gets a row. Contig `t` belongs to entity `entity_of[t]`, if
/// any; its length counts as zeros of that entity when no kept record lies
/// on it.
pub fn entity_coverage(
    header: &Header,
    records: &Vec<AlignmentRecord>,
    entity_of: &Vec<Option<usize>>,
    num_entities: usize,
    names: &Vec<Vec<u8>>,
    entry_indices: &Vec<usize>,
    estimators: &Vec<CoverageEstimator>,
    print_zero: bool,
    every_entity: bool,
    flag_filtering: bool,
    count_only_grouped: bool,
) -> (r: Result<SampleCoverage, CoverageError>)
    requires
        header.wf(),
        entity_map_wf(entity_of@, header.count(), num_entities as nat),
        names@.len() == num_entities,
        entry_indices@.len() == num_entities,
        estimators_wf(estimators@),
        records_on_header(header.lengths@, records@, flag_filtering),
    ensures
        r is Ok <==> records_valid(header.lengths@, records@, flag_filtering),
        r matches Ok(res) ==> {
            &&& rows_match(
                header.lengths@,
                records@,
                flag_filtering,
                entity_of@,
                estimators@,
                names@.map_values(|v: Vec<u8>| v@),
                entry_indices@,
                print_zero,
                every_entity,
                res.rows@,
                num_entities as int,
            )
            &&& res.num_mapped_reads == kept_count(
                records@,
                flag_filtering,
                entity_of@,
                count_only_grouped,
                records@.len() as int,
            )
        },
{
    if let Err(x) = validate_records(header, records, flag_filtering) {
        return Err(x);
    }
    let ghost recs = records@;
    let ghost ff = flag_filtering;
    let ghost lengths = header.lengths@;
    let ghost eo = entity_of@;
    let m = estimators.len();
    let tcount = header.lengths.len();
    // One fresh copy of every estimator for each entity.
    let mut states: Vec<Vec<CoverageEstimator>> = Vec::new();
    let mut e: usize = 0;
    while e < num_entities
        invariant
            0 <= e <= num_entities,
            m == estimators@.len(),
            estimators_wf(estimators@),
            states@.len() == e,
            forall|f: int| 0 <= f < e ==> (#[trigger] states@[f])@.len() == m,
            forall|f: int, j: int|
                0 <= f < e && 0 <= j < m ==> {
                    let st = #[trigger] states@[f]@[j];
                    &&& st.wf()
                    &&& st.kind() == estimators@[j].kind()
                    &&& st.min_covered() == estimators@[j].min_covered()
                    &&& st.end_exclusion() == estimators@[j].end_exclusion()
                    &&& st.num_contigs() == 0
                    &&& st.observed() == Seq::<u64>::empty()
                },
        decreases num_entities - e,
    {
        let mut row: Vec<CoverageEstimator> = Vec::new();
        let mut j: usize = 0;
        while j < m
            invariant
                0 <= j <= m,
                m == estimators@.len(),
                estimators_wf(estimators@),
                row@.len() == j,
                forall|i: int|
                    0 <= i < j ==> {
                        let st = #[trigger] row@[i];
                        &&& st.wf()
                        &&& st.kind() == estimators@[i].kind()
                        &&& st.min_covered() == estimators@[i].min_covered()
                        &&& st.end_exclusion() == estimators@[i].end_exclusion()
                        &&& st.num_contigs() == 0
                        &&& st.observed() == Seq::<u64>::empty()
                    },
            decreases m - j,
        {
            assert(estimators@[j as int].wf());
            row.push(estimators[j].fresh_copy());
            j = j + 1;
        }
        states.push(row);
        e = e + 1;
    }
    let mut seen: Vec<bool> = vec![false; tcount];
    let mut signal = DepthSignal::new(0);
    let mut cur: i64 = -1;
    let mut num_mapped: u64 = 0;
    let mut i: usize = 0;
    while i < records.len()
        invariant
            header.wf(),
            recs == records@,
            ff == flag_filtering,
            lengths == header.lengths@,
            eo == entity_of@,
            tcount == lengths.len(),
            entity_map_wf(eo, tcount as nat, num_entities as nat),
            records_valid(lengths, recs, ff),
            m == estimators@.len(),
            0 <= i <= recs.len(),
            -1 <= cur < tcount,
            seen@.len() == tcount,
            num_mapped == kept_count(recs, ff, eo, count_only_grouped, i as int),
            num_mapped <= i,
            cur == -1 ==> forall|j: int| 0 <= j < i ==> !accepted(#[trigger] recs[j], ff),
            cur >= 0 ==> exists|j: int| 0 <= j < i && accepted(#[trigger] recs[j], ff) && recs[j].tid == cur,
            forall|j: int| 0 <= j < i && accepted(#[trigger] recs[j], ff) ==> recs[j].tid <= cur,
            forall|t: int|
                0 <= t < tcount ==> #[trigger] seen@[t] == exists|j: int|
                    0 <= j < i && accepted(#[trigger] recs[j], ff) && recs[j].tid == t,
            cur >= 0 ==> {
                &&& signal.wf()
                &&& signal@.len() == lengths[cur as int]
                &&& signal.num_blocks() == tid_ops(recs, ff, cur as int, i as int)
                &&& forall|p: int|
                    0 <= p < signal@.len() ==> #[trigger] signal@[p] == tid_depth(
                        recs,
                        ff,
                        cur as int,
                        i as int,
                        p,
                    )
            },
            states@.len() == num_entities,
            forall|f: int| 0 <= f < num_entities ==> (#[trigger] states@[f])@.len() == m,
            forall|f: int, j: int|
                0 <= f < num_entities && 0 <= j < m ==> {
                    let st = #[trigger] states@[f]@[j];
                    &&& st.wf()
                    &&& st.kind() == estimators@[j].kind()
                    &&& st.min_covered() == estimators@[j].min_covered()
                    &&& st.end_exclusion() == estimators@[j].end_exclusion()
                    &&& st.num_contigs() <= (if cur >= 0 { cur as int } else { 0 })
                    &&& st.observed() == entity_depths(
                        lengths,
                        recs,
                        ff,
                        eo,
                        f,
                        estimators@[j].end_exclusion() as int,
                        if cur >= 0 { cur as int } else { 0 },
                    )
                },
        decreases recs.len() - i,
    {
        let rec = &records[i];
        let acc = rec.tid >= 0 && !(flag_filtering && (rec.is_secondary || rec.is_supplementary
            || !rec.is_proper_pair));
        if acc {
            let t = rec.tid;
            assert(accepted(recs[i as int], ff));
            if t as i64 != cur {
                let ghost old_cur = cur;
                let ghost b0: int = if cur >= 0 { cur as int } else { 0 };
                proof {
                    assert forall|t2: int| b0 <= t2 < t && t2 != old_cur implies !observed(recs, ff, t2) by {
                        if observed(recs, ff, t2) {
                            let k = choose|k: int| 0 <= k < recs.len() && accepted(recs[k], ff) && #[trigger] recs[k].tid == t2;
                            if k >= i {
                                assert(accepted(recs[k], ff));
                            }
                        }
                    }
                }
                if cur >= 0 {
                    let depths = signal.depths();
                    let c = cur as usize;
                    proof {
                        assert forall|p: int| 0 <= p < depths@.len() implies depths@[p] == tid_depth(recs, ff, cur as int, recs.len() as int, p) by {
                            lemma_tid_depth_stable(recs, ff, cur as int, i as int, recs.len() as int, p);
                            assert(signal@[p] == tid_depth(recs, ff, cur as int, i as int, p));
                        }
                        assert(depths@ =~= contig_depths(lengths[cur as int] as nat, recs, ff, cur as int));
                        assert(observed(recs, ff, cur as int));
                    }
                    match entity_of[c] {
                        Some(g) => {
                            fold_contig(&mut states, g, &depths, Ghost(cur as nat));
                        },
                        None => {},
                    }
                }
                proof {
                    assert forall|f: int, j: int| 0 <= f < num_entities && 0 <= j < m implies {
                        let st = #[trigger] states@[f]@[j];
                        &&& st.num_contigs() <= t
                        &&& st.observed() == entity_depths(lengths, recs, ff, eo, f, estimators@[j].end_exclusion() as int, t as int)
                    } by {
                        let k = estimators@[j].end_exclusion() as int;
                        if old_cur >= 0 {
                            lemma_entity_depths_skip(lengths, recs, ff, eo, f, k, old_cur + 1, t as int);
                        } else {
                            lemma_entity_depths_skip(lengths, recs, ff, eo, f, k, 0, t as int);
                        }
                    }
                }
                seen.set(t as usize, true);
                signal = DepthSignal::new(header.lengths[t as usize]);
                cur = t as i64;
                proof {
                    lemma_tid_ops_zero(recs, ff, t as int, i as int);
                    assert forall|p: int| 0 <= p < signal@.len() implies #[trigger] signal@[p] == tid_depth(recs, ff, cur as int, i as int, p) by {
                        lemma_tid_depth_zero(recs, ff, t as int, i as int, p);
                    }
                }
            }
            proof {
                lemma_tid_ops_monotone(recs, ff, t as int, i + 1, recs.len() as int);
            }
            signal.apply_read(rec.pos, &rec.cigar);
            if !count_only_grouped || entity_of[t as usize].is_some() {
                num_mapped = num_mapped + 1;
            }
        }
        proof {
            assert forall|t2: int| 0 <= t2 < tcount implies #[trigger] seen@[t2] == exists|j: int|
                0 <= j < i + 1 && accepted(#[trigger] recs[j], ff) && recs[j].tid == t2 by {
                if exists|j: int| 0 <= j < i + 1 && accepted(#[trigger] recs[j], ff) && recs[j].tid == t2 {
                    let j = choose|j: int| 0 <= j < i + 1 && accepted(#[trigger] recs[j], ff) && recs[j].tid == t2;
                    if j < i {
                        assert(exists|j: int| 0 <= j < i && accepted(#[trigger] recs[j], ff) && recs[j].tid == t2);
                    }
                }
                if seen@[t2] && !(exists|j: int| 0 <= j < i && accepted(#[trigger] recs[j], ff) && recs[j].tid == t2) {
                    assert(accepted(recs[i as int], ff) && recs[i as int].tid == t2);
                }
            }
        }
        i = i + 1;
    }
    if cur >= 0 {
        let depths = signal.depths();
        let c = cur as usize;
        proof {
            assert forall|p: int| 0 <= p < depths@.len() implies depths@[p] == tid_depth(
                recs,
                ff,
                cur as int,
                recs.len() as int,
                p,
            ) by {
                assert(signal@[p] == tid_depth(recs, ff, cur as int, i as int, p));
            }
            assert(depths@ =~= contig_depths(lengths[cur as int] as nat, recs, ff, cur as int));
            assert(observed(recs, ff, cur as int));
        }
        match entity_of[c] {
            Some(g) => {
                fold_contig(&mut states, g, &depths, Ghost(cur as nat));
            },
            None => {},
        }
    }
    proof {
        let b0: int = if cur >= 0 {
            cur + 1
        } else {
            0
        };
        assert forall|f: int, j: int| 0 <= f < num_entities && 0 <= j < m implies (
        #[trigger] states@[f]@[j]).observed() == entity_depths(
            lengths,
            recs,
            ff,
            eo,
            f,
            estimators@[j].end_exclusion() as int,
            tcount as int,
        ) by {
            lemma_entity_depths_skip(
                lengths,
                recs,
                ff,
                eo,
                f,
                estimators@[j].end_exclusion() as int,
                b0,
                tcount as int,
            );
        }
        assert forall|t: int| 0 <= t < tcount implies #[trigger] seen@[t] == observed(recs, ff, t) by {
            if observed(recs, ff, t) {
                let k = choose|k: int|
                    0 <= k < recs.len() && accepted(recs[k], ff) && #[trigger] recs[k].tid == t;
                assert(accepted(recs[k], ff) && recs[k].tid == t);
            }
        }
    }
    // Lengths of the contigs that no kept record lies on, by entity.
    let mut unobs: Vec<u64> = vec![0u64; num_entities];
    let mut has_obs: Vec<bool> = vec![false; num_entities];
    let mut t: usize = 0;
    while t < tcount
        invariant
            header.wf(),
            lengths == header.lengths@,
            eo == entity_of@,
            tcount == lengths.len(),
            tcount <= i32::MAX,
            entity_map_wf(eo, tcount as nat, num_entities as nat),
            seen@.len() == tcount,
            forall|t2: int| 0 <= t2 < tcount ==> #[trigger] seen@[t2] == observed(recs, ff, t2),
            0 <= t <= tcount,
            unobs@.len() == num_entities,
            forall|f: int|
                0 <= f < num_entities ==> #[trigger] unobs@[f] == unobserved_len(
                    lengths,
                    recs,
                    ff,
                    eo,
                    f,
                    t as int,
                ),
            forall|f: int| 0 <= f < num_entities ==> #[trigger] unobs@[f] <= t * (u32::MAX as int),
            has_obs@.len() == num_entities,
            forall|f: int|
                0 <= f < num_entities ==> #[trigger] has_obs@[f] == entity_observed(
                    recs,
                    ff,
                    eo,
                    f,
                    t as int,
                ),
        decreases tcount - t,
    {
        if seen[t] {
            match entity_of[t] {
                Some(g) => {
                    has_obs.set(g, true);
                },
                None => {},
            }
        }
        if !seen[t] {
            match entity_of[t] {
                Some(g) => {
                    let x = unobs[g];
                    proof {
                        assert(x + u32::MAX <= (t + 1) * (u32::MAX as int)) by (nonlinear_arith)
                            requires
                                x <= t * (u32::MAX as int),
                        ;
                        assert((t + 1) * (u32::MAX as int) <= (i32::MAX as int) * (u32::MAX as int))
                            by (nonlinear_arith)
                            requires
                                t + 1 <= i32::MAX,
                        ;
                    }
                    unobs.set(g, x + header.lengths[t] as u64);
                },
                None => {},
            }
        }
        proof {
            assert forall|f: int| 0 <= f < num_entities implies #[trigger] unobs@[f] <= (t + 1) * (
            u32::MAX as int) by {
                assert(t * (u32::MAX as int) <= (t + 1) * (u32::MAX as int)) by (nonlinear_arith);
            }
        }
        t = t + 1;
    }
    proof {
        assert(tcount == eo.len());
    }
    let mut rows: Vec<EntityRow> = Vec::new();
    let mut f: usize = 0;
    while f < num_entities
        invariant
            lengths == header.lengths@,
            eo == entity_of@,
            tcount == lengths.len(),
            tcount <= i32::MAX,
            m == estimators@.len(),
            names@.len() == num_entities,
            entry_indices@.len() == num_entities,
            0 <= f <= num_entities,
            unobs@.len() == num_entities,
            forall|g: int|
                0 <= g < num_entities ==> #[trigger] unobs@[g] == unobserved_len(
                    lengths,
                    recs,
                    ff,
                    eo,
                    g,
                    tcount as int,
                ),
            forall|g: int| 0 <= g < num_entities ==> #[trigger] unobs@[g] <= tcount * (
            u32::MAX as int),
            has_obs@.len() == num_entities,
            forall|g: int|
                0 <= g < num_entities ==> #[trigger] has_obs@[g] == entity_observed(
                    recs,
                    ff,
                    eo,
                    g,
                    eo.len() as int,
                ),
            states@.len() == num_entities,
            forall|g: int| 0 <= g < num_entities ==> (#[trigger] states@[g])@.len() == m,
            forall|g: int, j: int|
                0 <= g < num_entities && 0 <= j < m ==> {
                    let st = #[trigger] states@[g]@[j];
                    &&& st.wf()
                    &&& st.kind() == estimators@[j].kind()
                    &&& st.min_covered() == estimators@[j].min_covered()
                    &&& st.end_exclusion() == estimators@[j].end_exclusion()
                    &&& st.observed() == entity_depths(
                        lengths,
                        recs,
                        ff,
                        eo,
                        g,
                        estimators@[j].end_exclusion() as int,
                        tcount as int,
                    )
                },
            rows_match(
                lengths,
                recs,
                ff,
                eo,
                estimators@,
                names@.map_values(|v: Vec<u8>| v@),
                entry_indices@,
                print_zero,
                every_entity,
                rows@,
                f as int,
            ),
        decreases num_entities - f,
    {
        let u = unobs[f];
        proof {
            assert(u <= MAX_UNOBSERVED) by (nonlinear_arith)
                requires
                    u <= tcount * (u32::MAX as int),
                    tcount <= i32::MAX,
            ;
        }
        let mut values: Vec<Stat> = Vec::new();
        let mut any_positive = false;
        let mut j: usize = 0;
        while j < m
            invariant
                0 <= j <= m,
                m == estimators@.len(),
                f < num_entities,
                states@.len() == num_entities,
                states@[f as int]@.len() == m,
                u <= MAX_UNOBSERVED,
                u == unobserved_len(lengths, recs, ff, eo, f as int, tcount as int),
                tcount == lengths.len(),
                forall|j2: int|
                    0 <= j2 < m ==> {
                        let st = #[trigger] states@[f as int]@[j2];
                        &&& st.wf()
                        &&& st.kind() == estimators@[j2].kind()
                        &&& st.min_covered() == estimators@[j2].min_covered()
                        &&& st.end_exclusion() == estimators@[j2].end_exclusion()
                        &&& st.observed() == entity_depths(
                            lengths,
                            recs,
                            ff,
                            eo,
                            f as int,
                            estimators@[j2].end_exclusion() as int,
                            tcount as int,
                        )
                    },
                values@.len() == j,
                forall|j2: int|
                    0 <= j2 < j ==> stat_of(
                        estimators@[j2].kind(),
                        estimators@[j2].min_covered(),
                        entity_values(
                            lengths,
                            recs,
                            ff,
                            eo,
                            f as int,
                            estimators@[j2].end_exclusion() as int,
                        ),
                        #[trigger] values@[j2],
                    ),
                any_positive == exists|j2: int|
                    0 <= j2 < j && #[trigger] stat_positive(
                        estimators@[j2].kind(),
                        estimators@[j2].min_covered(),
                        entity_values(
                            lengths,
                            recs,
                            ff,
                            eo,
                            f as int,
                            estimators@[j2].end_exclusion() as int,
                        ),
                    ),
            decreases m - j,
        {
            let (c, positive) = states[f][j].calculate_coverage(u);
            let ghost ev = entity_values(
                lengths,
                recs,
                ff,
                eo,
                f as int,
                estimators@[j as int].end_exclusion() as int,
            );
            let ghost was = any_positive;
            values.push(c);
            any_positive = any_positive || positive;
            proof {
                assert(positive == stat_positive(
                    estimators@[j as int].kind(),
                    estimators@[j as int].min_covered(),
                    ev,
                ));
                if any_positive && !positive {
                    let j2 = choose|j2: int|
                        0 <= j2 < j && #[trigger] stat_positive(
                            estimators@[j2].kind(),
                            estimators@[j2].min_covered(),
                            entity_values(
                                lengths,
                                recs,
                                ff,
                                eo,
                                f as int,
                                estimators@[j2].end_exclusion() as int,
                            ),
                        );
                    assert(0 <= j2 < j + 1);
                }
                if !any_positive {
                    assert forall|j2: int| 0 <= j2 < j + 1 implies !#[trigger] stat_positive(
                        estimators@[j2].kind(),
                        estimators@[j2].min_covered(),
                        entity_values(
                            lengths,
                            recs,
                            ff,
                            eo,
                            f as int,
                            estimators@[j2].end_exclusion() as int,
                        ),
                    ) by {}
                }
            }
            j = j + 1;
        }
        let ghost before = rows@;
        if print_zero || (any_positive && (every_entity || has_obs[f])) {
            let name = names[f].clone();
            rows.push(EntityRow { entry_index: entry_indices[f], name, values });
        }
        proof {
            let k0 = kept_entities(lengths, recs, ff, eo, estimators@, print_zero, every_entity, f as int);
            let k1 = kept_entities(lengths, recs, ff, eo, estimators@, print_zero, every_entity, f + 1);
            assert(any_positive == entity_positive(lengths, recs, ff, eo, estimators@, f as int));
            assert forall|i: int| 0 <= i < k0.len() implies k1[i] == k0[i] by {}
        }
        f = f + 1;
    }
    Ok(SampleCoverage { rows, num_mapped_reads: num_mapped })
}

} // verus!
