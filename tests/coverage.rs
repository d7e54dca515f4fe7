use coverm::aggregate::{
    records_fit_header, AlignmentRecord, CoverageError, EntityRow, Header, SampleCoverage,
};
use coverm::contig::contig_coverage;
use coverm::depth::{CigarOp, DepthSignal};
use coverm::estimator::{CoverageEstimator, Fraction, Stat};
use coverm::genome::{
    any_contig_in_genome, mosdepth_genome_coverage, mosdepth_genome_coverage_with_contig_names,
    names_hold_separator, GenomesAndContigs,
};

fn read(tid: i32, pos: u32, cigar: Vec<CigarOp>) -> AlignmentRecord {
    AlignmentRecord {
        tid,
        pos,
        cigar,
        is_secondary: false,
        is_supplementary: false,
        is_proper_pair: true,
    }
}

fn span(tid: i32, start: u32, end: u32) -> AlignmentRecord {
    read(tid, start, vec![CigarOp::Match(end - start)])
}

fn header(contigs: &[(&str, u32)]) -> Header {
    Header {
        names: contigs.iter().map(|(n, _)| n.as_bytes().to_vec()).collect(),
        lengths: contigs.iter().map(|(_, l)| *l).collect(),
    }
}

fn frac(num: u32, den: u32) -> Fraction {
    Fraction::new(num, den).unwrap()
}

fn mean(min_covered: Fraction, end_exclusion: u64) -> CoverageEstimator {
    CoverageEstimator::new_estimator_mean(min_covered, end_exclusion)
}

fn ratio(num: u128, den: u128) -> Stat {
    Stat::Ratio { num, den }
}

fn row(entry_index: usize, name: &str, values: Vec<Stat>) -> EntityRow {
    EntityRow { entry_index, name: name.as_bytes().to_vec(), values }
}

fn value_of(s: &Stat) -> f64 {
    match s {
        Stat::Ratio { num, den } => *num as f64 / *den as f64,
        _ => panic!("not a ratio"),
    }
}

/// Two contigs of 1000 bases; only `seq1` is covered, with total depth 1200.
fn seq1_only() -> (Header, Vec<AlignmentRecord>) {
    (header(&[("seq1", 1000), ("seq2", 1000)]), vec![span(0, 0, 1000), span(0, 0, 200)])
}

/// Two contigs of 1000 bases, both covered: depths 0, 1, 2, 3 and 4 on
/// 482, 922, 371, 164 and 61 positions (covered fraction 0.759, mean 1.2).
fn both_covered() -> (Header, Vec<AlignmentRecord>) {
    (
        header(&[("seq1", 1000), ("seq2", 1000)]),
        vec![
            span(0, 0, 1000),
            span(0, 0, 596),
            span(0, 0, 225),
            span(0, 0, 61),
            span(1, 0, 518),
        ],
    )
}

/// Seven contigs of four-digit and five-digit lengths; reads on
/// `genome2~seq1` and `genome5~seq2` give each a mean depth of 1.2.
fn seven_contigs() -> (Header, Vec<AlignmentRecord>) {
    (
        header(&[
            ("genome1~random_sequence_length_11000", 11000),
            ("genome1~random_sequence_length_11010", 11010),
            ("genome2~seq1", 1000),
            ("genome3~random_sequence_length_11001", 11001),
            ("genome4~random_sequence_length_11002", 11002),
            ("genome5~seq2", 1000),
            ("genome6~random_sequence_length_11003", 11003),
        ]),
        vec![span(2, 0, 1000), span(2, 0, 200), span(5, 0, 1000), span(5, 500, 700)],
    )
}

fn rows(r: Result<SampleCoverage, CoverageError>) -> Vec<EntityRow> {
    r.unwrap().rows
}

#[test]
fn depth_of_one_read() {
    let mut d = DepthSignal::new(10);
    d.apply_read(2, &vec![CigarOp::Match(3), CigarOp::Del(2), CigarOp::Equal(2)]);
    assert_eq!(d.depths(), vec![0, 0, 1, 1, 1, 0, 0, 1, 1, 0]);
}

#[test]
fn depth_skips_inserts_and_clips() {
    let mut d = DepthSignal::new(6);
    d.apply_read(
        1,
        &vec![
            CigarOp::SoftClip(5),
            CigarOp::Match(2),
            CigarOp::Ins(4),
            CigarOp::RefSkip(1),
            CigarOp::Diff(10),
            CigarOp::HardClip(3),
        ],
    );
    d.apply_read(0, &vec![CigarOp::Match(6)]);
    assert_eq!(d.depths(), vec![1, 2, 2, 1, 2, 2]);
}

#[test]
fn depth_read_past_end_adds_nothing() {
    let mut d = DepthSignal::new(4);
    d.apply_read(7, &vec![CigarOp::Match(3)]);
    assert_eq!(d.depths(), vec![0, 0, 0, 0]);
    assert_eq!(d.len(), 4);
}

#[test]
fn total_depth_is_clipped_aligned_length() {
    // 3 + 2 aligned bases in the first read; 4 of 6 aligned bases of the
    // second lie inside the contig.
    let mut d = DepthSignal::new(8);
    d.apply_read(0, &vec![CigarOp::Match(3), CigarOp::Del(1), CigarOp::Match(2)]);
    d.apply_read(4, &vec![CigarOp::Ins(2), CigarOp::Match(6)]);
    let total: u64 = d.depths().iter().sum();
    assert_eq!(total, 5 + 4);
    assert!(d.depths().iter().all(|&x| x <= 2));
}

#[test]
fn estimator_statistics() {
    let depths = vec![0u64, 1, 2, 3, 4, 0];
    let mut m = mean(Fraction::zero(), 0);
    m.add_contig(&depths);
    assert_eq!(m.calculate_coverage(0), (ratio(10, 6), true));
    assert_eq!(m.calculate_coverage(4), (ratio(10, 10), true));

    let mut v = CoverageEstimator::new_estimator_variance(Fraction::zero(), 0);
    v.add_contig(&depths);
    assert_eq!(v.calculate_coverage(0), (Stat::Moments { count: 6, sum: 10, sum_sq: 30 }, true));

    let mut c = CoverageEstimator::new_estimator_covered_fraction(Fraction::zero(), 0);
    c.add_contig(&depths);
    assert_eq!(c.calculate_coverage(2), (ratio(4, 8), true));

    let mut p = CoverageEstimator::new_estimator_pileup_counts(Fraction::zero(), 0);
    p.add_contig(&depths);
    assert_eq!(
        p.calculate_coverage(1),
        (Stat::Histogram(vec![(0, 3), (1, 1), (2, 1), (3, 1), (4, 1)]), true)
    );
}

#[test]
fn variance_of_equal_depths_is_zero() {
    let mut v = CoverageEstimator::new_estimator_variance(Fraction::zero(), 0);
    v.add_contig(&vec![3, 3, 3]);
    let (s, positive) = v.calculate_coverage(0);
    assert_eq!(s, Stat::Moments { count: 3, sum: 9, sum_sq: 27 });
    assert!(!positive);
    let (_, positive) = v.calculate_coverage(1);
    assert!(positive);
}

#[test]
fn trimmed_mean_drops_both_ends() {
    // Sorted: 0 0 1 2 3 4 5 6 7 8; drop floor(0.1 * 10) = 1 low value and
    // keep up to ceil(0.9 * 10) = 9: values 0 1 2 3 4 5 6 7.
    let mut t = CoverageEstimator::new_estimator_trimmed_mean(frac(1, 10), frac(9, 10), Fraction::zero(), 0);
    t.add_contig(&vec![8, 3, 0, 5, 1]);
    t.add_contig(&vec![7, 2, 6, 4]);
    assert_eq!(t.calculate_coverage(1), (ratio(28, 8), true));
}

#[test]
fn trimmed_mean_of_low_part_is_zero() {
    let mut t = CoverageEstimator::new_estimator_trimmed_mean(Fraction::zero(), frac(5, 100), Fraction::zero(), 0);
    let mut depths = vec![0u64; 100];
    depths.extend(vec![2u64; 900]);
    t.add_contig(&depths);
    assert_eq!(t.calculate_coverage(0), (ratio(0, 50), false));
}

#[test]
fn end_exclusion_leaves_out_contig_ends() {
    let mut m = mean(Fraction::zero(), 2);
    m.add_contig(&vec![9, 9, 1, 2, 3, 9, 9]);
    assert_eq!(m.calculate_coverage(0), (ratio(6, 3), true));
    // A contig no longer than twice the exclusion adds nothing.
    let mut m = mean(Fraction::zero(), 2);
    m.add_contig(&vec![5, 5, 5, 5]);
    assert_eq!(m.calculate_coverage(0), (ratio(0, 1), false));
}

#[test]
fn min_covered_fraction_gates() {
    let mut m = mean(frac(1, 2), 0);
    m.add_contig(&vec![4, 0, 0]);
    assert_eq!(m.calculate_coverage(0), (ratio(0, 1), false));
    let mut m = mean(frac(1, 3), 0);
    m.add_contig(&vec![4, 0, 0]);
    assert_eq!(m.calculate_coverage(0), (ratio(4, 3), true));
    let mut p = CoverageEstimator::new_estimator_pileup_counts(frac(1, 2), 0);
    p.add_contig(&vec![4, 0, 0]);
    assert_eq!(p.calculate_coverage(0), (Stat::Histogram(vec![]), false));
    let mut v = CoverageEstimator::new_estimator_variance(frac(1, 2), 0);
    v.add_contig(&vec![4, 0, 0]);
    assert_eq!(v.calculate_coverage(0), (Stat::Moments { count: 0, sum: 0, sum_sq: 0 }, false));
}

#[test]
fn setup_forgets_folded_depths() {
    let mut m = mean(Fraction::zero(), 0);
    m.add_contig(&vec![4, 4]);
    m.setup();
    m.add_contig(&vec![1, 0]);
    assert_eq!(m.calculate_coverage(0), (ratio(1, 2), true));
    assert_eq!(m.fresh_copy().calculate_coverage(0), (ratio(0, 1), false));
    assert_eq!(m.zero_coverage(), ratio(0, 1));
}

#[test]
fn fraction_must_lie_in_unit_interval() {
    assert_eq!(Fraction::new(3, 2), None);
    assert_eq!(Fraction::new(1, 0), None);
    assert_eq!(Fraction::new(2, 2), Some(Fraction { num: 2, den: 2 }));
}

#[test]
fn separator_genome_spans_both_contigs() {
    let (h, recs) = seq1_only();
    let r = mosdepth_genome_coverage(&h, &recs, b'e', true, &vec![mean(Fraction::zero(), 0)], false, false);
    let out = rows(r);
    assert_eq!(out, vec![row(0, "s", vec![ratio(1200, 2000)])]);
    assert_eq!(value_of(&out[0].values[0]), 0.6);
}

#[test]
fn separator_q_names_genome_se() {
    let (h, recs) = seq1_only();
    let out = rows(mosdepth_genome_coverage(&h, &recs, b'q', true, &vec![mean(Fraction::zero(), 0)], false, false));
    assert_eq!(out, vec![row(0, "se", vec![ratio(1200, 2000)])]);
}

#[test]
fn min_fraction_just_under() {
    let (h, recs) = both_covered();
    let out = rows(mosdepth_genome_coverage(&h, &recs, b'e', true, &vec![mean(frac(76, 100), 0)], false, false));
    assert_eq!(out, vec![row(0, "s", vec![ratio(0, 1)])]);
}

#[test]
fn min_fraction_just_ok() {
    let (h, recs) = both_covered();
    let out = rows(mosdepth_genome_coverage(&h, &recs, b'e', true, &vec![mean(frac(759, 1000), 0)], false, false));
    assert_eq!(out, vec![row(0, "s", vec![ratio(2400, 2000)])]);
    assert_eq!(value_of(&out[0].values[0]) as f32, 1.2f32);
}

#[test]
fn pileup_histogram_of_genome() {
    let (h, recs) = both_covered();
    let est = vec![CoverageEstimator::new_estimator_pileup_counts(Fraction::zero(), 0)];
    let out = rows(mosdepth_genome_coverage(&h, &recs, b'e', true, &est, false, false));
    assert_eq!(
        out,
        vec![row(0, "s", vec![Stat::Histogram(vec![(0, 482), (1, 922), (2, 371), (3, 164), (4, 61)])])]
    );
}

#[test]
fn seven_contigs_zero_genomes_printed() {
    let (h, recs) = seven_contigs();
    let out = rows(mosdepth_genome_coverage(&h, &recs, b'~', true, &vec![mean(frac(1, 10), 0)], false, false));
    let names: Vec<&[u8]> = out.iter().map(|r| r.name.as_slice()).collect();
    assert_eq!(
        names,
        vec![&b"genome1"[..], b"genome2", b"genome3", b"genome4", b"genome5", b"genome6"]
    );
    let values: Vec<f64> = out.iter().map(|r| value_of(&r.values[0])).collect();
    assert_eq!(values, vec![0.0, 1.2, 0.0, 0.0, 1.2, 0.0]);
    let keys: Vec<usize> = out.iter().map(|r| r.entry_index).collect();
    assert_eq!(keys, vec![0, 2, 3, 4, 5, 6]);
}

#[test]
fn seven_contigs_zero_genomes_left_out() {
    let (h, recs) = seven_contigs();
    let out = rows(mosdepth_genome_coverage(&h, &recs, b'~', false, &vec![mean(frac(1, 10), 0)], false, false));
    assert_eq!(
        out,
        vec![row(2, "genome2", vec![ratio(1200, 1000)]), row(5, "genome5", vec![ratio(1200, 1000)])]
    );
}

#[test]
fn single_genome_covers_whole_reference() {
    let (h, recs) = seven_contigs();
    let out = rows(mosdepth_genome_coverage(&h, &recs, b'~', true, &vec![mean(Fraction::zero(), 0)], false, true));
    let total: u128 = h.lengths.iter().map(|&l| l as u128).sum();
    assert_eq!(out, vec![row(0, "genome1", vec![ratio(2400, total)])]);
}

#[test]
fn missing_separator_is_detected() {
    let (h, _) = seq1_only();
    assert!(!names_hold_separator(&h, b'~'));
    assert!(names_hold_separator(&h, b'e'));
    let (h, _) = seven_contigs();
    assert!(names_hold_separator(&h, b'~'));
}

#[test]
fn genome_lengths_add_up_to_reference() {
    let (h, recs) = seven_contigs();
    let out = rows(mosdepth_genome_coverage(&h, &recs, b'~', true, &vec![mean(Fraction::zero(), 0)], false, false));
    let dens: u128 = out
        .iter()
        .map(|r| match r.values[0] {
            Stat::Ratio { num, den } => if num == 0 { 0 } else { den },
            _ => 0,
        })
        .sum();
    assert_eq!(dens, 2000);
    let out = rows(mosdepth_genome_coverage(
        &h,
        &recs,
        b'~',
        true,
        &vec![CoverageEstimator::new_estimator_covered_fraction(Fraction::zero(), 0)],
        false,
        false,
    ));
    let total: u128 = out
        .iter()
        .map(|r| match r.values[0] {
            Stat::Ratio { den, .. } => den,
            _ => 0,
        })
        .sum();
    assert_eq!(total, h.lengths.iter().map(|&l| l as u128).sum::<u128>());
}

#[test]
fn one_row_per_entity_when_printing_zeros() {
    let (h, recs) = seven_contigs();
    let est = vec![mean(Fraction::zero(), 0)];
    assert_eq!(rows(contig_coverage(&h, &recs, &est, true, false)).len(), 7);
    assert_eq!(rows(mosdepth_genome_coverage(&h, &recs, b'~', true, &est, false, false)).len(), 6);
    let mut geco = GenomesAndContigs::new();
    let g = geco.establish_genome(b"all".to_vec());
    geco.insert(b"genome2~seq1".to_vec(), g);
    let g2 = geco.establish_genome(b"none".to_vec());
    geco.insert(b"genome1~random_sequence_length_11000".to_vec(), g2);
    assert_eq!(
        rows(mosdepth_genome_coverage_with_contig_names(&h, &recs, &geco, true, false, &est)).len(),
        2
    );
}

#[test]
fn contig_mode_drops_all_zero_rows() {
    let h = header(&[("seq1", 1000), ("seq2", 1000)]);
    let recs = vec![span(0, 100, 1000), span(0, 100, 400)];
    let est = vec![
        mean(Fraction::zero(), 0),
        CoverageEstimator::new_estimator_trimmed_mean(Fraction::zero(), frac(5, 100), Fraction::zero(), 0),
    ];
    let out = rows(contig_coverage(&h, &recs, &est, false, false));
    assert_eq!(out, vec![row(0, "seq1", vec![ratio(1200, 1000), ratio(0, 50)])]);
    let est_rev = vec![est[1].fresh_copy(), est[0].fresh_copy()];
    let out = rows(contig_coverage(&h, &recs, &est_rev, false, false));
    assert_eq!(out, vec![row(0, "seq1", vec![ratio(0, 50), ratio(1200, 1000)])]);
}

#[test]
fn contig_mode_prints_zero_contigs() {
    let (h, recs) = seven_contigs();
    let out = rows(contig_coverage(&h, &recs, &vec![mean(Fraction::zero(), 0)], true, false));
    assert_eq!(out.len(), 7);
    assert_eq!(out[0], row(0, "genome1~random_sequence_length_11000", vec![ratio(0, 11000)]));
    assert_eq!(out[2], row(2, "genome2~seq1", vec![ratio(1200, 1000)]));
    assert_eq!(out[5], row(5, "genome5~seq2", vec![ratio(1200, 1000)]));
    let out = rows(contig_coverage(&h, &recs, &vec![mean(Fraction::zero(), 0)], false, false));
    assert_eq!(out.len(), 2);
}

#[test]
fn flag_filtering_drops_records() {
    let h = header(&[("seq1", 100)]);
    let mut secondary = span(0, 0, 100);
    secondary.is_secondary = true;
    let mut unpaired = span(0, 0, 100);
    unpaired.is_proper_pair = false;
    let mut supplementary = span(0, 0, 100);
    supplementary.is_supplementary = true;
    let recs = vec![secondary, unpaired, supplementary, span(-1, 0, 100)];
    let est = vec![mean(Fraction::zero(), 0)];
    let filtered = contig_coverage(&h, &recs, &est, false, true).unwrap();
    assert_eq!(filtered.rows, vec![]);
    assert_eq!(filtered.num_mapped_reads, 0);
    let unfiltered = contig_coverage(&h, &recs, &est, false, false).unwrap();
    assert_eq!(unfiltered.rows, vec![row(0, "seq1", vec![ratio(300, 100)])]);
    assert_eq!(unfiltered.num_mapped_reads, 3);
}

#[test]
fn record_errors() {
    let h = header(&[("seq1", 100), ("seq2", 0)]);
    let est = vec![mean(Fraction::zero(), 0)];
    assert!(!records_fit_header(&h, &vec![span(3, 0, 10)], false));
    assert!(!records_fit_header(&h, &vec![span(1, 0, 10)], false));
    assert!(records_fit_header(&h, &vec![span(0, 0, 10), span(-1, 0, 10)], false));
    let mut filtered = span(1, 0, 10);
    filtered.is_secondary = true;
    assert!(records_fit_header(&h, &vec![filtered], true));
    let h = header(&[("seq1", 100), ("seq2", 100)]);
    assert_eq!(
        contig_coverage(&h, &vec![span(1, 0, 10), span(0, 0, 10)], &est, true, false),
        Err(CoverageError::Unsorted { index: 1 })
    );
}

#[test]
fn explicit_genomes() {
    let (h, recs) = seq1_only();
    let mut geco = GenomesAndContigs::new();
    let g = geco.establish_genome(b"se".to_vec());
    geco.insert(b"seq1".to_vec(), g);
    geco.insert(b"seq2".to_vec(), g);
    assert_eq!(geco.genome_index_of_contig(&b"seq2".to_vec()), Some(0));
    assert_eq!(geco.genome_index_of_contig(&b"seq3".to_vec()), None);
    let r = mosdepth_genome_coverage_with_contig_names(&h, &recs, &geco, true, false, &vec![mean(Fraction::zero(), 0)]);
    let r = r.unwrap();
    assert_eq!(r.rows, vec![row(0, "se", vec![ratio(1200, 2000)])]);
    assert_eq!(r.num_mapped_reads, 2);
}

#[test]
fn explicit_genomes_count_only_grouped_reads() {
    let (h, recs) = seven_contigs();
    let mut geco = GenomesAndContigs::new();
    let g2 = geco.establish_genome(b"genome2".to_vec());
    let g3 = geco.establish_genome(b"genome3".to_vec());
    geco.insert(b"genome2~seq1".to_vec(), g2);
    geco.insert(b"genome3~random_sequence_length_11001".to_vec(), g3);
    let r = mosdepth_genome_coverage_with_contig_names(&h, &recs, &geco, false, false, &vec![mean(Fraction::zero(), 0)])
        .unwrap();
    assert_eq!(r.rows, vec![row(0, "genome2", vec![ratio(1200, 1000)])]);
    assert_eq!(r.num_mapped_reads, 2);
}

#[test]
fn explicit_genomes_need_a_mapped_contig() {
    let (h, _) = seq1_only();
    let mut geco = GenomesAndContigs::new();
    let g = geco.establish_genome(b"x".to_vec());
    geco.insert(b"other".to_vec(), g);
    assert!(!any_contig_in_genome(&h, &geco));
    geco.insert(b"seq2".to_vec(), g);
    assert!(any_contig_in_genome(&h, &geco));
}

#[test]
fn unread_entities_get_no_row_without_zero_rows() {
    let h = header(&[("seq1", 5), ("seq2", 5)]);
    let recs = vec![span(0, 0, 5)];
    let est = vec![CoverageEstimator::new_estimator_pileup_counts(Fraction::zero(), 0)];
    let out = rows(contig_coverage(&h, &vec![], &est, false, false));
    assert_eq!(out, vec![]);
    let out = rows(contig_coverage(&h, &recs, &est, false, false));
    assert_eq!(out, vec![row(0, "seq1", vec![Stat::Histogram(vec![(1, 5)])])]);
    let out = rows(contig_coverage(&h, &recs, &est, true, false));
    assert_eq!(out.len(), 2);
    assert_eq!(out[1], row(1, "seq2", vec![Stat::Histogram(vec![(0, 5)])]));
    let h2 = header(&[("a~1", 5), ("b~1", 5)]);
    let out = rows(mosdepth_genome_coverage(&h2, &recs, b'~', false, &est, false, false));
    assert_eq!(out, vec![row(0, "a", vec![Stat::Histogram(vec![(1, 5)])])]);
    // Explicit genomes are all finalised.
    let mut geco = GenomesAndContigs::new();
    let a = geco.establish_genome(b"a".to_vec());
    let b = geco.establish_genome(b"b".to_vec());
    geco.insert(b"seq1".to_vec(), a);
    geco.insert(b"seq2".to_vec(), b);
    let out = mosdepth_genome_coverage_with_contig_names(&h, &recs, &geco, false, false, &est).unwrap();
    assert_eq!(
        out.rows,
        vec![
            row(0, "a", vec![Stat::Histogram(vec![(1, 5)])]),
            row(1, "b", vec![Stat::Histogram(vec![(0, 5)])]),
        ]
    );
}

#[test]
fn genome_insert_replaces_contig() {
    let mut geco = GenomesAndContigs::new();
    let a = geco.establish_genome(b"a".to_vec());
    let b = geco.establish_genome(b"b".to_vec());
    geco.insert(b"c1".to_vec(), a);
    geco.insert(b"c1".to_vec(), b);
    assert_eq!(geco.genome_index_of_contig(&b"c1".to_vec()), Some(b));
    assert_eq!(geco.genomes().len(), 2);
}
