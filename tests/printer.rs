use coverm::aggregate::{AlignmentRecord, Header};
use coverm::contig::contig_coverage;
use coverm::coverage_printer::{
    cache_sample, print_dense_cached_coverage_taker, print_sparse_cached_coverage_taker,
    CachedCoverageTaker, Cell, CoveragePrinter, ReadsMapped,
};
use coverm::depth::CigarOp;
use coverm::estimator::{CoverageEstimator, Fraction, Stat};

/// Writes cells as the command-line tool does, for a cache of `f32` values.
fn render(
    cells: &[Cell],
    c: &CachedCoverageTaker<f32>,
    entry_type: &str,
    headers: &[&str],
    reads_mapped: Option<&Vec<ReadsMapped>>,
) -> String {
    let fraction = |s: usize| {
        let r = reads_mapped.unwrap()[s];
        r.num_mapped_reads as f32 / r.num_reads as f32
    };
    let parts: Vec<String> = cells
        .iter()
        .map(|cell| match *cell {
            Cell::EntryType => entry_type.to_string(),
            Cell::SampleWord => "Sample".to_string(),
            Cell::UnmappedWord => "unmapped".to_string(),
            Cell::StoitName { stoit } => String::from_utf8(c.stoit_name(stoit).clone()).unwrap(),
            Cell::EstimatorHeader { estimator } => headers[estimator].to_string(),
            Cell::StoitHeader { stoit, estimator } => format!(
                "{} {}",
                String::from_utf8(c.stoit_name(stoit).clone()).unwrap(),
                headers[estimator]
            ),
            Cell::EntryName { entry } => String::from_utf8(c.entry(entry).name.clone()).unwrap(),
            Cell::NotAvailable => "NA".to_string(),
            Cell::Unmapped { stoit } => format!("{}", 100.0 * (1.0 - fraction(stoit))),
            Cell::Value { entry, column } => format!("{}", c.entry(entry).coverages[column]),
            Cell::Normalised { entry, column } => {
                let e = c.entry(entry);
                let total: f32 = (0..c.num_entries())
                    .filter(|&p| c.entry(p).stoit_index == e.stoit_index)
                    .map(|p| c.entry(p).coverages[column])
                    .sum();
                format!("{}", e.coverages[column] * 100.0 * fraction(e.stoit_index) / total)
            },
        })
        .collect();
    parts.join("\t")
}

fn one_contig_cache() -> CachedCoverageTaker<f32> {
    let mut c = CachedCoverageTaker::new(2);
    c.start_stoit(b"stoit1".to_vec());
    c.start_entry(0, b"contig1".to_vec());
    c.add_single_coverage(1.1f32);
    c.add_single_coverage(1.2f32);
    c.finish_entry();
    c
}

#[test]
fn test_dense_cached_printer_hello_world() {
    let c = one_contig_cache();
    let headers = vec![b"mean".to_vec(), b"std".to_vec()];
    let rows = print_dense_cached_coverage_taker(&headers, &c, None, &vec![]).unwrap();
    let text: Vec<String> =
        rows.iter().map(|r| render(r, &c, "Contig", &["mean", "std"], None)).collect();
    assert_eq!(text, vec!["Contig\tstoit1 mean\tstoit1 std", "contig1\t1.1\t1.2"]);
}

#[test]
fn test_dense_cached_printer_easy_normalised() {
    let c = one_contig_cache();
    let headers = vec![b"mean".to_vec(), b"std".to_vec()];
    let rm = vec![ReadsMapped { num_mapped_reads: 1, num_reads: 2 }];
    let rows = print_dense_cached_coverage_taker(&headers, &c, Some(&rm), &vec![0]).unwrap();
    assert_eq!(
        rows,
        vec![
            vec![
                Cell::EntryType,
                Cell::StoitHeader { stoit: 0, estimator: 0 },
                Cell::StoitHeader { stoit: 0, estimator: 1 },
            ],
            vec![Cell::UnmappedWord, Cell::Unmapped { stoit: 0 }, Cell::NotAvailable],
            vec![
                Cell::EntryName { entry: 0 },
                Cell::Normalised { entry: 0, column: 0 },
                Cell::Value { entry: 0, column: 1 },
            ],
        ]
    );
    let text: Vec<String> =
        rows.iter().map(|r| render(r, &c, "Contig", &["mean", "std"], Some(&rm))).collect();
    assert_eq!(text, vec!["Contig\tstoit1 mean\tstoit1 std", "unmapped\t50\tNA", "contig1\t50\t1.2"]);
}

#[test]
fn dense_layout_puts_samples_side_by_side() {
    let mut c: CachedCoverageTaker<f32> = CachedCoverageTaker::new(1);
    for (s, v) in [("a", [1.0f32, 2.0]), ("b", [3.0, 4.0])] {
        c.start_stoit(s.as_bytes().to_vec());
        c.start_entry(0, b"x".to_vec());
        c.add_single_coverage(v[0]);
        c.finish_entry();
        c.start_entry(1, b"y".to_vec());
        c.add_single_coverage(v[1]);
        c.finish_entry();
    }
    let rows = print_dense_cached_coverage_taker(&vec![b"mean".to_vec()], &c, None, &vec![]).unwrap();
    let text: Vec<String> = rows.iter().map(|r| render(r, &c, "Contig", &["mean"], None)).collect();
    assert_eq!(text, vec!["Contig\ta mean\tb mean", "x\t1\t3", "y\t2\t4"]);
}

#[test]
fn dense_layout_refuses_ragged_samples() {
    let mut c: CachedCoverageTaker<f32> = CachedCoverageTaker::new(1);
    c.start_stoit(b"a".to_vec());
    c.start_entry(0, b"x".to_vec());
    c.add_single_coverage(1.0);
    c.start_stoit(b"b".to_vec());
    assert!(print_dense_cached_coverage_taker(&vec![b"mean".to_vec()], &c, None, &vec![]).is_none());
}

#[test]
fn sparse_layout_rows() {
    let c = one_contig_cache();
    let rm = vec![ReadsMapped { num_mapped_reads: 1, num_reads: 2 }];
    let rows = print_sparse_cached_coverage_taker(&c, Some(&rm), &vec![0]);
    let text: Vec<String> = rows.iter().map(|r| render(r, &c, "Contig", &["mean", "std"], Some(&rm))).collect();
    assert_eq!(text, vec!["stoit1\tunmapped\t50\tNA", "stoit1\tcontig1\t50\t1.2"]);
    let rows = print_sparse_cached_coverage_taker(&c, None, &vec![]);
    let text: Vec<String> = rows.iter().map(|r| render(r, &c, "Contig", &["mean", "std"], None)).collect();
    assert_eq!(text, vec!["stoit1\tcontig1\t1.1\t1.2"]);
}

#[test]
fn printer_headers_and_finalising() {
    let c = one_contig_cache();
    let mut streamed = CoveragePrinter::StreamedCoveragePrinter;
    let header = streamed.print_headers(b"Contig".to_vec(), vec![b"mean".to_vec()]).unwrap();
    assert_eq!(render(&header, &c, "Contig", &["mean"], None), "Sample\tContig\tmean");
    assert_eq!(streamed.finalise_printing(&c, None, &vec![]), Some(vec![]));

    let mut dense = CoveragePrinter::DenseCachedCoveragePrinter { entry_type: None, estimator_headers: None };
    assert!(!dense.is_ready());
    assert!(dense.print_headers(b"Contig".to_vec(), vec![b"mean".to_vec(), b"std".to_vec()]).is_none());
    assert!(dense.is_ready());
    let rows = dense.finalise_printing(&c, None, &vec![]).unwrap();
    assert_eq!(rows.len(), 2);

    let sparse = CoveragePrinter::SparseCachedCoveragePrinter;
    assert_eq!(sparse.finalise_printing(&c, None, &vec![]).unwrap().len(), 1);
}

#[test]
fn cached_rows_match_streamed_rows() {
    let h = Header {
        names: vec![b"seq1".to_vec(), b"seq2".to_vec(), b"seq3".to_vec()],
        lengths: vec![10, 20, 30],
    };
    let recs: Vec<AlignmentRecord> = vec![
        AlignmentRecord {
            tid: 0,
            pos: 0,
            cigar: vec![CigarOp::Match(5)],
            is_secondary: false,
            is_supplementary: false,
            is_proper_pair: true,
        },
        AlignmentRecord {
            tid: 2,
            pos: 3,
            cigar: vec![CigarOp::Match(9), CigarOp::Del(3), CigarOp::Match(3)],
            is_secondary: false,
            is_supplementary: false,
            is_proper_pair: true,
        },
    ];
    let est = vec![
        CoverageEstimator::new_estimator_mean(Fraction::zero(), 0),
        CoverageEstimator::new_estimator_covered_fraction(Fraction::zero(), 0),
    ];
    let streamed = contig_coverage(&h, &recs, &est, true, false).unwrap();
    let mut cache: CachedCoverageTaker<Stat> = CachedCoverageTaker::new(2);
    cache_sample(&mut cache, b"sample".to_vec(), streamed.clone());
    let dense = print_dense_cached_coverage_taker(&vec![b"m".to_vec(), b"c".to_vec()], &cache, None, &vec![])
        .unwrap();
    assert_eq!(dense.len(), streamed.rows.len() + 1);
    for (i, row) in streamed.rows.iter().enumerate() {
        let cells = &dense[i + 1];
        assert_eq!(cells[0], Cell::EntryName { entry: i });
        assert_eq!(cache.entry(i).name, row.name);
        for (c, v) in row.values.iter().enumerate() {
            assert_eq!(cells[c + 1], Cell::Value { entry: i, column: c });
            assert_eq!(&cache.entry(i).coverages[c], v);
        }
    }
    assert_eq!(streamed.rows[2].values[0], Stat::Ratio { num: 12, den: 30 });
}
