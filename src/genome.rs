use vstd::prelude::*;

use crate::aggregate::{
    entity_coverage, entity_map_wf, estimators_wf, kept_count, records_on_header, records_valid,
    rows_match,
    AlignmentRecord, CoverageError, Header, SampleCoverage,
};
use crate::estimator::CoverageEstimator;

verus! {

/// `k` is the first index of `x` in `s`.
pub open spec fn is_first(s: Seq<u8>, x: u8, k: int) -> bool {
    &&& 0 <= k < s.len()
    &&& s[k] == x
    &&& forall|j: int| 0 <= j < k ==> s[j] != x
}

/// The part of a contig name before the first separator.
pub open spec fn genome_name(s: Seq<u8>, sep: u8) -> Seq<u8> {
    s.subrange(0, choose|k: int| is_first(s, sep, k))
}

/// Contig `t` starts a genome: it is the first contig, or its genome name
/// differs from that of contig `t - 1`.
pub open spec fn new_genome_at(names: Seq<Seq<u8>>, sep: u8, t: int) -> bool {
    t == 0 || genome_name(names[t], sep) != genome_name(names[t - 1], sep)
}

/// The contigs below `n` that start a genome, in order.
pub open spec fn run_starts(names: Seq<Seq<u8>>, sep: u8, n: int) -> Seq<int>
    decreases n,
{
    if n <= 0 {
        Seq::empty()
    } else {
        run_starts(names, sep, n - 1) + (if new_genome_at(names, sep, n - 1) {
            seq![n - 1]
        } else {
            Seq::empty()
        })
    }
}

/// Separator mode: a genome is a run of consecutive contigs with one genome
/// name; contig `t` belongs to the run that holds it.
pub open spec fn separator_entities(names: Seq<Seq<u8>>, sep: u8) -> Seq<Option<usize>> {
    Seq::new(names.len(), |t: int| Some((run_starts(names, sep, t + 1).len() - 1) as usize))
}

/// Separator mode: the name of each genome.
pub open spec fn separator_genome_names(names: Seq<Seq<u8>>, sep: u8) -> Seq<Seq<u8>> {
    run_starts(names, sep, names.len() as int).map_values(|t: int| genome_name(names[t], sep))
}

/// Separator mode: the key of each genome is its first contig.
pub open spec fn separator_indices(names: Seq<Seq<u8>>, sep: u8) -> Seq<usize> {
    run_starts(names, sep, names.len() as int).map_values(|t: int| t as usize)
}

/// Single-genome mode: every contig belongs to genome 0.
pub open spec fn single_entities(count: nat) -> Seq<Option<usize>> {
    Seq::new(count, |t: int| Some(0usize))
}

/// The name of the genome in single-genome mode.
pub open spec fn single_genome_name() -> Seq<u8> {
    seq![103u8, 101, 110, 111, 109, 101, 49]
}

pub open spec fn header_names(header: Header) -> Seq<Seq<u8>> {
    header.names@.map_values(|v: Vec<u8>| v@)
}

/// Index of the first `element` in `slice`, if any.
fn find_first(slice: &Vec<u8>, element: u8) -> (r: Option<usize>)
    ensures
        r matches Some(k) ==> is_first(slice@, element, k as int),
        r is None ==> !slice@.contains(element),
{
    let mut index: usize = 0;
    while index < slice.len()
        invariant
            0 <= index <= slice@.len(),
            forall|j: int| 0 <= j < index ==> slice@[j] != element,
        decreases slice@.len() - index,
    {
        if slice[index] == element {
            return Some(index);
        }
        index = index + 1;
    }
    None
}

proof fn lemma_first_unique(s: Seq<u8>, x: u8, k: int)
    requires
        is_first(s, x, k),
    ensures
        genome_name(s, x) == s.subrange(0, k),
{
    let c = choose|c: int| is_first(s, x, c);
    assert(is_first(s, x, c));
    if c < k {
        assert(s[c] != x);
    }
    if k < c {
        assert(s[k] != x);
    }
}

fn bytes_eq(a: &Vec<u8>, b: &Vec<u8>) -> (r: bool)
    ensures
        r == (a@ == b@),
{
    if a.len() != b.len() {
        return false;
    }
    let mut i: usize = 0;
    while i < a.len()
        invariant
            a@.len() == b@.len(),
            0 <= i <= a@.len(),
            forall|j: int| 0 <= j < i ==> a@[j] == b@[j],
        decreases a@.len() - i,
    {
        if a[i] != b[i] {
            return false;
        }
        i = i + 1;
    }
    assert(a@ =~= b@);
    true
}

fn prefix_of(v: &Vec<u8>, k: usize) -> (r: Vec<u8>)
    requires
        k <= v@.len(),
    ensures
        r@ == v@.subrange(0, k as int),
{
    let mut r: Vec<u8> = Vec::new();
    let mut i: usize = 0;
    while i < k
        invariant
            k <= v@.len(),
            0 <= i <= k,
            r@ == v@.subrange(0, i as int),
        decreases k - i,
    {
        r.push(v[i]);
        i = i + 1;
        assert(r@ =~= v@.subrange(0, i as int));
    }
    r
}

/// The genome name of contig `tid`: its name up to the first `split_char`.
fn extract_genome(tid: usize, target_names: &Vec<Vec<u8>>, split_char: u8) -> (r: Vec<u8>)
    requires
        tid < target_names@.len(),
        target_names@[tid as int]@.contains(split_char),
    ensures
        r@ == genome_name(target_names@[tid as int]@, split_char),
{
    let k = find_first(&target_names[tid], split_char).unwrap();
    proof {
        lemma_first_unique(target_names@[tid as int]@, split_char, k as int);
    }
    prefix_of(&target_names[tid], k)
}

/// Whether every contig name holds `split_char`, so that separator mode
/// can name the genome of each contig.
pub fn names_hold_separator(header: &Header, split_char: u8) -> (r: bool)
    ensures
        r == forall|t: int|
            0 <= t < header.names@.len() ==> (#[trigger] header.names@[t])@.contains(split_char),
{
    let mut t: usize = 0;
    while t < header.names.len()
        invariant
            0 <= t <= header.names@.len(),
            forall|t2: int| 0 <= t2 < t ==> (#[trigger] header.names@[t2])@.contains(split_char),
        decreases header.names@.len() - t,
    {
        if find_first(&header.names[t], split_char).is_none() {
            return false;
        }
        t = t + 1;
    }
    true
}

/// The genomes of separator mode: which genome each contig is in, the
/// genome names and their first contigs.
struct GenomeRuns {
    entity_of: Vec<Option<usize>>,
    names: Vec<Vec<u8>>,
    first_tids: Vec<usize>,
}

proof fn lemma_run_starts_grow(names: Seq<Seq<u8>>, sep: u8, a: int, b: int)
    requires
        0 <= a <= b,
    ensures
        run_starts(names, sep, a).len() <= run_starts(names, sep, b).len(),
        forall|i: int|
            0 <= i < run_starts(names, sep, a).len() ==> run_starts(names, sep, b)[i] == run_starts(
                names,
                sep,
                a,
            )[i],
    decreases b,
{
    if b > a {
        lemma_run_starts_grow(names, sep, a, b - 1);
    }
}

/// Splits the contigs into genomes by the part of their names before
/// `split_char`.
fn genome_runs(target_names: &Vec<Vec<u8>>, split_char: u8) -> (g: GenomeRuns)
    requires
        forall|t: int|
            0 <= t < target_names@.len() ==> (#[trigger] target_names@[t])@.contains(split_char),
    ensures
        ({
            let names = target_names@.map_values(|v: Vec<u8>| v@);
            &&& g.entity_of@ == separator_entities(names, split_char)
            &&& g.names@.map_values(|v: Vec<u8>| v@) == separator_genome_names(names, split_char)
            &&& g.first_tids@ == separator_indices(names, split_char)
        }),
{
    let ghost names = target_names@.map_values(|v: Vec<u8>| v@);
    let n = target_names.len();
    let mut entity_of: Vec<Option<usize>> = Vec::new();
    let mut gnames: Vec<Vec<u8>> = Vec::new();
    let mut first_tids: Vec<usize> = Vec::new();
    let mut t: usize = 0;
    while t < n
        invariant
            n == target_names@.len(),
            names == target_names@.map_values(|v: Vec<u8>| v@),
            0 <= t <= n,
            forall|t2: int| 0 <= t2 < n ==> (#[trigger] target_names@[t2])@.contains(split_char),
            entity_of@ == separator_entities(names, split_char).subrange(0, t as int),
            gnames@.len() == run_starts(names, split_char, t as int).len(),
            first_tids@.len() == gnames@.len(),
            forall|i: int|
                0 <= i < gnames@.len() ==> (#[trigger] gnames@[i])@ == genome_name(
                    names[run_starts(names, split_char, t as int)[i]],
                    split_char,
                ),
            forall|i: int|
                0 <= i < gnames@.len() ==> #[trigger] first_tids@[i] == run_starts(
                    names,
                    split_char,
                    t as int,
                )[i],
            t > 0 ==> gnames@.len() > 0,
            t > 0 ==> gnames@.last()@ == genome_name(names[t - 1], split_char),
            t == 0 ==> gnames@.len() == 0,
            gnames@.len() <= t,
        decreases n - t,
    {
        let g = extract_genome(t, target_names, split_char);
        let ghost rs = run_starts(names, split_char, t as int);
        let fresh = if t == 0 {
            true
        } else {
            !bytes_eq(&g, &gnames[gnames.len() - 1])
        };
        assert(names[t as int] == target_names@[t as int]@);
        assert(fresh == new_genome_at(names, split_char, t as int));
        let ghost before = gnames@;
        if fresh {
            gnames.push(g);
            first_tids.push(t);
            proof {
                assert(run_starts(names, split_char, t + 1) =~= rs.push(t as int));
            }
        } else {
            proof {
                assert(run_starts(names, split_char, t + 1) =~= rs);
            }
        }
        entity_of.push(Some(gnames.len() - 1));
        proof {
            assert(entity_of@ =~= separator_entities(names, split_char).subrange(0, t + 1));
        }
        t = t + 1;
    }
    proof {
        assert(entity_of@ =~= separator_entities(names, split_char));
        assert(gnames@.map_values(|v: Vec<u8>| v@) =~= separator_genome_names(names, split_char));
        assert(first_tids@ =~= separator_indices(names, split_char));
    }
    GenomeRuns { entity_of, names: gnames, first_tids }
}

proof fn lemma_separator_entities_wf(names: Seq<Seq<u8>>, sep: u8)
    ensures
        entity_map_wf(
            separator_entities(names, sep),
            names.len(),
            run_starts(names, sep, names.len() as int).len(),
        ),
{
    assert forall|t: int|
        0 <= t < names.len() && #[trigger] separator_entities(names, sep)[t] is Some implies separator_entities(
        names,
        sep,
    )[t]->0 < run_starts(names, sep, names.len() as int).len() by {
        lemma_run_starts_grow(names, sep, 1, t + 1);
        lemma_run_starts_grow(names, sep, t + 1, names.len() as int);
        assert(run_starts(names, sep, 0).len() == 0);
        assert(new_genome_at(names, sep, 0));
    }
}

/// Coverage of each genome of one sample. With `single_genome` all contigs
/// form one genome called `genome1`. Otherwise a genome is a run of
/// consecutive contigs whose names agree up to the first `split_char`, and
/// every contig name must hold `split_char`. Rows come in genome order: one
/// per genome when `print_zero_coverage_genomes`, else one per genome that a
/// kept record lies on and that has a statistic above zero.
pub fn mosdepth_genome_coverage(
    header: &Header,
    records: &Vec<AlignmentRecord>,
    split_char: u8,
    print_zero_coverage_genomes: bool,
    coverage_estimators: &Vec<CoverageEstimator>,
    flag_filtering: bool,
    single_genome: bool,
) -> (r: Result<SampleCoverage, CoverageError>)
    requires
        header.wf(),
        estimators_wf(coverage_estimators@),
        records_on_header(header.lengths@, records@, flag_filtering),
        !single_genome ==> forall|t: int|
            0 <= t < header.names@.len() ==> (#[trigger] header.names@[t])@.contains(split_char),
    ensures
        single_genome ==> {
            &&& (r is Ok <==> records_valid(header.lengths@, records@, flag_filtering))
            &&& r matches Ok(res) ==> {
                &&& rows_match(
                    header.lengths@,
                    records@,
                    flag_filtering,
                    single_entities(header.count()),
                    coverage_estimators@,
                    seq![single_genome_name()],
                    seq![0usize],
                    print_zero_coverage_genomes,
                    false,
                    res.rows@,
                    1,
                )
                &&& res.num_mapped_reads == kept_count(
                    records@,
                    flag_filtering,
                    single_entities(header.count()),
                    false,
                    records@.len() as int,
                )
            }
        },
        !single_genome ==> {
            let names = header_names(*header);
            &&& (r is Ok <==> records_valid(header.lengths@, records@, flag_filtering))
            &&& r matches Ok(res) ==> {
                &&& rows_match(
                    header.lengths@,
                    records@,
                    flag_filtering,
                    separator_entities(names, split_char),
                    coverage_estimators@,
                    separator_genome_names(names, split_char),
                    separator_indices(names, split_char),
                    print_zero_coverage_genomes,
                    false,
                    res.rows@,
                    run_starts(names, split_char, names.len() as int).len() as int,
                )
                &&& res.num_mapped_reads == kept_count(
                    records@,
                    flag_filtering,
                    separator_entities(names, split_char),
                    false,
                    records@.len() as int,
                )
            }
        },
{
    if single_genome {
        let n = header.lengths.len();
        let entity_of: Vec<Option<usize>> = vec![Some(0usize); n];
        let name: Vec<u8> = vec![103u8, 101, 110, 111, 109, 101, 49];
        let names: Vec<Vec<u8>> = vec![name];
        let indices: Vec<usize> = vec![0usize];
        proof {
            assert(entity_of@ =~= single_entities(header.count()));
            assert(names@.map_values(|v: Vec<u8>| v@) =~= seq![single_genome_name()]);
            assert(indices@ =~= seq![0usize]);
        }
        return entity_coverage(
            header,
            records,
            &entity_of,
            1,
            &names,
            &indices,
            coverage_estimators,
            print_zero_coverage_genomes,
            false,
            flag_filtering,
            false,
        );
    }
    let ghost names = header_names(*header);
    assert forall|t: int| 0 <= t < names.len() implies #[trigger] names[t] == header.names@[t]@ by {}
    let runs = genome_runs(&header.names, split_char);
    proof {
        lemma_separator_entities_wf(names, split_char);
        assert(runs.names@.len() == run_starts(names, split_char, names.len() as int).len()) by {
            assert(runs.names@.map_values(|v: Vec<u8>| v@).len() == runs.names@.len());
        }
    }
    entity_coverage(
        header,
        records,
        &runs.entity_of,
        runs.names.len(),
        &runs.names,
        &runs.first_tids,
        coverage_estimators,
        print_zero_coverage_genomes,
        false,
        flag_filtering,
        false,
    )
}

/// Genomes by index, and the genome that each listed contig belongs to.
pub struct GenomesAndContigs {
    genomes: Vec<Vec<u8>>,
    contigs: Vec<Vec<u8>>,
    genome_of: Vec<usize>,
}

impl GenomesAndContigs {
    pub closed spec fn wf(&self) -> bool {
        &&& self.contigs@.len() == self.genome_of@.len()
        &&& forall|i: int|
            0 <= i < self.genome_of@.len() ==> #[trigger] self.genome_of@[i] < self.genomes@.len()
        &&& forall|i: int, j: int|
            0 <= i < j < self.contigs@.len() ==> (#[trigger] self.contigs@[i])@ != (
            #[trigger] self.contigs@[j])@
    }

    /// The genome names, by index.
    pub closed spec fn genome_names(&self) -> Seq<Seq<u8>> {
        self.genomes@.map_values(|v: Vec<u8>| v@)
    }

    /// The genome that contig `c` belongs to, if it was inserted.
    pub closed spec fn genome_of_contig(&self, c: Seq<u8>) -> Option<usize> {
        if exists|i: int| 0 <= i < self.contigs@.len() && (#[trigger] self.contigs@[i])@ == c {
            Some(
                self.genome_of@[choose|i: int|
                    0 <= i < self.contigs@.len() && (#[trigger] self.contigs@[i])@ == c],
            )
        } else {
            None
        }
    }

    /// The genome names, by index.
    pub fn genomes(&self) -> (r: &Vec<Vec<u8>>)
        ensures
            r@.map_values(|v: Vec<u8>| v@) == self.genome_names(),
    {
        &self.genomes
    }

    /// No genomes and no contigs.
    pub fn new() -> (r: GenomesAndContigs)
        ensures
            r.wf(),
            r.genome_names() == Seq::<Seq<u8>>::empty(),
            forall|c: Seq<u8>| r.genome_of_contig(c) is None,
    {
        let r = GenomesAndContigs { genomes: Vec::new(), contigs: Vec::new(), genome_of: Vec::new() };
        assert(r.genome_names() =~= Seq::<Seq<u8>>::empty());
        r
    }

    /// Adds a genome and returns its index.
    pub fn establish_genome(&mut self, genome_name: Vec<u8>) -> (r: usize)
        requires
            old(self).wf(),
        ensures
            final(self).wf(),
            r == old(self).genome_names().len(),
            final(self).genome_names() == old(self).genome_names().push(genome_name@),
            forall|c: Seq<u8>| final(self).genome_of_contig(c) == old(self).genome_of_contig(c),
    {
        let r = self.genomes.len();
        self.genomes.push(genome_name);
        assert(self.genome_names() =~= old(self).genome_names().push(genome_name@));
        r
    }

    fn position_of(&self, contig: &Vec<u8>) -> (r: Option<usize>)
        requires
            self.wf(),
        ensures
            r matches Some(i) ==> i < self.contigs@.len() && self.contigs@[i as int]@ == contig@,
            r is None ==> forall|i: int|
                0 <= i < self.contigs@.len() ==> (#[trigger] self.contigs@[i])@ != contig@,
    {
        let mut i: usize = 0;
        while i < self.contigs.len()
            invariant
                0 <= i <= self.contigs@.len(),
                forall|j: int| 0 <= j < i ==> (#[trigger] self.contigs@[j])@ != contig@,
            decreases self.contigs@.len() - i,
        {
            if bytes_eq(&self.contigs[i], contig) {
                return Some(i);
            }
            i = i + 1;
        }
        None
    }

    proof fn lemma_lookup(&self, i: int)
        requires
            self.wf(),
            0 <= i < self.contigs@.len(),
        ensures
            self.genome_of_contig(self.contigs@[i]@) == Some(self.genome_of@[i]),
    {
        let c = self.contigs@[i]@;
        let k = choose|k: int| 0 <= k < self.contigs@.len() && (#[trigger] self.contigs@[k])@ == c;
        if k != i {
            if k < i {
                assert(self.contigs@[k]@ != self.contigs@[i]@);
            } else {
                assert(self.contigs@[i]@ != self.contigs@[k]@);
            }
        }
    }

    /// Records that contig `contig_name` belongs to genome `genome_index`,
    /// replacing an earlier entry for the same contig.
    pub fn insert(&mut self, contig_name: Vec<u8>, genome_index: usize)
        requires
            old(self).wf(),
            genome_index < old(self).genome_names().len(),
        ensures
            final(self).wf(),
            final(self).genome_names() == old(self).genome_names(),
            forall|c: Seq<u8>|
                #[trigger] final(self).genome_of_contig(c) == if c == contig_name@ {
                    Some(genome_index)
                } else {
                    old(self).genome_of_contig(c)
                },
    {
        let ghost old_self = *self;
        match self.position_of(&contig_name) {
            Some(i) => {
                self.genome_of.set(i, genome_index);
                proof {
                    assert forall|c: Seq<u8>| #[trigger] self.genome_of_contig(c) == if c
                        == contig_name@ {
                        Some(genome_index)
                    } else {
                        old_self.genome_of_contig(c)
                    } by {
                        if c == contig_name@ {
                            self.lemma_lookup(i as int);
                        } else if exists|k: int|
                            0 <= k < self.contigs@.len() && (#[trigger] self.contigs@[k])@ == c {
                            let k = choose|k: int|
                                0 <= k < self.contigs@.len() && (#[trigger] self.contigs@[k])@ == c;
                            self.lemma_lookup(k);
                            old_self.lemma_lookup(k);
                        }
                    }
                }
            },
            None => {
                let ghost name = contig_name@;
                self.contigs.push(contig_name);
                self.genome_of.push(genome_index);
                proof {
                    let n = old_self.contigs@.len() as int;
                    assert forall|c: Seq<u8>| #[trigger] self.genome_of_contig(c) == if c == name {
                        Some(genome_index)
                    } else {
                        old_self.genome_of_contig(c)
                    } by {
                        if c == name {
                            self.lemma_lookup(n);
                        } else if exists|k: int|
                            0 <= k < self.contigs@.len() && (#[trigger] self.contigs@[k])@ == c {
                            let k = choose|k: int|
                                0 <= k < self.contigs@.len() && (#[trigger] self.contigs@[k])@ == c;
                            assert(k < n);
                            self.lemma_lookup(k);
                            old_self.lemma_lookup(k);
                        } else {
                            assert forall|k: int| 0 <= k < n implies (
                            #[trigger] old_self.contigs@[k])@ != c by {
                                assert(self.contigs@[k] == old_self.contigs@[k]);
                            }
                        }
                    }
                }
            },
        }
    }

    /// The genome of contig `contig_name`, if it was inserted.
    pub fn genome_index_of_contig(&self, contig_name: &Vec<u8>) -> (r: Option<usize>)
        requires
            self.wf(),
        ensures
            r == self.genome_of_contig(contig_name@),
            r matches Some(g) ==> g < self.genome_names().len(),
    {
        match self.position_of(contig_name) {
            Some(i) => {
                proof {
                    self.lemma_lookup(i as int);
                }
                Some(self.genome_of[i])
            },
            None => None,
        }
    }
}

/// Explicit mode: the genome of each contig of the header.
pub open spec fn mapped_entities(geco: GenomesAndContigs, names: Seq<Seq<u8>>) -> Seq<
    Option<usize>,
> {
    Seq::new(names.len(), |t: int| geco.genome_of_contig(names[t]))
}

/// Explicit mode: a genome's key is its index.
pub open spec fn genome_indices(count: nat) -> Seq<usize> {
    Seq::new(count, |g: int| g as usize)
}

/// Explicit mode: some contig of the header belongs to a genome.
pub open spec fn some_contig_grouped(header: Header, geco: GenomesAndContigs) -> bool {
    exists|t: int|
        0 <= t < header.names@.len() && (#[trigger] geco.genome_of_contig(header.names@[t]@)) is Some
}

/// The genome of each contig of the header.
fn contig_genomes(header: &Header, contigs_and_genomes: &GenomesAndContigs) -> (r: Vec<Option<usize>>)
    requires
        contigs_and_genomes.wf(),
    ensures
        r@ == mapped_entities(*contigs_and_genomes, header_names(*header)),
        forall|t: int|
            0 <= t < r@.len() && #[trigger] r@[t] is Some ==> r@[t]->0
                < contigs_and_genomes.genome_names().len(),
{
    let ghost names = header_names(*header);
    let ghost entities = mapped_entities(*contigs_and_genomes, names);
    let n = header.names.len();
    let mut entity_of: Vec<Option<usize>> = Vec::new();
    let mut t: usize = 0;
    while t < n
        invariant
            n == header.names@.len(),
            names == header_names(*header),
            entities == mapped_entities(*contigs_and_genomes, names),
            contigs_and_genomes.wf(),
            0 <= t <= n,
            entity_of@ == entities.subrange(0, t as int),
            forall|t2: int|
                0 <= t2 < t && #[trigger] entities[t2] is Some ==> entities[t2]->0
                    < contigs_and_genomes.genome_names().len(),
        decreases n - t,
    {
        let g = contigs_and_genomes.genome_index_of_contig(&header.names[t]);
        assert(names[t as int] == header.names@[t as int]@);
        entity_of.push(g);
        proof {
            assert(entity_of@ =~= entities.subrange(0, t + 1));
            assert(entities[t as int] == g);
        }
        t = t + 1;
    }
    assert(entity_of@ =~= entities);
    entity_of
}

/// Whether some contig of the header belongs to a genome of
/// `contigs_and_genomes`; explicit mode needs one.
pub fn any_contig_in_genome(header: &Header, contigs_and_genomes: &GenomesAndContigs) -> (r: bool)
    requires
        contigs_and_genomes.wf(),
    ensures
        r == some_contig_grouped(*header, *contigs_and_genomes),
{
    let entity_of = contig_genomes(header, contigs_and_genomes);
    let ghost entities = mapped_entities(*contigs_and_genomes, header_names(*header));
    let mut t: usize = 0;
    while t < entity_of.len()
        invariant
            entity_of@ == entities,
            0 <= t <= entity_of@.len(),
            entities == mapped_entities(*contigs_and_genomes, header_names(*header)),
            entities.len() == header.names@.len(),
            forall|t2: int|
                0 <= t2 < t ==> !(#[trigger] contigs_and_genomes.genome_of_contig(
                    header.names@[t2]@,
                ) is Some),
        decreases entity_of@.len() - t,
    {
        assert(header_names(*header)[t as int] == header.names@[t as int]@);
        assert(entities[t as int] == contigs_and_genomes.genome_of_contig(
            header.names@[t as int]@,
        ));
        if entity_of[t].is_some() {
            assert(entities[t as int] is Some);
            assert(header_names(*header)[t as int] == header.names@[t as int]@);
            assert(contigs_and_genomes.genome_of_contig(header.names@[t as int]@) is Some);
            return true;
        }
        t = t + 1;
    }
    false
}

/// Coverage of each genome of `contigs_and_genomes` in one sample. Contigs
/// that belong to no genome are left out, and their records are not counted
/// as mapped; at least one contig of the header must belong to a genome.
/// Every genome is finalised: one with a statistic above zero gets a row
/// even when no kept record lies on its contigs.
/// Rows come in genome index order, one per genome with a statistic above
/// zero, or per genome when `print_zero_coverage_genomes`.
pub fn mosdepth_genome_coverage_with_contig_names(
    header: &Header,
    records: &Vec<AlignmentRecord>,
    contigs_and_genomes: &GenomesAndContigs,
    print_zero_coverage_genomes: bool,
    flag_filtering: bool,
    coverage_estimators: &Vec<CoverageEstimator>,
) -> (r: Result<SampleCoverage, CoverageError>)
    requires
        header.wf(),
        contigs_and_genomes.wf(),
        estimators_wf(coverage_estimators@),
        records_on_header(header.lengths@, records@, flag_filtering),
        some_contig_grouped(*header, *contigs_and_genomes),
    ensures
        ({
            let entities = mapped_entities(*contigs_and_genomes, header_names(*header));
            &&& (r is Ok <==> records_valid(header.lengths@, records@, flag_filtering))
            &&& r matches Ok(res) ==> {
                &&& rows_match(
                    header.lengths@,
                    records@,
                    flag_filtering,
                    entities,
                    coverage_estimators@,
                    contigs_and_genomes.genome_names(),
                    genome_indices(contigs_and_genomes.genome_names().len()),
                    print_zero_coverage_genomes,
                    true,
                    res.rows@,
                    contigs_and_genomes.genome_names().len() as int,
                )
                &&& res.num_mapped_reads == kept_count(
                    records@,
                    flag_filtering,
                    entities,
                    true,
                    records@.len() as int,
                )
            }
        }),
{
    let ghost names = header_names(*header);
    let ghost entities = mapped_entities(*contigs_and_genomes, names);
    let num_genomes = contigs_and_genomes.genomes.len();
    let entity_of = contig_genomes(header, contigs_and_genomes);
    let mut indices: Vec<usize> = Vec::new();
    let mut g: usize = 0;
    while g < num_genomes
        invariant
            0 <= g <= num_genomes,
            indices@ == genome_indices(g as nat),
        decreases num_genomes - g,
    {
        indices.push(g);
        g = g + 1;
        assert(indices@ =~= genome_indices(g as nat));
    }
    entity_coverage(
        header,
        records,
        &entity_of,
        num_genomes,
        &contigs_and_genomes.genomes,
        &indices,
        coverage_estimators,
        print_zero_coverage_genomes,
        true,
        flag_filtering,
        true,
    )
}

} // verus!
