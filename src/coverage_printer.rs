use vstd::prelude::*;

use crate::aggregate::{EntityRow, SampleCoverage};
use crate::estimator::Stat;

verus! {

/// One cached row: the sample it belongs to, the entity's key and name,
/// and its values.
pub struct CachedEntry<V> {
    pub stoit_index: usize,
    pub entry_index: usize,
    pub name: Vec<u8>,
    pub coverages: Vec<V>,
}

/// A coverage sink that keeps every row, so that the whole sample by entity
/// matrix can be laid out once all samples are done.
pub struct CachedCoverageTaker<V> {
    stoit_names: Vec<Vec<u8>>,
    entries: Vec<CachedEntry<V>>,
    num_coverages: usize,
}

impl<V> CachedCoverageTaker<V> {
    /// The sample names, in the order they were started.
    pub closed spec fn stoits(&self) -> Seq<Seq<u8>> {
        self.stoit_names@.map_values(|v: Vec<u8>| v@)
    }

    /// The rows, in the order they were started.
    pub closed spec fn entries(&self) -> Seq<CachedEntry<V>> {
        self.entries@
    }

    /// Values per row.
    pub closed spec fn width(&self) -> nat {
        self.num_coverages as nat
    }

    /// Every row belongs to a started sample.
    pub open spec fn wf(&self) -> bool {
        forall|p: int|
            0 <= p < self.entries().len() ==> (#[trigger] self.entries()[p]).stoit_index
                < self.stoits().len()
    }

    /// An empty cache for rows of `num_coverages` values.
    pub fn new(num_coverages: usize) -> (r: CachedCoverageTaker<V>)
        ensures
            r.wf(),
            r.stoits() == Seq::<Seq<u8>>::empty(),
            r.entries() == Seq::<CachedEntry<V>>::empty(),
            r.width() == num_coverages,
    {
        let r = CachedCoverageTaker { stoit_names: Vec::new(), entries: Vec::new(), num_coverages };
        assert(r.stoits() =~= Seq::<Seq<u8>>::empty());
        r
    }

    /// Begins a new sample.
    pub fn start_stoit(&mut self, stoit_name: Vec<u8>)
        requires
            old(self).wf(),
        ensures
            final(self).wf(),
            final(self).stoits() == old(self).stoits().push(stoit_name@),
            final(self).entries() == old(self).entries(),
            final(self).width() == old(self).width(),
    {
        self.stoit_names.push(stoit_name);
        assert(self.stoits() =~= old(self).stoits().push(stoit_name@));
        assert(self.entries() == old(self).entries());
        assert forall|p: int| 0 <= p < self.entries().len() implies (
        #[trigger] self.entries()[p]).stoit_index < self.stoits().len() by {
            assert(old(self).entries()[p].stoit_index < old(self).stoits().len());
        }
    }

    /// Opens a row of the current sample.
    pub fn start_entry(&mut self, entry_index: usize, entry_name: Vec<u8>)
        requires
            old(self).wf(),
            old(self).stoits().len() > 0,
        ensures
            final(self).wf(),
            final(self).stoits() == old(self).stoits(),
            final(self).width() == old(self).width(),
            final(self).entries().len() == old(self).entries().len() + 1,
            forall|p: int|
                0 <= p < old(self).entries().len() ==> #[trigger] final(self).entries()[p] == old(
                    self,
                ).entries()[p],
            ({
                let e = final(self).entries().last();
                &&& e.stoit_index == old(self).stoits().len() - 1
                &&& e.entry_index == entry_index
                &&& e.name@ == entry_name@
                &&& e.coverages@ == Seq::<V>::empty()
            }),
    {
        let s = self.stoit_names.len() - 1;
        assert(self.stoits().len() == self.stoit_names@.len());
        self.entries.push(
            CachedEntry { stoit_index: s, entry_index, name: entry_name, coverages: Vec::new() },
        );
    }

    /// Adds a value to the open row.
    pub fn add_single_coverage(&mut self, coverage: V)
        requires
            old(self).wf(),
            old(self).entries().len() > 0,
        ensures
            final(self).wf(),
            final(self).stoits() == old(self).stoits(),
            final(self).width() == old(self).width(),
            final(self).entries().len() == old(self).entries().len(),
            forall|p: int|
                0 <= p < old(self).entries().len() - 1 ==> #[trigger] final(self).entries()[p]
                    == old(self).entries()[p],
            ({
                let e = final(self).entries().last();
                let o = old(self).entries().last();
                &&& e.stoit_index == o.stoit_index
                &&& e.entry_index == o.entry_index
                &&& e.name@ == o.name@
                &&& e.coverages@ == o.coverages@.push(coverage)
            }),
    {
        let last = self.entries.len() - 1;
        self.entries[last].coverages.push(coverage);
    }

    /// Closes the open row.
    pub fn finish_entry(&mut self)
        ensures
            *final(self) == *old(self),
    {
    }

    pub fn num_stoits(&self) -> (r: usize)
        ensures
            r == self.stoits().len(),
    {
        self.stoit_names.len()
    }

    pub fn num_entries(&self) -> (r: usize)
        ensures
            r == self.entries().len(),
    {
        self.entries.len()
    }

    pub fn num_coverages(&self) -> (r: usize)
        ensures
            r == self.width(),
    {
        self.num_coverages
    }

    pub fn stoit_name(&self, s: usize) -> (r: &Vec<u8>)
        requires
            s < self.stoits().len(),
        ensures
            r@ == self.stoits()[s as int],
    {
        &self.stoit_names[s]
    }

    pub fn entry(&self, p: usize) -> (r: &CachedEntry<V>)
        requires
            p < self.entries().len(),
        ensures
            *r == self.entries()[p as int],
    {
        &self.entries[p]
    }
}

/// One cell of a printed table. Names and values are referred to, not
/// copied: a cell names the sample, estimator or cached row it shows.
#[derive(Clone, Copy, Debug, PartialEq, Eq, Structural)]
pub enum Cell {
    /// The entry type given to the printer (`Contig`, `Genome`).
    EntryType,
    /// The word `Sample`.
    SampleWord,
    /// The word `unmapped`.
    UnmappedWord,
    StoitName { stoit: usize },
    EstimatorHeader { estimator: usize },
    /// `"{sample name} {estimator header}"`.
    StoitHeader { stoit: usize, estimator: usize },
    /// The name of the cached row at position `entry`.
    EntryName { entry: usize },
    /// The word `NA`.
    NotAvailable,
    /// `100 * (1 - mapped / total reads)` of the sample.
    Unmapped { stoit: usize },
    /// Value `column` of the cached row at position `entry`.
    Value { entry: usize, column: usize },
    /// Value `column` of the cached row at position `entry`, times
    /// `100 * mapped / total reads` of its sample, over the sum of that
    /// column across the sample's rows.
    Normalised { entry: usize, column: usize },
}

/// Positions below `n` of the rows of sample `s`, in order.
pub open spec fn stoit_positions<V>(entries: Seq<CachedEntry<V>>, s: int, n: int) -> Seq<usize>
    decreases n,
{
    if n <= 0 {
        Seq::empty()
    } else {
        stoit_positions(entries, s, n - 1) + (if entries[n - 1].stoit_index == s {
            seq![(n - 1) as usize]
        } else {
            Seq::empty()
        })
    }
}

/// The value cells of the row at position `p`.
pub open spec fn value_cells(p: usize, width: nat, normalise: bool, cols: Seq<usize>) -> Seq<Cell> {
    Seq::new(
        width,
        |c: int|
            if normalise && cols.contains(c as usize) {
                Cell::Normalised { entry: p, column: c as usize }
            } else {
                Cell::Value { entry: p, column: c as usize }
            },
    )
}

/// The cells of the `unmapped` row of sample `s`.
pub open spec fn unmapped_cells(s: int, width: nat, cols: Seq<usize>) -> Seq<Cell> {
    Seq::new(
        width,
        |c: int|
            if cols.contains(c as usize) {
                Cell::Unmapped { stoit: s as usize }
            } else {
                Cell::NotAvailable
            },
    )
}

/// The rows of sample `s` in the sparse layout.
pub open spec fn sparse_stoit_rows<V>(
    entries: Seq<CachedEntry<V>>,
    s: int,
    width: nat,
    normalise: bool,
    cols: Seq<usize>,
) -> Seq<Seq<Cell>> {
    (if normalise {
        seq![seq![Cell::StoitName { stoit: s as usize }, Cell::UnmappedWord] + unmapped_cells(s, width, cols)]
    } else {
        Seq::empty()
    }) + stoit_positions(entries, s, entries.len() as int).map_values(
        |p: usize|
            seq![Cell::StoitName { stoit: s as usize }, Cell::EntryName { entry: p }] + value_cells(
                p,
                width,
                normalise,
                cols,
            ),
    )
}

/// The sparse layout of the first `n` samples: each sample's `unmapped`
/// row when normalising, then one row per cached row of the sample.
pub open spec fn sparse_rows<V>(
    entries: Seq<CachedEntry<V>>,
    n: int,
    width: nat,
    normalise: bool,
    cols: Seq<usize>,
) -> Seq<Seq<Cell>>
    decreases n,
{
    if n <= 0 {
        Seq::empty()
    } else {
        sparse_rows(entries, n - 1, width, normalise, cols) + sparse_stoit_rows(
            entries,
            n - 1,
            width,
            normalise,
            cols,
        )
    }
}

/// Dense header cells of the first `n` samples.
pub open spec fn header_blocks(n: int, num_headers: nat) -> Seq<Cell>
    decreases n,
{
    if n <= 0 {
        Seq::empty()
    } else {
        header_blocks(n - 1, num_headers) + Seq::new(
            num_headers,
            |h: int| Cell::StoitHeader { stoit: (n - 1) as usize, estimator: h as usize },
        )
    }
}

/// Dense `unmapped` cells of the first `n` samples.
pub open spec fn unmapped_blocks(n: int, width: nat, cols: Seq<usize>) -> Seq<Cell>
    decreases n,
{
    if n <= 0 {
        Seq::empty()
    } else {
        unmapped_blocks(n - 1, width, cols) + unmapped_cells(n - 1, width, cols)
    }
}

/// Dense value cells of entity `i` over the first `n` samples.
pub open spec fn value_blocks(
    positions: Seq<Seq<usize>>,
    i: int,
    n: int,
    width: nat,
    normalise: bool,
    cols: Seq<usize>,
) -> Seq<Cell>
    decreases n,
{
    if n <= 0 {
        Seq::empty()
    } else {
        value_blocks(positions, i, n - 1, width, normalise, cols) + value_cells(
            positions[n - 1][i],
            width,
            normalise,
            cols,
        )
    }
}

/// The row positions of each of `n` samples.
pub open spec fn all_positions<V>(entries: Seq<CachedEntry<V>>, n: int) -> Seq<Seq<usize>> {
    Seq::new(n as nat, |s: int| stoit_positions(entries, s, entries.len() as int))
}

/// Every sample has as many rows as the first.
pub open spec fn rectangular<V>(entries: Seq<CachedEntry<V>>, n: int) -> bool {
    forall|s: int|
        0 <= s < n ==> #[trigger] stoit_positions(entries, s, entries.len() as int).len()
            == stoit_positions(entries, 0, entries.len() as int).len()
}

/// The dense row of entity `i`: its name, then its cells in each sample.
pub open spec fn entity_row(
    positions: Seq<Seq<usize>>,
    i: int,
    n: int,
    width: nat,
    normalise: bool,
    cols: Seq<usize>,
) -> Seq<Cell> {
    seq![Cell::EntryName { entry: positions[0][i] }] + value_blocks(
        positions,
        i,
        n,
        width,
        normalise,
        cols,
    )
}

/// The dense layout: a header row, the `unmapped` row when normalising,
/// then one row per entity of the first sample, with the cells of every
/// sample side by side.
pub open spec fn dense_rows<V>(
    entries: Seq<CachedEntry<V>>,
    n: int,
    num_headers: nat,
    width: nat,
    normalise: bool,
    cols: Seq<usize>,
) -> Seq<Seq<Cell>> {
    let positions = all_positions(entries, n);
    let count = if n > 0 {
        positions[0].len()
    } else {
        0
    };
    seq![seq![Cell::EntryType] + header_blocks(n, num_headers)] + (if normalise {
        seq![seq![Cell::UnmappedWord] + unmapped_blocks(n, width, cols)]
    } else {
        Seq::empty()
    }) + Seq::new(count, |i: int| entity_row(positions, i, n, width, normalise, cols))
}

proof fn lemma_map_push(rows: Seq<Vec<Cell>>, row: Vec<Cell>)
    ensures
        rows.push(row).map_values(|r: Vec<Cell>| r@) =~= rows.map_values(|r: Vec<Cell>| r@).push(
            row@,
        ),
{
}

fn contains_column(cols: &Vec<usize>, c: usize) -> (r: bool)
    ensures
        r == cols@.contains(c),
{
    let mut i: usize = 0;
    while i < cols.len()
        invariant
            0 <= i <= cols@.len(),
            forall|j: int| 0 <= j < i ==> cols@[j] != c,
        decreases cols@.len() - i,
    {
        if cols[i] == c {
            assert(cols@[i as int] == c);
            return true;
        }
        i = i + 1;
    }
    false
}

fn push_value_cells(row: &mut Vec<Cell>, p: usize, width: usize, normalise: bool, cols: &Vec<usize>)
    ensures
        final(row)@ == old(row)@ + value_cells(p, width as nat, normalise, cols@),
{
    let ghost start = row@;
    let mut c: usize = 0;
    while c < width
        invariant
            0 <= c <= width,
            row@ == start + value_cells(p, width as nat, normalise, cols@).subrange(0, c as int),
        decreases width - c,
    {
        if normalise && contains_column(cols, c) {
            row.push(Cell::Normalised { entry: p, column: c });
        } else {
            row.push(Cell::Value { entry: p, column: c });
        }
        c = c + 1;
        assert(row@ =~= start + value_cells(p, width as nat, normalise, cols@).subrange(0, c as int));
    }
    assert(value_cells(p, width as nat, normalise, cols@).subrange(0, width as int) =~= value_cells(
        p,
        width as nat,
        normalise,
        cols@,
    ));
}

fn push_unmapped_cells(row: &mut Vec<Cell>, s: usize, width: usize, cols: &Vec<usize>)
    ensures
        final(row)@ == old(row)@ + unmapped_cells(s as int, width as nat, cols@),
{
    let ghost start = row@;
    let mut c: usize = 0;
    while c < width
        invariant
            0 <= c <= width,
            row@ == start + unmapped_cells(s as int, width as nat, cols@).subrange(0, c as int),
        decreases width - c,
    {
        if contains_column(cols, c) {
            row.push(Cell::Unmapped { stoit: s });
        } else {
            row.push(Cell::NotAvailable);
        }
        c = c + 1;
        assert(row@ =~= start + unmapped_cells(s as int, width as nat, cols@).subrange(0, c as int));
    }
    assert(unmapped_cells(s as int, width as nat, cols@).subrange(0, width as int) =~= unmapped_cells(
        s as int,
        width as nat,
        cols@,
    ));
}

impl<V> CachedCoverageTaker<V> {
    /// The positions of the rows of each sample, in order.
    fn positions_by_stoit(&self) -> (r: Vec<Vec<usize>>)
        requires
            self.wf(),
        ensures
            r@.len() == self.stoits().len(),
            forall|s: int|
                0 <= s < r@.len() ==> (#[trigger] r@[s])@ == stoit_positions(
                    self.entries(),
                    s,
                    self.entries().len() as int,
                ),
    {
        let n = self.stoit_names.len();
        let mut r: Vec<Vec<usize>> = Vec::new();
        let mut s: usize = 0;
        while s < n
            invariant
                n == self.stoits().len(),
                0 <= s <= n,
                r@.len() == s,
                forall|s2: int| 0 <= s2 < s ==> (#[trigger] r@[s2])@ == Seq::<usize>::empty(),
            decreases n - s,
        {
            r.push(Vec::new());
            s = s + 1;
        }
        let mut p: usize = 0;
        while p < self.entries.len()
            invariant
                self.wf(),
                n == self.stoits().len(),
                r@.len() == n,
                0 <= p <= self.entries().len(),
                forall|s2: int|
                    0 <= s2 < n ==> (#[trigger] r@[s2])@ == stoit_positions(
                        self.entries(),
                        s2,
                        p as int,
                    ),
            decreases self.entries().len() - p,
        {
            let s = self.entries[p].stoit_index;
            assert(self.entries()[p as int].stoit_index < n);
            r[s].push(p);
            p = p + 1;
            assert forall|s2: int| 0 <= s2 < n implies (#[trigger] r@[s2])@ == stoit_positions(
                self.entries(),
                s2,
                p as int,
            ) by {}
        }
        r
    }

    /// The dense layout, or `None` when the samples do not all have as many
    /// rows as the first. With `reads_mapped`, an `unmapped` row follows the
    /// header and the columns in `columns_to_normalise` are normalised.
    pub fn dense_layout(
        &self,
        num_headers: usize,
        reads_mapped: bool,
        columns_to_normalise: &Vec<usize>,
    ) -> (r: Option<Vec<Vec<Cell>>>)
        requires
            self.wf(),
        ensures
            r is Some <==> rectangular(self.entries(), self.stoits().len() as int),
            r matches Some(rows) ==> rows@.map_values(|row: Vec<Cell>| row@) == dense_rows(
                self.entries(),
                self.stoits().len() as int,
                num_headers as nat,
                self.width(),
                reads_mapped,
                columns_to_normalise@,
            ),
    {
        let ghost entries = self.entries();
        let ghost width = self.width();
        let ghost cols = columns_to_normalise@;
        let n = self.stoit_names.len();
        let ghost pos = all_positions(entries, n as int);
        let positions = self.positions_by_stoit();
        let count: usize = if n > 0 {
            positions[0].len()
        } else {
            0
        };
        let mut s: usize = 0;
        while s < n
            invariant
                n == self.stoits().len(),
                positions@.len() == n,
                forall|s2: int| 0 <= s2 < n ==> (#[trigger] positions@[s2])@ == pos[s2],
                pos == all_positions(entries, n as int),
                entries == self.entries(),
                n > 0 ==> count == pos[0].len(),
                0 <= s <= n,
                forall|s2: int| 0 <= s2 < s ==> #[trigger] pos[s2].len() == count,
            decreases n - s,
        {
            if positions[s].len() != count {
                assert(pos[s as int].len() != pos[0].len());
                return None;
            }
            s = s + 1;
        }
        assert(rectangular(entries, n as int)) by {
            assert forall|s2: int| 0 <= s2 < n implies #[trigger] stoit_positions(
                entries,
                s2,
                entries.len() as int,
            ).len() == stoit_positions(entries, 0, entries.len() as int).len() by {
                assert(pos[s2] == stoit_positions(entries, s2, entries.len() as int));
            }
        }
        let mut rows: Vec<Vec<Cell>> = Vec::new();
        // Header row.
        let mut header: Vec<Cell> = Vec::new();
        header.push(Cell::EntryType);
        let mut s: usize = 0;
        while s < n
            invariant
                0 <= s <= n,
                header@ == seq![Cell::EntryType] + header_blocks(s as int, num_headers as nat),
            decreases n - s,
        {
            let ghost before = header@;
            let mut h: usize = 0;
            while h < num_headers
                invariant
                    0 <= h <= num_headers,
                    header@ == before + Seq::new(
                        h as nat,
                        |h2: int| Cell::StoitHeader { stoit: s, estimator: h2 as usize },
                    ),
                decreases num_headers - h,
            {
                header.push(Cell::StoitHeader { stoit: s, estimator: h });
                h = h + 1;
                assert(header@ =~= before + Seq::new(
                    h as nat,
                    |h2: int| Cell::StoitHeader { stoit: s, estimator: h2 as usize },
                ));
            }
            s = s + 1;
            assert(header@ =~= seq![Cell::EntryType] + header_blocks(s as int, num_headers as nat));
        }
        proof {
            lemma_map_push(rows@, header);
        }
        rows.push(header);
        let ghost top: Seq<Seq<Cell>> = seq![seq![Cell::EntryType] + header_blocks(n as int, num_headers as nat)];
        assert(rows@.map_values(|row: Vec<Cell>| row@) =~= top);
        let ghost top2: Seq<Seq<Cell>> = top + (if reads_mapped {
            seq![seq![Cell::UnmappedWord] + unmapped_blocks(n as int, width, cols)]
        } else {
            Seq::empty()
        });
        if reads_mapped {
            let mut row: Vec<Cell> = Vec::new();
            row.push(Cell::UnmappedWord);
            let mut s: usize = 0;
            while s < n
                invariant
                    0 <= s <= n,
                    width == self.width(),
                    cols == columns_to_normalise@,
                    row@ == seq![Cell::UnmappedWord] + unmapped_blocks(s as int, width, cols),
                decreases n - s,
            {
                push_unmapped_cells(&mut row, s, self.num_coverages, columns_to_normalise);
                s = s + 1;
                assert(row@ =~= seq![Cell::UnmappedWord] + unmapped_blocks(s as int, width, cols));
            }
            proof {
                lemma_map_push(rows@, row);
            }
            rows.push(row);
        }
        assert(rows@.map_values(|row: Vec<Cell>| row@) =~= top2);
        let mut i: usize = 0;
        while i < count
            invariant
                n == self.stoits().len(),
                positions@.len() == n,
                forall|s2: int| 0 <= s2 < n ==> (#[trigger] positions@[s2])@ == pos[s2],
                forall|s2: int| 0 <= s2 < n ==> #[trigger] pos[s2].len() == count,
                pos == all_positions(entries, n as int),
                n == 0 ==> count == 0,
                width == self.width(),
                cols == columns_to_normalise@,
                0 <= i <= count,
                rows@.map_values(|row: Vec<Cell>| row@) == top2 + Seq::new(
                    i as nat,
                    |i2: int| entity_row(pos, i2, n as int, width, reads_mapped, cols),
                ),
            decreases count - i,
        {
            let mut row: Vec<Cell> = Vec::new();
            assert(positions@[0]@ == pos[0]);
            let p0 = positions[0][i];
            row.push(Cell::EntryName { entry: p0 });
            let mut s: usize = 0;
            while s < n
                invariant
                    0 <= s <= n,
                    i < count,
                    positions@.len() == n,
                    forall|s2: int| 0 <= s2 < n ==> (#[trigger] positions@[s2])@ == pos[s2],
                    forall|s2: int| 0 <= s2 < n ==> #[trigger] pos[s2].len() == count,
                    width == self.width(),
                    cols == columns_to_normalise@,
                    row@ == seq![Cell::EntryName { entry: pos[0][i as int] }] + value_blocks(
                        pos,
                        i as int,
                        s as int,
                        width,
                        reads_mapped,
                        cols,
                    ),
                decreases n - s,
            {
                assert(pos[s as int].len() == count);
                let p = positions[s][i];
                push_value_cells(&mut row, p, self.num_coverages, reads_mapped, columns_to_normalise);
                s = s + 1;
                assert(row@ =~= seq![Cell::EntryName { entry: pos[0][i as int] }] + value_blocks(
                    pos,
                    i as int,
                    s as int,
                    width,
                    reads_mapped,
                    cols,
                ));
            }
            proof {
                lemma_map_push(rows@, row);
                assert(row@ == entity_row(pos, i as int, n as int, width, reads_mapped, cols));
            }
            rows.push(row);
            i = i + 1;
            assert(rows@.map_values(|row: Vec<Cell>| row@) =~= top2 + Seq::new(
                i as nat,
                |i2: int| entity_row(pos, i2, n as int, width, reads_mapped, cols),
            ));
        }
        proof {
            let d = dense_rows(entries, n as int, num_headers as nat, width, reads_mapped, cols);
            assert(n > 0 ==> count == pos[0].len());
            assert(d =~= top2 + Seq::new(
                count as nat,
                |i2: int| entity_row(pos, i2, n as int, width, reads_mapped, cols),
            ));
        }
        Some(rows)
    }

    /// The sparse layout. With `reads_mapped`, each sample gets an
    /// `unmapped` row and the columns in `columns_to_normalise` are
    /// normalised.
    pub fn sparse_layout(&self, reads_mapped: bool, columns_to_normalise: &Vec<usize>) -> (r: Vec<
        Vec<Cell>,
    >)
        requires
            self.wf(),
        ensures
            r@.map_values(|row: Vec<Cell>| row@) == sparse_rows(
                self.entries(),
                self.stoits().len() as int,
                self.width(),
                reads_mapped,
                columns_to_normalise@,
            ),
    {
        let ghost entries = self.entries();
        let ghost width = self.width();
        let ghost cols = columns_to_normalise@;
        let positions = self.positions_by_stoit();
        let n = self.stoit_names.len();
        let mut rows: Vec<Vec<Cell>> = Vec::new();
        let mut s: usize = 0;
        while s < n
            invariant
                n == self.stoits().len(),
                entries == self.entries(),
                width == self.width(),
                cols == columns_to_normalise@,
                positions@.len() == n,
                forall|s2: int|
                    0 <= s2 < n ==> (#[trigger] positions@[s2])@ == stoit_positions(
                        entries,
                        s2,
                        entries.len() as int,
                    ),
                0 <= s <= n,
                rows@.map_values(|row: Vec<Cell>| row@) == sparse_rows(
                    entries,
                    s as int,
                    width,
                    reads_mapped,
                    cols,
                ),
            decreases n - s,
        {
            let ghost before = rows@.map_values(|row: Vec<Cell>| row@);
            let ghost block = sparse_stoit_rows(entries, s as int, width, reads_mapped, cols);
            let ghost head: Seq<Seq<Cell>> = if reads_mapped {
                seq![seq![Cell::StoitName { stoit: s }, Cell::UnmappedWord] + unmapped_cells(s as int, width, cols)]
            } else {
                Seq::empty()
            };
            if reads_mapped {
                let mut row: Vec<Cell> = Vec::new();
                row.push(Cell::StoitName { stoit: s });
                row.push(Cell::UnmappedWord);
                assert(row@ =~= seq![Cell::StoitName { stoit: s }, Cell::UnmappedWord]);
                push_unmapped_cells(&mut row, s, self.num_coverages, columns_to_normalise);
                proof {
                    lemma_map_push(rows@, row);
                }
                rows.push(row);
            }
            assert(rows@.map_values(|row: Vec<Cell>| row@) =~= before + head);
            let ps = &positions[s];
            let mut k: usize = 0;
            while k < ps.len()
                invariant
                    ps@ == stoit_positions(entries, s as int, entries.len() as int),
                    0 <= k <= ps@.len(),
                    width == self.width(),
                    cols == columns_to_normalise@,
                    rows@.map_values(|row: Vec<Cell>| row@) == before + head + ps@.subrange(
                        0,
                        k as int,
                    ).map_values(
                        |p: usize|
                            seq![Cell::StoitName { stoit: s }, Cell::EntryName { entry: p }]
                                + value_cells(p, width, reads_mapped, cols),
                    ),
                decreases ps@.len() - k,
            {
                let p = ps[k];
                let mut row: Vec<Cell> = Vec::new();
                row.push(Cell::StoitName { stoit: s });
                row.push(Cell::EntryName { entry: p });
                assert(row@ =~= seq![Cell::StoitName { stoit: s }, Cell::EntryName { entry: p }]);
                push_value_cells(&mut row, p, self.num_coverages, reads_mapped, columns_to_normalise);
                proof {
                    lemma_map_push(rows@, row);
                    let f = |q: usize|
                        seq![Cell::StoitName { stoit: s }, Cell::EntryName { entry: q }]
                            + value_cells(q, width, reads_mapped, cols);
                    assert(ps@.subrange(0, k + 1) =~= ps@.subrange(0, k as int).push(p));
                    assert(ps@.subrange(0, k + 1).map_values(f) =~= ps@.subrange(0, k as int).map_values(
                        f,
                    ).push(f(p)));
                    assert(f(p) == seq![Cell::StoitName { stoit: s }, Cell::EntryName { entry: p }]
                        + value_cells(p, width, reads_mapped, cols));
                    assert(width == self.num_coverages as nat);
                    assert(row@ == f(p));
                }
                rows.push(row);
                k = k + 1;
                assert(rows@.map_values(|row: Vec<Cell>| row@) =~= before + head + ps@.subrange(
                    0,
                    k as int,
                ).map_values(
                    |p: usize|
                        seq![Cell::StoitName { stoit: s }, Cell::EntryName { entry: p }]
                            + value_cells(p, width, reads_mapped, cols),
                ));
            }
            assert(ps@.subrange(0, ps@.len() as int) =~= ps@);
            assert(rows@.map_values(|row: Vec<Cell>| row@) =~= before + block);
            s = s + 1;
        }
        rows
    }
}

/// Reads of one sample that mapped, and all its reads.
#[derive(Clone, Copy, Debug, PartialEq, Eq)]
pub struct ReadsMapped {
    pub num_mapped_reads: u64,
    pub num_reads: u64,
}

/// The sparse layout of a cached sink: per sample an `unmapped` row when
/// `reads_mapped_per_sample` is given, then one row per cached row.
pub fn print_sparse_cached_coverage_taker<V>(
    cached_coverage_taker: &CachedCoverageTaker<V>,
    reads_mapped_per_sample: Option<&Vec<ReadsMapped>>,
    columns_to_normalise: &Vec<usize>,
) -> (r: Vec<Vec<Cell>>)
    requires
        cached_coverage_taker.wf(),
    ensures
        r@.map_values(|row: Vec<Cell>| row@) == sparse_rows(
            cached_coverage_taker.entries(),
            cached_coverage_taker.stoits().len() as int,
            cached_coverage_taker.width(),
            reads_mapped_per_sample is Some,
            columns_to_normalise@,
        ),
{
    cached_coverage_taker.sparse_layout(reads_mapped_per_sample.is_some(), columns_to_normalise)
}

/// The dense layout of a cached sink with `estimator_headers` per sample,
/// or `None` when the samples do not all have as many rows as the first.
pub fn print_dense_cached_coverage_taker<V>(
    estimator_headers: &Vec<Vec<u8>>,
    cached_coverage_taker: &CachedCoverageTaker<V>,
    reads_mapped_per_sample: Option<&Vec<ReadsMapped>>,
    columns_to_normalise: &Vec<usize>,
) -> (r: Option<Vec<Vec<Cell>>>)
    requires
        cached_coverage_taker.wf(),
    ensures
        r is Some <==> rectangular(
            cached_coverage_taker.entries(),
            cached_coverage_taker.stoits().len() as int,
        ),
        r matches Some(rows) ==> rows@.map_values(|row: Vec<Cell>| row@) == dense_rows(
            cached_coverage_taker.entries(),
            cached_coverage_taker.stoits().len() as int,
            estimator_headers@.len(),
            cached_coverage_taker.width(),
            reads_mapped_per_sample is Some,
            columns_to_normalise@,
        ),
{
    cached_coverage_taker.dense_layout(
        estimator_headers.len(),
        reads_mapped_per_sample.is_some(),
        columns_to_normalise,
    )
}

/// How the rows of all samples are printed.
pub enum CoveragePrinter {
    /// Rows are printed as they are computed.
    StreamedCoveragePrinter,
    /// Rows are cached, then printed one per sample and entity.
    SparseCachedCoveragePrinter,
    /// Rows are cached, then printed one per entity with every sample's
    /// values side by side.
    DenseCachedCoveragePrinter {
        entry_type: Option<Vec<u8>>,
        estimator_headers: Option<Vec<Vec<u8>>>,
    },
}

/// The header row of the streamed and sparse layouts: `Sample`, the entry
/// type, then each estimator header.
pub open spec fn plain_header(num_headers: nat) -> Seq<Cell> {
    seq![Cell::SampleWord, Cell::EntryType] + Seq::new(
        num_headers,
        |h: int| Cell::EstimatorHeader { estimator: h as usize },
    )
}

impl CoveragePrinter {
    /// The header row to print now, for the streamed and sparse printers.
    /// The dense printer keeps the entry type and headers for its own
    /// header row and returns `None`.
    pub fn print_headers(&mut self, entry_type_str: Vec<u8>, estimator_headers_vec: Vec<Vec<u8>>) -> (r:
        Option<Vec<Cell>>)
        ensures
            match *old(self) {
                CoveragePrinter::DenseCachedCoveragePrinter { .. } => {
                    &&& r is None
                    &&& *final(self) matches CoveragePrinter::DenseCachedCoveragePrinter {
                        entry_type: Some(e),
                        estimator_headers: Some(h),
                    }
                    &&& e@ == entry_type_str@
                    &&& h@ == estimator_headers_vec@
                },
                _ => {
                    &&& *final(self) == *old(self)
                    &&& r matches Some(row) && row@ == plain_header(estimator_headers_vec@.len())
                },
            },
    {
        match self {
            CoveragePrinter::DenseCachedCoveragePrinter { entry_type, estimator_headers } => {
                *entry_type = Some(entry_type_str);
                *estimator_headers = Some(estimator_headers_vec);
                None
            },
            _ => {
                let mut row: Vec<Cell> = Vec::new();
                row.push(Cell::SampleWord);
                row.push(Cell::EntryType);
                let n = estimator_headers_vec.len();
                let mut h: usize = 0;
                while h < n
                    invariant
                        0 <= h <= n,
                        row@ == seq![Cell::SampleWord, Cell::EntryType] + Seq::new(
                            h as nat,
                            |h2: int| Cell::EstimatorHeader { estimator: h2 as usize },
                        ),
                    decreases n - h,
                {
                    row.push(Cell::EstimatorHeader { estimator: h });
                    h = h + 1;
                    assert(row@ =~= seq![Cell::SampleWord, Cell::EntryType] + Seq::new(
                        h as nat,
                        |h2: int| Cell::EstimatorHeader { estimator: h2 as usize },
                    ));
                }
                Some(row)
            },
        }
    }

    /// The printer can lay out its rows: a dense printer has been given its
    /// entry type and headers.
    pub open spec fn ready(&self) -> bool {
        match *self {
            CoveragePrinter::DenseCachedCoveragePrinter { entry_type, estimator_headers } => {
                entry_type is Some && estimator_headers is Some
            },
            _ => true,
        }
    }

    /// Whether `print_headers` has given a dense printer what it needs.
    pub fn is_ready(&self) -> (r: bool)
        ensures
            r == self.ready(),
    {
        match self {
            CoveragePrinter::DenseCachedCoveragePrinter { entry_type, estimator_headers } => {
                entry_type.is_some() && estimator_headers.is_some()
            },
            _ => true,
        }
    }

    /// The rows left to print once all samples are done: none for the
    /// streamed printer, the sparse or dense layout for the cached ones.
    /// `None` when the dense printer's samples do not all have as many rows
    /// as the first.
    pub fn finalise_printing<V>(
        &self,
        cached_coverage_taker: &CachedCoverageTaker<V>,
        reads_mapped_per_sample: Option<&Vec<ReadsMapped>>,
        columns_to_normalise: &Vec<usize>,
    ) -> (r: Option<Vec<Vec<Cell>>>)
        requires
            cached_coverage_taker.wf(),
            self.ready(),
        ensures
            match *self {
                CoveragePrinter::StreamedCoveragePrinter => r matches Some(rows) && rows@.len() == 0,
                CoveragePrinter::SparseCachedCoveragePrinter => r matches Some(rows)
                    && rows@.map_values(|row: Vec<Cell>| row@) == sparse_rows(
                    cached_coverage_taker.entries(),
                    cached_coverage_taker.stoits().len() as int,
                    cached_coverage_taker.width(),
                    reads_mapped_per_sample is Some,
                    columns_to_normalise@,
                ),
                CoveragePrinter::DenseCachedCoveragePrinter { entry_type, estimator_headers } => {
                    &&& (r is Some <==> rectangular(
                        cached_coverage_taker.entries(),
                        cached_coverage_taker.stoits().len() as int,
                    ))
                    &&& r matches Some(rows) ==> rows@.map_values(|row: Vec<Cell>| row@)
                        == dense_rows(
                        cached_coverage_taker.entries(),
                        cached_coverage_taker.stoits().len() as int,
                        estimator_headers->0@.len(),
                        cached_coverage_taker.width(),
                        reads_mapped_per_sample is Some,
                        columns_to_normalise@,
                    )
                },
            },
    {
        match self {
            CoveragePrinter::StreamedCoveragePrinter => Some(Vec::new()),
            CoveragePrinter::SparseCachedCoveragePrinter => Some(
                print_sparse_cached_coverage_taker(
                    cached_coverage_taker,
                    reads_mapped_per_sample,
                    columns_to_normalise,
                ),
            ),
            CoveragePrinter::DenseCachedCoveragePrinter { entry_type, estimator_headers } => {
                let h = estimator_headers.as_ref().unwrap();
                print_dense_cached_coverage_taker(
                    h,
                    cached_coverage_taker,
                    reads_mapped_per_sample,
                    columns_to_normalise,
                )
            },
        }
    }
}

/// The items of `v` in reverse order.
fn reversed<T>(v: Vec<T>) -> (r: Vec<T>)
    ensures
        r@.len() == v@.len(),
        forall|i: int| 0 <= i < v@.len() ==> #[trigger] r@[i] == v@[v@.len() - 1 - i],
{
    let ghost v0 = v@;
    let mut v = v;
    let mut r: Vec<T> = Vec::new();
    while v.len() > 0
        invariant
            v@ == v0.subrange(0, v@.len() as int),
            v@.len() <= v0.len(),
            r@.len() == v0.len() - v@.len(),
            forall|i: int| 0 <= i < r@.len() ==> #[trigger] r@[i] == v0[v0.len() - 1 - i],
        decreases v@.len(),
    {
        let ghost before = v@;
        match v.pop() {
            Some(x) => {
                r.push(x);
                assert(v@ =~= v0.subrange(0, v@.len() as int));
            },
            None => {},
        }
    }
    r
}

/// Caches the rows of one sample under the name `stoit_name`, in order.
pub fn cache_sample(
    taker: &mut CachedCoverageTaker<Stat>,
    stoit_name: Vec<u8>,
    coverage: SampleCoverage,
)
    requires
        old(taker).wf(),
    ensures
        final(taker).wf(),
        final(taker).stoits() == old(taker).stoits().push(stoit_name@),
        final(taker).width() == old(taker).width(),
        final(taker).entries().len() == old(taker).entries().len() + coverage.rows@.len(),
        forall|p: int|
            0 <= p < old(taker).entries().len() ==> #[trigger] final(taker).entries()[p] == old(
                taker,
            ).entries()[p],
        forall|i: int|
            0 <= i < coverage.rows@.len() ==> {
                let e = #[trigger] final(taker).entries()[old(taker).entries().len() + i];
                let row = coverage.rows@[i];
                &&& e.stoit_index == old(taker).stoits().len()
                &&& e.entry_index == row.entry_index
                &&& e.name@ == row.name@
                &&& e.coverages@ == row.values@
            },
{
    let ghost rows0 = coverage.rows@;
    let ghost base = taker.entries().len();
    let ghost s = taker.stoits().len();
    taker.start_stoit(stoit_name);
    let mut rev = reversed(coverage.rows);
    let n = rev.len();
    let mut k: usize = 0;
    while k < n
        invariant
            taker.wf(),
            taker.stoits() == old(taker).stoits().push(stoit_name@),
            taker.width() == old(taker).width(),
            s == old(taker).stoits().len(),
            base == old(taker).entries().len(),
            n == rows0.len(),
            0 <= k <= n,
            rev@.len() == n - k,
            forall|i: int| 0 <= i < n - k ==> #[trigger] rev@[i] == rows0[n - 1 - i],
            taker.entries().len() == base + k,
            forall|p: int|
                0 <= p < base ==> #[trigger] taker.entries()[p] == old(taker).entries()[p],
            forall|i: int|
                0 <= i < k ==> {
                    let e = #[trigger] taker.entries()[base + i];
                    let row = rows0[i];
                    &&& e.stoit_index == s
                    &&& e.entry_index == row.entry_index
                    &&& e.name@ == row.name@
                    &&& e.coverages@ == row.values@
                },
        decreases n - k,
    {
        assert(rev@.len() > 0);
        let row = rev.pop().unwrap();
        assert(row == rows0[k as int]);
        let ghost vals = row.values@;
        taker.start_entry(row.entry_index, row.name);
        let mut vrev = reversed(row.values);
        let m = vrev.len();
        let mut j: usize = 0;
        while j < m
            invariant
                taker.wf(),
                taker.stoits() == old(taker).stoits().push(stoit_name@),
                taker.width() == old(taker).width(),
                s == old(taker).stoits().len(),
                taker.entries().len() == base + k + 1,
                m == vals.len(),
                0 <= j <= m,
                vrev@.len() == m - j,
                forall|i: int| 0 <= i < m - j ==> #[trigger] vrev@[i] == vals[m - 1 - i],
                forall|p: int|
                    0 <= p < base ==> #[trigger] taker.entries()[p] == old(taker).entries()[p],
                forall|i: int|
                    0 <= i < k ==> {
                        let e = #[trigger] taker.entries()[base + i];
                        let row = rows0[i];
                        &&& e.stoit_index == s
                        &&& e.entry_index == row.entry_index
                        &&& e.name@ == row.name@
                        &&& e.coverages@ == row.values@
                    },
                ({
                    let e = taker.entries()[base + k];
                    &&& e.stoit_index == s
                    &&& e.entry_index == rows0[k as int].entry_index
                    &&& e.name@ == rows0[k as int].name@
                    &&& e.coverages@ == vals.subrange(0, j as int)
                }),
            decreases m - j,
        {
            assert(vrev@.len() > 0);
            let v = vrev.pop().unwrap();
            taker.add_single_coverage(v);
            j = j + 1;
            assert(taker.entries()[base + k].coverages@ =~= vals.subrange(0, j as int));
        }
        assert(vals.subrange(0, m as int) =~= vals);
        taker.finish_entry();
        k = k + 1;
    }
}

/// Positions of the rows of sample 0 when every row belongs to it.
proof fn lemma_single_stoit_positions<V>(entries: Seq<CachedEntry<V>>, n: int)
    requires
        0 <= n <= entries.len(),
        forall|p: int| 0 <= p < entries.len() ==> (#[trigger] entries[p]).stoit_index == 0,
    ensures
        stoit_positions(entries, 0, n) =~= Seq::new(n as nat, |i: int| i as usize),
    decreases n,
{
    if n > 0 {
        lemma_single_stoit_positions(entries, n - 1);
    }
}

/// Streaming and caching agree: once one sample's rows are cached, with no
/// normalisation the dense layout is the header row, then for each row `i`
/// of the sample its name followed by its values in order, as a streamed
/// row shows them after the sample name.
pub proof fn lemma_dense_matches_stream(
    entries: Seq<CachedEntry<Stat>>,
    rows: Seq<EntityRow>,
    num_headers: nat,
    width: nat,
    cols: Seq<usize>,
)
    requires
        entries.len() == rows.len(),
        rows.len() <= usize::MAX,
        forall|i: int|
            0 <= i < rows.len() ==> {
                let e = #[trigger] entries[i];
                &&& e.stoit_index == 0
                &&& e.name@ == rows[i].name@
                &&& e.coverages@ == rows[i].values@
            },
    ensures
        dense_rows(entries, 1, num_headers, width, false, cols) == seq![
            seq![Cell::EntryType] + header_blocks(1, num_headers),
        ] + Seq::new(
            rows.len(),
            |i: int|
                seq![Cell::EntryName { entry: i as usize }] + Seq::new(
                    width,
                    |c: int| Cell::Value { entry: i as usize, column: c as usize },
                ),
        ),
        forall|i: int|
            0 <= i < rows.len() ==> entries[i].name@ == rows[i].name@ && entries[i].coverages@
                == rows[i].values@,
{
    assert forall|p: int| 0 <= p < entries.len() implies (#[trigger] entries[p]).stoit_index == 0 by {
        assert(entries[p].stoit_index == 0);
    }
    lemma_single_stoit_positions(entries, entries.len() as int);
    let pos = all_positions(entries, 1);
    assert(pos[0] =~= Seq::new(entries.len(), |i: int| i as usize));
    let lhs = dense_rows(entries, 1, num_headers, width, false, cols);
    let rhs = seq![seq![Cell::EntryType] + header_blocks(1, num_headers)] + Seq::new(
        rows.len(),
        |i: int|
            seq![Cell::EntryName { entry: i as usize }] + Seq::new(
                width,
                |c: int| Cell::Value { entry: i as usize, column: c as usize },
            ),
    );
    assert forall|i: int| 0 <= i < rows.len() implies entity_row(pos, i, 1, width, false, cols)
        == seq![Cell::EntryName { entry: i as usize }] + Seq::new(
        width,
        |c: int| Cell::Value { entry: i as usize, column: c as usize },
    ) by {
        assert(pos[0][i] == i as usize);
        assert(value_blocks(pos, i, 0, width, false, cols) =~= Seq::<Cell>::empty());
        assert(value_blocks(pos, i, 1, width, false, cols) == value_blocks(pos, i, 0, width, false, cols)
            + value_cells(pos[0][i], width, false, cols));
        assert(value_blocks(pos, i, 1, width, false, cols) =~= Seq::new(
            width,
            |c: int| Cell::Value { entry: i as usize, column: c as usize },
        ));
    }
    assert(lhs =~= rhs);
}

} // verus!
