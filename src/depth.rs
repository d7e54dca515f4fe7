use vstd::prelude::*;

verus! {

/// One operation of a CIGAR string with its length.
#[derive(Clone, Copy, Debug, PartialEq, Eq)]
pub enum CigarOp {
    Match(u32),
    Ins(u32),
    Del(u32),
    RefSkip(u32),
    SoftClip(u32),
    HardClip(u32),
    Pad(u32),
    Equal(u32),
    Diff(u32),
}

/// Bound on the number of aligned blocks one signal accepts: no depth of a
/// contig exceeds it, and it is the largest depth an `i32` holds.
pub const MAX_BLOCKS: u64 = 0x7fff_ffff;

/// Reference bases that an operation aligns a query base to (`M`, `=`, `X`).
pub open spec fn aligned_len(op: CigarOp) -> nat {
    match op {
        CigarOp::Match(l) => l as nat,
        CigarOp::Equal(l) => l as nat,
        CigarOp::Diff(l) => l as nat,
        _ => 0,
    }
}

/// Reference bases that an operation moves over (`M`, `=`, `X`, `D`, `N`).
pub open spec fn ref_len(op: CigarOp) -> nat {
    match op {
        CigarOp::Match(l) => l as nat,
        CigarOp::Equal(l) => l as nat,
        CigarOp::Diff(l) => l as nat,
        CigarOp::Del(l) => l as nat,
        CigarOp::RefSkip(l) => l as nat,
        _ => 0,
    }
}

/// Reference position at which operation `k` of a read starting at `pos` begins.
pub open spec fn cursor_at(pos: int, cigar: Seq<CigarOp>, k: int) -> int
    decreases k,
{
    if k <= 0 {
        pos
    } else {
        cursor_at(pos, cigar, k - 1) + ref_len(cigar[k - 1])
    }
}

/// 1 where the interval `[start, start + len)` holds `p`, else 0.
pub open spec fn covers(start: int, len: int, p: int) -> nat {
    if start <= p && p < start + len {
        1
    } else {
        0
    }
}

/// Depth that the first `k` operations of a read add at position `p`.
pub open spec fn read_depth_upto(pos: int, cigar: Seq<CigarOp>, k: int, p: int) -> nat
    decreases k,
{
    if k <= 0 {
        0
    } else {
        read_depth_upto(pos, cigar, k - 1, p) + covers(
            cursor_at(pos, cigar, k - 1),
            aligned_len(cigar[k - 1]) as int,
            p,
        )
    }
}

/// Depth that a whole read adds at position `p`.
pub open spec fn read_depth(pos: int, cigar: Seq<CigarOp>, p: int) -> nat {
    read_depth_upto(pos, cigar, cigar.len() as int, p)
}

/// Sum of the first `k` entries of a difference array.
pub open spec fn prefix_sum(s: Seq<i64>, k: int) -> int
    decreases k,
{
    if k <= 0 {
        0
    } else {
        prefix_sum(s, k - 1) + s[k - 1]
    }
}

proof fn lemma_prefix_sum_update(s: Seq<i64>, i: int, v: i64, k: int)
    requires
        0 <= i < s.len(),
        0 <= k <= s.len(),
    ensures
        prefix_sum(s.update(i, v), k) == prefix_sum(s, k) + (if i < k {
            v - s[i]
        } else {
            0
        }),
    decreases k,
{
    if k > 0 {
        lemma_prefix_sum_update(s, i, v, k - 1);
    }
}

proof fn lemma_cursor_monotone(pos: int, cigar: Seq<CigarOp>, k: int, j: int)
    requires
        0 <= k <= j,
    ensures
        cursor_at(pos, cigar, k) <= cursor_at(pos, cigar, j),
    decreases j,
{
    if j > k {
        lemma_cursor_monotone(pos, cigar, k, j - 1);
    }
}

proof fn lemma_depth_past_end(pos: int, cigar: Seq<CigarOp>, k: int, j: int, p: int)
    requires
        0 <= k <= j,
        p < cursor_at(pos, cigar, k),
    ensures
        read_depth_upto(pos, cigar, j, p) == read_depth_upto(pos, cigar, k, p),
    decreases j,
{
    if j > k {
        lemma_depth_past_end(pos, cigar, k, j - 1, p);
        lemma_cursor_monotone(pos, cigar, k, j - 1);
    }
}

/// How much of `[start, start + len)` lies in `[0, limit)`, for `start >= 0`.
pub open spec fn clipped(start: int, len: int, limit: int) -> int {
    let end = if start + len < limit {
        start + len
    } else {
        limit
    };
    if end > start {
        end - start
    } else {
        0
    }
}

/// Aligned length of the first `k` operations of a read, clipped to
/// `[0, limit)`.
pub open spec fn read_clipped_upto(pos: int, cigar: Seq<CigarOp>, k: int, limit: int) -> int
    decreases k,
{
    if k <= 0 {
        0
    } else {
        read_clipped_upto(pos, cigar, k - 1, limit) + clipped(
            cursor_at(pos, cigar, k - 1),
            aligned_len(cigar[k - 1]) as int,
            limit,
        )
    }
}

/// Aligned length of a read, clipped to `[0, limit)`.
pub open spec fn read_clipped(pos: int, cigar: Seq<CigarOp>, limit: int) -> int {
    read_clipped_upto(pos, cigar, cigar.len() as int, limit)
}

/// Sum of `covers(start, len, p)` over `p < n`.
pub open spec fn covers_sum(start: int, len: int, n: int) -> int
    decreases n,
{
    if n <= 0 {
        0
    } else {
        covers_sum(start, len, n - 1) + covers(start, len, n - 1)
    }
}

/// Sum over `p < n` of the depth that the first `k` operations of a read add.
pub open spec fn read_depth_sum(pos: int, cigar: Seq<CigarOp>, k: int, n: int) -> int
    decreases n,
{
    if n <= 0 {
        0
    } else {
        read_depth_sum(pos, cigar, k, n - 1) + read_depth_upto(pos, cigar, k, n - 1)
    }
}

proof fn lemma_covers_sum(start: int, len: int, n: int)
    requires
        start >= 0,
        len >= 0,
        n >= 0,
    ensures
        covers_sum(start, len, n) == clipped(start, len, n),
    decreases n,
{
    if n > 0 {
        lemma_covers_sum(start, len, n - 1);
    }
}

proof fn lemma_read_depth_sum_step(pos: int, cigar: Seq<CigarOp>, k: int, n: int)
    requires
        k > 0,
        n >= 0,
    ensures
        read_depth_sum(pos, cigar, k, n) == read_depth_sum(pos, cigar, k - 1, n) + covers_sum(
            cursor_at(pos, cigar, k - 1),
            aligned_len(cigar[k - 1]) as int,
            n,
        ),
    decreases n,
{
    if n > 0 {
        lemma_read_depth_sum_step(pos, cigar, k, n - 1);
    }
}

proof fn lemma_read_depth_sum_zero(pos: int, cigar: Seq<CigarOp>, n: int)
    requires
        n >= 0,
    ensures
        read_depth_sum(pos, cigar, 0, n) == 0,
    decreases n,
{
    if n > 0 {
        lemma_read_depth_sum_zero(pos, cigar, n - 1);
    }
}

/// Over the positions of a contig of length `limit`, the depth that a read
/// adds sums to its aligned length (`M`, `=`, `X`) clipped to the contig.
pub proof fn lemma_read_total(pos: int, cigar: Seq<CigarOp>, k: int, limit: int)
    requires
        pos >= 0,
        0 <= k <= cigar.len(),
        limit >= 0,
    ensures
        read_depth_sum(pos, cigar, k, limit) == read_clipped_upto(pos, cigar, k, limit),
    decreases k,
{
    if k > 0 {
        lemma_read_total(pos, cigar, k - 1, limit);
        lemma_read_depth_sum_step(pos, cigar, k, limit);
        lemma_cursor_monotone(pos, cigar, 0, k - 1);
        lemma_covers_sum(cursor_at(pos, cigar, k - 1), aligned_len(cigar[k - 1]) as int, limit);
    } else {
        lemma_read_depth_sum_zero(pos, cigar, limit);
    }
}

/// Per-contig difference array: position `p` has depth
/// `signal[0] + ... + signal[p]`.
pub struct DepthSignal {
    signal: Vec<i64>,
    blocks: u64,
}

impl View for DepthSignal {
    type V = Seq<int>;

    /// The depth at each position of the contig.
    closed spec fn view(&self) -> Seq<int> {
        Seq::new(self.signal@.len(), |p: int| prefix_sum(self.signal@, p + 1))
    }
}

impl DepthSignal {
    pub closed spec fn wf(&self) -> bool {
        &&& self.signal@.len() <= u32::MAX
        &&& self.blocks <= MAX_BLOCKS
        &&& forall|i: int|
            0 <= i < self.signal@.len() ==> -(self.blocks as int) <= #[trigger] self.signal@[i]
                <= self.blocks
        &&& forall|p: int|
            0 <= p < self.signal@.len() ==> 0 <= #[trigger] prefix_sum(self.signal@, p + 1)
                <= self.blocks
    }

    /// The signed difference array.
    pub closed spec fn differences(&self) -> Seq<i64> {
        self.signal@
    }

    /// Number of aligned blocks folded in so far.
    pub closed spec fn num_blocks(&self) -> nat {
        self.blocks as nat
    }

    /// A signal of `length` positions, all of depth 0.
    pub fn new(length: u32) -> (r: DepthSignal)
        ensures
            r.wf(),
            r@ == Seq::new(length as nat, |p: int| 0int),
            r.num_blocks() == 0,
    {
        let signal: Vec<i64> = vec![0i64; length as usize];
        let r = DepthSignal { signal, blocks: 0 };
        assert forall|p: int| 0 <= p < r.signal@.len() implies #[trigger] prefix_sum(
            r.signal@,
            p + 1,
        ) == 0 by {
            lemma_prefix_zero(r.signal@, p + 1);
        }
        assert(r@ =~= Seq::new(length as nat, |p: int| 0int));
        r
    }

    pub fn len(&self) -> (r: usize)
        requires
            self.wf(),
        ensures
            r == self@.len(),
    {
        self.signal.len()
    }

    /// Adds one `+1` at index `start` and, when `end` lies inside the
    /// contig, one `-1` at `end`.
    fn add_block(&mut self, start: usize, end: u64)
        requires
            old(self).wf(),
            start < old(self)@.len(),
            start <= end,
            old(self).blocks < MAX_BLOCKS,
        ensures
            final(self).wf(),
            final(self).blocks == old(self).blocks + 1,
            final(self)@.len() == old(self)@.len(),
            forall|p: int|
                0 <= p < old(self)@.len() ==> #[trigger] final(self)@[p] == old(self)@[p] + covers(
                    start as int,
                    end - start,
                    p,
                ),
    {
        let ghost s0 = self.signal@;
        let len = self.signal.len();
        self.blocks = self.blocks + 1;
        let v = self.signal[start];
        self.signal.set(start, v + 1);
        let ghost s1 = self.signal@;
        assert forall|k: int| 0 <= k <= len implies prefix_sum(s1, k) == prefix_sum(s0, k) + (
        if start < k {
            1int
        } else {
            0
        }) by {
            lemma_prefix_sum_update(s0, start as int, (v + 1) as i64, k);
        }
        if end < len as u64 {
            let e = end as usize;
            let w = self.signal[e];
            self.signal.set(e, w - 1);
            let ghost s2 = self.signal@;
            assert forall|k: int| 0 <= k <= len implies prefix_sum(s2, k) == prefix_sum(s1, k) + (
            if e < k {
                -1int
            } else {
                0
            }) by {
                lemma_prefix_sum_update(s1, e as int, (w - 1) as i64, k);
            }
        }
    }

    /// Folds one read in: for each `M`, `=` or `X` operation the depth rises
    /// by one over the bases it aligns, clipped to the contig.
    pub fn apply_read(&mut self, pos: u32, cigar: &Vec<CigarOp>)
        requires
            old(self).wf(),
            old(self).num_blocks() + cigar@.len() <= MAX_BLOCKS,
        ensures
            final(self).wf(),
            final(self).num_blocks() == old(self).num_blocks() + cigar@.len(),
            final(self)@.len() == old(self)@.len(),
            forall|p: int|
                0 <= p < old(self)@.len() ==> #[trigger] final(self)@[p] == old(self)@[p]
                    + read_depth(pos as int, cigar@, p),
    {
        let ghost d0 = self@;
        let target: u64 = self.blocks + cigar.len() as u64;
        let len = self.signal.len();
        let mut cursor: u64 = pos as u64;
        let mut k: usize = 0;
        while k < cigar.len()
            invariant
                self.wf(),
                self@.len() == len,
                len == d0.len(),
                d0.len() <= u32::MAX,
                0 <= k <= cigar@.len(),
                target == old(self).num_blocks() + cigar@.len(),
                target <= MAX_BLOCKS,
                self.blocks + (cigar@.len() - k) <= target,
                old(self).num_blocks() <= self.blocks,
                cursor == cursor_at(pos as int, cigar@, k as int),
                cursor <= 2 * (u32::MAX as u64),
                forall|p: int|
                    0 <= p < len ==> #[trigger] self@[p] == d0[p] + read_depth_upto(
                        pos as int,
                        cigar@,
                        k as int,
                        p,
                    ),
            ensures
                k == cigar@.len() || cursor >= len,
            decreases cigar@.len() - k,
        {
            if cursor >= len as u64 {
                break;
            }
            let op = cigar[k];
            match op {
                CigarOp::Match(l) | CigarOp::Equal(l) | CigarOp::Diff(l) => {
                    let end: u64 = cursor + l as u64;
                    self.add_block(cursor as usize, end);
                    cursor = end;
                },
                CigarOp::Del(l) | CigarOp::RefSkip(l) => {
                    cursor = cursor + l as u64;
                },
                _ => {},
            }
            k = k + 1;
        }
        proof {
            assert forall|p: int| 0 <= p < len implies #[trigger] self@[p] == d0[p] + read_depth(
                pos as int,
                cigar@,
                p,
            ) by {
                if k < cigar@.len() {
                    lemma_depth_past_end(pos as int, cigar@, k as int, cigar@.len() as int, p);
                }
            }
        }
        self.blocks = target;
    }

    /// The depth at every position, computed as one running sum.
    pub fn depths(&self) -> (r: Vec<u64>)
        requires
            self.wf(),
        ensures
            r@.len() == self@.len(),
            forall|p: int| 0 <= p < r@.len() ==> #[trigger] r@[p] == self@[p],
            forall|p: int| 0 <= p < r@.len() ==> #[trigger] r@[p] <= MAX_BLOCKS,
            r@.len() <= u32::MAX,
    {
        let mut r: Vec<u64> = Vec::new();
        let mut acc: i64 = 0;
        let mut i: usize = 0;
        while i < self.signal.len()
            invariant
                self.wf(),
                0 <= i <= self.signal@.len(),
                r@.len() == i,
                acc == prefix_sum(self.signal@, i as int),
                0 <= acc <= self.blocks,
                forall|p: int| 0 <= p < i ==> #[trigger] r@[p] == self@[p],
                forall|p: int| 0 <= p < i ==> #[trigger] r@[p] <= MAX_BLOCKS,
            decreases self.signal@.len() - i,
        {
            assert(0 <= prefix_sum(self.signal@, i + 1) <= self.blocks);
            acc = acc + self.signal[i];
            r.push(acc as u64);
            i = i + 1;
        }
        r
    }
}

/// The depth at every position of a signal, the running sum of its
/// difference array, is never negative.
pub proof fn lemma_depth_non_negative(d: &DepthSignal, p: int)
    requires
        d.wf(),
        0 <= p < d@.len(),
    ensures
        d@[p] == prefix_sum(d.differences(), p + 1),
        prefix_sum(d.differences(), p + 1) >= 0,
{
}

proof fn lemma_prefix_zero(s: Seq<i64>, k: int)
    requires
        0 <= k <= s.len(),
        forall|i: int| 0 <= i < s.len() ==> s[i] == 0,
    ensures
        prefix_sum(s, k) == 0,
    decreases k,
{
    if k > 0 {
        lemma_prefix_zero(s, k - 1);
    }
}

} // verus!
