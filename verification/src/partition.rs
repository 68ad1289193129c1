//! One date partition, held in memory: its row columns, the parted index,
//! and the first/last-value sidecars, with the invariants that make as-of
//! lookups correct.
//!
//! Rows are sorted by `(symbol, timestamp)`; the parted index lists each
//! distinct symbol's contiguous row range; the sidecars record the first and
//! last row of every symbol; and every row's timestamp falls on the
//! partition's own UTC day.

use vstd::prelude::*;

use crate::dates::{day_of, ts_supported, MAX_DAY};
use crate::error::ZolaError;
use crate::format::{PartedEntry, SidecarEntry};

verus! {

/// Row `r1` may precede row `r2` in a partition: symbols ascend, and
/// timestamps ascend within a symbol.
pub open spec fn row_le(s1: i64, t1: i64, s2: i64, t2: i64) -> bool {
    s1 < s2 || (s1 == s2 && t1 <= t2)
}

/// The parted index `p` describes the symbol runs of `syms`: strictly
/// ascending symbols, contiguous half-open ranges covering `[0, len)`,
/// each range holding exactly its symbol's rows.
pub open spec fn parted_matches(p: Seq<PartedEntry>, syms: Seq<i64>) -> bool {
    let n = syms.len() as int;
    &&& (n == 0 ==> p.len() == 0)
    &&& (n > 0 ==> p.len() > 0 && p[0].start == 0 && p.last().end == n)
    &&& forall|k: int| 0 <= k < p.len() ==> (#[trigger] p[k]).start < p[k].end <= n
    &&& forall|k: int| 0 <= k < p.len() - 1 ==> (#[trigger] p[k]).end == p[k + 1].start
    &&& forall|k1: int, k2: int|
        0 <= k1 < k2 < p.len() ==> (#[trigger] p[k1]).symbol_id < (#[trigger] p[k2]).symbol_id
    &&& forall|k: int, i: int|
        0 <= k < p.len() && p[k].start <= i < p[k].end ==> syms[i] == (#[trigger] p[k]).symbol_id
            && (#[trigger] syms[i]) == p[k].symbol_id
}

impl Partition {
    /// The number of rows.
    pub open spec fn n_rows(self) -> int {
        self.timestamps@.len() as int
    }

    /// The value words of row `i`, one per value column.
    pub open spec fn row_vals(self, i: int) -> Seq<u64> {
        Seq::new(self.columns@.len(), |c: int| self.columns@[c]@[i])
    }

    /// Columns are aligned: symbols and every value column have one entry per
    /// row.
    pub open spec fn cols_wf(self) -> bool {
        &&& self.symbols@.len() == self.n_rows()
        &&& forall|c: int|
            0 <= c < self.columns@.len() ==> (#[trigger] self.columns@[c])@.len() == self.n_rows()
    }

    /// Rows are sorted by `(symbol, timestamp)`, adjacent pair by adjacent
    /// pair.
    pub open spec fn rows_sorted(self) -> bool {
        forall|i: int|
            0 <= i < self.n_rows() - 1 ==> row_le(
                #[trigger] self.symbols@[i],
                self.timestamps@[i],
                self.symbols@[i + 1],
                self.timestamps@[i + 1],
            )
    }

    /// A sidecar matches the rows: one entry per parted run, carrying the
    /// run's last row (`pick_last`) or first row.
    pub open spec fn sidecar_matches(self, entries: Seq<SidecarEntry>, pick_last: bool) -> bool {
        &&& entries.len() == self.parted@.len()
        &&& forall|k: int|
            0 <= k < entries.len() ==> {
                let row = if pick_last {
                    self.parted@[k].end - 1
                } else {
                    self.parted@[k].start as int
                };
                &&& (#[trigger] entries[k]).symbol == self.parted@[k].symbol_id
                &&& entries[k].timestamp == self.timestamps@[row]
                &&& entries[k].values@ == self.row_vals(row)
            }
    }

    /// Every row's timestamp is supported and falls on this partition's day.
    pub open spec fn days_ok(self) -> bool {
        &&& 0 <= self.day <= MAX_DAY
        &&& forall|i: int|
            0 <= i < self.n_rows() ==> ts_supported(#[trigger] self.timestamps@[i]) && day_of(
                self.timestamps@[i],
            ) == self.day as int
    }

    /// The partition invariant.
    pub open spec fn wf(self) -> bool {
        &&& self.cols_wf()
        &&& self.rows_sorted()
        &&& parted_matches(self.parted@, self.symbols@)
        &&& self.sidecar_matches(self.first_values@, false)
        &&& self.sidecar_matches(self.last_values@, true)
        &&& self.days_ok()
    }
}

/// One date partition of a table, in memory.
#[derive(Debug)]
pub struct Partition {
    /// The epoch day this partition covers.
    pub day: i64,
    /// Row timestamps, microseconds since the epoch.
    pub timestamps: Vec<i64>,
    /// Row symbol ids.
    pub symbols: Vec<i64>,
    /// One word vector per declared value column, in schema order.
    pub columns: Vec<Vec<u64>>,
    /// The symbol runs, sorted by symbol.
    pub parted: Vec<PartedEntry>,
    /// The first row of each symbol.
    pub first_values: Vec<SidecarEntry>,
    /// The last row of each symbol.
    pub last_values: Vec<SidecarEntry>,
}

/// Sortedness extends from adjacent pairs to all pairs.
pub proof fn lemma_rows_sorted_pairwise(p: Partition, i: int, j: int)
    requires
        p.rows_sorted(),
        p.cols_wf(),
        0 <= i <= j < p.n_rows(),
    ensures
        row_le(p.symbols@[i], p.timestamps@[i], p.symbols@[j], p.timestamps@[j]),
    decreases j - i,
{
    if i < j {
        lemma_rows_sorted_pairwise(p, i, j - 1);
        assert(row_le(p.symbols@[j - 1], p.timestamps@[j - 1], p.symbols@[j], p.timestamps@[j]));
    }
}

/// Later runs end no earlier.
pub proof fn lemma_parted_end_mono(p: Seq<PartedEntry>, k1: int, k2: int)
    requires
        forall|k: int| 0 <= k < p.len() - 1 ==> (#[trigger] p[k]).end == p[k + 1].start,
        forall|k: int| 0 <= k < p.len() ==> (#[trigger] p[k]).start < p[k].end,
        0 <= k1 <= k2 < p.len(),
    ensures
        p[k1].end <= p[k2].end,
    decreases k2 - k1,
{
    if k1 < k2 {
        lemma_parted_end_mono(p, k1, k2 - 1);
        assert(p[k2 - 1].end == p[k2].start);
    }
}

/// Every row index lies in some parted run.
#[verifier::rlimit(100)]
pub proof fn lemma_parted_covers(p: Seq<PartedEntry>, syms: Seq<i64>, i: int) -> (k: int)
    requires
        parted_matches(p, syms),
        0 <= i < syms.len(),
    ensures
        0 <= k < p.len(),
        p[k].start <= i < p[k].end,
    decreases p.len(),
{
    if i >= p.last().start {
        p.len() - 1
    } else {
        // Shrink to the prefix of runs, which describes the first
        // `p.last().start` rows.
        let p2 = p.drop_last();
        let n2 = p.last().start as int;
        let syms2 = syms.take(n2);
        assert(p2.len() > 0) by {
            if p2.len() == 0 {
                assert(p[0].start == 0);
            }
        }
        assert(p2.last().end == n2) by {
            assert(p[p.len() - 2].end == p[p.len() - 1].start);
        }
        assert forall|k: int| 0 <= k < p2.len() implies (#[trigger] p2[k]).start < p2[k].end
            <= n2 by {
            assert(p2[k] == p[k]);
            lemma_parted_end_mono(p, k, p.len() - 2);
            assert(p[p.len() - 2].end == p[p.len() - 1].start);
        }
        assert forall|k: int, x: int|
            0 <= k < p2.len() && p2[k].start <= x < p2[k].end implies syms2[x] == (
        #[trigger] p2[k]).symbol_id && (#[trigger] syms2[x]) == p2[k].symbol_id by {
            assert(p2[k] == p[k]);
            lemma_parted_end_mono(p, k, p.len() - 2);
            assert(p[p.len() - 2].end == p[p.len() - 1].start);
            assert(x < n2);
            assert(syms2[x] == syms[x]);
            assert(syms[x] == p[k].symbol_id);
        }
        assert(parted_matches(p2, syms2));
        let k = lemma_parted_covers(p2, syms2, i);
        k
    }
}

/// A symbol's run, found by binary search over the parted index.
impl Partition {
    pub fn symbol_range(&self, sym_id: i64) -> (r: Option<(usize, usize)>)
        requires
            self.wf(),
        ensures
            r matches Some(se) ==> exists|k: int|
                0 <= k < self.parted@.len() && (#[trigger] self.parted@[k]).symbol_id == sym_id
                    && self.parted@[k].start == se.0 && self.parted@[k].end == se.1,
            r is None ==> forall|k: int|
                0 <= k < self.parted@.len() ==> (#[trigger] self.parted@[k]).symbol_id != sym_id,
    {
        let n = self.parted.len();
        let mut lo: usize = 0;
        let mut hi: usize = n;
        while lo < hi
            invariant
                lo <= hi <= n,
                n == self.parted@.len(),
                forall|k1: int, k2: int|
                    0 <= k1 < k2 < n ==> (#[trigger] self.parted@[k1]).symbol_id < (
                    #[trigger] self.parted@[k2]).symbol_id,
                forall|k: int| 0 <= k < lo ==> (#[trigger] self.parted@[k]).symbol_id < sym_id,
                forall|k: int| hi <= k < n ==> (#[trigger] self.parted@[k]).symbol_id >= sym_id,
            decreases hi - lo,
        {
            let mid = lo + (hi - lo) / 2;
            if self.parted[mid].symbol_id < sym_id {
                lo = mid + 1;
            } else {
                hi = mid;
            }
        }
        if lo < n {
            let e = self.parted[lo];
            if e.symbol_id == sym_id {
                return Some((e.start, e.end));
            }
        }
        None
    }
}

/// Build the parted index of a sorted symbol column.
pub fn build_parted_index(symbols: &Vec<i64>) -> (entries: Vec<PartedEntry>)
    requires
        forall|i: int|
            0 <= i < symbols@.len() - 1 ==> (#[trigger] symbols@[i]) <= symbols@[i + 1],
    ensures
        parted_matches(entries@, symbols@),
{
    let n = symbols.len();
    let mut entries: Vec<PartedEntry> = Vec::new();
    let mut i: usize = 0;
    while i < n
        invariant
            i <= n,
            n == symbols@.len(),
            forall|a: int|
                0 <= a < symbols@.len() - 1 ==> (#[trigger] symbols@[a]) <= symbols@[a + 1],
            parted_matches(entries@, symbols@.take(i as int)),
            i > 0 ==> entries@.len() > 0 && entries@.last().end == i,
            i == 0 ==> entries@.len() == 0,
        decreases n - i,
    {
        proof {
            lemma_symbols_sorted_pairwise(symbols@, 0, 0);
        }
        let sym = symbols[i];
        let m = entries.len();
        let ghost pre = entries@;
        if m == 0 || entries[m - 1].symbol_id != sym {
            proof {
                if m > 0 {
                    // The new symbol is strictly larger than the last run's.
                    let last = pre.last();
                    assert(pre[m - 1].start <= (last.end - 1) < pre[m - 1].end);
                    assert(symbols@.take(i as int)[last.end - 1] == last.symbol_id);
                    lemma_symbols_sorted_pairwise(symbols@, last.end - 1, i as int);
                }
            }
            entries.push(PartedEntry { symbol_id: sym, start: i, end: i + 1 });
            proof {
                let post = entries@;
                assert(post.last().end == i + 1);
                assert forall|k: int, x: int|
                    0 <= k < post.len() && post[k].start <= x < post[k].end implies symbols@.take(
                    i + 1 as int,
                )[x] == (#[trigger] post[k]).symbol_id && (#[trigger] symbols@.take(i + 1 as int)[x])
                    == post[k].symbol_id by {
                    if k < post.len() - 1 {
                        assert(post[k] == pre[k]);
                        assert(symbols@.take(i as int)[x] == pre[k].symbol_id);
                    }
                }
                assert(parted_matches(post, symbols@.take(i + 1 as int)));
            }
        } else {
            let last = entries[m - 1];
            entries.set(m - 1, PartedEntry { symbol_id: last.symbol_id, start: last.start, end: i + 1 });
            proof {
                let post = entries@;
                assert(post.last().end == i + 1);
                assert forall|k: int, x: int|
                    0 <= k < post.len() && post[k].start <= x < post[k].end implies symbols@.take(
                    i + 1 as int,
                )[x] == (#[trigger] post[k]).symbol_id && (#[trigger] symbols@.take(i + 1 as int)[x])
                    == post[k].symbol_id by {
                    if k < post.len() - 1 {
                        assert(post[k] == pre[k]);
                        assert(symbols@.take(i as int)[x] == pre[k].symbol_id);
                    } else {
                        if x < i {
                            assert(symbols@.take(i as int)[x] == pre[k].symbol_id);
                        }
                    }
                }
                assert(parted_matches(post, symbols@.take(i + 1 as int)));
            }
        }
        i = i + 1;
    }
    proof {
        assert(symbols@.take(n as int) =~= symbols@);
    }
    entries
}

/// Adjacent strict order on parted symbols extends to all pairs.
proof fn lemma_parted_syms_pairwise(p: Seq<PartedEntry>, k1: int, k2: int)
    requires
        forall|k: int|
            0 <= k < p.len() - 1 ==> (#[trigger] p[k]).symbol_id < p[k + 1].symbol_id,
        0 <= k1 < k2 < p.len(),
    ensures
        p[k1].symbol_id < p[k2].symbol_id,
    decreases k2 - k1,
{
    if k1 + 1 < k2 {
        lemma_parted_syms_pairwise(p, k1, k2 - 1);
    }
}

impl Partition {
    /// Check the whole partition invariant at run time, for data read from
    /// storage rather than built by a write.
    #[verifier::rlimit(100)]
    #[verifier::spinoff_prover]
    pub fn check_wf(&self, ncols: usize) -> (r: bool)
        ensures
            r == (self.wf() && self.columns@.len() == ncols),
    {
        let n = self.timestamps.len();
        if self.symbols.len() != n {
            return false;
        }
        if self.columns.len() != ncols {
            return false;
        }
        let mut c: usize = 0;
        while c < ncols
            invariant
                c <= ncols,
                ncols == self.columns@.len(),
                n == self.timestamps@.len(),
                forall|b: int| 0 <= b < c ==> (#[trigger] self.columns@[b])@.len() == n,
            decreases ncols - c,
        {
            if self.columns[c].len() != n {
                return false;
            }
            c = c + 1;
        }
        // Rows sorted by (symbol, timestamp).
        let mut i: usize = 0;
        while n - i > 1
            invariant
                i <= n,
                n == self.timestamps@.len(),
                n == self.symbols@.len(),
                forall|x: int|
                    0 <= x < i ==> row_le(
                        #[trigger] self.symbols@[x],
                        self.timestamps@[x],
                        self.symbols@[x + 1],
                        self.timestamps@[x + 1],
                    ),
            decreases n - i,
        {
            let s1 = self.symbols[i];
            let s2 = self.symbols[i + 1];
            if !(s1 < s2 || (s1 == s2 && self.timestamps[i] <= self.timestamps[i + 1])) {
                return false;
            }
            i = i + 1;
        }
        // The parted index shape.
        let m = self.parted.len();
        if n == 0 {
            if m != 0 {
                return false;
            }
        } else {
            if m == 0 || self.parted[0].start != 0 || self.parted[m - 1].end != n {
                return false;
            }
        }
        let mut k: usize = 0;
        while k < m
            invariant
                k <= m,
                m == self.parted@.len(),
                n == self.timestamps@.len(),
                forall|b: int|
                    0 <= b < k ==> (#[trigger] self.parted@[b]).start < self.parted@[b].end
                        <= n,
            decreases m - k,
        {
            let e = self.parted[k];
            if !(e.start < e.end && e.end <= n) {
                return false;
            }
            k = k + 1;
        }
        let mut k: usize = 0;
        while m - k > 1
            invariant
                k <= m,
                m == self.parted@.len(),
                forall|b: int|
                    0 <= b < k ==> (#[trigger] self.parted@[b]).end == self.parted@[b + 1].start
                        && self.parted@[b].symbol_id < self.parted@[b + 1].symbol_id,
            decreases m - k,
        {
            if self.parted[k].end != self.parted[k + 1].start {
                return false;
            }
            if !(self.parted[k].symbol_id < self.parted[k + 1].symbol_id) {
                return false;
            }
            k = k + 1;
        }
        // Every run holds exactly its symbol.
        let mut k: usize = 0;
        while k < m
            invariant
                k <= m,
                m == self.parted@.len(),
                n == self.timestamps@.len(),
                n == self.symbols@.len(),
                forall|b: int|
                    0 <= b < m ==> (#[trigger] self.parted@[b]).start < self.parted@[b].end
                        <= n,
                forall|b: int, x: int|
                    0 <= b < k && self.parted@[b].start <= x < self.parted@[b].end ==> (
                    #[trigger] self.symbols@[x]) == (#[trigger] self.parted@[b]).symbol_id,
            decreases m - k,
        {
            let e = self.parted[k];
            let mut x = e.start;
            while x < e.end
                invariant
                    (k as int) < m,
                    m == self.parted@.len(),
                    e == self.parted@[k as int],
                    e.start <= x <= e.end,
                    e.end <= n,
                    n == self.symbols@.len(),
                    forall|y: int|
                        e.start <= y < x ==> (#[trigger] self.symbols@[y]) == e.symbol_id,
                decreases e.end - x,
            {
                if self.symbols[x] != e.symbol_id {
                    return false;
                }
                x = x + 1;
            }
            k = k + 1;
        }
        // Both sidecars mirror each run's first or last row.
        if !self.check_sidecar(&self.first_values, false) {
            return false;
        }
        if !self.check_sidecar(&self.last_values, true) {
            return false;
        }
        // Every row lies on this partition's day.
        if !(0 <= self.day && self.day <= MAX_DAY) {
            return false;
        }
        let mut i: usize = 0;
        while i < n
            invariant
                i <= n,
                n == self.timestamps@.len(),
                0 <= self.day <= MAX_DAY,
                forall|x: int|
                    0 <= x < i ==> ts_supported(#[trigger] self.timestamps@[x]) && day_of(
                        self.timestamps@[x],
                    ) == self.day as int,
            decreases n - i,
        {
            let t = self.timestamps[i];
            if t < 0 || t > crate::dates::MAX_TS {
                return false;
            }
            if crate::dates::micros_to_day(t) != self.day {
                return false;
            }
            i = i + 1;
        }
        proof {
            assert forall|k1: int, k2: int|
                0 <= k1 < k2 < self.parted@.len() implies (#[trigger] self.parted@[k1]).symbol_id
                    < (#[trigger] self.parted@[k2]).symbol_id by {
                lemma_parted_syms_pairwise(self.parted@, k1, k2);
            }
            assert(parted_matches(self.parted@, self.symbols@));
        }
        true
    }

    /// Check one sidecar against the rows.
    fn check_sidecar(&self, entries: &Vec<SidecarEntry>, pick_last: bool) -> (r: bool)
        requires
            self.cols_wf(),
            forall|k: int|
                0 <= k < self.parted@.len() ==> (#[trigger] self.parted@[k]).start
                    < self.parted@[k].end <= self.n_rows(),
        ensures
            r == self.sidecar_matches(entries@, pick_last),
    {
        let m = self.parted.len();
        if entries.len() != m {
            return false;
        }
        let ncols = self.columns.len();
        let mut k: usize = 0;
        while k < m
            invariant
                k <= m,
                m == self.parted@.len(),
                m == entries@.len(),
                ncols == self.columns@.len(),
                self.cols_wf(),
                forall|b: int|
                    0 <= b < m ==> (#[trigger] self.parted@[b]).start < self.parted@[b].end
                        <= self.n_rows(),
                forall|b: int|
                    0 <= b < k ==> {
                        let row = if pick_last {
                            self.parted@[b].end - 1
                        } else {
                            self.parted@[b].start as int
                        };
                        &&& (#[trigger] entries@[b]).symbol == self.parted@[b].symbol_id
                        &&& entries@[b].timestamp == self.timestamps@[row]
                        &&& entries@[b].values@ == self.row_vals(row)
                    },
            decreases m - k,
        {
            let e = self.parted[k];
            let row = if pick_last {
                e.end - 1
            } else {
                e.start
            };
            let entry = &entries[k];
            if entry.symbol != e.symbol_id {
                return false;
            }
            if entry.timestamp != self.timestamps[row] {
                return false;
            }
            if entry.values.len() != ncols {
                return false;
            }
            let mut c: usize = 0;
            while c < ncols
                invariant
                    c <= ncols,
                    ncols == self.columns@.len(),
                    self.cols_wf(),
                    (k as int) < entries@.len(),
                    (k as int) < self.parted@.len(),
                    entry == &entries@[k as int],
                    entry.values@.len() == ncols,
                    (row as int) < self.n_rows(),
                    row as int == (if pick_last {
                        self.parted@[k as int].end - 1
                    } else {
                        self.parted@[k as int].start as int
                    }),
                    forall|b: int|
                        0 <= b < c ==> (#[trigger] entry.values@[b]) == self.columns@[b]@[
                            row as int],
                decreases ncols - c,
            {
                if entry.values[c] != self.columns[c][row] {
                    return false;
                }
                c = c + 1;
            }
            proof {
                assert(entries@[k as int].values@ =~= self.row_vals(row as int));
            }
            k = k + 1;
        }
        true
    }
}

proof fn lemma_symbols_sorted_pairwise(syms: Seq<i64>, i: int, j: int)
    requires
        forall|a: int| 0 <= a < syms.len() - 1 ==> (#[trigger] syms[a]) <= syms[a + 1],
    ensures
        0 <= i <= j < syms.len() ==> syms[i] <= syms[j],
    decreases j - i,
{
    if 0 <= i && i < j && j < syms.len() {
        lemma_symbols_sorted_pairwise(syms, i, j - 1);
    }
}

/// Build the first-row or last-row sidecar from the parted index.
pub fn build_sidecar_entries(
    parted: &Vec<PartedEntry>,
    sorted_ts: &Vec<i64>,
    columns: &Vec<Vec<u64>>,
    pick_last: bool,
) -> (entries: Vec<SidecarEntry>)
    requires
        forall|k: int|
            0 <= k < parted@.len() ==> (#[trigger] parted@[k]).start < parted@[k].end
                <= sorted_ts@.len(),
        forall|c: int|
            0 <= c < columns@.len() ==> (#[trigger] columns@[c])@.len() == sorted_ts@.len(),
    ensures
        entries@.len() == parted@.len(),
        forall|k: int|
            0 <= k < entries@.len() ==> {
                let row = if pick_last {
                    parted@[k].end - 1
                } else {
                    parted@[k].start as int
                };
                &&& (#[trigger] entries@[k]).symbol == parted@[k].symbol_id
                &&& entries@[k].timestamp == sorted_ts@[row]
                &&& entries@[k].values@ == Seq::new(
                    columns@.len(),
                    |c: int| columns@[c]@[row],
                )
            },
{
    let m = parted.len();
    let ncols = columns.len();
    let mut entries: Vec<SidecarEntry> = Vec::new();
    let mut k: usize = 0;
    while k < m
        invariant
            k <= m,
            m == parted@.len(),
            ncols == columns@.len(),
            forall|a: int|
                0 <= a < parted@.len() ==> (#[trigger] parted@[a]).start < parted@[a].end
                    <= sorted_ts@.len(),
            forall|c: int|
                0 <= c < columns@.len() ==> (#[trigger] columns@[c])@.len() == sorted_ts@.len(),
            entries@.len() == k,
            forall|a: int|
                0 <= a < k ==> {
                    let row = if pick_last {
                        parted@[a].end - 1
                    } else {
                        parted@[a].start as int
                    };
                    &&& (#[trigger] entries@[a]).symbol == parted@[a].symbol_id
                    &&& entries@[a].timestamp == sorted_ts@[row]
                    &&& entries@[a].values@ == Seq::new(
                        columns@.len(),
                        |c: int| columns@[c]@[row],
                    )
                },
        decreases m - k,
    {
        let e = parted[k];
        let row = if pick_last {
            e.end - 1
        } else {
            e.start
        };
        let mut vals: Vec<u64> = Vec::new();
        let mut c: usize = 0;
        while c < ncols
            invariant
                c <= ncols,
                ncols == columns@.len(),
                forall|b: int|
                    0 <= b < columns@.len() ==> (#[trigger] columns@[b])@.len()
                        == sorted_ts@.len(),
                row < sorted_ts@.len(),
                vals@.len() == c,
                forall|b: int| 0 <= b < c ==> vals@[b] == (#[trigger] columns@[b])@[row as int],
            decreases ncols - c,
        {
            vals.push(columns[c][row]);
            c = c + 1;
        }
        entries.push(SidecarEntry { symbol: e.symbol_id, timestamp: sorted_ts[row], values: vals });
        proof {
            let want = Seq::new(columns@.len(), |cc: int| columns@[cc]@[row as int]);
            assert(entries@.last().values@ =~= want);
        }
        k = k + 1;
    }
    entries
}

} // verus!
