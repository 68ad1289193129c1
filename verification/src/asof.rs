//! The batched as-of join engine.
//!
//! For each probe `(symbol, timestamp)`, the engine looks in the partition of
//! the probe's UTC day: `Backward` takes the latest row of the symbol at or
//! before the probe, `Forward` the earliest row at or after it. When the
//! partition lacks such a row, exactly one neighboring partition is consulted
//! through its sidecar — the previous partition's last row (`Backward`) or the
//! next partition's first row (`Forward`) — and never any further: a probe
//! whose neighbor also lacks the symbol is null.

use vstd::prelude::*;

use crate::dates::{day_of, micros_to_day, ts_supported, MAX_TS};
use crate::error::ZolaError;
use crate::partition::{lemma_parted_covers, lemma_rows_sorted_pairwise, Partition};
use crate::schema::{spec_null_word, null_word, Direction, Probes, Schema, NULL_I64};
use vstd::string::StringExecFns;

verus! {

/// The result of a batched as-of join: one timestamp and one value word per
/// probe and value column, aligned to the probe order. Null results carry the
/// null sentinels.
#[derive(Debug)]
pub struct AsofResult {
    pub timestamps: Vec<i64>,
    pub columns: Vec<Vec<u64>>,
}

/// A row qualifies for a backward probe: same symbol, at or before the probe.
pub open spec fn qual_bwd(sym: i64, ts: i64, s: i64, t: i64) -> bool {
    sym == s && ts <= t
}

/// A row qualifies for a forward probe: same symbol, at or after the probe.
pub open spec fn qual_fwd(sym: i64, ts: i64, s: i64, t: i64) -> bool {
    sym == s && ts >= t
}

/// The latest qualifying row index for a backward probe, if any.
pub open spec fn bwd_idx(syms: Seq<i64>, ts: Seq<i64>, s: i64, t: i64) -> Option<int>
    decreases syms.len(),
{
    if syms.len() == 0 {
        None
    } else if qual_bwd(syms.last(), ts[syms.len() - 1], s, t) {
        Some(syms.len() - 1)
    } else {
        bwd_idx(syms.drop_last(), ts.take(syms.len() - 1), s, t)
    }
}

/// The earliest qualifying row index for a forward probe, if any.
pub open spec fn fwd_idx(syms: Seq<i64>, ts: Seq<i64>, s: i64, t: i64) -> Option<int>
    decreases syms.len(),
{
    if syms.len() == 0 {
        None
    } else {
        let r = fwd_idx(syms.drop_last(), ts.take(syms.len() - 1), s, t);
        if r is Some {
            r
        } else if qual_fwd(syms.last(), ts[syms.len() - 1], s, t) {
            Some(syms.len() - 1)
        } else {
            None
        }
    }
}

/// The last row index of a symbol, if it occurs.
pub open spec fn last_idx_of(syms: Seq<i64>, s: i64) -> Option<int>
    decreases syms.len(),
{
    if syms.len() == 0 {
        None
    } else if syms.last() == s {
        Some(syms.len() - 1)
    } else {
        last_idx_of(syms.drop_last(), s)
    }
}

/// The first row index of a symbol, if it occurs.
pub open spec fn first_idx_of(syms: Seq<i64>, s: i64) -> Option<int>
    decreases syms.len(),
{
    if syms.len() == 0 {
        None
    } else {
        let r = first_idx_of(syms.drop_last(), s);
        if r is Some {
            r
        } else if syms.last() == s {
            Some(syms.len() - 1)
        } else {
            None
        }
    }
}

pub proof fn lemma_bwd_idx_props(syms: Seq<i64>, ts: Seq<i64>, s: i64, t: i64)
    requires
        syms.len() == ts.len(),
    ensures
        match bwd_idx(syms, ts, s, t) {
            Some(i) => 0 <= i < syms.len() && qual_bwd(syms[i], ts[i], s, t) && forall|j: int|
                i < j < syms.len() ==> !qual_bwd(#[trigger] syms[j], ts[j], s, t),
            None => forall|j: int|
                0 <= j < syms.len() ==> !qual_bwd(#[trigger] syms[j], ts[j], s, t),
        },
    decreases syms.len(),
{
    if syms.len() > 0 && !qual_bwd(syms.last(), ts[syms.len() - 1], s, t) {
        let sub_s = syms.drop_last();
        let sub_t = ts.take(syms.len() - 1);
        lemma_bwd_idx_props(sub_s, sub_t, s, t);
        assert forall|j: int| 0 <= j < sub_s.len() implies sub_s[j] == syms[j] && sub_t[j]
            == ts[j] by {}
        match bwd_idx(sub_s, sub_t, s, t) {
            Some(i) => {
                assert(qual_bwd(syms[i], ts[i], s, t));
                assert forall|j: int| i < j < syms.len() implies !qual_bwd(
                    #[trigger] syms[j],
                    ts[j],
                    s,
                    t,
                ) by {
                    if j < syms.len() - 1 {
                        assert(!qual_bwd(sub_s[j], sub_t[j], s, t));
                    }
                }
            },
            None => {
                assert forall|j: int| 0 <= j < syms.len() implies !qual_bwd(
                    #[trigger] syms[j],
                    ts[j],
                    s,
                    t,
                ) by {
                    if j < syms.len() - 1 {
                        assert(!qual_bwd(sub_s[j], sub_t[j], s, t));
                    }
                }
            },
        }
    }
}

pub proof fn lemma_bwd_idx_is(syms: Seq<i64>, ts: Seq<i64>, s: i64, t: i64, i0: int)
    requires
        syms.len() == ts.len(),
        0 <= i0 < syms.len(),
        qual_bwd(syms[i0], ts[i0], s, t),
        forall|j: int| i0 < j < syms.len() ==> !qual_bwd(#[trigger] syms[j], ts[j], s, t),
    ensures
        bwd_idx(syms, ts, s, t) == Some(i0),
{
    lemma_bwd_idx_props(syms, ts, s, t);
    match bwd_idx(syms, ts, s, t) {
        Some(i) => {
            if i < i0 {
                assert(!qual_bwd(syms[i0], ts[i0], s, t));
            } else if i > i0 {
                assert(!qual_bwd(syms[i], ts[i], s, t));
            }
        },
        None => {
            assert(!qual_bwd(syms[i0], ts[i0], s, t));
        },
    }
}

pub proof fn lemma_fwd_idx_props(syms: Seq<i64>, ts: Seq<i64>, s: i64, t: i64)
    requires
        syms.len() == ts.len(),
    ensures
        match fwd_idx(syms, ts, s, t) {
            Some(i) => 0 <= i < syms.len() && qual_fwd(syms[i], ts[i], s, t) && forall|j: int|
                0 <= j < i ==> !qual_fwd(#[trigger] syms[j], ts[j], s, t),
            None => forall|j: int|
                0 <= j < syms.len() ==> !qual_fwd(#[trigger] syms[j], ts[j], s, t),
        },
    decreases syms.len(),
{
    if syms.len() > 0 {
        let sub_s = syms.drop_last();
        let sub_t = ts.take(syms.len() - 1);
        lemma_fwd_idx_props(sub_s, sub_t, s, t);
        assert forall|j: int| 0 <= j < sub_s.len() implies sub_s[j] == syms[j] && sub_t[j]
            == ts[j] by {}
        match fwd_idx(sub_s, sub_t, s, t) {
            Some(i) => {
                assert(qual_fwd(syms[i], ts[i], s, t));
                assert forall|j: int| 0 <= j < i implies !qual_fwd(
                    #[trigger] syms[j],
                    ts[j],
                    s,
                    t,
                ) by {
                    assert(!qual_fwd(sub_s[j], sub_t[j], s, t));
                }
            },
            None => {
                match fwd_idx(syms, ts, s, t) {
                    Some(i2) => {
                        assert(i2 == syms.len() - 1);
                        assert forall|j: int| 0 <= j < i2 implies !qual_fwd(
                            #[trigger] syms[j],
                            ts[j],
                            s,
                            t,
                        ) by {
                            assert(!qual_fwd(sub_s[j], sub_t[j], s, t));
                        }
                    },
                    None => {
                        assert forall|j: int| 0 <= j < syms.len() implies !qual_fwd(
                            #[trigger] syms[j],
                            ts[j],
                            s,
                            t,
                        ) by {
                            if j < syms.len() - 1 {
                                assert(!qual_fwd(sub_s[j], sub_t[j], s, t));
                            }
                        }
                    },
                }
            },
        }
    }
}

pub proof fn lemma_fwd_idx_is(syms: Seq<i64>, ts: Seq<i64>, s: i64, t: i64, i0: int)
    requires
        syms.len() == ts.len(),
        0 <= i0 < syms.len(),
        qual_fwd(syms[i0], ts[i0], s, t),
        forall|j: int| 0 <= j < i0 ==> !qual_fwd(#[trigger] syms[j], ts[j], s, t),
    ensures
        fwd_idx(syms, ts, s, t) == Some(i0),
{
    lemma_fwd_idx_props(syms, ts, s, t);
    match fwd_idx(syms, ts, s, t) {
        Some(i) => {
            if i < i0 {
                assert(!qual_fwd(syms[i], ts[i], s, t));
            } else if i > i0 {
                assert(!qual_fwd(syms[i0], ts[i0], s, t));
            }
        },
        None => {
            assert(!qual_fwd(syms[i0], ts[i0], s, t));
        },
    }
}

pub proof fn lemma_last_idx_props(syms: Seq<i64>, s: i64)
    ensures
        match last_idx_of(syms, s) {
            Some(i) => 0 <= i < syms.len() && syms[i] == s && forall|j: int|
                i < j < syms.len() ==> (#[trigger] syms[j]) != s,
            None => forall|j: int| 0 <= j < syms.len() ==> (#[trigger] syms[j]) != s,
        },
    decreases syms.len(),
{
    if syms.len() > 0 && syms.last() != s {
        let sub_s = syms.drop_last();
        lemma_last_idx_props(sub_s, s);
        assert forall|j: int| 0 <= j < sub_s.len() implies sub_s[j] == syms[j] by {}
        match last_idx_of(sub_s, s) {
            Some(i) => {
                assert forall|j: int| i < j < syms.len() implies (#[trigger] syms[j]) != s by {
                    if j < syms.len() - 1 {
                        assert(sub_s[j] != s);
                    }
                }
            },
            None => {
                assert forall|j: int| 0 <= j < syms.len() implies (#[trigger] syms[j]) != s by {
                    if j < syms.len() - 1 {
                        assert(sub_s[j] != s);
                    }
                }
            },
        }
    }
}

pub proof fn lemma_last_idx_is(syms: Seq<i64>, s: i64, i0: int)
    requires
        0 <= i0 < syms.len(),
        syms[i0] == s,
        forall|j: int| i0 < j < syms.len() ==> (#[trigger] syms[j]) != s,
    ensures
        last_idx_of(syms, s) == Some(i0),
{
    lemma_last_idx_props(syms, s);
    match last_idx_of(syms, s) {
        Some(i) => {
            if i < i0 {
                assert(syms[i0] != s);
            } else if i > i0 {
                assert(syms[i] != s);
            }
        },
        None => {
            assert(syms[i0] != s);
        },
    }
}

pub proof fn lemma_first_idx_props(syms: Seq<i64>, s: i64)
    ensures
        match first_idx_of(syms, s) {
            Some(i) => 0 <= i < syms.len() && syms[i] == s && forall|j: int|
                0 <= j < i ==> (#[trigger] syms[j]) != s,
            None => forall|j: int| 0 <= j < syms.len() ==> (#[trigger] syms[j]) != s,
        },
    decreases syms.len(),
{
    if syms.len() > 0 {
        let sub_s = syms.drop_last();
        lemma_first_idx_props(sub_s, s);
        assert forall|j: int| 0 <= j < sub_s.len() implies sub_s[j] == syms[j] by {}
        match first_idx_of(sub_s, s) {
            Some(i) => {
                assert forall|j: int| 0 <= j < i implies (#[trigger] syms[j]) != s by {
                    assert(sub_s[j] != s);
                }
            },
            None => {
                match first_idx_of(syms, s) {
                    Some(i2) => {
                        assert(i2 == syms.len() - 1);
                        assert forall|j: int| 0 <= j < i2 implies (#[trigger] syms[j]) != s by {
                            assert(sub_s[j] != s);
                        }
                    },
                    None => {
                        assert forall|j: int| 0 <= j < syms.len() implies (#[trigger] syms[j])
                            != s by {
                            if j < syms.len() - 1 {
                                assert(sub_s[j] != s);
                            }
                        }
                    },
                }
            },
        }
    }
}

pub proof fn lemma_first_idx_is(syms: Seq<i64>, s: i64, i0: int)
    requires
        0 <= i0 < syms.len(),
        syms[i0] == s,
        forall|j: int| 0 <= j < i0 ==> (#[trigger] syms[j]) != s,
    ensures
        first_idx_of(syms, s) == Some(i0),
{
    lemma_first_idx_props(syms, s);
    match first_idx_of(syms, s) {
        Some(i) => {
            if i < i0 {
                assert(syms[i] != s);
            } else if i > i0 {
                assert(syms[i0] != s);
            }
        },
        None => {
            assert(syms[i0] != s);
        },
    }
}

/// Some partition in the list covers day `d`.
pub open spec fn has_day(parts: Seq<Partition>, d: int) -> bool {
    exists|i: int| 0 <= i < parts.len() && (#[trigger] parts[i]).day == d
}

/// The index of the partition covering day `d`.
pub open spec fn idx_of_day(parts: Seq<Partition>, d: int) -> int {
    choose|i: int| 0 <= i < parts.len() && (#[trigger] parts[i]).day == d
}

/// A table's partition list is well formed: every partition holds the
/// invariant with `ncols` value columns, and days strictly ascend.
pub open spec fn parts_wf(parts: Seq<Partition>, ncols: int) -> bool {
    &&& forall|i: int|
        0 <= i < parts.len() ==> (#[trigger] parts[i]).wf() && parts[i].columns@.len() == ncols
    &&& forall|i: int| 0 <= i < parts.len() - 1 ==> (#[trigger] parts[i]).day < parts[i + 1].day
}

/// Partition days ascend across any pair.
pub proof fn lemma_days_pairwise(parts: Seq<Partition>, i: int, j: int)
    requires
        forall|k: int| 0 <= k < parts.len() - 1 ==> (#[trigger] parts[k]).day < parts[k + 1].day,
        0 <= i < j < parts.len(),
    ensures
        parts[i].day < parts[j].day,
    decreases j - i,
{
    if i + 1 < j {
        lemma_days_pairwise(parts, i, j - 1);
    }
}

/// What one as-of probe resolves to: the found row's timestamp and value
/// words, or nothing.
pub open spec fn spec_lookup(parts: Seq<Partition>, s: i64, t: i64, dir: Direction) -> Option<
    (i64, Seq<u64>),
> {
    let d = day_of(t);
    if !has_day(parts, d) {
        None
    } else {
        let pi = idx_of_day(parts, d);
        let p = parts[pi];
        match dir {
            Direction::Backward => match bwd_idx(p.symbols@, p.timestamps@, s, t) {
                Some(i) => Some((p.timestamps@[i], p.row_vals(i))),
                None => if pi > 0 {
                    let q = parts[pi - 1];
                    match last_idx_of(q.symbols@, s) {
                        Some(j) => Some((q.timestamps@[j], q.row_vals(j))),
                        None => None,
                    }
                } else {
                    None
                },
            },
            Direction::Forward => match fwd_idx(p.symbols@, p.timestamps@, s, t) {
                Some(i) => Some((p.timestamps@[i], p.row_vals(i))),
                None => if pi < parts.len() - 1 {
                    let q = parts[pi + 1];
                    match first_idx_of(q.symbols@, s) {
                        Some(j) => Some((q.timestamps@[j], q.row_vals(j))),
                        None => None,
                    }
                } else {
                    None
                },
            },
        }
    }
}

/// Find the partition of a day by scanning the date-ordered list.
fn find_partition(parts: &Vec<Partition>, d: i64) -> (r: Option<usize>)
    requires
        forall|k: int|
            0 <= k < parts@.len() - 1 ==> (#[trigger] parts@[k]).day < parts@[k + 1].day,
    ensures
        r matches Some(i) ==> i < parts@.len() && parts@[i as int].day == d && has_day(
            parts@,
            d as int,
        ) && idx_of_day(parts@, d as int) == i as int,
        r is None ==> !has_day(parts@, d as int),
{
    let n = parts.len();
    let mut i: usize = 0;
    while i < n
        invariant
            i <= n,
            n == parts@.len(),
            forall|k: int|
                0 <= k < parts@.len() - 1 ==> (#[trigger] parts@[k]).day < parts@[k + 1].day,
            forall|k: int| 0 <= k < i ==> (#[trigger] parts@[k]).day != d,
        decreases n - i,
    {
        if parts[i].day == d {
            proof {
                let ci = idx_of_day(parts@, d as int);
                assert(has_day(parts@, d as int));
                if ci != i as int {
                    if ci < i as int {
                        lemma_days_pairwise(parts@, ci, i as int);
                    } else {
                        lemma_days_pairwise(parts@, i as int, ci);
                    }
                }
            }
            return Some(i);
        }
        i = i + 1;
    }
    proof {
        if has_day(parts@, d as int) {
            let w = choose|k: int| 0 <= k < parts@.len() && (#[trigger] parts@[k]).day == d;
            assert(parts@[w].day != d);
        }
    }
    None
}

/// Find a symbol's entry in a sidecar by binary search.
fn sidecar_find(entries: &Vec<crate::format::SidecarEntry>, sym: i64) -> (r: Option<usize>)
    requires
        forall|k1: int, k2: int|
            0 <= k1 < k2 < entries@.len() ==> (#[trigger] entries@[k1]).symbol < (
            #[trigger] entries@[k2]).symbol,
    ensures
        r matches Some(k) ==> k < entries@.len() && entries@[k as int].symbol == sym,
        r is None ==> forall|k: int|
            0 <= k < entries@.len() ==> (#[trigger] entries@[k]).symbol != sym,
{
    let n = entries.len();
    let mut lo: usize = 0;
    let mut hi: usize = n;
    while lo < hi
        invariant
            lo <= hi <= n,
            n == entries@.len(),
            forall|k1: int, k2: int|
                0 <= k1 < k2 < entries@.len() ==> (#[trigger] entries@[k1]).symbol < (
                #[trigger] entries@[k2]).symbol,
            forall|k: int| 0 <= k < lo ==> (#[trigger] entries@[k]).symbol < sym,
            forall|k: int| hi <= k < n ==> (#[trigger] entries@[k]).symbol >= sym,
        decreases hi - lo,
    {
        let mid = lo + (hi - lo) / 2;
        if entries[mid].symbol < sym {
            lo = mid + 1;
        } else {
            hi = mid;
        }
    }
    if lo < n {
        if entries[lo].symbol == sym {
            return Some(lo);
        }
    }
    None
}

/// The first position in `[lo, hi)` whose timestamp exceeds `t` (all of
/// `[lo, pos)` is at or before `t`, all of `[pos, hi)` after it).
fn upper_bound_leq(ts: &Vec<i64>, lo: usize, hi: usize, t: i64) -> (pos: usize)
    requires
        lo <= hi <= ts@.len(),
        forall|a: int, b: int| lo <= a <= b < hi ==> (#[trigger] ts@[a]) <= (#[trigger] ts@[b]),
    ensures
        lo <= pos <= hi,
        forall|j: int| lo <= j < pos ==> (#[trigger] ts@[j]) <= t,
        forall|j: int| pos <= j < hi ==> (#[trigger] ts@[j]) > t,
{
    let mut a = lo;
    let mut b = hi;
    while a < b
        invariant
            lo <= a <= b <= hi <= ts@.len(),
            forall|x: int, y: int| lo <= x <= y < hi ==> (#[trigger] ts@[x]) <= (#[trigger] ts@[y]),
            forall|j: int| lo <= j < a ==> (#[trigger] ts@[j]) <= t,
            forall|j: int| b <= j < hi ==> (#[trigger] ts@[j]) > t,
        decreases b - a,
    {
        let mid = a + (b - a) / 2;
        if ts[mid] <= t {
            a = mid + 1;
        } else {
            b = mid;
        }
    }
    a
}

/// The first position in `[lo, hi)` whose timestamp is at or after `t`.
fn lower_bound_geq(ts: &Vec<i64>, lo: usize, hi: usize, t: i64) -> (pos: usize)
    requires
        lo <= hi <= ts@.len(),
        forall|a: int, b: int| lo <= a <= b < hi ==> (#[trigger] ts@[a]) <= (#[trigger] ts@[b]),
    ensures
        lo <= pos <= hi,
        forall|j: int| lo <= j < pos ==> (#[trigger] ts@[j]) < t,
        forall|j: int| pos <= j < hi ==> (#[trigger] ts@[j]) >= t,
{
    let mut a = lo;
    let mut b = hi;
    while a < b
        invariant
            lo <= a <= b <= hi <= ts@.len(),
            forall|x: int, y: int| lo <= x <= y < hi ==> (#[trigger] ts@[x]) <= (#[trigger] ts@[y]),
            forall|j: int| lo <= j < a ==> (#[trigger] ts@[j]) < t,
            forall|j: int| b <= j < hi ==> (#[trigger] ts@[j]) >= t,
        decreases b - a,
    {
        let mid = a + (b - a) / 2;
        if ts[mid] < t {
            a = mid + 1;
        } else {
            b = mid;
        }
    }
    a
}

/// Copy the value words of one partition row.
fn copy_row_vals(part: &Partition, row: usize) -> (vals: Vec<u64>)
    requires
        part.cols_wf(),
        (row as int) < part.n_rows(),
    ensures
        vals@ == part.row_vals(row as int),
{
    let ncols = part.columns.len();
    let mut vals: Vec<u64> = Vec::new();
    let mut c: usize = 0;
    while c < ncols
        invariant
            c <= ncols,
            ncols == part.columns@.len(),
            part.cols_wf(),
            (row as int) < part.n_rows(),
            vals@.len() == c,
            forall|b: int| 0 <= b < c ==> vals@[b] == (#[trigger] part.columns@[b])@[row as int],
        decreases ncols - c,
    {
        vals.push(part.columns[c][row]);
        c = c + 1;
    }
    proof {
        assert(vals@ =~= part.row_vals(row as int));
    }
    vals
}

fn copy_words(words: &Vec<u64>) -> (r: Vec<u64>)
    ensures
        r@ == words@,
{
    let n = words.len();
    let mut r: Vec<u64> = Vec::new();
    let mut i: usize = 0;
    while i < n
        invariant
            i <= n,
            n == words@.len(),
            r@.len() == i,
            forall|j: int| 0 <= j < i ==> r@[j] == (#[trigger] words@[j]),
        decreases n - i,
    {
        r.push(words[i]);
        i = i + 1;
    }
    proof {
        assert(r@ =~= words@);
    }
    r
}

/// In a well-formed partition, rows outside a symbol's run never hold that
/// symbol.
proof fn lemma_outside_run(p: Partition, k: int, j: int)
    requires
        p.wf(),
        0 <= k < p.parted@.len(),
        0 <= j < p.n_rows(),
        !(p.parted@[k].start <= j < p.parted@[k].end),
    ensures
        p.symbols@[j] != p.parted@[k].symbol_id,
{
    let kp = lemma_parted_covers(p.parted@, p.symbols@, j);
    assert(p.symbols@[j] == p.parted@[kp].symbol_id);
    if kp < k {
        assert(p.parted@[kp].symbol_id < p.parted@[k].symbol_id);
    } else if kp > k {
        assert(p.parted@[k].symbol_id < p.parted@[kp].symbol_id);
    }
}

/// Within a symbol's run, timestamps ascend.
proof fn lemma_run_ts_sorted(p: Partition, k: int)
    requires
        p.wf(),
        0 <= k < p.parted@.len(),
    ensures
        forall|a: int, b: int|
            p.parted@[k].start <= a <= b < p.parted@[k].end ==> (#[trigger] p.timestamps@[a]) <= (
            #[trigger] p.timestamps@[b]),
{
    assert forall|a: int, b: int|
        p.parted@[k].start <= a <= b < p.parted@[k].end implies (#[trigger] p.timestamps@[a]) <= (
    #[trigger] p.timestamps@[b]) by {
        lemma_rows_sorted_pairwise(p, a, b);
        assert(p.symbols@[a] == p.parted@[k].symbol_id);
        assert(p.symbols@[b] == p.parted@[k].symbol_id);
    }
}

/// Resolve one probe against the partition list.
fn lookup_one(parts: &Vec<Partition>, ghost_ncols: Ghost<int>, s: i64, t: i64, dir: Direction) -> (r:
    Option<(i64, Vec<u64>)>)
    requires
        parts_wf(parts@, ghost_ncols@),
        ts_supported(t),
    ensures
        match r {
            Some(v) => spec_lookup(parts@, s, t, dir) matches Some(x) && x.0 == v.0 && x.1 == v.1@
                && v.1@.len() == ghost_ncols@,
            None => spec_lookup(parts@, s, t, dir) is None,
        },
{
    let d = micros_to_day(t);
    let pi = match find_partition(parts, d) {
        Some(pi) => pi,
        None => {
            return None;
        },
    };
    let part = &parts[pi];
    match dir {
        Direction::Backward => {
            match part.symbol_range(s) {
                Some((lo, hi)) => {
                    let ghost k = choose|k: int|
                        0 <= k < part.parted@.len() && (#[trigger] part.parted@[k]).symbol_id == s
                            && part.parted@[k].start == lo && part.parted@[k].end == hi;
                    proof {
                        lemma_run_ts_sorted(*part, k);
                    }
                    let pos = upper_bound_leq(&part.timestamps, lo, hi, t);
                    if pos > lo {
                        let row = pos - 1;
                        proof {
                            assert forall|j: int|
                                row < j < part.n_rows() implies !qual_bwd(
                                #[trigger] part.symbols@[j],
                                part.timestamps@[j],
                                s,
                                t,
                            ) by {
                                if j < hi {
                                    assert(part.timestamps@[j] > t);
                                } else {
                                    lemma_outside_run(*part, k, j);
                                }
                            }
                            lemma_bwd_idx_is(part.symbols@, part.timestamps@, s, t, row as int);
                        }
                        let vals = copy_row_vals(part, row);
                        return Some((part.timestamps[row], vals));
                    }
                    // No row of the symbol at or before the probe: one hop to
                    // the previous partition's last values.
                    proof {
                        assert forall|j: int|
                            0 <= j < part.n_rows() implies !qual_bwd(
                            #[trigger] part.symbols@[j],
                            part.timestamps@[j],
                            s,
                            t,
                        ) by {
                            if lo <= j < hi {
                                assert(part.timestamps@[j] > t);
                            } else {
                                lemma_outside_run(*part, k, j);
                            }
                        }
                        lemma_bwd_idx_props(part.symbols@, part.timestamps@, s, t);
                    }
                    bwd_sidecar(parts, pi, s, t)
                },
                None => {
                    proof {
                        lemma_no_symbol_no_bwd(parts@[pi as int], s, t);
                    }
                    bwd_sidecar(parts, pi, s, t)
                },
            }
        },
        Direction::Forward => {
            match part.symbol_range(s) {
                Some((lo, hi)) => {
                    let ghost k = choose|k: int|
                        0 <= k < part.parted@.len() && (#[trigger] part.parted@[k]).symbol_id == s
                            && part.parted@[k].start == lo && part.parted@[k].end == hi;
                    proof {
                        lemma_run_ts_sorted(*part, k);
                    }
                    let pos = lower_bound_geq(&part.timestamps, lo, hi, t);
                    if pos < hi {
                        let row = pos;
                        proof {
                            assert forall|j: int|
                                0 <= j < row implies !qual_fwd(
                                #[trigger] part.symbols@[j],
                                part.timestamps@[j],
                                s,
                                t,
                            ) by {
                                if lo <= j {
                                    assert(part.timestamps@[j] < t);
                                } else {
                                    lemma_outside_run(*part, k, j);
                                }
                            }
                            lemma_fwd_idx_is(part.symbols@, part.timestamps@, s, t, row as int);
                        }
                        let vals = copy_row_vals(part, row);
                        return Some((part.timestamps[row], vals));
                    }
                    proof {
                        assert forall|j: int|
                            0 <= j < part.n_rows() implies !qual_fwd(
                            #[trigger] part.symbols@[j],
                            part.timestamps@[j],
                            s,
                            t,
                        ) by {
                            if lo <= j < hi {
                                assert(part.timestamps@[j] < t);
                            } else {
                                lemma_outside_run(*part, k, j);
                            }
                        }
                        lemma_fwd_idx_props(part.symbols@, part.timestamps@, s, t);
                    }
                    fwd_sidecar(parts, pi, s, t)
                },
                None => {
                    proof {
                        lemma_no_symbol_no_fwd(parts@[pi as int], s, t);
                    }
                    fwd_sidecar(parts, pi, s, t)
                },
            }
        },
    }
}

/// A partition without the symbol has no backward match.
proof fn lemma_no_symbol_no_bwd(p: Partition, s: i64, t: i64)
    requires
        p.wf(),
        forall|k: int| 0 <= k < p.parted@.len() ==> (#[trigger] p.parted@[k]).symbol_id != s,
    ensures
        bwd_idx(p.symbols@, p.timestamps@, s, t) is None,
{
    assert forall|j: int| 0 <= j < p.n_rows() implies (#[trigger] p.symbols@[j]) != s by {
        let kp = lemma_parted_covers(p.parted@, p.symbols@, j);
    }
    lemma_bwd_idx_props(p.symbols@, p.timestamps@, s, t);
    match bwd_idx(p.symbols@, p.timestamps@, s, t) {
        Some(i) => {
            assert(p.symbols@[i] != s);
        },
        None => {},
    }
}

/// A partition without the symbol has no forward match.
proof fn lemma_no_symbol_no_fwd(p: Partition, s: i64, t: i64)
    requires
        p.wf(),
        forall|k: int| 0 <= k < p.parted@.len() ==> (#[trigger] p.parted@[k]).symbol_id != s,
    ensures
        fwd_idx(p.symbols@, p.timestamps@, s, t) is None,
{
    assert forall|j: int| 0 <= j < p.n_rows() implies (#[trigger] p.symbols@[j]) != s by {
        let kp = lemma_parted_covers(p.parted@, p.symbols@, j);
    }
    lemma_fwd_idx_props(p.symbols@, p.timestamps@, s, t);
    match fwd_idx(p.symbols@, p.timestamps@, s, t) {
        Some(i) => {
            assert(p.symbols@[i] != s);
        },
        None => {},
    }
}

/// A symbol's last row in a partition, read through its sidecar.
proof fn lemma_sidecar_last(p: Partition, ki: int)
    requires
        p.wf(),
        0 <= ki < p.last_values@.len(),
    ensures
        last_idx_of(p.symbols@, p.last_values@[ki].symbol) == Some(p.parted@[ki].end - 1),
        p.last_values@[ki].timestamp == p.timestamps@[p.parted@[ki].end - 1],
        p.last_values@[ki].values@ == p.row_vals(p.parted@[ki].end - 1),
{
    let s = p.last_values@[ki].symbol;
    let row = p.parted@[ki].end - 1;
    assert(p.symbols@[row] == s);
    assert forall|j: int| row < j < p.symbols@.len() implies (#[trigger] p.symbols@[j]) != s by {
        lemma_outside_run(p, ki, j);
    }
    lemma_last_idx_is(p.symbols@, s, row);
}

/// A symbol's first row in a partition, read through its sidecar.
proof fn lemma_sidecar_first(p: Partition, ki: int)
    requires
        p.wf(),
        0 <= ki < p.first_values@.len(),
    ensures
        first_idx_of(p.symbols@, p.first_values@[ki].symbol) == Some(p.parted@[ki].start as int),
        p.first_values@[ki].timestamp == p.timestamps@[p.parted@[ki].start as int],
        p.first_values@[ki].values@ == p.row_vals(p.parted@[ki].start as int),
{
    let s = p.first_values@[ki].symbol;
    let row = p.parted@[ki].start as int;
    assert(p.symbols@[row] == s);
    assert forall|j: int| 0 <= j < row implies (#[trigger] p.symbols@[j]) != s by {
        lemma_outside_run(p, ki, j);
    }
    lemma_first_idx_is(p.symbols@, s, row);
}

/// A sidecar without the symbol means the partition lacks it entirely.
proof fn lemma_sidecar_absent(p: Partition, entries: Seq<crate::format::SidecarEntry>, s: i64, pick_last: bool)
    requires
        p.wf(),
        p.sidecar_matches(entries, pick_last),
        forall|k: int| 0 <= k < entries.len() ==> (#[trigger] entries[k]).symbol != s,
    ensures
        last_idx_of(p.symbols@, s) is None,
        first_idx_of(p.symbols@, s) is None,
{
    assert forall|j: int| 0 <= j < p.symbols@.len() implies (#[trigger] p.symbols@[j]) != s by {
        let kp = lemma_parted_covers(p.parted@, p.symbols@, j);
        assert(entries[kp].symbol == p.parted@[kp].symbol_id);
    }
    lemma_last_idx_props(p.symbols@, s);
    match last_idx_of(p.symbols@, s) {
        Some(i) => {
            assert(p.symbols@[i] != s);
        },
        None => {},
    }
    lemma_first_idx_props(p.symbols@, s);
    match first_idx_of(p.symbols@, s) {
        Some(i) => {
            assert(p.symbols@[i] != s);
        },
        None => {},
    }
}

/// The one-hop backward fallback: the previous partition's last row of the
/// symbol, if both exist.
#[verifier::rlimit(100)]
fn bwd_sidecar(parts: &Vec<Partition>, pi: usize, s: i64, t: i64) -> (r: Option<(i64, Vec<u64>)>)
    requires
        exists|nc: int| parts_wf(parts@, nc),
        (pi as int) < parts@.len(),
        bwd_idx(parts@[pi as int].symbols@, parts@[pi as int].timestamps@, s, t) is None,
        has_day(parts@, day_of(t)),
        idx_of_day(parts@, day_of(t)) == pi as int,
    ensures
        match r {
            Some(v) => spec_lookup(parts@, s, t, Direction::Backward) matches Some(x) && x.0 == v.0
                && x.1 == v.1@,
            None => spec_lookup(parts@, s, t, Direction::Backward) is None,
        },
{
    if pi == 0 {
        return None;
    }
    let prev = &parts[pi - 1];
    proof {
        let nc = choose|nc: int| parts_wf(parts@, nc);
        assert(prev.wf());
    }
    match sidecar_find(&prev.last_values, s) {
        Some(ki) => {
            proof {
                lemma_sidecar_last(*prev, ki as int);
            }
            let e = &prev.last_values[ki];
            let vals = copy_words(&e.values);
            Some((e.timestamp, vals))
        },
        None => {
            proof {
                lemma_sidecar_absent(*prev, prev.last_values@, s, true);
            }
            None
        },
    }
}

/// The one-hop forward fallback: the next partition's first row of the
/// symbol, if both exist.
#[verifier::rlimit(100)]
fn fwd_sidecar(parts: &Vec<Partition>, pi: usize, s: i64, t: i64) -> (r: Option<(i64, Vec<u64>)>)
    requires
        exists|nc: int| parts_wf(parts@, nc),
        (pi as int) < parts@.len(),
        fwd_idx(parts@[pi as int].symbols@, parts@[pi as int].timestamps@, s, t) is None,
        has_day(parts@, day_of(t)),
        idx_of_day(parts@, day_of(t)) == pi as int,
    ensures
        match r {
            Some(v) => spec_lookup(parts@, s, t, Direction::Forward) matches Some(x) && x.0 == v.0
                && x.1 == v.1@,
            None => spec_lookup(parts@, s, t, Direction::Forward) is None,
        },
{
    if pi >= parts.len() - 1 {
        return None;
    }
    let next = &parts[pi + 1];
    proof {
        let nc = choose|nc: int| parts_wf(parts@, nc);
        assert(next.wf());
    }
    match sidecar_find(&next.first_values, s) {
        Some(ki) => {
            proof {
                lemma_sidecar_first(*next, ki as int);
            }
            let e = &next.first_values[ki];
            let vals = copy_words(&e.values);
            Some((e.timestamp, vals))
        },
        None => {
            proof {
                lemma_sidecar_absent(*next, next.first_values@, s, false);
            }
            None
        },
    }
}

/// Row `i` of the result equals the given timestamp and value words.
pub open spec fn result_row_is(res: AsofResult, i: int, t0: i64, vals: Seq<u64>) -> bool {
    &&& res.timestamps@[i] == t0
    &&& forall|c: int| 0 <= c < res.columns@.len() ==> (#[trigger] res.columns@[c])@[i] == vals[c]
}

/// Row `i` of the result holds the null sentinels.
pub open spec fn result_row_null(res: AsofResult, schema: Schema, i: int) -> bool {
    &&& res.timestamps@[i] == NULL_I64
    &&& forall|c: int|
        0 <= c < res.columns@.len() ==> (#[trigger] res.columns@[c])@[i] == spec_null_word(
            schema.value_columns@[c].col_type,
        )
}

/// The whole result matches the per-probe lookups.
pub open spec fn asof_result_matches(
    res: AsofResult,
    schema: Schema,
    parts: Seq<Partition>,
    probes: Probes,
    dir: Direction,
) -> bool {
    let n = probes.symbols@.len() as int;
    &&& res.timestamps@.len() == n
    &&& res.columns@.len() == schema.value_columns@.len()
    &&& forall|c: int| 0 <= c < res.columns@.len() ==> (#[trigger] res.columns@[c])@.len() == n
    &&& forall|i: int|
        0 <= i < n ==> match spec_lookup(
            parts,
            probes.symbols@[i],
            #[trigger] probes.timestamps@[i],
            dir,
        ) {
            Some(x) => result_row_is(res, i, x.0, x.1),
            None => result_row_null(res, schema, i),
        }
}

/// The null value words of a schema's columns.
fn nulls_row(schema: &Schema) -> (r: Vec<u64>)
    ensures
        r@.len() == schema.value_columns@.len(),
        forall|c: int|
            0 <= c < r@.len() ==> r@[c] == spec_null_word(
                (#[trigger] schema.value_columns@[c]).col_type,
            ),
{
    let n = schema.value_columns.len();
    let mut r: Vec<u64> = Vec::new();
    let mut c: usize = 0;
    while c < n
        invariant
            c <= n,
            n == schema.value_columns@.len(),
            r@.len() == c,
            forall|b: int|
                0 <= b < c ==> r@[b] == spec_null_word(
                    (#[trigger] schema.value_columns@[b]).col_type,
                ),
        decreases n - c,
    {
        r.push(null_word(schema.value_columns[c].col_type));
        c = c + 1;
    }
    r
}

/// Turn per-probe rows into per-column vectors.
fn transpose_rows(rows: &Vec<Vec<u64>>, ncols: usize) -> (cols: Vec<Vec<u64>>)
    requires
        forall|i: int| 0 <= i < rows@.len() ==> (#[trigger] rows@[i])@.len() == ncols,
    ensures
        cols@.len() == ncols,
        forall|c: int| 0 <= c < ncols ==> (#[trigger] cols@[c])@.len() == rows@.len(),
        forall|c: int, i: int|
            0 <= c < ncols && 0 <= i < rows@.len() ==> (#[trigger] cols@[c]@[i]) == rows@[i]@[c],
{
    let n = rows.len();
    let mut cols: Vec<Vec<u64>> = Vec::new();
    let mut c: usize = 0;
    while c < ncols
        invariant
            c <= ncols,
            n == rows@.len(),
            forall|i: int| 0 <= i < rows@.len() ==> (#[trigger] rows@[i])@.len() == ncols,
            cols@.len() == c,
            forall|b: int| 0 <= b < c ==> (#[trigger] cols@[b])@.len() == rows@.len(),
            forall|b: int, i: int|
                0 <= b < c && 0 <= i < rows@.len() ==> (#[trigger] cols@[b]@[i]) == rows@[i]@[b],
        decreases ncols - c,
    {
        let mut col: Vec<u64> = Vec::new();
        let mut i: usize = 0;
        while i < n
            invariant
                i <= n,
                c < ncols,
                n == rows@.len(),
                forall|x: int| 0 <= x < rows@.len() ==> (#[trigger] rows@[x])@.len() == ncols,
                col@.len() == i,
                forall|x: int| 0 <= x < i ==> (#[trigger] col@[x]) == rows@[x]@[c as int],
            decreases n - i,
        {
            col.push(rows[i][c]);
            i = i + 1;
        }
        cols.push(col);
        c = c + 1;
    }
    cols
}

/// The batched as-of join.
///
/// Errors with `SchemaMismatch` exactly when some probe timestamp lies outside
/// the supported calendar range; otherwise each probe resolves independently
/// per `spec_lookup`, with null sentinels where nothing is found.
pub fn asof_join(
    schema: &Schema,
    parts: &Vec<Partition>,
    probes: &Probes,
    direction: Direction,
) -> (r: Result<AsofResult, ZolaError>)
    requires
        parts_wf(parts@, schema.value_columns@.len() as int),
        probes.symbols@.len() == probes.timestamps@.len(),
    ensures
        r.is_ok() <==> (forall|i: int|
            0 <= i < probes.timestamps@.len() ==> ts_supported(#[trigger] probes.timestamps@[i])),
        r matches Ok(res) ==> asof_result_matches(res, *schema, parts@, *probes, direction),
        r matches Err(e) ==> e matches ZolaError::SchemaMismatch(_),
{
    let n = probes.symbols.len();
    let ncols = schema.value_columns.len();
    let mut res_ts: Vec<i64> = Vec::new();
    let mut rows: Vec<Vec<u64>> = Vec::new();
    let mut i: usize = 0;
    while i < n
        invariant
            i <= n,
            n == probes.symbols@.len(),
            n == probes.timestamps@.len(),
            ncols == schema.value_columns@.len(),
            parts_wf(parts@, schema.value_columns@.len() as int),
            res_ts@.len() == i,
            rows@.len() == i,
            forall|x: int| 0 <= x < i ==> (#[trigger] rows@[x])@.len() == ncols,
            forall|x: int| 0 <= x < i ==> ts_supported(#[trigger] probes.timestamps@[x]),
            forall|x: int|
                0 <= x < i ==> match spec_lookup(
                    parts@,
                    probes.symbols@[x],
                    #[trigger] probes.timestamps@[x],
                    direction,
                ) {
                    Some(v) => res_ts@[x] == v.0 && rows@[x]@ == v.1,
                    None => res_ts@[x] == NULL_I64 && (forall|c: int|
                        0 <= c < ncols ==> (#[trigger] rows@[x]@[c]) == spec_null_word(
                            schema.value_columns@[c].col_type,
                        )),
                },
        decreases n - i,
    {
        let s = probes.symbols[i];
        let t = probes.timestamps[i];
        if t < 0 || t > MAX_TS {
            return Err(ZolaError::SchemaMismatch(String::from_str(
                "probe timestamp outside the supported calendar range",
            )));
        }
        match lookup_one(parts, Ghost(schema.value_columns@.len() as int), s, t, direction) {
            Some((t0, vals)) => {
                proof {
                    assert(spec_lookup(parts@, s, t, direction) matches Some(x) && x.1.len()
                        == ncols) by {
                        let x = spec_lookup(parts@, s, t, direction)->Some_0;
                    }
                }
                res_ts.push(t0);
                rows.push(vals);
            },
            None => {
                res_ts.push(NULL_I64);
                rows.push(nulls_row(schema));
            },
        }
        i = i + 1;
    }
    let columns = transpose_rows(&rows, ncols);
    let res = AsofResult { timestamps: res_ts, columns };
    proof {
        assert(asof_result_matches(res, *schema, parts@, *probes, direction));
    }
    Ok(res)
}

} // verus!
