//! The store's global guarantees, stated and proved over the as-of lookup
//! specification.

use vstd::prelude::*;

use crate::asof::{
    bwd_idx, first_idx_of, fwd_idx, has_day, idx_of_day, last_idx_of, lemma_bwd_idx_props,
    lemma_days_pairwise, lemma_first_idx_props, lemma_fwd_idx_props, lemma_last_idx_props,
    parts_wf, spec_lookup,
};
use crate::dates::{day_of, ts_supported, MICROS_PER_DAY};
use crate::ingest::{day_in, day_rows, lemma_sort_rows_multiset, sort_rows, RowV};
use crate::partition::{lemma_rows_sorted_pairwise, Partition};
use crate::schema::Direction;

verus! {

/// A later timestamp falls on the same or a later UTC day.
pub proof fn lemma_day_monotone(t1: i64, t2: i64)
    requires
        t1 <= t2,
    ensures
        day_of(t1) <= day_of(t2),
{
    vstd::arithmetic::div_mod::lemma_div_is_ordered(t1 as int, t2 as int, MICROS_PER_DAY as int);
}

/// A symbol never occurs in a partition's rows.
pub open spec fn sym_absent(p: Partition, s: i64) -> bool {
    forall|i: int| 0 <= i < p.n_rows() ==> (#[trigger] p.symbols@[i]) != s
}

/// The found index is the chosen one for a day, with strictly ascending days.
pub proof fn lemma_idx_of_day_is(parts: Seq<Partition>, i: int)
    requires
        forall|k: int| 0 <= k < parts.len() - 1 ==> (#[trigger] parts[k]).day < parts[k + 1].day,
        0 <= i < parts.len(),
    ensures
        has_day(parts, parts[i].day as int),
        idx_of_day(parts, parts[i].day as int) == i,
{
    let d = parts[i].day as int;
    assert(has_day(parts, d));
    let ci = idx_of_day(parts, d);
    if ci < i {
        lemma_days_pairwise(parts, ci, i);
    } else if ci > i {
        lemma_days_pairwise(parts, i, ci);
    }
}

/// Every row of a partition in a well-formed list stays on its day, which
/// bounds its timestamps by its neighbors' days.
proof fn lemma_row_day(p: Partition, j: int)
    requires
        p.wf(),
        0 <= j < p.n_rows(),
    ensures
        ts_supported(p.timestamps@[j]),
        day_of(p.timestamps@[j]) == p.day as int,
{
}

/// Bounds: a non-null backward result is at or before the probe; a non-null
/// forward result is at or after it.
pub proof fn lemma_asof_bounds(parts: Seq<Partition>, ncols: int, s: i64, t: i64)
    requires
        parts_wf(parts, ncols),
        ts_supported(t),
    ensures
        (spec_lookup(parts, s, t, Direction::Backward) matches Some(v) ==> v.0 <= t),
        (spec_lookup(parts, s, t, Direction::Forward) matches Some(v) ==> v.0 >= t),
{
    let d = day_of(t);
    if has_day(parts, d) {
        let pi = idx_of_day(parts, d);
        let p = parts[pi];
        lemma_bwd_idx_props(p.symbols@, p.timestamps@, s, t);
        match bwd_idx(p.symbols@, p.timestamps@, s, t) {
            Some(i) => {},
            None => {
                if pi > 0 {
                    let q = parts[pi - 1];
                    lemma_last_idx_props(q.symbols@, s);
                    match last_idx_of(q.symbols@, s) {
                        Some(j) => {
                            lemma_row_day(q, j);
                            assert(q.day < p.day);
                            // A row on an earlier day is strictly earlier.
                            if q.timestamps@[j] > t {
                                lemma_day_monotone(t, q.timestamps@[j]);
                            }
                        },
                        None => {},
                    }
                }
            },
        }
        lemma_fwd_idx_props(p.symbols@, p.timestamps@, s, t);
        match fwd_idx(p.symbols@, p.timestamps@, s, t) {
            Some(i) => {},
            None => {
                if pi < parts.len() - 1 {
                    let q = parts[pi + 1];
                    lemma_first_idx_props(q.symbols@, s);
                    match first_idx_of(q.symbols@, s) {
                        Some(j) => {
                            lemma_row_day(q, j);
                            assert(p.day < q.day);
                            if q.timestamps@[j] < t {
                                lemma_day_monotone(q.timestamps@[j], t);
                            }
                        },
                        None => {},
                    }
                }
            },
        }
    }
}

/// Exact-match preference: when the probed partition holds a row with
/// exactly the probe's symbol and timestamp, both directions return that
/// timestamp.
pub proof fn lemma_asof_exact_match(
    parts: Seq<Partition>,
    ncols: int,
    s: i64,
    t: i64,
    pi: int,
    i: int,
)
    requires
        parts_wf(parts, ncols),
        ts_supported(t),
        0 <= pi < parts.len(),
        parts[pi].day == day_of(t),
        0 <= i < parts[pi].n_rows(),
        parts[pi].symbols@[i] == s,
        parts[pi].timestamps@[i] == t,
    ensures
        (spec_lookup(parts, s, t, Direction::Backward) matches Some(v) && v.0 == t),
        (spec_lookup(parts, s, t, Direction::Forward) matches Some(v) && v.0 == t),
{
    let d = day_of(t);
    lemma_idx_of_day_is(parts, pi);
    let p = parts[pi];
    lemma_bwd_idx_props(p.symbols@, p.timestamps@, s, t);
    match bwd_idx(p.symbols@, p.timestamps@, s, t) {
        Some(i2) => {
            // The latest qualifying row is at or after row `i`, and within
            // the symbol its timestamps cannot pass the probe.
            assert(i2 >= i) by {
                if i2 < i {
                    assert(!crate::asof::qual_bwd(p.symbols@[i], p.timestamps@[i], s, t));
                }
            }
            if i2 > i {
                lemma_rows_sorted_pairwise(p, i, i2);
            }
        },
        None => {
            assert(!crate::asof::qual_bwd(p.symbols@[i], p.timestamps@[i], s, t));
        },
    }
    lemma_fwd_idx_props(p.symbols@, p.timestamps@, s, t);
    match fwd_idx(p.symbols@, p.timestamps@, s, t) {
        Some(i2) => {
            assert(i2 <= i) by {
                if i2 > i {
                    assert(!crate::asof::qual_fwd(p.symbols@[i], p.timestamps@[i], s, t));
                }
            }
            if i2 < i {
                lemma_rows_sorted_pairwise(p, i2, i);
            }
        },
        None => {
            assert(!crate::asof::qual_fwd(p.symbols@[i], p.timestamps@[i], s, t));
        },
    }
}

/// A strictly earlier UTC day means a strictly earlier timestamp.
proof fn lemma_day_strict(t1: i64, t2: i64)
    requires
        day_of(t1) < day_of(t2),
    ensures
        t1 < t2,
{
    if t1 >= t2 {
        lemma_day_monotone(t2, t1);
    }
}

/// Monotone backward: for one symbol, a later probe never resolves to an
/// earlier observation, wherever both probes resolve at all.
#[verifier::rlimit(100)]
#[verifier::spinoff_prover]
pub proof fn lemma_asof_monotone_backward(parts: Seq<Partition>, ncols: int, s: i64, t1: i64, t2: i64)
    requires
        parts_wf(parts, ncols),
        ts_supported(t1),
        ts_supported(t2),
        t1 <= t2,
        spec_lookup(parts, s, t1, Direction::Backward) is Some,
        spec_lookup(parts, s, t2, Direction::Backward) is Some,
    ensures
        spec_lookup(parts, s, t1, Direction::Backward)->Some_0.0 <= spec_lookup(
            parts,
            s,
            t2,
            Direction::Backward,
        )->Some_0.0,
{
    let d1 = day_of(t1);
    let d2 = day_of(t2);
    lemma_day_monotone(t1, t2);
    let pi1 = idx_of_day(parts, d1);
    let pi2 = idx_of_day(parts, d2);
    let p1 = parts[pi1];
    let p2 = parts[pi2];
    assert(0 <= pi1 < parts.len() && p1.day == d1) by {
        let w = choose|i: int| 0 <= i < parts.len() && (#[trigger] parts[i]).day == d1;
    }
    assert(0 <= pi2 < parts.len() && p2.day == d2) by {
        let w = choose|i: int| 0 <= i < parts.len() && (#[trigger] parts[i]).day == d2;
    }
    assert(pi1 <= pi2) by {
        if pi1 > pi2 {
            lemma_days_pairwise(parts, pi2, pi1);
        }
    }
    // Name the partition and row each result came from.
    lemma_bwd_idx_props(p1.symbols@, p1.timestamps@, s, t1);
    lemma_bwd_idx_props(p2.symbols@, p2.timestamps@, s, t2);
    let (qa, ia): (Partition, int) = match bwd_idx(p1.symbols@, p1.timestamps@, s, t1) {
        Some(i) => (p1, i),
        None => {
            let q = parts[pi1 - 1];
            lemma_last_idx_props(q.symbols@, s);
            (q, last_idx_of(q.symbols@, s)->Some_0)
        },
    };
    let (qb, ib): (Partition, int) = match bwd_idx(p2.symbols@, p2.timestamps@, s, t2) {
        Some(i) => (p2, i),
        None => {
            let q = parts[pi2 - 1];
            lemma_last_idx_props(q.symbols@, s);
            (q, last_idx_of(q.symbols@, s)->Some_0)
        },
    };
    let ra = spec_lookup(parts, s, t1, Direction::Backward)->Some_0.0;
    let rb = spec_lookup(parts, s, t2, Direction::Backward)->Some_0.0;
    assert(ra == qa.timestamps@[ia] && 0 <= ia < qa.n_rows() && qa.symbols@[ia] == s && qa.wf());
    assert(rb == qb.timestamps@[ib] && 0 <= ib < qb.n_rows() && qb.symbols@[ib] == s && qb.wf());
    assert(day_of(ra) == qa.day && day_of(rb) == qb.day);
    // The partition of the first result is no later than that of the second.
    assert(qa.day <= qb.day) by {
        match bwd_idx(p2.symbols@, p2.timestamps@, s, t2) {
            Some(i2) => {
                // qb == p2, and qa's day is at most d1 <= d2.
                match bwd_idx(p1.symbols@, p1.timestamps@, s, t1) {
                    Some(_) => {},
                    None => {
                        lemma_days_pairwise(parts, pi1 - 1, pi1);
                    },
                }
            },
            None => {
                // qb == parts[pi2 - 1]. If the probes share a day, the first
                // result cannot be an in-partition row: it would qualify for
                // the later probe too.
                if pi1 == pi2 {
                    match bwd_idx(p1.symbols@, p1.timestamps@, s, t1) {
                        Some(i1) => {
                            assert(crate::asof::qual_bwd(
                                p2.symbols@[i1],
                                p2.timestamps@[i1],
                                s,
                                t2,
                            ));
                        },
                        None => {},
                    }
                } else {
                    // pi1 <= pi2 - 1, so qa's partition is no later than qb's.
                    match bwd_idx(p1.symbols@, p1.timestamps@, s, t1) {
                        Some(_) => {
                            if pi1 < pi2 - 1 {
                                lemma_days_pairwise(parts, pi1, pi2 - 1);
                            }
                        },
                        None => {
                            if pi1 - 1 < pi2 - 1 {
                                lemma_days_pairwise(parts, pi1 - 1, pi2 - 1);
                            }
                        },
                    }
                }
            },
        }
    }
    if qa.day < qb.day {
        lemma_day_strict(ra, rb);
    } else {
        // Same day, hence the very same partition: compare row positions.
        assert(qa.day == qb.day);
        assert(ra <= t1) by {
            match bwd_idx(p1.symbols@, p1.timestamps@, s, t1) {
                Some(_) => {},
                None => {
                    lemma_days_pairwise(parts, pi1 - 1, pi1);
                    lemma_day_strict(ra, t1);
                },
            }
        }
        // Identify both with one index through day uniqueness.
        let ka: int = if qa == p1 {
            pi1
        } else {
            pi1 - 1
        };
        let kb: int = if qb == p2 {
            pi2
        } else {
            pi2 - 1
        };
        assert(parts[ka] == qa && 0 <= ka < parts.len());
        assert(parts[kb] == qb && 0 <= kb < parts.len());
        assert(ka == kb) by {
            if ka < kb {
                lemma_days_pairwise(parts, ka, kb);
            } else if kb < ka {
                lemma_days_pairwise(parts, kb, ka);
            }
        }
        // Row `ia` is at or before row `ib` in the shared partition.
        assert(ia <= ib) by {
            if ia > ib {
                match bwd_idx(p2.symbols@, p2.timestamps@, s, t2) {
                    Some(i2) => {
                        // ib is the latest row at or before t2; row ia also
                        // qualifies, since ra <= t1 <= t2.
                        assert(ra <= t1);
                        assert(crate::asof::qual_bwd(qb.symbols@[ia], qb.timestamps@[ia], s, t2));
                    },
                    None => {
                        // ib is the symbol's last row in its partition.
                        assert(qb.symbols@[ia] != s);
                    },
                }
            }
        }
        if ia < ib {
            lemma_rows_sorted_pairwise(qb, ia, ib);
        }
    }
}

/// The one-hop rule: when the probe's own partition lacks the symbol and so
/// does the adjacent one, the result is null, no matter what farther
/// partitions hold.
pub proof fn lemma_asof_one_hop(parts: Seq<Partition>, ncols: int, s: i64, t: i64)
    requires
        parts_wf(parts, ncols),
        ts_supported(t),
        has_day(parts, day_of(t)),
        sym_absent(parts[idx_of_day(parts, day_of(t))], s),
        idx_of_day(parts, day_of(t)) > 0 ==> sym_absent(
            parts[idx_of_day(parts, day_of(t)) - 1],
            s,
        ),
        idx_of_day(parts, day_of(t)) < parts.len() - 1 ==> sym_absent(
            parts[idx_of_day(parts, day_of(t)) + 1],
            s,
        ),
    ensures
        spec_lookup(parts, s, t, Direction::Backward) is None,
        spec_lookup(parts, s, t, Direction::Forward) is None,
{
    let pi = idx_of_day(parts, day_of(t));
    let p = parts[pi];
    lemma_bwd_idx_props(p.symbols@, p.timestamps@, s, t);
    match bwd_idx(p.symbols@, p.timestamps@, s, t) {
        Some(i) => {
            assert(p.symbols@[i] != s);
        },
        None => {},
    }
    lemma_fwd_idx_props(p.symbols@, p.timestamps@, s, t);
    match fwd_idx(p.symbols@, p.timestamps@, s, t) {
        Some(i) => {
            assert(p.symbols@[i] != s);
        },
        None => {},
    }
    if pi > 0 {
        let q = parts[pi - 1];
        lemma_last_idx_props(q.symbols@, s);
        match last_idx_of(q.symbols@, s) {
            Some(j) => {
                assert(q.symbols@[j] != s);
            },
            None => {},
        }
    }
    if pi < parts.len() - 1 {
        let q = parts[pi + 1];
        lemma_first_idx_props(q.symbols@, s);
        match first_idx_of(q.symbols@, s) {
            Some(j) => {
                assert(q.symbols@[j] != s);
            },
            None => {},
        }
    }
}

/// Every row is among its own day's rows.
proof fn lemma_day_rows_member(s: Seq<RowV>, x: int)
    requires
        0 <= x < s.len(),
    ensures
        exists|j: int|
            0 <= j < day_rows(s, day_of(s[x].ts)).len() && (#[trigger] day_rows(
                s,
                day_of(s[x].ts),
            )[j]) == s[x],
    decreases s.len(),
{
    let d = day_of(s[x].ts);
    if x == s.len() - 1 {
        assert(day_of(s.last().ts) == d);
        let rows = day_rows(s, d);
        assert(rows.last() == s[x]);
    } else {
        lemma_day_rows_member(s.drop_last(), x);
        assert(s.drop_last()[x] == s[x]);
        let sub = day_rows(s.drop_last(), d);
        let j = choose|j: int| 0 <= j < sub.len() && (#[trigger] sub[j]) == s[x];
        if day_of(s.last().ts) == d {
            assert(day_rows(s, d)[j] == s[x]);
        } else {
            assert(day_rows(s, d) == sub);
        }
    }
}

/// Round trip: after a write, probing at any written `(symbol, timestamp)`
/// finds an observation at exactly that timestamp, in both directions.
pub proof fn lemma_write_probe_roundtrip(
    old_db: crate::db::Db,
    new_db: crate::db::Db,
    name: Seq<char>,
    schema: crate::schema::Schema,
    batch: Seq<RowV>,
    x: int,
)
    requires
        crate::db::write_effect(old_db, new_db, name, schema, batch),
        0 <= x < batch.len(),
        ts_supported(batch[x].ts),
    ensures
        (spec_lookup(
            crate::db::table_at(new_db, name).partitions@,
            batch[x].sym,
            batch[x].ts,
            Direction::Backward,
        ) matches Some(v) && v.0 == batch[x].ts),
        (spec_lookup(
            crate::db::table_at(new_db, name).partitions@,
            batch[x].sym,
            batch[x].ts,
            Direction::Forward,
        ) matches Some(v) && v.0 == batch[x].ts),
{
    broadcast use vstd::seq_lib::group_to_multiset_ensures;

    let s = batch[x].sym;
    let t = batch[x].ts;
    let d = day_of(t);
    let sorted = sort_rows(batch);
    let parts = crate::db::table_at(new_db, name).partitions@;
    let nc = schema.value_columns@.len() as int;
    // The written row survives the sort.
    crate::ingest::lemma_sort_rows_multiset(batch);
    assert(batch.to_multiset().contains(batch[x]));
    assert(sorted.to_multiset().contains(batch[x]));
    let xs = choose|j: int| 0 <= j < sorted.len() && sorted[j] == batch[x];
    assert(sorted[xs] == batch[x]);
    // Its day was rebuilt from its day's rows, which include it.
    assert(day_in(sorted, d)) by {
        assert(day_of((sorted[xs]).ts) == d);
    }
    let ti = crate::db::table_idx(new_db, name);
    assert(0 <= ti < new_db.tables@.len() && new_db.tables@[ti].0@ == name) by {
        let w = choose|i: int|
            0 <= i < new_db.tables@.len() && (#[trigger] new_db.tables@[i]).0@ == name;
    }
    assert(parts_wf(parts, crate::db::table_at(new_db, name).schema.value_columns@.len() as int))
        by {
        assert(new_db.tables@[ti].1.wf());
    }
    assert(has_day(parts, d) && crate::ingest::built_partition(
        crate::db::part_at_day(parts, d),
        d,
        day_rows(sorted, d),
        nc,
    ));
    let pi = idx_of_day(parts, d);
    assert(0 <= pi < parts.len() && parts[pi].day == d) by {
        let w = choose|i: int| 0 <= i < parts.len() && (#[trigger] parts[i]).day == d;
    }
    lemma_day_rows_member(sorted, xs);
    let rows = day_rows(sorted, d);
    let j = choose|j: int| 0 <= j < rows.len() && (#[trigger] rows[j]) == sorted[xs];
    let p = parts[pi];
    assert(p.symbols@[j] == s && p.timestamps@[j] == t) by {
        assert(p.timestamps@ == Seq::new(rows.len(), |i: int| rows[i].ts));
        assert(p.symbols@ == Seq::new(rows.len(), |i: int| rows[i].sym));
    }
    assert(0 <= j < p.n_rows()) by {
        assert(p.timestamps@.len() == rows.len());
    }
    lemma_asof_exact_match(
        parts,
        crate::db::table_at(new_db, name).schema.value_columns@.len() as int,
        s,
        t,
        pi,
        j,
    );
}

/// Two partitions hold the same observable state: the same day and the same
/// rows, column for column.
pub open spec fn part_obs_eq(a: Partition, b: Partition) -> bool {
    &&& a.day == b.day
    &&& a.timestamps@ == b.timestamps@
    &&& a.symbols@ == b.symbols@
    &&& a.columns@.len() == b.columns@.len()
    &&& forall|c: int| 0 <= c < a.columns@.len() ==> (#[trigger] a.columns@[c])@ == b.columns@[c]@
}

/// A day the update did not touch keeps its partition.
proof fn lemma_untouched_day(
    oldp: Seq<Partition>,
    newp: Seq<Partition>,
    sorted: Seq<RowV>,
    nc: int,
    d: int,
)
    requires
        crate::db::groups_applied(oldp, newp, sorted, nc),
        !day_in(sorted, d),
    ensures
        has_day(newp, d) <==> has_day(oldp, d),
        has_day(oldp, d) ==> crate::db::part_at_day(newp, d) == crate::db::part_at_day(oldp, d),
{
    assert(has_day(newp, d) <==> has_day(oldp, d));
}

/// A day the update touched now holds the partition built from its rows.
proof fn lemma_written_day(
    oldp: Seq<Partition>,
    newp: Seq<Partition>,
    sorted: Seq<RowV>,
    nc: int,
    d: int,
)
    requires
        crate::db::groups_applied(oldp, newp, sorted, nc),
        day_in(sorted, d),
    ensures
        has_day(newp, d),
        crate::ingest::built_partition(crate::db::part_at_day(newp, d), d, day_rows(sorted, d), nc),
{
}

/// Two partitions built from the same rows hold the same observable state.
proof fn lemma_built_obs_eq(a: Partition, b: Partition, d: int, rs: Seq<RowV>, nc: int)
    requires
        crate::ingest::built_partition(a, d, rs, nc),
        crate::ingest::built_partition(b, d, rs, nc),
    ensures
        part_obs_eq(a, b),
{
}

/// Partition isolation: two writes to disjoint day sets commute. Whichever
/// order the two updates run in, the table ends with the same days, each
/// holding the same rows.
pub proof fn lemma_disjoint_writes_commute(
    p0: Seq<Partition>,
    p1: Seq<Partition>,
    p12: Seq<Partition>,
    p2: Seq<Partition>,
    p21: Seq<Partition>,
    s1: Seq<RowV>,
    s2: Seq<RowV>,
    nc: int,
)
    requires
        crate::db::groups_applied(p0, p1, s1, nc),
        crate::db::groups_applied(p1, p12, s2, nc),
        crate::db::groups_applied(p0, p2, s2, nc),
        crate::db::groups_applied(p2, p21, s1, nc),
        forall|d: int| !(#[trigger] day_in(s1, d) && day_in(s2, d)),
    ensures
        forall|d: int|
            ((#[trigger] has_day(p12, d)) <==> has_day(p21, d)) && (has_day(p12, d)
                ==> part_obs_eq(
                crate::db::part_at_day(p12, d),
                crate::db::part_at_day(p21, d),
            )),
{
    assert forall|d: int|
        ((#[trigger] has_day(p12, d)) <==> has_day(p21, d)) && (has_day(p12, d) ==> part_obs_eq(
            crate::db::part_at_day(p12, d),
            crate::db::part_at_day(p21, d),
        )) by {
        if day_in(s1, d) {
            // Rebuilt by the `s1` update in each order, untouched by the
            // other.
            assert(!day_in(s2, d));
            lemma_written_day(p0, p1, s1, nc, d);
            lemma_untouched_day(p1, p12, s2, nc, d);
            lemma_written_day(p2, p21, s1, nc, d);
            lemma_built_obs_eq(
                crate::db::part_at_day(p12, d),
                crate::db::part_at_day(p21, d),
                d,
                day_rows(s1, d),
                nc,
            );
        } else if day_in(s2, d) {
            lemma_written_day(p0, p2, s2, nc, d);
            lemma_untouched_day(p2, p21, s1, nc, d);
            lemma_written_day(p1, p12, s2, nc, d);
            lemma_built_obs_eq(
                crate::db::part_at_day(p12, d),
                crate::db::part_at_day(p21, d),
                d,
                day_rows(s2, d),
                nc,
            );
        } else {
            // Neither update touched this day: both orders carry the
            // starting state through unchanged, one step at a time.
            lemma_untouched_day(p0, p1, s1, nc, d);
            lemma_untouched_day(p1, p12, s2, nc, d);
            lemma_untouched_day(p0, p2, s2, nc, d);
            lemma_untouched_day(p2, p21, s1, nc, d);
        }
    }
}

/// Every row of a day group comes from the sequence it was grouped out of.
proof fn lemma_day_rows_member_of(s: Seq<RowV>, d: int, j: int) -> (k: int)
    requires
        0 <= j < day_rows(s, d).len(),
    ensures
        0 <= k < s.len(),
        s[k] == day_rows(s, d)[j],
    decreases s.len(),
{
    if s.len() == 0 {
        0
    } else if day_of(s.last().ts) == d {
        let rows = day_rows(s, d);
        if j == rows.len() - 1 {
            s.len() - 1
        } else {
            let k = lemma_day_rows_member_of(s.drop_last(), d, j);
            assert(s[k] == s.drop_last()[k]);
            k
        }
    } else {
        let k = lemma_day_rows_member_of(s.drop_last(), d, j);
        assert(s[k] == s.drop_last()[k]);
        k
    }
}

/// Round trip, bit for bit: when the batch holds a `(symbol, timestamp)`
/// key exactly once, probing it after the write returns that row's value
/// words unchanged, in both directions.
#[verifier::rlimit(100)]
#[verifier::spinoff_prover]
pub proof fn lemma_write_probe_roundtrip_exact(
    old_db: crate::db::Db,
    new_db: crate::db::Db,
    name: Seq<char>,
    schema: crate::schema::Schema,
    batch: Seq<RowV>,
    x: int,
)
    requires
        crate::db::write_effect(old_db, new_db, name, schema, batch),
        0 <= x < batch.len(),
        ts_supported(batch[x].ts),
        forall|k: int|
            0 <= k < batch.len() && (#[trigger] batch[k]).sym == batch[x].sym && batch[k].ts
                == batch[x].ts ==> k == x,
    ensures
        (spec_lookup(
            crate::db::table_at(new_db, name).partitions@,
            batch[x].sym,
            batch[x].ts,
            Direction::Backward,
        ) matches Some(v) && (v.0 == batch[x].ts && v.1.len() == schema.value_columns@.len() && (
        forall|c: int| 0 <= c < v.1.len() ==> v.1[c] == batch[x].vals[c]))),
        (spec_lookup(
            crate::db::table_at(new_db, name).partitions@,
            batch[x].sym,
            batch[x].ts,
            Direction::Forward,
        ) matches Some(v) && (v.0 == batch[x].ts && v.1.len() == schema.value_columns@.len() && (
        forall|c: int| 0 <= c < v.1.len() ==> v.1[c] == batch[x].vals[c]))),
{
    broadcast use vstd::seq_lib::group_to_multiset_ensures;

    lemma_write_probe_roundtrip(old_db, new_db, name, schema, batch, x);
    let s = batch[x].sym;
    let t = batch[x].ts;
    let d = day_of(t);
    let sorted = sort_rows(batch);
    let parts = crate::db::table_at(new_db, name).partitions@;
    let ncl = crate::db::table_at(new_db, name).schema.value_columns@.len() as int;
    let nc = schema.value_columns@.len() as int;
    assert(ncl == nc);
    lemma_sort_rows_multiset(batch);
    let ti = crate::db::table_idx(new_db, name);
    assert(0 <= ti < new_db.tables@.len() && new_db.tables@[ti].0@ == name) by {
        let w = choose|i: int|
            0 <= i < new_db.tables@.len() && (#[trigger] new_db.tables@[i]).0@ == name;
    }
    assert(parts_wf(parts, ncl)) by {
        assert(new_db.tables@[ti].1.wf());
    }
    assert(day_in(sorted, d)) by {
        assert(sorted.to_multiset().contains(batch[x]));
        let k0 = choose|k: int| 0 <= k < sorted.len() && sorted[k] == batch[x];
        assert(day_of((sorted[k0]).ts) == d);
    }
    let pi = idx_of_day(parts, d);
    assert(0 <= pi < parts.len() && parts[pi].day == d) by {
        let w = choose|i: int| 0 <= i < parts.len() && (#[trigger] parts[i]).day == d;
    }
    let p = parts[pi];
    let rows = day_rows(sorted, d);
    assert(crate::ingest::built_partition(p, d, rows, nc)) by {
        assert(crate::db::part_at_day(parts, d) == p);
    }
    assert(p.timestamps@.len() == rows.len());
    // Any partition row with the probe's key is the written row itself.
    assert forall|i2: int|
        0 <= i2 < p.n_rows() && p.symbols@[i2] == s && p.timestamps@[i2] == t implies p.row_vals(
        i2,
    ).len() == nc && (forall|c: int| 0 <= c < nc ==> p.row_vals(i2)[c] == batch[x].vals[c]) by {
        assert(rows[i2].sym == s && rows[i2].ts == t) by {
            assert(p.symbols@ == Seq::new(rows.len(), |i: int| rows[i].sym));
            assert(p.timestamps@ == Seq::new(rows.len(), |i: int| rows[i].ts));
        }
        let k0 = lemma_day_rows_member_of(sorted, d, i2);
        assert(sorted.to_multiset().contains(sorted[k0]));
        assert(batch.to_multiset().contains(sorted[k0]));
        let k1 = choose|k: int| 0 <= k < batch.len() && batch[k] == sorted[k0];
        assert(batch[k1].sym == s && batch[k1].ts == t);
        assert(k1 == x);
        assert(rows[i2] == batch[x]);
        assert forall|c: int| 0 <= c < nc implies p.row_vals(i2)[c] == batch[x].vals[c] by {
            assert(p.columns@[c]@ == Seq::new(rows.len(), |i: int| rows[i].vals[c]));
        }
    }
    // Backward: the timestamp half already pins the found row's key.
    lemma_bwd_idx_props(p.symbols@, p.timestamps@, s, t);
    match bwd_idx(p.symbols@, p.timestamps@, s, t) {
        Some(i2) => {
            assert(p.timestamps@[i2] == t);
        },
        None => {
            // The backward answer would then come through the previous
            // partition, whose rows lie on an earlier day than the probe.
            if pi > 0 {
                let q = parts[pi - 1];
                lemma_last_idx_props(q.symbols@, s);
                match last_idx_of(q.symbols@, s) {
                    Some(jq) => {
                        assert(q.wf());
                        lemma_days_pairwise(parts, pi - 1, pi);
                        lemma_row_day(q, jq);
                        lemma_day_strict(q.timestamps@[jq], t);
                        assert(false);
                    },
                    None => {
                        assert(false);
                    },
                }
            } else {
                assert(false);
            }
        },
    }
    // Forward: symmetric through the next partition.
    lemma_fwd_idx_props(p.symbols@, p.timestamps@, s, t);
    match fwd_idx(p.symbols@, p.timestamps@, s, t) {
        Some(i2) => {
            assert(p.timestamps@[i2] == t);
        },
        None => {
            if pi < parts.len() - 1 {
                let q = parts[pi + 1];
                lemma_first_idx_props(q.symbols@, s);
                match first_idx_of(q.symbols@, s) {
                    Some(jq) => {
                        assert(q.wf());
                        lemma_days_pairwise(parts, pi, pi + 1);
                        lemma_row_day(q, jq);
                        lemma_day_strict(t, q.timestamps@[jq]);
                        assert(false);
                    },
                    None => {
                        assert(false);
                    },
                }
            } else {
                assert(false);
            }
        },
    }
}

} // verus!
