//! The ingest path: sorting a write batch by `(day, symbol, timestamp)`,
//! grouping it by UTC day, and building one partition per day group.
//!
//! The sort is a stable insertion sort, mirrored exactly by the spec
//! functions here, so a write's outcome is a function of its input: rows with
//! equal `(day, symbol, timestamp)` keep their batch order.

use vstd::prelude::*;

use crate::dates::{day_of, micros_to_day, ts_supported};
use crate::partition::{build_parted_index, build_sidecar_entries, Partition};

verus! {

/// One batch row, as the sort sees it.
#[derive(Debug)]
pub struct Row {
    pub ts: i64,
    pub sym: i64,
    pub vals: Vec<u64>,
}

/// The mathematical view of a row.
#[verifier::ext_equal]
pub ghost struct RowV {
    pub ts: i64,
    pub sym: i64,
    pub vals: Seq<u64>,
}

impl View for Row {
    type V = RowV;

    open spec fn view(&self) -> RowV {
        RowV { ts: self.ts, sym: self.sym, vals: self.vals@ }
    }
}

/// The views of a row sequence.
pub open spec fn views_of(s: Seq<Row>) -> Seq<RowV> {
    Seq::new(s.len(), |i: int| s[i]@)
}

/// Sort key order: by UTC day, then symbol, then timestamp.
pub open spec fn key_le(a: RowV, b: RowV) -> bool {
    ||| day_of(a.ts) < day_of(b.ts)
    ||| (day_of(a.ts) == day_of(b.ts) && (a.sym < b.sym || (a.sym == b.sym && a.ts <= b.ts)))
}

/// The key order is total.
pub proof fn lemma_key_total(a: RowV, b: RowV)
    ensures
        key_le(a, b) || key_le(b, a),
{
}

/// Insert a row into a sorted sequence, after any rows with an equal key.
pub open spec fn insert_sorted(s: Seq<RowV>, r: RowV) -> Seq<RowV>
    decreases s.len(),
{
    if s.len() == 0 {
        seq![r]
    } else if key_le(s.last(), r) {
        s.push(r)
    } else {
        insert_sorted(s.drop_last(), r).push(s.last())
    }
}

/// The stable sort of a batch: insert each row in turn.
pub open spec fn sort_rows(input: Seq<RowV>) -> Seq<RowV>
    decreases input.len(),
{
    if input.len() == 0 {
        Seq::empty()
    } else {
        insert_sorted(sort_rows(input.drop_last()), input.last())
    }
}

/// A row sequence is sorted by the key, adjacent pair by adjacent pair.
pub open spec fn rows_sorted_by_key(s: Seq<RowV>) -> bool {
    forall|i: int| 0 <= i < s.len() - 1 ==> key_le(#[trigger] s[i], s[i + 1])
}

/// Every row of a sequence satisfies a bound on timestamps.
pub open spec fn rows_supported(s: Seq<RowV>) -> bool {
    forall|i: int| 0 <= i < s.len() ==> ts_supported((#[trigger] s[i]).ts)
}

/// Every row carries the same number of value words.
pub open spec fn rows_ncols(s: Seq<RowV>, ncols: int) -> bool {
    forall|i: int| 0 <= i < s.len() ==> (#[trigger] s[i]).vals.len() == ncols
}

pub proof fn lemma_key_pairwise(s: Seq<RowV>, i: int, j: int)
    requires
        rows_sorted_by_key(s),
        0 <= i <= j < s.len(),
    ensures
        key_le(s[i], s[j]),
    decreases j - i,
{
    if i < j {
        lemma_key_pairwise(s, i, j - 1);
    }
}

/// Inserting at the position the exec search finds is `insert_sorted`.
pub proof fn lemma_insert_sorted_at(s: Seq<RowV>, r: RowV, j: int)
    requires
        0 <= j <= s.len(),
        forall|k: int| j <= k < s.len() ==> !key_le(#[trigger] s[k], r),
        j > 0 ==> key_le(s[j - 1], r),
    ensures
        insert_sorted(s, r) =~= s.take(j).push(r) + s.skip(j),
    decreases s.len() - j,
{
    if j == s.len() {
        if s.len() > 0 {
            assert(key_le(s.last(), r));
        }
        assert(s.take(j) =~= s);
        assert(insert_sorted(s, r) =~= s.push(r));
        assert(s.take(j).push(r) + s.skip(j) =~= s.push(r));
    } else {
        assert(!key_le(s.last(), r));
        lemma_insert_sorted_at(s.drop_last(), r, j);
        assert(s.drop_last().take(j) =~= s.take(j));
        assert(insert_sorted(s, r) =~= insert_sorted(s.drop_last(), r).push(s.last()));
        assert(s.drop_last().take(j).push(r) + s.drop_last().skip(j) + seq![s.last()] =~= s.take(
            j,
        ).push(r) + s.skip(j));
    }
}

/// Insertion keeps the sequence sorted.
#[verifier::rlimit(100)]
pub proof fn lemma_insert_sorted_sorted(s: Seq<RowV>, r: RowV)
    requires
        rows_sorted_by_key(s),
    ensures
        rows_sorted_by_key(insert_sorted(s, r)),
    decreases s.len(),
{
    if s.len() == 0 {
    } else if key_le(s.last(), r) {
        let out = s.push(r);
        assert forall|i: int| 0 <= i < out.len() - 1 implies key_le(#[trigger] out[i], out[i + 1]) by {
            if i < s.len() - 1 {
                assert(key_le(s[i], s[i + 1]));
            }
        }
    } else {
        lemma_insert_sorted_sorted(s.drop_last(), r);
        let sub = insert_sorted(s.drop_last(), r);
        let out = sub.push(s.last());
        assert forall|i: int| 0 <= i < s.drop_last().len() implies key_le(
            #[trigger] s.drop_last()[i],
            s.last(),
        ) by {
            lemma_key_pairwise(s, i, s.len() - 1);
        }
        lemma_insert_sorted_last_bound(s.drop_last(), r, s.last());
        assert forall|i: int| 0 <= i < out.len() - 1 implies key_le(#[trigger] out[i], out[i + 1]) by {
            if i < sub.len() - 1 {
                assert(key_le(sub[i], sub[i + 1]));
            }
        }
    }
}

/// Every row of `insert_sorted(s, r)` is at or below any upper bound of `s`
/// and `r`.
proof fn lemma_insert_sorted_last_bound(s: Seq<RowV>, r: RowV, hi: RowV)
    requires
        forall|i: int| 0 <= i < s.len() ==> key_le(#[trigger] s[i], hi),
        !key_le(hi, r),
    ensures
        forall|i: int|
            0 <= i < insert_sorted(s, r).len() ==> key_le(#[trigger] insert_sorted(s, r)[i], hi),
    decreases s.len(),
{
    lemma_key_total(hi, r);
    if s.len() == 0 {
    } else if key_le(s.last(), r) {
    } else {
        lemma_insert_sorted_last_bound(s.drop_last(), r, hi);
        let sub = insert_sorted(s.drop_last(), r);
        assert forall|i: int| 0 <= i < insert_sorted(s, r).len() implies key_le(
            #[trigger] insert_sorted(s, r)[i],
            hi,
        ) by {
            if i < sub.len() {
                assert(key_le(sub[i], hi));
            }
        }
    }
}

/// Insertion adds exactly the new row to the multiset of rows.
pub proof fn lemma_insert_sorted_multiset(s: Seq<RowV>, r: RowV)
    ensures
        insert_sorted(s, r).to_multiset() =~= s.to_multiset().insert(r),
    decreases s.len(),
{
    broadcast use vstd::seq_lib::group_to_multiset_ensures;

    if s.len() == 0 {
        assert(seq![r] =~= Seq::<RowV>::empty().push(r));
    } else if key_le(s.last(), r) {
    } else {
        lemma_insert_sorted_multiset(s.drop_last(), r);
        assert(s.drop_last().push(s.last()) =~= s);
    }
}

/// The sort's output is a permutation of its input.
pub proof fn lemma_sort_rows_multiset(input: Seq<RowV>)
    ensures
        sort_rows(input).to_multiset() =~= input.to_multiset(),
    decreases input.len(),
{
    broadcast use vstd::seq_lib::group_to_multiset_ensures;

    if input.len() > 0 {
        lemma_sort_rows_multiset(input.drop_last());
        lemma_insert_sorted_multiset(sort_rows(input.drop_last()), input.last());
        assert(input.drop_last().push(input.last()) =~= input);
    }
}

/// The sort's output is sorted.
pub proof fn lemma_sort_rows_sorted(input: Seq<RowV>)
    ensures
        rows_sorted_by_key(sort_rows(input)),
    decreases input.len(),
{
    if input.len() > 0 {
        lemma_sort_rows_sorted(input.drop_last());
        lemma_insert_sorted_sorted(sort_rows(input.drop_last()), input.last());
    }
}

/// A row property shared by all inputs holds of all sorted rows.
pub proof fn lemma_sort_rows_supported(input: Seq<RowV>, ncols: int)
    requires
        rows_supported(input),
        rows_ncols(input, ncols),
    ensures
        rows_supported(sort_rows(input)),
        rows_ncols(sort_rows(input), ncols),
        sort_rows(input).len() == input.len(),
{
    broadcast use vstd::seq_lib::group_to_multiset_ensures;

    lemma_sort_rows_multiset(input);
    let out = sort_rows(input);
    assert(out.to_multiset().len() == out.len());
    assert(input.to_multiset().len() == input.len());
    assert forall|i: int| 0 <= i < out.len() implies ts_supported((#[trigger] out[i]).ts) && out[i].vals.len()
        == ncols by {
        assert(out.to_multiset().contains(out[i]));
        assert(input.to_multiset().contains(out[i]));
        let j = choose|j: int| 0 <= j < input.len() && input[j] == out[i];
        assert(ts_supported(input[j].ts));
    }
}

/// The rows of one UTC day, in order.
pub open spec fn day_rows(s: Seq<RowV>, d: int) -> Seq<RowV>
    decreases s.len(),
{
    if s.len() == 0 {
        Seq::empty()
    } else if day_of(s.last().ts) == d {
        day_rows(s.drop_last(), d).push(s.last())
    } else {
        day_rows(s.drop_last(), d)
    }
}

/// A day occurs in a row sequence.
pub open spec fn day_in(s: Seq<RowV>, d: int) -> bool {
    exists|i: int| 0 <= i < s.len() && day_of((#[trigger] s[i]).ts) == d
}

/// In a day-contiguous sequence, a day's rows are exactly its run.
pub proof fn lemma_day_rows_contiguous(s: Seq<RowV>, d: int, a: int, b: int)
    requires
        0 <= a <= b <= s.len(),
        forall|k: int| a <= k < b ==> day_of((#[trigger] s[k]).ts) == d,
        forall|k: int| 0 <= k < a ==> day_of((#[trigger] s[k]).ts) != d,
        forall|k: int| b <= k < s.len() ==> day_of((#[trigger] s[k]).ts) != d,
    ensures
        day_rows(s, d) =~= s.subrange(a, b),
    decreases s.len(),
{
    if a == b {
        assert(!day_in(s, d)) by {
            if day_in(s, d) {
                let i = choose|i: int| 0 <= i < s.len() && day_of((#[trigger] s[i]).ts) == d;
            }
        }
        lemma_day_rows_absent(s, d);
        assert(day_rows(s, d) =~= s.subrange(a, b));
    } else if b == s.len() {
        assert(day_of(s.last().ts) == d) by {
            assert(day_of(s[b - 1].ts) == d);
        }
        lemma_day_rows_contiguous(s.drop_last(), d, a, b - 1);
        assert(s.drop_last().subrange(a, b - 1) =~= s.subrange(a, b - 1));
        assert(day_rows(s, d) =~= s.subrange(a, b));
    } else {
        assert(day_of(s.last().ts) != d);
        lemma_day_rows_contiguous(s.drop_last(), d, a, b);
        assert(s.drop_last().subrange(a, b) =~= s.subrange(a, b));
    }
}

/// Days absent from a sequence have no rows.
pub proof fn lemma_day_rows_absent(s: Seq<RowV>, d: int)
    requires
        !day_in(s, d),
    ensures
        day_rows(s, d).len() == 0,
    decreases s.len(),
{
    if s.len() > 0 {
        assert(!day_in(s.drop_last(), d)) by {
            if day_in(s.drop_last(), d) {
                let i = choose|i: int|
                    0 <= i < s.drop_last().len() && day_of((#[trigger] s.drop_last()[i]).ts) == d;
                assert(day_of(s[i].ts) == d);
            }
        }
        lemma_day_rows_absent(s.drop_last(), d);
        assert(day_of(s.last().ts) != d) by {
            if day_of(s.last().ts) == d {
                assert(day_of(s[s.len() - 1].ts) == d);
            }
        }
    }
}

/// Compare two rows by `(day, symbol, timestamp)`.
fn key_le_exec(a: &Row, b: &Row) -> (r: bool)
    requires
        ts_supported(a.ts),
        ts_supported(b.ts),
    ensures
        r == key_le(a@, b@),
{
    let da = micros_to_day(a.ts);
    let db = micros_to_day(b.ts);
    if da < db {
        true
    } else if da > db {
        false
    } else if a.sym < b.sym {
        true
    } else if a.sym > b.sym {
        false
    } else {
        a.ts <= b.ts
    }
}

/// Stable insertion sort of a batch by `(day, symbol, timestamp)`.
pub fn sort_batch(rows: Vec<Row>) -> (out: Vec<Row>)
    requires
        rows_supported(views_of(rows@)),
    ensures
        views_of(out@) == sort_rows(views_of(rows@)),
{
    let n = rows.len();
    let mut src = rows;
    let mut out: Vec<Row> = Vec::new();
    let ghost input = views_of(src@);
    // Consume the batch front to back, inserting each row into the sorted
    // prefix after any rows with an equal key.
    let mut taken: usize = 0;
    while src.len() > 0
        invariant
            taken + src@.len() == n,
            n == input.len(),
            rows_supported(input),
            views_of(out@) =~= sort_rows(input.take(taken as int)),
            forall|i: int| 0 <= i < src@.len() ==> (#[trigger] src@[i])@ == input[taken + i],
            forall|i: int| 0 <= i < out@.len() ==> ts_supported((#[trigger] out@[i]).ts),
        decreases src@.len(),
    {
        let r = src.remove(0);
        proof {
            assert(r@ == input[taken as int]);
            assert(ts_supported(r@.ts));
        }
        let mut j = out.len();
        while j > 0
            invariant_except_break
                j <= out@.len(),
                forall|k: int| 0 <= k < out@.len() ==> ts_supported((#[trigger] out@[k]).ts),
                ts_supported(r@.ts),
                forall|k: int|
                    j <= k < out@.len() ==> !key_le((#[trigger] out@[k])@, r@),
            ensures
                j <= out@.len(),
                forall|k: int|
                    j <= k < out@.len() ==> !key_le((#[trigger] out@[k])@, r@),
                j > 0 ==> key_le(out@[j - 1]@, r@),
            decreases j,
        {
            if key_le_exec(&out[j - 1], &r) {
                break ;
            }
            j = j - 1;
        }
        let ghost pre = views_of(out@);
        let ghost rv = r@;
        out.insert(j, r);
        proof {
            lemma_insert_sorted_at(pre, rv, j as int);
            assert(views_of(out@) =~= pre.take(j as int).push(rv) + pre.skip(j as int)) by {
                assert forall|i: int| 0 <= i < out@.len() implies (#[trigger] views_of(out@)[i]) == (
                pre.take(j as int).push(rv) + pre.skip(j as int))[i] by {
                    if i < j as int {
                        assert(out@[i]@ == pre[i]);
                    } else if i > j as int {
                        assert(out@[i]@ == pre[i - 1]);
                    }
                }
            }
            assert(input.take(taken + 1).drop_last() =~= input.take(taken as int));
            assert(input.take(taken + 1).last() == rv);
            assert(views_of(out@) =~= sort_rows(input.take(taken + 1)));
        }
        taken = taken + 1;
    }
    proof {
        assert(input.take(n as int) =~= input);
    }
    out
}

/// A partition holds exactly the given rows, in order, on the given day.
pub open spec fn built_partition(p: Partition, d: int, rs: Seq<RowV>, ncols: int) -> bool {
    &&& p.day == d
    &&& p.columns@.len() == ncols
    &&& p.timestamps@ == Seq::new(rs.len(), |i: int| rs[i].ts)
    &&& p.symbols@ == Seq::new(rs.len(), |i: int| rs[i].sym)
    &&& forall|c: int|
        0 <= c < ncols ==> (#[trigger] p.columns@[c])@ == Seq::new(rs.len(), |i: int| rs[i].vals[c])
}

/// Build one partition from the rows of one day group, `rows[a..b)` of the
/// sorted batch.
pub fn build_partition(rows: &Vec<Row>, a: usize, b: usize, ncols: usize, day: i64) -> (p:
    Partition)
    requires
        a < b <= rows@.len(),
        0 <= day <= crate::dates::MAX_DAY,
        forall|i: int|
            a <= i < b - 1 ==> key_le((#[trigger] rows@[i])@, rows@[i + 1]@),
        forall|i: int|
            a <= i < b ==> ts_supported((#[trigger] rows@[i]).ts) && day_of(rows@[i].ts)
                == day as int && rows@[i].vals@.len() == ncols,
    ensures
        p.wf(),
        built_partition(p, day as int, views_of(rows@).subrange(a as int, b as int), ncols as int),
{
    let ghost rs = views_of(rows@).subrange(a as int, b as int);
    let m = b - a;
    let mut ts: Vec<i64> = Vec::new();
    let mut syms: Vec<i64> = Vec::new();
    let mut i: usize = 0;
    while i < m
        invariant
            i <= m,
            m == b - a,
            a < b <= rows@.len(),
            ts@.len() == i,
            syms@.len() == i,
            forall|x: int| 0 <= x < i ==> (#[trigger] ts@[x]) == rows@[a + x].ts,
            forall|x: int| 0 <= x < i ==> (#[trigger] syms@[x]) == rows@[a + x].sym,
        decreases m - i,
    {
        ts.push(rows[a + i].ts);
        syms.push(rows[a + i].sym);
        i = i + 1;
    }
    let mut cols: Vec<Vec<u64>> = Vec::new();
    let mut c: usize = 0;
    while c < ncols
        invariant
            c <= ncols,
            m == b - a,
            a < b <= rows@.len(),
            forall|x: int|
                a <= x < b ==> (#[trigger] rows@[x]).vals@.len() == ncols,
            cols@.len() == c,
            forall|d0: int| 0 <= d0 < c ==> (#[trigger] cols@[d0])@.len() == m,
            forall|d0: int, x: int|
                0 <= d0 < c && 0 <= x < m ==> (#[trigger] cols@[d0]@[x]) == rows@[a + x].vals@[d0],
        decreases ncols - c,
    {
        let mut col: Vec<u64> = Vec::new();
        let mut x: usize = 0;
        while x < m
            invariant
                x <= m,
                c < ncols,
                m == b - a,
                a < b <= rows@.len(),
                forall|y: int|
                    a <= y < b ==> (#[trigger] rows@[y]).vals@.len() == ncols,
                col@.len() == x,
                forall|y: int| 0 <= y < x ==> (#[trigger] col@[y]) == rows@[a + y].vals@[c as int],
            decreases m - x,
        {
            col.push(rows[a + x].vals[c]);
            x = x + 1;
        }
        cols.push(col);
        c = c + 1;
    }
    proof {
        assert forall|x: int| 0 <= x < m - 1 implies (#[trigger] syms@[x]) <= syms@[x + 1] by {
            assert(key_le(rows@[a + x]@, rows@[a + x + 1]@));
            assert(day_of((rows@[a + x]).ts) == day as int);
            assert(day_of((rows@[a + x + 1]).ts) == day as int);
        }
    }
    let parted = build_parted_index(&syms);
    proof {
        assert(crate::partition::parted_matches(parted@, syms@));
    }
    let first_values = build_sidecar_entries(&parted, &ts, &cols, false);
    let last_values = build_sidecar_entries(&parted, &ts, &cols, true);
    let p = Partition { day, timestamps: ts, symbols: syms, columns: cols, parted, first_values, last_values };
    proof {
        assert(p.cols_wf());
        assert forall|x: int|
            0 <= x < p.n_rows() - 1 implies crate::partition::row_le(
            #[trigger] p.symbols@[x],
            p.timestamps@[x],
            p.symbols@[x + 1],
            p.timestamps@[x + 1],
        ) by {
            assert(key_le(rows@[a + x]@, rows@[a + x + 1]@));
            assert(day_of((rows@[a + x]).ts) == day as int);
            assert(day_of((rows@[a + x + 1]).ts) == day as int);
        }
        assert(p.sidecar_matches(p.first_values@, false)) by {
            assert forall|k: int| 0 <= k < p.first_values@.len() implies {
                let row = p.parted@[k].start as int;
                &&& (#[trigger] p.first_values@[k]).symbol == p.parted@[k].symbol_id
                &&& p.first_values@[k].timestamp == p.timestamps@[row]
                &&& p.first_values@[k].values@ == p.row_vals(row)
            } by {
                let row = p.parted@[k].start as int;
                assert(p.first_values@[k].values@ =~= p.row_vals(row));
            }
        }
        assert(p.sidecar_matches(p.last_values@, true)) by {
            assert forall|k: int| 0 <= k < p.last_values@.len() implies {
                let row = p.parted@[k].end - 1;
                &&& (#[trigger] p.last_values@[k]).symbol == p.parted@[k].symbol_id
                &&& p.last_values@[k].timestamp == p.timestamps@[row]
                &&& p.last_values@[k].values@ == p.row_vals(row)
            } by {
                let row = p.parted@[k].end - 1;
                assert(p.last_values@[k].values@ =~= p.row_vals(row));
            }
        }
        assert(p.days_ok()) by {
            assert forall|x: int| 0 <= x < p.n_rows() implies ts_supported(
                #[trigger] p.timestamps@[x],
            ) && day_of(p.timestamps@[x]) == p.day as int by {
                assert(p.timestamps@[x] == rows@[a + x].ts);
                assert(ts_supported((rows@[a + x]).ts));
                assert(day_of((rows@[a + x]).ts) == day as int);
            }
        }
        assert(p.timestamps@ =~= Seq::new(rs.len(), |i: int| rs[i].ts));
        assert(p.symbols@ =~= Seq::new(rs.len(), |i: int| rs[i].sym));
        assert forall|d0: int| 0 <= d0 < ncols implies (#[trigger] p.columns@[d0])@ == Seq::new(
            rs.len(),
            |i: int| rs[i].vals[d0],
        ) by {
            assert(p.columns@[d0]@ =~= Seq::new(rs.len(), |i: int| rs[i].vals[d0]));
        }
    }
    p
}

} // verus!
