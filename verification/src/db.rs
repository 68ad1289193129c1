//! The table catalog: an in-memory database of tables, each a schema plus a
//! date-ordered list of partitions.
//!
//! `write` validates a batch, sorts it by `(day, symbol, timestamp)`, builds
//! one partition per day, replaces those days wholesale in the table, and
//! returns the encoded partition files so an unverified shell can persist
//! them. `asof` answers batched as-of probes against the catalog.

use vstd::prelude::*;
use vstd::string::StringExecFns;

use crate::asof::{
    asof_join, asof_result_matches, has_day, idx_of_day, lemma_days_pairwise, parts_wf,
    AsofResult,
};
use crate::dates::{day_of, day_to_date_str, micros_to_day, spec_date_int, spec_date_str_of_int,
    ts_supported, ymd_of_day, MAX_TS};
use crate::error::ZolaError;
use crate::format::{
    encode_column_file, encode_parted_file, encode_sidecar_file, i64_to_word,
    spec_column_file_bytes, spec_parted_bytes, spec_sidecar_bytes, word_of_i64,
    SIDECAR_HEADER_SIZE,
};
use crate::ingest::{
    build_partition, built_partition, day_in, day_rows, key_le, lemma_day_rows_contiguous,
    lemma_key_pairwise, lemma_sort_rows_sorted, lemma_sort_rows_supported, rows_ncols,
    rows_sorted_by_key, rows_supported, sort_batch, sort_rows, views_of, Row, RowV,
};
use crate::partition::Partition;
use crate::schema::{spec_schema_eq, Direction, Probes, Schema};

verus! {

/// One table: its schema and its partitions, ordered by day.
#[derive(Debug)]
pub struct TableInfo {
    pub schema: Schema,
    pub partitions: Vec<Partition>,
}

impl TableInfo {
    pub open spec fn wf(self) -> bool {
        parts_wf(self.partitions@, self.schema.value_columns@.len() as int)
    }
}

/// The in-memory catalog: tables by name.
#[derive(Debug)]
pub struct Db {
    pub tables: Vec<(String, TableInfo)>,
}

/// A name is present in the catalog.
pub open spec fn has_table(db: Db, name: Seq<char>) -> bool {
    exists|i: int| 0 <= i < db.tables@.len() && (#[trigger] db.tables@[i]).0@ == name
}

/// The index of a name in the catalog.
pub open spec fn table_idx(db: Db, name: Seq<char>) -> int {
    choose|i: int| 0 <= i < db.tables@.len() && (#[trigger] db.tables@[i]).0@ == name
}

/// The table of a name in the catalog.
pub open spec fn table_at(db: Db, name: Seq<char>) -> TableInfo {
    db.tables@[table_idx(db, name)].1
}

/// The partition covering day `d`.
pub open spec fn part_at_day(parts: Seq<Partition>, d: int) -> Partition {
    parts[idx_of_day(parts, d)]
}

impl Db {
    /// The catalog invariant: tables are well formed and names unique.
    pub open spec fn wf(self) -> bool {
        &&& forall|i: int| 0 <= i < self.tables@.len() ==> (#[trigger] self.tables@[i]).1.wf()
        &&& forall|i: int, j: int|
            0 <= i < j < self.tables@.len() ==> (#[trigger] self.tables@[i]).0@ != (
            #[trigger] self.tables@[j]).0@
    }

    /// An empty catalog.
    pub fn new() -> (db: Db)
        ensures
            db.wf(),
            db.tables@.len() == 0,
    {
        Db { tables: Vec::new() }
    }
}

impl TableInfo {
    /// Check the table invariant at run time, for data read from storage:
    /// every partition well formed with the schema's column count, days
    /// strictly ascending.
    pub fn check_wf(&self) -> (r: bool)
        ensures
            r == self.wf(),
    {
        let ncols = self.schema.value_columns.len();
        let m = self.partitions.len();
        let mut i: usize = 0;
        while i < m
            invariant
                i <= m,
                m == self.partitions@.len(),
                ncols == self.schema.value_columns@.len(),
                forall|k: int|
                    0 <= k < i ==> (#[trigger] self.partitions@[k]).wf()
                        && self.partitions@[k].columns@.len() == ncols,
                forall|k: int|
                    0 <= k < i - 1 ==> (#[trigger] self.partitions@[k]).day < self.partitions@[k
                        + 1].day,
            decreases m - i,
        {
            if !self.partitions[i].check_wf(ncols) {
                return false;
            }
            if i > 0 {
                if !(self.partitions[i - 1].day < self.partitions[i].day) {
                    return false;
                }
            }
            i = i + 1;
        }
        true
    }
}

impl Db {
    /// Check the catalog invariant at run time, for a catalog assembled from
    /// storage: every table well formed, names unique.
    pub fn check_wf(&self) -> (r: bool)
        ensures
            r == self.wf(),
    {
        let m = self.tables.len();
        let mut i: usize = 0;
        while i < m
            invariant
                i <= m,
                m == self.tables@.len(),
                forall|k: int| 0 <= k < i ==> (#[trigger] self.tables@[k]).1.wf(),
                forall|k1: int, k2: int|
                    0 <= k1 < k2 < i ==> (#[trigger] self.tables@[k1]).0@ != (
                    #[trigger] self.tables@[k2]).0@,
            decreases m - i,
        {
            if !self.tables[i].1.check_wf() {
                return false;
            }
            let mut j: usize = 0;
            while j < i
                invariant
                    j <= i < m,
                    m == self.tables@.len(),
                    forall|k: int| 0 <= k < j ==> (#[trigger] self.tables@[k]).0@ != self.tables@[
                        i as int].0@,
                decreases i - j,
            {
                if self.tables[j].0 == self.tables[i].0 {
                    return false;
                }
                j = j + 1;
            }
            i = i + 1;
        }
        true
    }
}

/// With unique names, the found index is the chosen one.
proof fn lemma_table_idx_unique(db: Db, i: int)
    requires
        db.wf(),
        0 <= i < db.tables@.len(),
    ensures
        has_table(db, db.tables@[i].0@),
        table_idx(db, db.tables@[i].0@) == i,
{
    let name = db.tables@[i].0@;
    assert(has_table(db, name));
    let ci = table_idx(db, name);
    if ci != i {
        if ci < i {
            assert(db.tables@[ci].0@ != db.tables@[i].0@);
        } else {
            assert(db.tables@[i].0@ != db.tables@[ci].0@);
        }
    }
}

/// With strictly ascending days, the found index is the chosen one.
proof fn lemma_day_idx_unique(parts: Seq<Partition>, i: int)
    requires
        forall|k: int| 0 <= k < parts.len() - 1 ==> (#[trigger] parts[k]).day < parts[k + 1].day,
        0 <= i < parts.len(),
    ensures
        has_day(parts, parts[i].day as int),
        idx_of_day(parts, parts[i].day as int) == i,
{
    let d = parts[i].day as int;
    assert(has_day(parts, d));
    let ci = idx_of_day(parts, d);
    if ci < i {
        lemma_days_pairwise(parts, ci, i);
    } else if ci > i {
        lemma_days_pairwise(parts, i, ci);
    }
}

/// Find a table by name.
fn find_table(db: &Db, name: &String) -> (r: Option<usize>)
    requires
        db.wf(),
    ensures
        r matches Some(i) ==> i < db.tables@.len() && db.tables@[i as int].0@ == name@
            && has_table(*db, name@) && table_idx(*db, name@) == i as int,
        r is None ==> !has_table(*db, name@),
{
    let n = db.tables.len();
    let mut i: usize = 0;
    while i < n
        invariant
            i <= n,
            n == db.tables@.len(),
            db.wf(),
            forall|k: int| 0 <= k < i ==> (#[trigger] db.tables@[k]).0@ != name@,
        decreases n - i,
    {
        if db.tables[i].0 == *name {
            proof {
                lemma_table_idx_unique(*db, i as int);
            }
            return Some(i);
        }
        i = i + 1;
    }
    proof {
        if has_table(*db, name@) {
            let w = choose|k: int|
                0 <= k < db.tables@.len() && (#[trigger] db.tables@[k]).0@ == name@;
        }
    }
    None
}

/// Insert a partition into a date-ordered list, replacing its day if present.
#[verifier::rlimit(100)]
fn upsert_partition(parts: &mut Vec<Partition>, p: Partition, Ghost(nc): Ghost<int>)
    requires
        parts_wf(old(parts)@, nc),
        p.wf(),
        p.columns@.len() == nc,
    ensures
        parts_wf(final(parts)@, nc),
        has_day(final(parts)@, p.day as int),
        part_at_day(final(parts)@, p.day as int) == p,
        forall|d: int|
            d != p.day ==> ((#[trigger] has_day(final(parts)@, d)) <==> has_day(old(parts)@, d)),
        forall|d: int|
            d != p.day && has_day(old(parts)@, d) ==> (#[trigger] part_at_day(final(parts)@, d))
                == part_at_day(old(parts)@, d),
{
    let n = parts.len();
    let mut j: usize = 0;
    while j < n && parts[j].day < p.day
        invariant
            j <= n,
            n == parts@.len(),
            parts@ == old(parts)@,
            forall|k: int| 0 <= k < j ==> (#[trigger] parts@[k]).day < p.day,
        decreases n - j,
    {
        j = j + 1;
    }
    let ghost pre = parts@;
    if j < n && parts[j].day == p.day {
        parts.set(j, p);
        proof {
            let post = parts@;
            assert forall|k: int|
                0 <= k < post.len() - 1 implies (#[trigger] post[k]).day < post[k + 1].day by {
                assert(pre[k].day < pre[k + 1].day);
            }
            lemma_day_idx_unique(post, j as int);
            assert forall|d: int|
                d != p.day implies ((#[trigger] has_day(post, d)) <==> has_day(pre, d)) by {
                if has_day(post, d) {
                    let w = choose|k: int|
                        0 <= k < post.len() && (#[trigger] post[k]).day == d;
                    assert(pre[w].day == d);
                    assert(has_day(pre, d));
                }
                if has_day(pre, d) {
                    let w = choose|k: int| 0 <= k < pre.len() && (#[trigger] pre[k]).day == d;
                    assert(post[w].day == d);
                    assert(has_day(post, d));
                }
            }
            assert forall|d: int|
                d != p.day && has_day(pre, d) implies (#[trigger] part_at_day(post, d))
                    == part_at_day(pre, d) by {
                let w = choose|k: int| 0 <= k < pre.len() && (#[trigger] pre[k]).day == d;
                lemma_day_idx_unique(pre, w);
                lemma_day_idx_unique(post, w);
            }
        }
    } else {
        proof {
            if j < n {
                assert(pre[j as int].day > p.day);
            }
        }
        parts.insert(j, p);
        proof {
            let post = parts@;
            assert(post == pre.insert(j as int, p));
            assert forall|k: int|
                0 <= k < post.len() - 1 implies (#[trigger] post[k]).day < post[k + 1].day by {
                if k < j as int - 1 {
                    assert(post[k] == pre[k] && post[k + 1] == pre[k + 1]);
                    assert(pre[k].day < pre[k + 1].day);
                } else if k == j as int - 1 {
                    assert(post[k] == pre[k] && post[k + 1] == p);
                } else if k == j as int {
                    assert(post[k] == p && post[k + 1] == pre[k]);
                    assert(pre[k].day > p.day);
                } else {
                    assert(post[k] == pre[k - 1] && post[k + 1] == pre[k]);
                    assert(pre[k - 1].day < pre[k].day);
                }
            }
            lemma_day_idx_unique(post, j as int);
            assert forall|d: int|
                d != p.day implies ((#[trigger] has_day(post, d)) <==> has_day(pre, d)) by {
                if has_day(post, d) {
                    let w = choose|k: int|
                        0 <= k < post.len() && (#[trigger] post[k]).day == d;
                    if w < j as int {
                        assert(pre[w].day == d);
                    } else {
                        assert(pre[w - 1].day == d);
                    }
                    assert(has_day(pre, d));
                }
                if has_day(pre, d) {
                    let w = choose|k: int| 0 <= k < pre.len() && (#[trigger] pre[k]).day == d;
                    if w < j as int {
                        assert(post[w].day == d);
                    } else {
                        assert(post[w + 1].day == d);
                    }
                    assert(has_day(post, d));
                }
            }
            assert forall|d: int|
                d != p.day && has_day(pre, d) implies (#[trigger] part_at_day(post, d))
                    == part_at_day(pre, d) by {
                let w = choose|k: int| 0 <= k < pre.len() && (#[trigger] pre[k]).day == d;
                lemma_day_idx_unique(pre, w);
                if w < j as int {
                    lemma_day_idx_unique(post, w);
                } else {
                    lemma_day_idx_unique(post, w + 1);
                }
            }
        }
    }
}

/// The encoded files of one partition, ready to persist under the partition's
/// directory name.
#[derive(Debug)]
pub struct PartitionFiles {
    /// The epoch day this partition covers.
    pub day: i64,
    /// The partition directory name, `YYYY.MM.DD`.
    pub date_str: String,
    /// Each file's name and exact bytes.
    pub files: Vec<(String, Vec<u8>)>,
}

/// The words that store a column of `i64` values.
pub open spec fn spec_i64_words(ts: Seq<i64>) -> Seq<u64> {
    Seq::new(ts.len(), |i: int| word_of_i64(ts[i]))
}

/// The file set of a partition: the two implicit columns, the value columns
/// in schema order, the parted index, and both sidecars, byte for byte.
pub open spec fn files_match_partition(pf: PartitionFiles, p: Partition, schema: Schema) -> bool {
    let ncols = schema.value_columns@.len() as int;
    &&& pf.day == p.day
    &&& pf.date_str@ == spec_date_str_of_int(spec_date_int(ymd_of_day(p.day as int)))
    &&& pf.files@.len() == 5 + ncols
    &&& pf.files@[0].0@ == "timestamp.col"@
    &&& pf.files@[0].1@ == spec_column_file_bytes(1, spec_i64_words(p.timestamps@))
    &&& pf.files@[1].0@ == "symbol.col"@
    &&& pf.files@[1].1@ == spec_column_file_bytes(1, spec_i64_words(p.symbols@))
    &&& forall|c: int|
        0 <= c < ncols ==> (#[trigger] pf.files@[2 + c]).0@ == schema.value_columns@[c].name@
            + ".col"@ && pf.files@[2 + c].1@ == spec_column_file_bytes(
            crate::schema::spec_col_type_code(schema.value_columns@[c].col_type),
            p.columns@[c]@,
        )
    &&& pf.files@[2 + ncols].0@ == ".parted"@
    &&& pf.files@[2 + ncols].1@ == spec_parted_bytes(p.parted@)
    &&& pf.files@[3 + ncols].0@ == ".last_values"@
    &&& pf.files@[3 + ncols].1@ == spec_sidecar_bytes((ncols as u32), p.last_values@)
    &&& pf.files@[4 + ncols].0@ == ".first_values"@
    &&& pf.files@[4 + ncols].1@ == spec_sidecar_bytes((ncols as u32), p.first_values@)
}

/// Every parted run holds at least one row, so there are no more runs than
/// rows.
proof fn lemma_parted_len_le(p: Partition)
    requires
        p.wf(),
    ensures
        p.parted@.len() <= p.n_rows(),
{
    if p.parted@.len() > 0 {
        lemma_parted_end_min(p.parted@, p.parted@.len() - 1);
    }
}

proof fn lemma_parted_end_min(q: Seq<crate::format::PartedEntry>, k: int)
    requires
        0 <= k < q.len(),
        forall|x: int| 0 <= x < q.len() ==> (#[trigger] q[x]).start < q[x].end,
        forall|x: int| 0 <= x < q.len() - 1 ==> (#[trigger] q[x]).end == q[x + 1].start,
    ensures
        q[k].end >= k + 1,
    decreases k,
{
    if k > 0 {
        lemma_parted_end_min(q, k - 1);
    }
}

fn i64s_to_words(xs: &Vec<i64>) -> (r: Vec<u64>)
    ensures
        r@ == spec_i64_words(xs@),
{
    let n = xs.len();
    let mut r: Vec<u64> = Vec::new();
    let mut i: usize = 0;
    while i < n
        invariant
            i <= n,
            n == xs@.len(),
            r@.len() == i,
            forall|j: int| 0 <= j < i ==> (#[trigger] r@[j]) == word_of_i64(xs@[j]),
        decreases n - i,
    {
        r.push(i64_to_word(xs[i]));
        i = i + 1;
    }
    proof {
        assert(r@ =~= spec_i64_words(xs@));
    }
    r
}

/// Encode one partition's file set.
fn partition_files(schema: &Schema, p: &Partition) -> (pf: PartitionFiles)
    requires
        p.wf(),
        p.columns@.len() == schema.value_columns@.len(),
        schema.value_columns@.len() < 0x1000_0000,
        p.n_rows() <= 0xffff_ffff,
        8 * (p.n_rows() + 3) <= usize::MAX,
        24 * p.n_rows() <= usize::MAX,
        SIDECAR_HEADER_SIZE + p.n_rows() * (16 + 8 * schema.value_columns@.len()) <= usize::MAX,
    ensures
        files_match_partition(pf, *p, *schema),
{
    proof {
        lemma_parted_len_le(*p);
        vstd::arithmetic::mul::lemma_mul_inequality(
            p.parted@.len() as int,
            p.n_rows(),
            16 + 8 * schema.value_columns@.len() as int,
        );
        assert forall|k: int|
            0 <= k < p.last_values@.len() implies (#[trigger] p.last_values@[k]).values@.len()
                == schema.value_columns@.len() by {
            assert(p.last_values@[k].values@ == p.row_vals(p.parted@[k].end - 1));
        }
        assert forall|k: int|
            0 <= k < p.first_values@.len() implies (#[trigger] p.first_values@[k]).values@.len()
                == schema.value_columns@.len() by {
            assert(p.first_values@[k].values@ == p.row_vals(p.parted@[k].start as int));
        }
    }
    let ncols = schema.value_columns.len();
    let mut files: Vec<(String, Vec<u8>)> = Vec::new();
    let ts_words = i64s_to_words(&p.timestamps);
    files.push((String::from_str("timestamp.col"), encode_column_file(1, &ts_words)));
    let sym_words = i64s_to_words(&p.symbols);
    files.push((String::from_str("symbol.col"), encode_column_file(1, &sym_words)));
    let mut c: usize = 0;
    while c < ncols
        invariant
            c <= ncols,
            ncols == schema.value_columns@.len(),
            ncols == p.columns@.len(),
            p.wf(),
            8 * (p.n_rows() + 3) <= usize::MAX,
            files@.len() == 2 + c,
            forall|b: int|
                0 <= b < c ==> (#[trigger] files@[2 + b]).0@ == schema.value_columns@[b].name@
                    + ".col"@ && files@[2 + b].1@ == spec_column_file_bytes(
                    crate::schema::spec_col_type_code(schema.value_columns@[b].col_type),
                    p.columns@[b]@,
                ),
            files@[0].0@ == "timestamp.col"@ && files@[0].1@ == spec_column_file_bytes(
                1,
                spec_i64_words(p.timestamps@),
            ),
            files@[1].0@ == "symbol.col"@ && files@[1].1@ == spec_column_file_bytes(
                1,
                spec_i64_words(p.symbols@),
            ),
        decreases ncols - c,
    {
        proof {
            reveal_strlit(".col");
        }
        let cd = &schema.value_columns[c];
        let name = cd.name.clone().concat(".col");
        let code = crate::schema::col_type_code(cd.col_type);
        let bytes = encode_column_file(code, &p.columns[c]);
        files.push((name, bytes));
        c = c + 1;
    }
    let parted_bytes = encode_parted_file(&p.parted);
    files.push((String::from_str(".parted"), parted_bytes));
    let last_bytes = encode_sidecar_file(ncols as u32, &p.last_values);
    files.push((String::from_str(".last_values"), last_bytes));
    let first_bytes = encode_sidecar_file(ncols as u32, &p.first_values);
    files.push((String::from_str(".first_values"), first_bytes));
    let date_str = day_to_date_str(p.day);
    let pf = PartitionFiles { day: p.day, date_str, files };
    proof {
        assert(files_match_partition(pf, *p, *schema));
    }
    pf
}

/// The facts `apply_groups` carries from group to group.
spec fn groups_inv(
    base: Seq<Partition>,
    parts: Seq<Partition>,
    out: Seq<PartitionFiles>,
    vs: Seq<RowV>,
    i: int,
    nc: int,
    schema: Schema,
) -> bool {
    &&& parts_wf(parts, nc)
    &&& forall|d: int|
        (exists|k: int| 0 <= k < i && day_of((#[trigger] vs[k]).ts) == d) ==> has_day(parts, d)
            && built_partition(part_at_day(parts, d), d, day_rows(vs, d), nc)
    &&& forall|d: int|
        !(exists|k: int| 0 <= k < i && day_of((#[trigger] vs[k]).ts) == d) ==> ((
        #[trigger] has_day(parts, d)) <==> has_day(base, d)) && (has_day(base, d)
            ==> part_at_day(parts, d) == part_at_day(base, d))
    &&& forall|k: int|
        0 <= k < out.len() ==> (exists|x: int|
            0 <= x < i && day_of((#[trigger] vs[x]).ts) == (#[trigger] out[k]).day as int)
            && files_match_partition(out[k], part_at_day(parts, out[k].day as int), schema)
    &&& forall|x: int| 0 <= x < i ==> day_covered(out, day_of((#[trigger] vs[x]).ts))
}

/// The batch-wide side conditions `apply_groups` works under.
spec fn groups_ctx(sorted: Seq<Row>, schema: Schema) -> bool {
    let vs = views_of(sorted);
    &&& rows_sorted_by_key(vs)
    &&& rows_supported(vs)
    &&& rows_ncols(vs, schema.value_columns@.len() as int)
    &&& forall|k: int| 0 <= k < sorted.len() ==> ts_supported((#[trigger] sorted[k]).ts)
    &&& schema.value_columns@.len() < 0x1000_0000
    &&& sorted.len() <= 0xffff_ffff
    &&& 8 * (sorted.len() + 3) <= usize::MAX
    &&& 24 * sorted.len() <= usize::MAX
    &&& SIDECAR_HEADER_SIZE + sorted.len() * (16 + 8 * schema.value_columns@.len()) <= usize::MAX
}

/// Build and apply the partition of the day run starting at `i`.
#[verifier::rlimit(100)]
#[verifier::spinoff_prover]
fn apply_one_group(
    parts: &mut Vec<Partition>,
    out: &mut Vec<PartitionFiles>,
    sorted: &Vec<Row>,
    schema: &Schema,
    i: usize,
    Ghost(base): Ghost<Seq<Partition>>,
) -> (j: usize)
    requires
        groups_ctx(sorted@, *schema),
        (i as int) < sorted@.len(),
        forall|k: int|
            0 <= k < i ==> day_of((#[trigger] views_of(sorted@)[k]).ts) < day_of(
                views_of(sorted@)[i as int].ts,
            ),
        groups_inv(
            base,
            old(parts)@,
            old(out)@,
            views_of(sorted@),
            i as int,
            schema.value_columns@.len() as int,
            *schema,
        ),
    ensures
        i < j <= sorted@.len(),
        (j as int) < sorted@.len() ==> forall|k: int|
            0 <= k < j ==> day_of((#[trigger] views_of(sorted@)[k]).ts) < day_of(
                views_of(sorted@)[j as int].ts,
            ),
        groups_inv(
            base,
            final(parts)@,
            final(out)@,
            views_of(sorted@),
            j as int,
            schema.value_columns@.len() as int,
            *schema,
        ),
{
    let ghost vs = views_of(sorted@);
    let ghost nc = schema.value_columns@.len() as int;
    let n = sorted.len();
    let ncols = schema.value_columns.len();
    proof {
        assert(vs[i as int].ts == sorted@[i as int].ts);
    }
    let d = micros_to_day(sorted[i].ts);
    let mut j = i + 1;
    while j < n && micros_to_day(sorted[j].ts) == d
        invariant
            i < j <= n,
            n == sorted@.len(),
            vs == views_of(sorted@),
            rows_supported(vs),
            forall|k: int| 0 <= k < n ==> ts_supported((#[trigger] sorted@[k]).ts),
            d == day_of(vs[i as int].ts),
            forall|k: int| i <= k < j ==> day_of((#[trigger] vs[k]).ts) == d as int,
        decreases n - j,
    {
        proof {
            assert(vs[j as int].ts == sorted@[j as int].ts);
        }
        j = j + 1;
    }
    proof {
        // Rows before the run have smaller days; rows after, larger.
        assert forall|k: int| 0 <= k < i implies day_of((#[trigger] vs[k]).ts) != d as int by {}
        assert forall|k: int| j <= k < n implies day_of((#[trigger] vs[k]).ts) > d as int by {
            if k > j as int {
                lemma_key_pairwise(vs, j as int, k);
            }
            assert(vs[j as int].ts == sorted@[j as int].ts);
            assert(day_of(vs[j as int].ts) != d as int);
            lemma_key_pairwise(vs, i as int, j as int);
        }
        lemma_day_rows_contiguous(vs, d as int, i as int, j as int);
        assert forall|x: int| i <= x < j - 1 implies key_le(
            (#[trigger] sorted@[x])@,
            sorted@[x + 1]@,
        ) by {
            assert(key_le(vs[x], vs[x + 1]));
        }
        assert forall|x: int|
            i <= x < j implies ts_supported((#[trigger] sorted@[x]).ts) && day_of(sorted@[x].ts)
                == d as int && sorted@[x].vals@.len() == ncols by {
            assert(vs[x].ts == sorted@[x].ts);
            assert(vs[x].vals == sorted@[x].vals@);
            assert(ts_supported(vs[x].ts));
            assert(day_of(vs[x].ts) == d as int);
            assert(vs[x].vals.len() == nc);
        }
    }
    let p = build_partition(sorted, i, j, ncols, d);
    proof {
        assert(views_of(sorted@).subrange(i as int, j as int) =~= vs.subrange(i as int, j as int));
        assert(built_partition(p, d as int, day_rows(vs, d as int), nc));
        assert(p.n_rows() == j - i);
        vstd::arithmetic::mul::lemma_mul_inequality(p.n_rows(), n as int, 16 + 8 * ncols as int);
    }
    let pf = partition_files(schema, &p);
    let ghost parts_pre = parts@;
    let ghost out_pre = out@;
    upsert_partition(parts, p, Ghost(nc));
    out.push(pf);
    proof {
        // The run's day had not been seen before this group.
        assert forall|d0: int|
            (exists|k: int| 0 <= k < j && day_of((#[trigger] vs[k]).ts) == d0) implies has_day(
            parts@,
            d0,
        ) && built_partition(part_at_day(parts@, d0), d0, day_rows(vs, d0), nc) by {
            if d0 == d as int {
                assert(has_day(parts@, d as int));
                assert(part_at_day(parts@, d as int) == p);
                assert(built_partition(p, d as int, day_rows(vs, d as int), nc));
            } else {
                let k = choose|k: int| 0 <= k < j && day_of((#[trigger] vs[k]).ts) == d0;
                assert(k < i);
                assert(has_day(parts_pre, d0) && built_partition(
                    part_at_day(parts_pre, d0),
                    d0,
                    day_rows(vs, d0),
                    nc,
                ));
                assert(part_at_day(parts@, d0) == part_at_day(parts_pre, d0));
            }
        }
        assert forall|d0: int|
            !(exists|k: int| 0 <= k < j && day_of((#[trigger] vs[k]).ts) == d0) implies ((
        #[trigger] has_day(parts@, d0)) <==> has_day(base, d0)) && (has_day(base, d0)
            ==> part_at_day(parts@, d0) == part_at_day(base, d0)) by {
            assert(d0 != d as int) by {
                assert(day_of(vs[i as int].ts) == d as int);
            }
        }
        assert forall|k: int|
            0 <= k < out@.len() implies (exists|x: int|
                0 <= x < j && day_of((#[trigger] vs[x]).ts) == (#[trigger] out@[k]).day as int)
                && files_match_partition(
                out@[k],
                part_at_day(parts@, out@[k].day as int),
                *schema,
            ) by {
            if k < out_pre.len() {
                assert(out@[k] == out_pre[k]);
                let x = choose|x: int|
                    0 <= x < i && day_of((#[trigger] vs[x]).ts) == out_pre[k].day as int;
                assert(out_pre[k].day != d);
                assert(part_at_day(parts@, out@[k].day as int) == part_at_day(
                    parts_pre,
                    out@[k].day as int,
                ));
            } else {
                assert(out@[k] == pf);
                assert(day_of(vs[i as int].ts) == d as int);
                assert(part_at_day(parts@, d as int) == p);
            }
        }
        assert forall|x: int| 0 <= x < j implies day_covered(
            out@,
            day_of((#[trigger] vs[x]).ts),
        ) by {
            let d0 = day_of(vs[x].ts);
            if d0 == d as int {
                assert(out@[out@.len() - 1].day as int == d0);
            } else {
                assert(x < i);
                assert(day_covered(out_pre, d0));
                let k0 = choose|k: int|
                    0 <= k < out_pre.len() && (#[trigger] out_pre[k]).day as int == d0;
                assert(out@[k0].day as int == d0);
            }
        }
    }
    j
}

/// Once every group is applied, the partition list and file sets satisfy the
/// write's contract.
#[verifier::rlimit(100)]
proof fn lemma_groups_final(
    base: Seq<Partition>,
    parts: Seq<Partition>,
    out: Seq<PartitionFiles>,
    vs: Seq<RowV>,
    nc: int,
    schema: Schema,
)
    requires
        groups_inv(base, parts, out, vs, vs.len() as int, nc, schema),
    ensures
        groups_applied(base, parts, vs, nc),
        files_describe(out, parts, vs, schema),
        files_cover(out, vs),
{
    assert forall|d: int| #[trigger] day_in(vs, d) implies has_day(parts, d) && built_partition(
        part_at_day(parts, d),
        d,
        day_rows(vs, d),
        nc,
    ) by {
        let k = choose|k: int| 0 <= k < vs.len() && day_of((#[trigger] vs[k]).ts) == d;
        assert(exists|x: int| 0 <= x < vs.len() as int && day_of((#[trigger] vs[x]).ts) == d);
    }
    assert forall|d: int| !day_in(vs, d) implies ((#[trigger] has_day(parts, d)) <==> has_day(
        base,
        d,
    )) && (has_day(base, d) ==> part_at_day(parts, d) == part_at_day(base, d)) by {
        assert(!(exists|k: int| 0 <= k < vs.len() as int && day_of((#[trigger] vs[k]).ts) == d))
            by {
            if exists|k: int| 0 <= k < vs.len() as int && day_of((#[trigger] vs[k]).ts) == d {
                let k = choose|k: int|
                    0 <= k < vs.len() as int && day_of((#[trigger] vs[k]).ts) == d;
                assert(day_in(vs, d));
            }
        }
    }
    assert forall|k: int|
        0 <= k < out.len() implies day_in(vs, (#[trigger] out[k]).day as int)
            && files_match_partition(out[k], part_at_day(parts, out[k].day as int), schema) by {
        let x = choose|x: int|
            0 <= x < vs.len() as int && day_of((#[trigger] vs[x]).ts) == (
            #[trigger] out[k]).day as int;
        assert(day_in(vs, out[k].day as int));
    }
    assert forall|x: int| 0 <= x < vs.len() implies day_covered(
        out,
        day_of((#[trigger] vs[x]).ts),
    ) by {
        assert(0 <= x < vs.len() as int);
    }
    assert(files_cover(out, vs));
}

/// Walk the sorted batch, build one partition per day run, and replace those
/// days in the partition list.
#[verifier::rlimit(100)]
fn apply_groups(parts: &mut Vec<Partition>, sorted: &Vec<Row>, schema: &Schema) -> (out: Vec<
    PartitionFiles,
>)
    requires
        parts_wf(old(parts)@, schema.value_columns@.len() as int),
        rows_sorted_by_key(views_of(sorted@)),
        rows_supported(views_of(sorted@)),
        rows_ncols(views_of(sorted@), schema.value_columns@.len() as int),
        schema.value_columns@.len() < 0x1000_0000,
        sorted@.len() <= 0xffff_ffff,
        8 * (sorted@.len() + 3) <= usize::MAX,
        24 * sorted@.len() <= usize::MAX,
        SIDECAR_HEADER_SIZE + sorted@.len() * (16 + 8 * schema.value_columns@.len())
            <= usize::MAX,
    ensures
        parts_wf(final(parts)@, schema.value_columns@.len() as int),
        groups_applied(
            old(parts)@,
            final(parts)@,
            views_of(sorted@),
            schema.value_columns@.len() as int,
        ),
        files_describe(out@, final(parts)@, views_of(sorted@), *schema),
        files_cover(out@, views_of(sorted@)),
{
    let ghost vs = views_of(sorted@);
    let ghost nc = schema.value_columns@.len() as int;
    let ghost base = old(parts)@;
    let n = sorted.len();
    let mut out: Vec<PartitionFiles> = Vec::new();
    proof {
        assert forall|k: int| 0 <= k < n implies ts_supported((#[trigger] sorted@[k]).ts) by {
            assert(vs[k].ts == sorted@[k].ts);
            assert(ts_supported(vs[k].ts));
        }
        assert(groups_ctx(sorted@, *schema));
    }
    let mut i: usize = 0;
    while i < n
        invariant
            i <= n,
            n == sorted@.len(),
            vs == views_of(sorted@),
            nc == schema.value_columns@.len() as int,
            base == old(parts)@,
            groups_ctx(sorted@, *schema),
            i < n ==> forall|k: int| 0 <= k < i ==> day_of((#[trigger] vs[k]).ts) < day_of(
                vs[i as int].ts,
            ),
            groups_inv(base, parts@, out@, vs, i as int, nc, *schema),
        decreases n - i,
    {
        let j = apply_one_group(parts, &mut out, sorted, schema, i, Ghost(base));
        i = j;
    }
    proof {
        assert(groups_inv(base, parts@, out@, vs, vs.len() as int, nc, *schema));
        lemma_groups_final(base, parts@, out@, vs, nc, *schema);
    }
    out
}

/// The view of a write batch: one row per index.
pub open spec fn batch_views(ts: Seq<i64>, sy: Seq<i64>, cols: Seq<Seq<u64>>) -> Seq<RowV> {
    Seq::new(
        ts.len(),
        |i: int| RowV { ts: ts[i], sym: sy[i], vals: Seq::new(cols.len(), |c: int| cols[c][i]) },
    )
}

/// The inner views of a column list.
pub open spec fn col_views(cols: Seq<Vec<u64>>) -> Seq<Seq<u64>> {
    Seq::new(cols.len(), |c: int| cols[c]@)
}

/// A write's arguments are accepted: lengths agree, and (for a non-empty
/// batch) every timestamp is supported and any existing table's schema
/// matches.
pub open spec fn write_accepted(
    db: Db,
    name: Seq<char>,
    schema: Schema,
    ts: Seq<i64>,
    sy: Seq<i64>,
    cols: Seq<Seq<u64>>,
) -> bool {
    &&& sy.len() == ts.len()
    &&& cols.len() == schema.value_columns@.len()
    &&& forall|c: int| 0 <= c < cols.len() ==> (#[trigger] cols[c]).len() == ts.len()
    &&& (ts.len() == 0 || {
        &&& forall|i: int| 0 <= i < ts.len() ==> ts_supported(#[trigger] ts[i])
        &&& has_table(db, name) ==> spec_schema_eq(table_at(db, name).schema, schema)
    })
}

/// What a successful non-empty write did to the catalog: the named table
/// holds the batch's days rebuilt from the sorted batch, everything else is
/// untouched.
pub open spec fn write_effect(
    old_db: Db,
    new_db: Db,
    name: Seq<char>,
    schema: Schema,
    batch: Seq<RowV>,
) -> bool {
    let sorted = sort_rows(batch);
    let oldparts = if has_table(old_db, name) {
        table_at(old_db, name).partitions@
    } else {
        Seq::empty()
    };
    let newparts = table_at(new_db, name).partitions@;
    &&& new_db.wf()
    &&& has_table(new_db, name)
    &&& spec_schema_eq(table_at(new_db, name).schema, schema)
    &&& forall|d: int|
        #[trigger] day_in(sorted, d) ==> has_day(newparts, d) && built_partition(
            part_at_day(newparts, d),
            d,
            day_rows(sorted, d),
            schema.value_columns@.len() as int,
        )
    &&& forall|d: int|
        !day_in(sorted, d) ==> ((#[trigger] has_day(newparts, d)) <==> has_day(oldparts, d)) && (
        has_day(oldparts, d) ==> part_at_day(newparts, d) == part_at_day(oldparts, d))
    &&& untouched_tables(old_db, new_db, name)
}

/// What `asof` promises: an unknown table errors with `TableNotFound`; a
/// known one answers every probe per `spec_lookup` exactly when all probe
/// timestamps are supported, and errors with `SchemaMismatch` otherwise.
pub open spec fn asof_post(
    db: Db,
    name: Seq<char>,
    probes: Probes,
    direction: Direction,
    r: Result<AsofResult, ZolaError>,
) -> bool {
    &&& !has_table(db, name) ==> (r matches Err(e) && (e matches ZolaError::TableNotFound(nm)
        && nm@ == name))
    &&& has_table(db, name) ==> {
        &&& r.is_ok() <==> (forall|i: int|
            0 <= i < probes.timestamps@.len() ==> ts_supported(#[trigger] probes.timestamps@[i]))
        &&& (r matches Ok(res) ==> asof_result_matches(
            res,
            table_at(db, name).schema,
            table_at(db, name).partitions@,
            probes,
            direction,
        ))
        &&& (r matches Err(e) ==> e matches ZolaError::SchemaMismatch(_))
    }
}

fn clone_schema(s: &Schema) -> (r: Schema)
    ensures
        spec_schema_eq(r, *s),
        r.value_columns@.len() == s.value_columns@.len(),
{
    let n = s.value_columns.len();
    let mut cols: Vec<crate::schema::ColumnDef> = Vec::new();
    let mut i: usize = 0;
    while i < n
        invariant
            i <= n,
            n == s.value_columns@.len(),
            cols@.len() == i,
            forall|j: int|
                0 <= j < i ==> (#[trigger] cols@[j]).name@ == s.value_columns@[j].name@
                    && cols@[j].col_type == s.value_columns@[j].col_type,
        decreases n - i,
    {
        let cd = &s.value_columns[i];
        cols.push(crate::schema::ColumnDef { name: cd.name.clone(), col_type: cd.col_type });
        i = i + 1;
    }
    Schema { value_columns: cols }
}

impl Db {
    /// Write a batch of observations into a table, replacing every UTC day
    /// the batch touches, and return the partition file images to persist.
    ///
    /// Errors with `SchemaMismatch`, leaving the catalog unchanged, exactly
    /// when lengths disagree, a timestamp is unsupported, or the table exists
    /// with a different schema. An empty batch is accepted and does nothing.
    #[verifier::rlimit(100)]
    pub fn write(
        &mut self,
        table: &str,
        schema: &Schema,
        timestamps: &Vec<i64>,
        symbols: &Vec<i64>,
        columns: &Vec<Vec<u64>>,
    ) -> (r: Result<Vec<PartitionFiles>, ZolaError>)
        requires
            old(self).wf(),
            schema.value_columns@.len() < 0x1000_0000,
            timestamps@.len() <= 0xffff_ffff,
            8 * (timestamps@.len() + 3) <= usize::MAX,
            24 * timestamps@.len() <= usize::MAX,
            SIDECAR_HEADER_SIZE + timestamps@.len() * (16 + 8 * schema.value_columns@.len())
                <= usize::MAX,
        ensures
            final(self).wf(),
            r.is_ok() <==> write_accepted(
                *old(self),
                table@,
                *schema,
                timestamps@,
                symbols@,
                col_views(columns@),
            ),
            r is Err ==> *final(self) == *old(self) && (r matches Err(e)
                ==> e matches ZolaError::SchemaMismatch(_)),
            r.is_ok() && timestamps@.len() == 0 ==> *final(self) == *old(self) && (r matches Ok(
                files,
            ) ==> files@.len() == 0),
            r.is_ok() && timestamps@.len() > 0 ==> write_effect(
                *old(self),
                *final(self),
                table@,
                *schema,
                batch_views(timestamps@, symbols@, col_views(columns@)),
            ),
            r matches Ok(files) ==> {
                let sorted = sort_rows(batch_views(timestamps@, symbols@, col_views(columns@)));
                &&& files_describe(
                    files@,
                    table_at(*final(self), table@).partitions@,
                    sorted,
                    *schema,
                )
                &&& files_cover(files@, sorted)
            },
    {
        let ghost cvs = col_views(columns@);
        let ghost batch = batch_views(timestamps@, symbols@, cvs);
        let n = timestamps.len();
        let ncols = schema.value_columns.len();
        if symbols.len() != n {
            return Err(ZolaError::SchemaMismatch(String::from_str(
                "timestamp and symbol counts differ",
            )));
        }
        if columns.len() != ncols {
            return Err(ZolaError::SchemaMismatch(String::from_str(
                "column count differs from the schema",
            )));
        }
        let mut c: usize = 0;
        while c < ncols
            invariant
                c <= ncols,
                ncols == columns@.len(),
                ncols == schema.value_columns@.len(),
                n == timestamps@.len(),
                n == symbols@.len(),
                *self == *old(self),
                old(self).wf(),
                forall|b: int| 0 <= b < c ==> (#[trigger] columns@[b])@.len() == n,
            decreases ncols - c,
        {
            if columns[c].len() != n {
                proof {
                    assert(col_views(columns@)[c as int].len() != timestamps@.len());
                }
                return Err(ZolaError::SchemaMismatch(String::from_str(
                    "column length differs from the row count",
                )));
            }
            c = c + 1;
        }
        proof {
            assert forall|c: int| 0 <= c < col_views(columns@).len() implies (#[trigger] col_views(
                columns@,
            )[c]).len() == timestamps@.len() by {
                assert(columns@[c]@.len() == n);
            }
        }
        if n == 0 {
            return Ok(Vec::new());
        }
        let name = table.to_owned();
        // An existing table must carry the same schema.
        let existing = find_table(self, &name);
        if let Some(ti) = existing {
            if !self.tables[ti].1.schema.matches(schema) {
                return Err(ZolaError::SchemaMismatch(String::from_str(
                    "table exists with a different schema",
                )));
            }
        }
        // Build the rows, rejecting unsupported timestamps.
        let mut rows: Vec<Row> = Vec::new();
        let mut i: usize = 0;
        while i < n
            invariant
                i <= n,
                n == timestamps@.len(),
                n == symbols@.len(),
                n > 0,
                ncols == columns@.len(),
                ncols == schema.value_columns@.len(),
                *self == *old(self),
                old(self).wf(),
                forall|b: int| 0 <= b < ncols ==> (#[trigger] columns@[b])@.len() == n,
                cvs == col_views(columns@),
                batch == batch_views(timestamps@, symbols@, cvs),
                rows@.len() == i,
                forall|x: int| 0 <= x < i ==> ts_supported(#[trigger] timestamps@[x]),
                forall|x: int| 0 <= x < i ==> (#[trigger] rows@[x])@ == batch[x],
            decreases n - i,
        {
            let t = timestamps[i];
            if t < 0 || t > MAX_TS {
                return Err(ZolaError::SchemaMismatch(String::from_str(
                    "timestamp outside the supported calendar range",
                )));
            }
            let mut vals: Vec<u64> = Vec::new();
            let mut c2: usize = 0;
            while c2 < ncols
                invariant
                    c2 <= ncols,
                    i < n,
                    n == timestamps@.len(),
                    ncols == columns@.len(),
                    forall|b: int| 0 <= b < ncols ==> (#[trigger] columns@[b])@.len() == n,
                    vals@.len() == c2,
                    forall|b: int| 0 <= b < c2 ==> (#[trigger] vals@[b]) == columns@[b]@[i as int],
                decreases ncols - c2,
            {
                vals.push(columns[c2][i]);
                c2 = c2 + 1;
            }
            rows.push(Row { ts: t, sym: symbols[i], vals });
            proof {
                assert(rows@.last()@.vals =~= batch[i as int].vals);
                assert(rows@.last()@ =~= batch[i as int]);
            }
            i = i + 1;
        }
        proof {
            assert(views_of(rows@) =~= batch);
            assert(rows_supported(batch));
            assert(rows_ncols(batch, ncols as int)) by {
                assert forall|x: int| 0 <= x < batch.len() implies (#[trigger] batch[x]).vals.len()
                    == ncols by {}
            }
        }
        let sorted = sort_batch(rows);
        proof {
            lemma_sort_rows_sorted(batch);
            lemma_sort_rows_supported(batch, ncols as int);
            assert(rows_sorted_by_key(views_of(sorted@)));
        }
        // Take the table out of the catalog (or make a fresh one), update its
        // partitions, and put it back.
        let ghost old_db = *self;
        let stored_schema: Schema;
        let mut parts_vec: Vec<Partition>;
        match existing {
            Some(ti) => {
                let (_nm, info0) = self.tables.remove(ti);
                let TableInfo { schema: s0, partitions: p0 } = info0;
                stored_schema = s0;
                parts_vec = p0;
            },
            None => {
                stored_schema = clone_schema(schema);
                parts_vec = Vec::new();
            },
        }
        proof {
            assert(parts_wf(parts_vec@, ncols as int)) by {
                match existing {
                    Some(ti) => {
                        assert(old_db.tables@[ti as int].1.wf());
                        assert(spec_schema_eq(old_db.tables@[ti as int].1.schema, *schema));
                    },
                    None => {},
                }
            }
        }
        let ghost parts_before = parts_vec@;
        let files = apply_groups(&mut parts_vec, &sorted, schema);
        let info = TableInfo { schema: stored_schema, partitions: parts_vec };
        self.tables.push((name, info));
        proof {
            match existing {
                Some(ti) => {
                    assert(self.tables@.drop_last() =~= old_db.tables@.remove(ti as int));
                },
                None => {
                    assert(self.tables@.drop_last() =~= old_db.tables@);
                },
            }
            assert(views_of(sorted@) == sort_rows(batch));
            lemma_write_catalog(old_db, *self, existing, table@, *schema, batch, parts_before);
            assert(table_at(*self, table@).partitions@ == self.tables@.last().1.partitions@);
            assert(files_describe(
                files@,
                table_at(*self, table@).partitions@,
                sort_rows(batch),
                *schema,
            ));
            assert(files_cover(files@, sort_rows(batch)));
        }
        Ok(files)
    }

    /// Answer a batched as-of query against a table.
    ///
    /// Errors with `TableNotFound` exactly when the table is unknown, and
    /// with `SchemaMismatch` exactly when a probe timestamp is outside the
    /// supported calendar range; otherwise each probe resolves independently
    /// per `spec_lookup`.
    #[verifier::rlimit(100)]
    pub fn asof(&self, table: &str, probes: &Probes, direction: Direction) -> (r: Result<
        AsofResult,
        ZolaError,
    >)
        requires
            self.wf(),
            probes.symbols@.len() == probes.timestamps@.len(),
        ensures
            asof_post(*self, table@, *probes, direction, r),
    {
        let name = table.to_owned();
        match find_table(self, &name) {
            Some(ti) => {
                let info = &self.tables[ti].1;
                proof {
                    assert(info.wf());
                    assert(table_at(*self, table@) == self.tables@[ti as int].1);
                }
                let r = asof_join(&info.schema, &info.partitions, probes, direction);
                proof {
                    assert(table_at(*self, table@).schema == info.schema);
                    assert(table_at(*self, table@).partitions@ == info.partitions@);
                    assert(r matches Ok(res) ==> asof_result_matches(
                        res,
                        table_at(*self, table@).schema,
                        table_at(*self, table@).partitions@,
                        *probes,
                        direction,
                    ));
                    assert(asof_post(*self, table@, *probes, direction, r));
                }
                r
            },
            None => {
                let r: Result<AsofResult, ZolaError> = Err(ZolaError::TableNotFound(name));
                proof {
                    assert(asof_post(*self, table@, *probes, direction, r));
                }
                r
            },
        }
    }
}

/// The catalog right after splicing: the old catalog with the named table
/// taken out (if it existed) and the updated one pushed at the end.
spec fn splice_pre(
    old_db: Db,
    new_db: Db,
    existing: Option<usize>,
    name: Seq<char>,
    schema: Schema,
    parts_before: Seq<Partition>,
) -> bool {
    match existing {
        Some(ti) => 0 <= ti < old_db.tables@.len() && old_db.tables@[ti as int].0@ == name
            && table_idx(old_db, name) == ti as int && has_table(old_db, name)
            && new_db.tables@.drop_last() == old_db.tables@.remove(ti as int) && parts_before
            == old_db.tables@[ti as int].1.partitions@ && spec_schema_eq(
            new_db.tables@.last().1.schema,
            schema,
        ) && new_db.tables@.last().1.schema == old_db.tables@[ti as int].1.schema,
        None => !has_table(old_db, name) && new_db.tables@.drop_last() == old_db.tables@
            && parts_before == Seq::<Partition>::empty() && spec_schema_eq(
            new_db.tables@.last().1.schema,
            schema,
        ),
    }
}

/// Every table other than `name` is exactly as it was.
pub open spec fn untouched_tables(old_db: Db, new_db: Db, name: Seq<char>) -> bool {
    forall|k: Seq<char>|
        k != name ==> ((#[trigger] has_table(new_db, k)) <==> has_table(old_db, k)) && (has_table(
            old_db,
            k,
        ) ==> table_at(new_db, k) == table_at(old_db, k))
}

/// Each returned file set describes the partition now standing at its day.
pub open spec fn files_describe(
    files: Seq<PartitionFiles>,
    parts: Seq<Partition>,
    vs: Seq<RowV>,
    schema: Schema,
) -> bool {
    forall|k: int|
        0 <= k < files.len() ==> day_in(vs, (#[trigger] files[k]).day as int)
            && files_match_partition(files[k], part_at_day(parts, files[k].day as int), schema)
}

/// Some returned file set is for day `d`.
pub open spec fn day_covered(files: Seq<PartitionFiles>, d: int) -> bool {
    exists|k: int| 0 <= k < files.len() && (#[trigger] files[k]).day as int == d
}

/// Every written row's day has a returned file set.
pub open spec fn files_cover(files: Seq<PartitionFiles>, vs: Seq<RowV>) -> bool {
    forall|x: int| 0 <= x < vs.len() ==> day_covered(files, day_of((#[trigger] vs[x]).ts))
}

/// A partition list holds the sorted batch's days rebuilt, and every other
/// day as before.
pub open spec fn groups_applied(
    oldparts: Seq<Partition>,
    newparts: Seq<Partition>,
    sorted: Seq<RowV>,
    ncols: int,
) -> bool {
    &&& forall|d: int|
        #[trigger] day_in(sorted, d) ==> has_day(newparts, d) && built_partition(
            part_at_day(newparts, d),
            d,
            day_rows(sorted, d),
            ncols,
        )
    &&& forall|d: int|
        !day_in(sorted, d) ==> ((#[trigger] has_day(newparts, d)) <==> has_day(oldparts, d)) && (
        has_day(oldparts, d) ==> part_at_day(newparts, d) == part_at_day(oldparts, d))
}

/// The elementwise shape of a spliced catalog: the old tables (minus the
/// replaced one) in order, then the updated table.
spec fn splice_elem(old_db: Db, new_db: Db, existing: Option<usize>) -> bool {
    let m = new_db.tables@.len() - 1;
    match existing {
        Some(ti) => {
            &&& m == old_db.tables@.len() - 1
            &&& 0 <= ti < old_db.tables@.len()
            &&& forall|i: int|
                0 <= i < m ==> (#[trigger] new_db.tables@[i]) == (if i < ti as int {
                    old_db.tables@[i]
                } else {
                    old_db.tables@[i + 1]
                })
        },
        None => {
            &&& m == old_db.tables@.len()
            &&& forall|i: int| 0 <= i < m ==> (#[trigger] new_db.tables@[i]) == old_db.tables@[i]
        },
    }
}

proof fn lemma_splice_elem(
    old_db: Db,
    new_db: Db,
    existing: Option<usize>,
    name: Seq<char>,
    schema: Schema,
    parts_before: Seq<Partition>,
)
    requires
        new_db.tables@.len() > 0,
        splice_pre(old_db, new_db, existing, name, schema, parts_before),
    ensures
        splice_elem(old_db, new_db, existing),
{
    let m = new_db.tables@.len() - 1;
    let pre = new_db.tables@.drop_last();
    let olds = old_db.tables@;
    match existing {
        Some(ti) => {
            assert(pre == olds.subrange(0, ti as int) + olds.subrange(
                ti as int + 1,
                olds.len() as int,
            ));
            assert forall|i: int| 0 <= i < m implies (#[trigger] new_db.tables@[i]) == (if i
                < ti as int {
                olds[i]
            } else {
                olds[i + 1]
            }) by {
                assert(new_db.tables@[i] == pre[i]);
            }
        },
        None => {
            assert forall|i: int| 0 <= i < m implies (#[trigger] new_db.tables@[i])
                == olds[i] by {
                assert(new_db.tables@[i] == pre[i]);
            }
        },
    }
}

#[verifier::rlimit(100)]
proof fn lemma_splice_unique(old_db: Db, new_db: Db, existing: Option<usize>, name: Seq<char>)
    requires
        old_db.wf(),
        new_db.tables@.len() > 0,
        new_db.tables@.last().0@ == name,
        splice_elem(old_db, new_db, existing),
        match existing {
            Some(ti) => 0 <= ti < old_db.tables@.len() && old_db.tables@[ti as int].0@ == name,
            None => !has_table(old_db, name),
        },
    ensures
        forall|i: int, j: int|
            0 <= i < j < new_db.tables@.len() ==> (#[trigger] new_db.tables@[i]).0@ != (
            #[trigger] new_db.tables@[j]).0@,
{
    let m = new_db.tables@.len() - 1;
    assert forall|i: int, j: int|
        0 <= i < j < new_db.tables@.len() implies (#[trigger] new_db.tables@[i]).0@ != (
    #[trigger] new_db.tables@[j]).0@ by {
        match existing {
            Some(ti) => {
                let oi = if i < ti as int {
                    i
                } else {
                    i + 1
                };
                assert(new_db.tables@[i] == old_db.tables@[oi]);
                if j < m {
                    let oj = if j < ti as int {
                        j
                    } else {
                        j + 1
                    };
                    assert(new_db.tables@[j] == old_db.tables@[oj]);
                } else {
                    if new_db.tables@[i].0@ == name {
                        assert(old_db.tables@[oi].0@ == old_db.tables@[ti as int].0@);
                        if oi < ti as int {
                            assert(old_db.tables@[oi].0@ != old_db.tables@[ti as int].0@);
                        } else {
                            assert(old_db.tables@[ti as int].0@ != old_db.tables@[oi].0@);
                        }
                    }
                }
            },
            None => {
                assert(new_db.tables@[i] == old_db.tables@[i]);
                if j < m {
                    assert(new_db.tables@[j] == old_db.tables@[j]);
                } else {
                    if new_db.tables@[i].0@ == name {
                        assert(has_table(old_db, name));
                    }
                }
            },
        }
    }
}

#[verifier::rlimit(100)]
proof fn lemma_splice_untouched(old_db: Db, new_db: Db, existing: Option<usize>, name: Seq<char>)
    requires
        old_db.wf(),
        new_db.wf(),
        new_db.tables@.len() > 0,
        new_db.tables@.last().0@ == name,
        splice_elem(old_db, new_db, existing),
        match existing {
            Some(ti) => 0 <= ti < old_db.tables@.len() && old_db.tables@[ti as int].0@ == name,
            None => !has_table(old_db, name),
        },
    ensures
        untouched_tables(old_db, new_db, name),
{
    let m = new_db.tables@.len() - 1;
    assert forall|k: Seq<char>|
        k != name implies ((#[trigger] has_table(new_db, k)) <==> has_table(old_db, k)) && (
    has_table(old_db, k) ==> table_at(new_db, k) == table_at(old_db, k)) by {
        match existing {
            Some(ti) => {
                if has_table(new_db, k) {
                    let w = choose|i: int|
                        0 <= i < new_db.tables@.len() && (#[trigger] new_db.tables@[i]).0@ == k;
                    assert(w < m);
                    let ow = if w < ti as int {
                        w
                    } else {
                        w + 1
                    };
                    assert(new_db.tables@[w] == old_db.tables@[ow]);
                    assert(has_table(old_db, k));
                }
                if has_table(old_db, k) {
                    let w = choose|i: int|
                        0 <= i < old_db.tables@.len() && (#[trigger] old_db.tables@[i]).0@ == k;
                    assert(w != ti as int) by {
                        if w == ti as int {
                            assert(old_db.tables@[ti as int].0@ == name);
                        }
                    }
                    let nw = if w < ti as int {
                        w
                    } else {
                        w - 1
                    };
                    assert(new_db.tables@[nw] == old_db.tables@[w]);
                    assert(has_table(new_db, k));
                    lemma_table_idx_unique(new_db, nw);
                    lemma_table_idx_unique(old_db, w);
                }
            },
            None => {
                if has_table(new_db, k) {
                    let w = choose|i: int|
                        0 <= i < new_db.tables@.len() && (#[trigger] new_db.tables@[i]).0@ == k;
                    assert(w < m);
                    assert(new_db.tables@[w] == old_db.tables@[w]);
                    assert(has_table(old_db, k));
                }
                if has_table(old_db, k) {
                    let w = choose|i: int|
                        0 <= i < old_db.tables@.len() && (#[trigger] old_db.tables@[i]).0@ == k;
                    assert(new_db.tables@[w] == old_db.tables@[w]);
                    assert(has_table(new_db, k));
                    lemma_table_idx_unique(new_db, w);
                    lemma_table_idx_unique(old_db, w);
                }
            },
        }
    }
}

/// Splicing the updated table back into the catalog leaves every other table
/// as it was and keeps the catalog well formed.
#[verifier::rlimit(100)]
proof fn lemma_write_catalog(
    old_db: Db,
    new_db: Db,
    existing: Option<usize>,
    name: Seq<char>,
    schema: Schema,
    batch: Seq<RowV>,
    parts_before: Seq<Partition>,
)
    requires
        old_db.wf(),
        new_db.tables@.len() > 0,
        new_db.tables@.last().0@ == name,
        splice_pre(old_db, new_db, existing, name, schema, parts_before),
        parts_wf(new_db.tables@.last().1.partitions@, schema.value_columns@.len() as int),
        groups_applied(
            parts_before,
            new_db.tables@.last().1.partitions@,
            sort_rows(batch),
            schema.value_columns@.len() as int,
        ),
    ensures
        new_db.wf(),
        write_effect(old_db, new_db, name, schema, batch),
        table_at(new_db, name) == new_db.tables@.last().1,
{
    let m = new_db.tables@.len() - 1;
    lemma_splice_elem(old_db, new_db, existing, name, schema, parts_before);
    lemma_splice_unique(old_db, new_db, existing, name);
    // Every table well formed.
    assert forall|i: int| 0 <= i < new_db.tables@.len() implies (#[trigger] new_db.tables@[i]).1.wf()
        by {
        if i < m {
            match existing {
                Some(ti) => {
                    let oi = if i < ti as int {
                        i
                    } else {
                        i + 1
                    };
                    assert(new_db.tables@[i] == old_db.tables@[oi]);
                    assert(old_db.tables@[oi].1.wf());
                },
                None => {
                    assert(new_db.tables@[i] == old_db.tables@[i]);
                    assert(old_db.tables@[i].1.wf());
                },
            }
        } else {
            assert(new_db.tables@[i].1.partitions@ == new_db.tables@.last().1.partitions@);
            assert(new_db.tables@[i].1.schema.value_columns@.len()
                == schema.value_columns@.len());
        }
    }
    lemma_table_idx_unique(new_db, m);
    lemma_splice_untouched(old_db, new_db, existing, name);
    match existing {
        Some(ti) => {
            lemma_table_idx_unique(old_db, ti as int);
            assert(table_at(old_db, name) == old_db.tables@[ti as int].1);
            assert(table_at(old_db, name).partitions@ == parts_before);
        },
        None => {},
    }
    assert(table_at(new_db, name) == new_db.tables@[m].1);
    assert(write_effect(old_db, new_db, name, schema, batch));
}

} // verus!
