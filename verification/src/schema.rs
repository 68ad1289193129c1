//! The data model: column types, schemas, probe batches, and null sentinels.
//!
//! Every column is stored as raw 8-byte words. An `I64` column's words are
//! two's-complement integers; an `F64` column's words are IEEE-754 bit
//! patterns, which the store never interprets, so round-trips are bit-exact.

use vstd::prelude::*;
use vstd::string::StringExecFns;

use crate::error::ZolaError;
use crate::format::word_of_i64;

verus! {

/// The null sentinel for `I64` results.
pub const NULL_I64: i64 = i64::MIN;

/// The null sentinel for `F64` results: the bits of a quiet NaN.
pub const NULL_F64_BITS: u64 = 0x7ff8_0000_0000_0000;

/// The type of one value column.
#[derive(Debug, Clone, Copy, PartialEq, Eq, Structural)]
pub enum ColumnType {
    I64,
    F64,
}

/// The on-disk and on-wire code of a column type.
pub open spec fn spec_col_type_code(t: ColumnType) -> u32 {
    match t {
        ColumnType::I64 => 1,
        ColumnType::F64 => 2,
    }
}

#[verifier::when_used_as_spec(spec_col_type_code)]
pub fn col_type_code(t: ColumnType) -> (r: u32)
    ensures
        r == spec_col_type_code(t),
{
    match t {
        ColumnType::I64 => 1,
        ColumnType::F64 => 2,
    }
}

/// The column type a code names, if any.
pub open spec fn spec_col_type_of_code(c: u32) -> Option<ColumnType> {
    if c == 1 {
        Some(ColumnType::I64)
    } else if c == 2 {
        Some(ColumnType::F64)
    } else {
        None
    }
}

#[verifier::when_used_as_spec(spec_col_type_of_code)]
pub fn col_type_of_code(c: u32) -> (r: Option<ColumnType>)
    ensures
        r == spec_col_type_of_code(c),
{
    if c == 1 {
        Some(ColumnType::I64)
    } else if c == 2 {
        Some(ColumnType::F64)
    } else {
        None
    }
}

/// The null word of a column, by its type.
pub open spec fn spec_null_word(t: ColumnType) -> u64 {
    match t {
        ColumnType::I64 => word_of_i64(NULL_I64),
        ColumnType::F64 => NULL_F64_BITS,
    }
}

pub fn null_word(t: ColumnType) -> (r: u64)
    ensures
        r == spec_null_word(t),
{
    match t {
        ColumnType::I64 => crate::format::i64_to_word(NULL_I64),
        ColumnType::F64 => NULL_F64_BITS,
    }
}

/// One declared value column.
#[derive(Debug, Clone)]
pub struct ColumnDef {
    pub name: String,
    pub col_type: ColumnType,
}

/// The declared value columns of a table, in order. The implicit `timestamp`
/// and `symbol` columns are never listed.
#[derive(Debug, Clone)]
pub struct Schema {
    pub value_columns: Vec<ColumnDef>,
}

/// Two schemas agree: same column names and types in the same order.
pub open spec fn spec_schema_eq(a: Schema, b: Schema) -> bool {
    &&& a.value_columns@.len() == b.value_columns@.len()
    &&& forall|i: int|
        0 <= i < a.value_columns@.len() ==> {
            &&& (#[trigger] a.value_columns@[i]).name@ == b.value_columns@[i].name@
            &&& a.value_columns@[i].col_type == b.value_columns@[i].col_type
        }
}

impl Schema {
    /// Whether this schema agrees with another, column for column.
    pub fn matches(&self, other: &Schema) -> (r: bool)
        ensures
            r == spec_schema_eq(*self, *other),
    {
        if self.value_columns.len() != other.value_columns.len() {
            return false;
        }
        let n = self.value_columns.len();
        let mut i: usize = 0;
        while i < n
            invariant
                i <= n,
                n == self.value_columns@.len(),
                n == other.value_columns@.len(),
                forall|j: int|
                    0 <= j < i ==> {
                        &&& (#[trigger] self.value_columns@[j]).name@
                            == other.value_columns@[j].name@
                        &&& self.value_columns@[j].col_type == other.value_columns@[j].col_type
                    },
            decreases n - i,
        {
            let a = &self.value_columns[i];
            let b = &other.value_columns[i];
            let type_same = match (a.col_type, b.col_type) {
                (ColumnType::I64, ColumnType::I64) => true,
                (ColumnType::F64, ColumnType::F64) => true,
                _ => false,
            };
            if !(a.name == b.name) || !type_same {
                return false;
            }
            i = i + 1;
        }
        true
    }
}

/// The text naming a column type in a schema file.
pub open spec fn spec_type_text(t: ColumnType) -> Seq<char> {
    match t {
        ColumnType::I64 => "i64"@,
        ColumnType::F64 => "f64"@,
    }
}

/// The schema file's text: one `name:type` line per value column.
pub open spec fn spec_schema_text(cols: Seq<ColumnDef>) -> Seq<char>
    decreases cols.len(),
{
    if cols.len() == 0 {
        Seq::empty()
    } else {
        spec_schema_text(cols.drop_last()) + cols.last().name@ + seq![':']
            + spec_type_text(cols.last().col_type) + seq!['\n']
    }
}

/// Render a schema as the text persisted in a table's schema file.
pub fn schema_to_text(schema: &Schema) -> (r: String)
    ensures
        r@ == spec_schema_text(schema.value_columns@),
{
    proof {
        reveal_strlit(":");
        reveal_strlit("\n");
        reveal_strlit("i64");
        reveal_strlit("f64");
    }
    let n = schema.value_columns.len();
    let mut s = String::new();
    let mut i: usize = 0;
    while i < n
        invariant
            i <= n,
            n == schema.value_columns@.len(),
            s@ =~= spec_schema_text(schema.value_columns@.take(i as int)),
            ":"@ == seq![':'] && "\n"@ == seq!['\n'],
        decreases n - i,
    {
        let cd = &schema.value_columns[i];
        s.append(cd.name.as_str());
        s.append(":");
        match cd.col_type {
            ColumnType::I64 => s.append("i64"),
            ColumnType::F64 => s.append("f64"),
        }
        s.append("\n");
        proof {
            assert(schema.value_columns@.take(i + 1 as int).drop_last() =~= schema.value_columns@
                .take(i as int));
            assert(schema.value_columns@.take(i + 1 as int).last() == schema.value_columns@[
                i as int]);
            assert(s@ =~= spec_schema_text(schema.value_columns@.take(i + 1 as int)));
        }
        i = i + 1;
    }
    proof {
        assert(schema.value_columns@.take(n as int) =~= schema.value_columns@);
    }
    s
}

/// A whitespace character that trimming removes from a schema line.
pub open spec fn ws_char(c: char) -> bool {
    c == ' ' || c == '\t' || c == '\r'
}

/// The index of the first newline, or the length when there is none.
pub open spec fn find_nl(s: Seq<char>) -> int
    decreases s.len(),
{
    if s.len() == 0 {
        0
    } else if s[0] == '\n' {
        0
    } else {
        1 + find_nl(s.drop_first())
    }
}

/// The index of the first colon, or the length when there is none.
pub open spec fn find_colon(s: Seq<char>) -> int
    decreases s.len(),
{
    if s.len() == 0 {
        0
    } else if s[0] == ':' {
        0
    } else {
        1 + find_colon(s.drop_first())
    }
}

pub open spec fn trim_front(s: Seq<char>) -> Seq<char>
    decreases s.len(),
{
    if s.len() > 0 && ws_char(s[0]) {
        trim_front(s.drop_first())
    } else {
        s
    }
}

pub open spec fn trim_back(s: Seq<char>) -> Seq<char>
    decreases s.len(),
{
    if s.len() > 0 && ws_char(s.last()) {
        trim_back(s.drop_last())
    } else {
        s
    }
}

/// A schema line with its surrounding whitespace removed.
pub open spec fn spec_trim(s: Seq<char>) -> Seq<char> {
    trim_back(trim_front(s))
}

/// What one schema line means: `None` for a malformed line, `Some(None)` for
/// a blank or comment line, and `Some(Some(column))` for a declaration.
pub open spec fn spec_parse_line(line: Seq<char>) -> Option<Option<(Seq<char>, ColumnType)>> {
    let t = spec_trim(line);
    if t.len() == 0 || t[0] == '#' {
        Some(None)
    } else {
        let c = find_colon(t);
        if c == t.len() {
            None
        } else {
            let name = t.take(c);
            let ty = t.skip(c + 1);
            if ty == "i64"@ {
                Some(Some((name, ColumnType::I64)))
            } else if ty == "f64"@ {
                Some(Some((name, ColumnType::F64)))
            } else {
                None
            }
        }
    }
}

pub proof fn lemma_find_nl_le(s: Seq<char>)
    ensures
        0 <= find_nl(s) <= s.len(),
    decreases s.len(),
{
    if s.len() > 0 && s[0] != '\n' {
        lemma_find_nl_le(s.drop_first());
    }
}

/// The columns a whole schema text declares, in order, or nothing when some
/// line is malformed. A final newline does not open an extra empty line.
pub open spec fn spec_parse_schema(s: Seq<char>) -> Option<Seq<(Seq<char>, ColumnType)>>
    decreases s.len(),
    via spec_parse_schema_dec
{
    if s.len() == 0 {
        Some(Seq::empty())
    } else {
        let k = find_nl(s);
        let line = s.take(k);
        let rest = if k == s.len() {
            Seq::empty()
        } else {
            s.skip(k + 1)
        };
        match spec_parse_line(line) {
            None => None,
            Some(item) => match spec_parse_schema(rest) {
                None => None,
                Some(tail) => match item {
                    Some(col) => Some(seq![col] + tail),
                    None => Some(tail),
                },
            },
        }
    }
}

#[via_fn]
proof fn spec_parse_schema_dec(s: Seq<char>) {
    lemma_find_nl_le(s);
}

/// The view of built columns: each name's characters with its type.
pub open spec fn cols_view(cols: Seq<ColumnDef>) -> Seq<(Seq<char>, ColumnType)> {
    Seq::new(cols.len(), |i: int| (cols[i].name@, cols[i].col_type))
}

proof fn lemma_find_nl_is(s: Seq<char>, k: int)
    requires
        0 <= k <= s.len(),
        forall|i: int| 0 <= i < k ==> (#[trigger] s[i]) != '\n',
        k == s.len() || s[k] == '\n',
    ensures
        find_nl(s) == k,
    decreases k,
{
    if k == 0 {
    } else {
        assert(s[0] != '\n');
        let s2 = s.drop_first();
        assert forall|i: int| 0 <= i < k - 1 implies (#[trigger] s2[i]) != '\n' by {
            assert(s2[i] == s[i + 1]);
        }
        assert(k - 1 == s2.len() || s2[k - 1] == '\n');
        lemma_find_nl_is(s2, k - 1);
    }
}

proof fn lemma_find_colon_is(s: Seq<char>, k: int)
    requires
        0 <= k <= s.len(),
        forall|i: int| 0 <= i < k ==> (#[trigger] s[i]) != ':',
        k == s.len() || s[k] == ':',
    ensures
        find_colon(s) == k,
    decreases k,
{
    if k == 0 {
    } else {
        assert(s[0] != ':');
        let s2 = s.drop_first();
        assert forall|i: int| 0 <= i < k - 1 implies (#[trigger] s2[i]) != ':' by {
            assert(s2[i] == s[i + 1]);
        }
        assert(k - 1 == s2.len() || s2[k - 1] == ':');
        lemma_find_colon_is(s2, k - 1);
    }
}

proof fn lemma_trim_front_is(s: Seq<char>, a: int)
    requires
        0 <= a <= s.len(),
        forall|i: int| 0 <= i < a ==> ws_char(#[trigger] s[i]),
        a == s.len() || !ws_char(s[a]),
    ensures
        trim_front(s) == s.skip(a),
    decreases a,
{
    if a == 0 {
        assert(s.skip(0) =~= s);
    } else {
        assert(ws_char(s[0]));
        let s2 = s.drop_first();
        assert forall|i: int| 0 <= i < a - 1 implies ws_char(#[trigger] s2[i]) by {
            assert(s2[i] == s[i + 1]);
        }
        assert(a - 1 == s2.len() || !ws_char(s2[a - 1]));
        lemma_trim_front_is(s2, a - 1);
        assert(s2.skip(a - 1) =~= s.skip(a));
    }
}

proof fn lemma_trim_back_is(s: Seq<char>, b: int)
    requires
        0 <= b <= s.len(),
        forall|i: int| b <= i < s.len() ==> ws_char(#[trigger] s[i]),
        b == 0 || !ws_char(s[b - 1]),
    ensures
        trim_back(s) == s.take(b),
    decreases s.len() - b,
{
    if b == s.len() {
        if s.len() > 0 {
            assert(!ws_char(s.last()));
        }
        assert(s.take(b) =~= s);
    } else {
        assert(ws_char(s.last()));
        let s2 = s.drop_last();
        lemma_trim_back_is(s2, b);
        assert(s2.take(b) =~= s.take(b));
    }
}

fn is_ws_char(c: char) -> (r: bool)
    ensures
        r == ws_char(c),
{
    c == ' ' || c == '\t' || c == '\r'
}

/// Parse schema-file text into a schema; errors with `InvalidFile` exactly
/// when some non-blank, non-comment line lacks a colon or names a type other
/// than `i64` or `f64`.
#[verifier::rlimit(100)]
#[verifier::spinoff_prover]
pub fn parse_schema_text(path: String, text: &str) -> (r: Result<Schema, ZolaError>)
    ensures
        r is Ok <==> spec_parse_schema(text@) is Some,
        r matches Ok(s) ==> Some(cols_view(s.value_columns@)) == spec_parse_schema(text@),
        r matches Err(e) ==> e matches ZolaError::InvalidFile { .. },
{
    proof {
        reveal_strlit("i64");
        reveal_strlit("f64");
    }
    let n = text.unicode_len();
    let mut cols: Vec<ColumnDef> = Vec::new();
    let mut pos: usize = 0;
    proof {
        assert(text@.skip(0) =~= text@);
        assert(cols_view(cols@) =~= Seq::<(Seq<char>, ColumnType)>::empty());
        match spec_parse_schema(text@.skip(pos as int)) {
            Some(tail) => {
                assert(cols_view(cols@) + tail =~= tail);
            },
            None => {},
        }
    }
    while pos < n
        invariant
            pos <= n,
            n == text@.len(),
            ("i64"@).len() == 3 && ("i64"@)[0] == 'i' && ("i64"@)[1] == '6' && ("i64"@)[2] == '4',
            ("f64"@).len() == 3 && ("f64"@)[0] == 'f' && ("f64"@)[1] == '6' && ("f64"@)[2] == '4',
            match spec_parse_schema(text@.skip(pos as int)) {
                Some(tail) => spec_parse_schema(text@) == Some(cols_view(cols@) + tail),
                None => spec_parse_schema(text@) is None,
            },
        decreases n - pos,
    {
        let ghost s_at = text@.skip(pos as int);
        // Find the end of the current line.
        let mut j = pos;
        while j < n && text.get_char(j) != '\n'
            invariant
                pos <= j <= n,
                n == text@.len(),
                forall|k: int| pos <= k < j ==> (#[trigger] text@[k]) != '\n',
            decreases n - j,
        {
            j = j + 1;
        }
        proof {
            assert forall|i: int| 0 <= i < j - pos implies (#[trigger] s_at[i]) != '\n' by {
                assert(s_at[i] == text@[pos + i]);
            }
            if (j as int) < n {
                assert(s_at[j - pos] == text@[j as int]);
            }
            lemma_find_nl_is(s_at, j - pos);
        }
        let ghost line = s_at.take(j - pos);
        proof {
            assert(line =~= text@.subrange(pos as int, j as int));
        }
        // Trim the line.
        let mut a = pos;
        while a < j && is_ws_char(text.get_char(a))
            invariant
                pos <= a <= j <= n,
                n == text@.len(),
                forall|k: int| pos <= k < a ==> ws_char(#[trigger] text@[k]),
            decreases j - a,
        {
            a = a + 1;
        }
        let mut b = j;
        while b > a && is_ws_char(text.get_char(b - 1))
            invariant
                a <= b <= j <= n,
                n == text@.len(),
                forall|k: int| b <= k < j ==> ws_char(#[trigger] text@[k]),
            decreases b - a,
        {
            b = b - 1;
        }
        let ghost t = spec_trim(line);
        proof {
            assert forall|i: int| 0 <= i < a - pos implies ws_char(#[trigger] line[i]) by {
                assert(line[i] == text@[pos + i]);
            }
            if (a as int) < j {
                assert(line[a - pos] == text@[a as int]);
            }
            lemma_trim_front_is(line, a - pos);
            let l2 = line.skip(a - pos);
            assert(l2 =~= text@.subrange(a as int, j as int));
            assert forall|i: int| b - a <= i < l2.len() implies ws_char(#[trigger] l2[i]) by {
                assert(l2[i] == text@[a + i]);
            }
            if a < b {
                assert(l2[b - a - 1] == text@[b - 1]);
            }
            lemma_trim_back_is(l2, b - a);
            assert(t =~= text@.subrange(a as int, b as int));
            assert(t.len() == b - a);
        }
        if a == b || text.get_char(a) == '#' {
            // A blank or comment line declares nothing.
            proof {
                if a < b {
                    assert(t[0] == text@[a as int]);
                }
                assert(spec_parse_line(line) == Some(None::<(Seq<char>, ColumnType)>));
            }
        } else {
            // Split at the first colon.
            let mut c = a;
            while c < b && text.get_char(c) != ':'
                invariant
                    a <= c <= b <= n,
                    n == text@.len(),
                    forall|k: int| a <= k < c ==> (#[trigger] text@[k]) != ':',
                decreases b - c,
            {
                c = c + 1;
            }
            proof {
                assert forall|i: int| 0 <= i < c - a implies (#[trigger] t[i]) != ':' by {
                    assert(t[i] == text@[a + i]);
                }
                if (c as int) < b {
                    assert(t[c - a] == text@[c as int]);
                }
                lemma_find_colon_is(t, c - a);
                assert(t[0] == text@[a as int]);
            }
            if c == b {
                proof {
                    assert(spec_parse_line(line) is None);
                }
                return Err(ZolaError::invalid(path, String::from_str("schema line lacks a colon")));
            }
            let name = text.substring_char(a, c).to_owned();
            proof {
                assert(name@ =~= t.take(c - a));
            }
            let ghost ty = t.skip(c - a + 1);
            proof {
                assert(ty =~= text@.subrange(c + 1 as int, b as int));
            }
            let tlen = b - (c + 1);
            let col_type: ColumnType;
            if tlen == 3 && text.get_char(c + 1) == 'i' && text.get_char(c + 2) == '6'
                && text.get_char(c + 3) == '4' {
                col_type = ColumnType::I64;
                proof {
                    assert(ty =~= "i64"@);
                }
            } else if tlen == 3 && text.get_char(c + 1) == 'f' && text.get_char(c + 2) == '6'
                && text.get_char(c + 3) == '4' {
                col_type = ColumnType::F64;
                proof {
                    assert(ty =~= "f64"@);
                    assert(ty != "i64"@);
                }
            } else {
                proof {
                    assert(ty != "i64"@ && ty != "f64"@) by {
                        if ty == "i64"@ {
                            assert(ty[0] == text@[c + 1] && ty[1] == text@[c + 2] && ty[2]
                                == text@[c + 3]);
                        }
                        if ty == "f64"@ {
                            assert(ty[0] == text@[c + 1] && ty[1] == text@[c + 2] && ty[2]
                                == text@[c + 3]);
                        }
                    }
                    assert(spec_parse_line(line) is None);
                }
                return Err(ZolaError::invalid(path, String::from_str("unknown column type")));
            }
            let ghost col = (name@, col_type);
            cols.push(ColumnDef { name, col_type });
            proof {
                assert(spec_parse_line(line) == Some(Some(col)));
            }
        }
        let ghost old_pos = pos as int;
        let ghost old_cols = cols@;
        if j < n {
            pos = j + 1;
        } else {
            pos = n;
        }
        proof {
            let rest = if j - old_pos == s_at.len() {
                Seq::<char>::empty()
            } else {
                s_at.skip(j - old_pos + 1)
            };
            assert(text@.skip(pos as int) =~= rest);
            lemma_parse_step(text@, s_at, line, rest, old_pos, j as int);
            match spec_parse_line(line) {
                Some(item) => {
                    match spec_parse_schema(rest) {
                        Some(tail) => {
                            match item {
                                Some(col0) => {
                                    assert(cols_view(cols@) =~= cols_view(old_cols.drop_last())
                                        .push((cols@.last().name@, cols@.last().col_type)));
                                    assert(cols_view(old_cols.drop_last()) + (seq![col0] + tail)
                                        =~= cols_view(cols@) + tail);
                                },
                                None => {},
                            }
                        },
                        None => {},
                    }
                },
                None => {},
            }
        }
    }
    proof {
        assert(text@.skip(pos as int) =~= Seq::<char>::empty());
        match spec_parse_schema(text@.skip(pos as int)) {
            Some(tail) => {
                assert(cols_view(cols@) + tail =~= cols_view(cols@));
            },
            None => {},
        }
    }
    Ok(Schema { value_columns: cols })
}

/// One unfolding of the text parse at a line boundary.
proof fn lemma_parse_step(
    text: Seq<char>,
    s_at: Seq<char>,
    line: Seq<char>,
    rest: Seq<char>,
    pos: int,
    j: int,
)
    requires
        0 <= pos <= j <= text.len(),
        pos < text.len(),
        s_at == text.skip(pos),
        find_nl(s_at) == j - pos,
        line == s_at.take(j - pos),
        rest == (if j - pos == s_at.len() {
            Seq::<char>::empty()
        } else {
            s_at.skip(j - pos + 1)
        }),
    ensures
        spec_parse_schema(s_at) == (match spec_parse_line(line) {
            None => None::<Seq<(Seq<char>, ColumnType)>>,
            Some(item) => match spec_parse_schema(rest) {
                None => None,
                Some(tail) => match item {
                    Some(col) => Some(seq![col] + tail),
                    None => Some(tail),
                },
            },
        }),
{
    assert(s_at.len() == text.len() - pos);
    assert(s_at.len() > 0);
}

/// A column name that survives the schema-text round trip: non-empty, no
/// newline or colon, no surrounding whitespace, and not comment-like.
pub open spec fn schema_name_ok(name: Seq<char>) -> bool {
    &&& name.len() > 0
    &&& name[0] != '#'
    &&& !ws_char(name[0])
    &&& !ws_char(name[name.len() - 1])
    &&& forall|i: int| 0 <= i < name.len() ==> (#[trigger] name[i]) != '\n' && name[i] != ':'
}

proof fn lemma_schema_text_concat(a: Seq<ColumnDef>, b: Seq<ColumnDef>)
    ensures
        spec_schema_text(a + b) =~= spec_schema_text(a) + spec_schema_text(b),
    decreases b.len(),
{
    if b.len() == 0 {
        assert(a + b =~= a);
    } else {
        lemma_schema_text_concat(a, b.drop_last());
        assert((a + b).drop_last() =~= a + b.drop_last());
        assert((a + b).last() == b.last());
    }
}

/// Rendering a schema and parsing the text back yields the same columns.
#[verifier::rlimit(100)]
#[verifier::spinoff_prover]
pub proof fn lemma_schema_text_roundtrip(cols: Seq<ColumnDef>)
    requires
        forall|i: int| 0 <= i < cols.len() ==> schema_name_ok((#[trigger] cols[i]).name@),
    ensures
        spec_parse_schema(spec_schema_text(cols)) == Some(cols_view(cols)),
    decreases cols.len(),
{
    reveal_strlit("i64");
    reveal_strlit("f64");
    if cols.len() == 0 {
        assert(cols_view(cols) =~= Seq::<(Seq<char>, ColumnType)>::empty());
    } else {
        let c0 = cols[0];
        let name = c0.name@;
        let tytext = spec_type_text(c0.col_type);
        let line = name + seq![':'] + tytext;
        let line_full = line + seq!['\n'];
        assert(tytext.len() == 3 && !ws_char(tytext[2]) && tytext[0] != '\n' && tytext[1] != '\n'
            && tytext[2] != '\n');
        // The text splits as the first column's line plus the rest.
        assert(spec_schema_text(seq![c0]) =~= line_full) by {
            assert(seq![c0].drop_last() =~= Seq::<ColumnDef>::empty());
            assert(seq![c0].last() == c0);
            assert(spec_schema_text(Seq::<ColumnDef>::empty()) =~= Seq::<char>::empty());
        }
        lemma_schema_text_concat(seq![c0], cols.drop_first());
        assert(seq![c0] + cols.drop_first() =~= cols);
        let s = spec_schema_text(cols);
        let t_rest = spec_schema_text(cols.drop_first());
        assert(s =~= line_full + t_rest);
        let k = line.len() as int;
        assert forall|i: int| 0 <= i < k implies (#[trigger] s[i]) != '\n' by {
            assert(s[i] == line[i]);
            if i < name.len() {
                assert(line[i] == name[i]);
            } else if i == name.len() {
                assert(line[i] == ':');
            } else {
                assert(line[i] == tytext[i - name.len() - 1]);
            }
        }
        assert(s[k] == '\n');
        lemma_find_nl_is(s, k);
        let line_got = s.take(k);
        assert(line_got =~= line);
        let rest = s.skip(k + 1);
        assert(rest =~= t_rest);
        // The line parses as exactly this column.
        assert(!ws_char(line[0]));
        lemma_trim_front_is(line, 0);
        assert(!ws_char(line[line.len() - 1]));
        lemma_trim_back_is(line, line.len() as int);
        assert(line.take(line.len() as int) =~= line);
        assert(spec_trim(line) == line);
        assert forall|i: int| 0 <= i < name.len() implies (#[trigger] line[i]) != ':' by {
            assert(line[i] == name[i]);
        }
        assert(line[name.len() as int] == ':');
        lemma_find_colon_is(line, name.len() as int);
        assert(line.take(name.len() as int) =~= name);
        assert(line.skip(name.len() as int + 1) =~= tytext);
        assert(line[0] == name[0] && name[0] != '#');
        match c0.col_type {
            ColumnType::I64 => {
                assert(tytext == "i64"@);
                assert(spec_parse_line(line_got) == Some(Some((name, ColumnType::I64))));
            },
            ColumnType::F64 => {
                assert(tytext == "f64"@);
                assert(tytext != "i64"@) by {
                    assert(("f64"@)[0] == 'f' && ("i64"@)[0] == 'i');
                }
                assert(spec_parse_line(line_got) == Some(Some((name, ColumnType::F64))));
            },
        }
        assert forall|i: int|
            0 <= i < cols.drop_first().len() implies schema_name_ok(
            (#[trigger] cols.drop_first()[i]).name@,
        ) by {
            assert(cols.drop_first()[i] == cols[i + 1]);
        }
        lemma_schema_text_roundtrip(cols.drop_first());
        assert(spec_parse_schema(s) == Some(seq![(name, c0.col_type)] + cols_view(
            cols.drop_first(),
        )));
        assert(seq![(name, c0.col_type)] + cols_view(cols.drop_first()) =~= cols_view(cols));
    }
}

/// The direction of an as-of lookup.
#[derive(Debug, Clone, Copy, PartialEq, Eq, Structural)]
pub enum Direction {
    Backward,
    Forward,
}

/// A batch of probes: two equal-length sequences of symbols and timestamps.
#[derive(Debug, Clone)]
pub struct Probes {
    pub symbols: Vec<i64>,
    pub timestamps: Vec<i64>,
}

} // verus!
