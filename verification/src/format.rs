//! The on-disk binary formats: column files, the parted index, and the
//! first/last-value sidecars.
//!
//! All multi-byte integers are little-endian. A column file is a 24-byte
//! header followed by `row_count` raw 8-byte words; the parted index is a
//! headerless run of 24-byte records; a sidecar is a 16-byte header followed
//! by `(2 + num_value_cols) * 8`-byte records. Signed values are stored as
//! their two's-complement 8-byte words.

use vstd::bytes::{
    spec_u32_from_le_bytes, spec_u32_to_le_bytes, spec_u64_from_le_bytes, spec_u64_to_le_bytes,
    u32_from_le_bytes, u32_to_le_bytes, u64_from_le_bytes, u64_to_le_bytes,
    lemma_auto_spec_u32_to_from_le_bytes, lemma_auto_spec_u64_to_from_le_bytes,
};
use vstd::prelude::*;
use vstd::slice::slice_subrange;

use crate::error::ZolaError;

verus! {

/// "ZOLA": the magic number opening every column file.
pub const COLUMN_MAGIC: u32 = 0x5A4F_4C41;

/// "ZSID": the magic number opening every sidecar file.
pub const SIDECAR_MAGIC: u32 = 0x5A53_4944;

pub const FORMAT_VERSION: u32 = 1;

/// Bytes in a column file header.
pub const HEADER_SIZE: usize = 24;

/// Bytes in a sidecar file header.
pub const SIDECAR_HEADER_SIZE: usize = 16;

/// Bytes in one parted index record.
pub const PARTED_ENTRY_SIZE: usize = 24;

/// The header of a column file.
#[derive(Debug, Clone, Copy, PartialEq, Eq, Structural)]
pub struct ColumnHeader {
    pub magic: u32,
    pub version: u32,
    pub col_type: u32,
    pub pad: u32,
    pub row_count: u64,
}

/// One record of the parted index: the half-open row range `[start, end)`
/// holding a symbol's rows within its partition.
#[derive(Debug, Clone, Copy, PartialEq, Eq, Structural)]
pub struct PartedEntry {
    pub symbol_id: i64,
    pub start: usize,
    pub end: usize,
}

/// The header of a sidecar file.
#[derive(Debug, Clone, Copy, PartialEq, Eq, Structural)]
pub struct SidecarHeader {
    pub magic: u32,
    pub num_symbols: u32,
    pub num_value_cols: u32,
    pub pad: u32,
}

/// One sidecar record: the timestamp and value words of the first or last row
/// of a symbol within its partition.
#[derive(Debug)]
pub struct SidecarEntry {
    pub symbol: i64,
    pub timestamp: i64,
    pub values: Vec<u64>,
}

/// Size in bytes of one sidecar record:
/// `symbol(8) + timestamp(8) + num_value_cols * 8`.
pub fn sidecar_entry_size(num_value_cols: u32) -> (r: usize)
    requires
        num_value_cols < 0x1000_0000,
    ensures
        r == (2 + num_value_cols) * 8,
{
    (2 + num_value_cols as usize) * 8
}

/// The 8-byte word that stores an `i64`: its two's-complement bits.
pub open spec fn word_of_i64(x: i64) -> u64 {
    x as u64
}

/// The `i64` stored by an 8-byte word.
pub open spec fn i64_of_word(w: u64) -> i64 {
    w as i64
}

/// Storing an `i64` as its word and reading it back is the identity, in both
/// directions.
pub proof fn lemma_word_i64_roundtrip()
    ensures
        forall|x: i64| #[trigger] i64_of_word(word_of_i64(x)) == x,
        forall|w: u64| #[trigger] word_of_i64(i64_of_word(w)) == w,
{
    assert forall|x: i64| #[trigger] i64_of_word(word_of_i64(x)) == x by {
        assert(x as u64 as i64 == x) by (bit_vector);
    }
    assert forall|w: u64| #[trigger] word_of_i64(i64_of_word(w)) == w by {
        assert(w as i64 as u64 == w) by (bit_vector);
    }
}

pub fn i64_to_word(x: i64) -> (w: u64)
    ensures
        w == word_of_i64(x),
{
    #[verifier::truncate] (x as u64)
}

pub fn word_to_i64(w: u64) -> (x: i64)
    ensures
        x == i64_of_word(w),
        word_of_i64(x) == w,
{
    let x: i64 = #[verifier::truncate] (w as i64);
    proof {
        assert(w as i64 as u64 == w) by (bit_vector);
    }
    x
}

/// The little-endian bytes of a sequence of 8-byte words.
pub open spec fn spec_words_bytes(words: Seq<u64>) -> Seq<u8>
    decreases words.len(),
{
    if words.len() == 0 {
        Seq::empty()
    } else {
        spec_words_bytes(words.drop_last()) + spec_u64_to_le_bytes(words.last())
    }
}

pub proof fn lemma_words_bytes_len(words: Seq<u64>)
    ensures
        spec_words_bytes(words).len() == 8 * words.len(),
    decreases words.len(),
{
    lemma_auto_spec_u64_to_from_le_bytes();
    if words.len() > 0 {
        lemma_words_bytes_len(words.drop_last());
    }
}


/// Splitting a word sequence splits its bytes.
pub proof fn lemma_words_bytes_concat(a: Seq<u64>, b: Seq<u64>)
    ensures
        spec_words_bytes(a + b) =~= spec_words_bytes(a) + spec_words_bytes(b),
    decreases b.len(),
{
    if b.len() == 0 {
        assert(a + b =~= a);
    } else {
        lemma_words_bytes_concat(a, b.drop_last());
        assert((a + b).drop_last() =~= a + b.drop_last());
        assert((a + b).last() == b.last());
    }
}

proof fn lemma_words_bytes_one(a: u64)
    ensures
        spec_words_bytes(seq![a]) =~= spec_u64_to_le_bytes(a),
{
    assert(seq![a].drop_last() =~= Seq::<u64>::empty());
    assert(spec_words_bytes(Seq::<u64>::empty()) =~= Seq::<u8>::empty());
    assert(seq![a].last() == a);
}

proof fn lemma_words_bytes_two(a: u64, b: u64)
    ensures
        spec_words_bytes(seq![a, b]) =~= spec_u64_to_le_bytes(a) + spec_u64_to_le_bytes(b),
{
    lemma_words_bytes_one(a);
    lemma_words_bytes_one(b);
    lemma_words_bytes_concat(seq![a], seq![b]);
    assert(seq![a] + seq![b] =~= seq![a, b]);
}

proof fn lemma_words_bytes_three(a: u64, b: u64, c: u64)
    ensures
        spec_words_bytes(seq![a, b, c]) =~= spec_u64_to_le_bytes(a) + spec_u64_to_le_bytes(b)
            + spec_u64_to_le_bytes(c),
{
    lemma_words_bytes_two(a, b);
    lemma_words_bytes_one(c);
    lemma_words_bytes_concat(seq![a, b], seq![c]);
    assert(seq![a, b] + seq![c] =~= seq![a, b, c]);
}

/// The bytes of a column file holding the given type code and words.
pub open spec fn spec_column_file_bytes(col_type: u32, words: Seq<u64>) -> Seq<u8> {
    spec_u32_to_le_bytes(COLUMN_MAGIC) + spec_u32_to_le_bytes(FORMAT_VERSION)
        + spec_u32_to_le_bytes(col_type) + spec_u32_to_le_bytes(0u32) + spec_u64_to_le_bytes(
        words.len() as u64,
    ) + spec_words_bytes(words)
}

fn append_u32(out: &mut Vec<u8>, x: u32)
    ensures
        final(out)@ == old(out)@ + spec_u32_to_le_bytes(x),
{
    let mut b = u32_to_le_bytes(x);
    out.append(&mut b);
}

fn append_u64(out: &mut Vec<u8>, x: u64)
    ensures
        final(out)@ == old(out)@ + spec_u64_to_le_bytes(x),
{
    let mut b = u64_to_le_bytes(x);
    out.append(&mut b);
}

fn append_words(out: &mut Vec<u8>, words: &Vec<u64>)
    requires
        old(out)@.len() + 8 * words@.len() <= usize::MAX,
    ensures
        final(out)@ == old(out)@ + spec_words_bytes(words@),
{
    let n = words.len();
    let mut i: usize = 0;
    while i < n
        invariant
            i <= n,
            n == words@.len(),
            out@ =~= old(out)@ + spec_words_bytes(words@.take(i as int)),
            out@.len() == old(out)@.len() + 8 * i,
        decreases n - i,
    {
        proof {
            lemma_auto_spec_u64_to_from_le_bytes();
            lemma_words_bytes_len(words@.take(i as int));
        }
        append_u64(out, words[i]);
        proof {
            assert(words@.take(i + 1 as int).drop_last() =~= words@.take(i as int));
            assert(words@.take(i + 1 as int).last() == words@[i as int]);
        }
        i = i + 1;
    }
    proof {
        assert(words@.take(n as int) =~= words@);
        lemma_words_bytes_len(words@);
    }
}

/// Encode a column file: header then raw words.
pub fn encode_column_file(col_type: u32, words: &Vec<u64>) -> (r: Vec<u8>)
    requires
        8 * words@.len() + HEADER_SIZE <= usize::MAX,
    ensures
        r@ == spec_column_file_bytes(col_type, words@),
        r@.len() == HEADER_SIZE + 8 * words@.len(),
{
    proof {
        lemma_auto_spec_u32_to_from_le_bytes();
        lemma_auto_spec_u64_to_from_le_bytes();
    }
    let mut out: Vec<u8> = Vec::new();
    append_u32(&mut out, COLUMN_MAGIC);
    append_u32(&mut out, FORMAT_VERSION);
    append_u32(&mut out, col_type);
    append_u32(&mut out, 0);
    append_u64(&mut out, words.len() as u64);
    append_words(&mut out, words);
    proof {
        lemma_words_bytes_len(words@);
        assert(out@ =~= spec_column_file_bytes(col_type, words@));
    }
    out
}

fn read_u32_at(bytes: &[u8], off: usize) -> (x: u32)
    requires
        off + 4 <= bytes@.len(),
    ensures
        x == spec_u32_from_le_bytes(bytes@.subrange(off as int, off + 4)),
{
    let n = bytes.len();
    let s = slice_subrange(bytes, off, off + 4);
    u32_from_le_bytes(s)
}

fn read_u64_at(bytes: &[u8], off: usize) -> (x: u64)
    requires
        off + 8 <= bytes@.len(),
    ensures
        x == spec_u64_from_le_bytes(bytes@.subrange(off as int, off + 8)),
{
    let n = bytes.len();
    let s = slice_subrange(bytes, off, off + 8);
    u64_from_le_bytes(s)
}

/// A byte sequence is a well-formed column file: large enough for the header,
/// the right magic, and a row count that matches the file size.
pub open spec fn spec_column_file_ok(bytes: Seq<u8>) -> bool {
    &&& bytes.len() >= HEADER_SIZE
    &&& spec_u32_from_le_bytes(bytes.subrange(0, 4)) == COLUMN_MAGIC
    &&& spec_u64_from_le_bytes(bytes.subrange(16, 24)) == (bytes.len() - HEADER_SIZE) / 8
    &&& (bytes.len() - HEADER_SIZE) % 8 == 0
}

/// The words that a run of bytes holds, starting at `off`.
pub open spec fn spec_words_at(bytes: Seq<u8>, off: int) -> Seq<u64> {
    Seq::new(
        ((bytes.len() - off) / 8) as nat,
        |k: int| spec_u64_from_le_bytes(bytes.subrange(off + 8 * k, off + 8 * k + 8)),
    )
}

/// The type code a column file declares.
pub open spec fn spec_column_file_type(bytes: Seq<u8>) -> u32 {
    spec_u32_from_le_bytes(bytes.subrange(8, 12))
}

proof fn lemma_words_bytes_index(words: Seq<u64>, k: int)
    requires
        0 <= k < words.len(),
    ensures
        spec_words_bytes(words).subrange(8 * k, 8 * k + 8) =~= spec_u64_to_le_bytes(words[k]),
    decreases words.len(),
{
    lemma_words_bytes_len(words);
    if k == words.len() - 1 {
        lemma_words_bytes_len(words.drop_last());
    } else {
        lemma_words_bytes_index(words.drop_last(), k);
        lemma_words_bytes_len(words.drop_last());
        assert(spec_words_bytes(words).subrange(8 * k, 8 * k + 8) =~= spec_words_bytes(
            words.drop_last(),
        ).subrange(8 * k, 8 * k + 8));
    }
}

/// The canonical encoding of a column file is well-formed, and decoding it
/// gives back the type code and the words.
pub proof fn lemma_column_file_roundtrip(col_type: u32, words: Seq<u64>)
    requires
        words.len() <= 0xffff_ffff_ffff_ffff,
    ensures
        spec_column_file_ok(spec_column_file_bytes(col_type, words)),
        spec_column_file_type(spec_column_file_bytes(col_type, words)) == col_type,
        spec_words_at(spec_column_file_bytes(col_type, words), HEADER_SIZE as int) =~= words,
{
    lemma_auto_spec_u32_to_from_le_bytes();
    lemma_auto_spec_u64_to_from_le_bytes();
    lemma_words_bytes_len(words);
    let bytes = spec_column_file_bytes(col_type, words);
    assert(bytes.subrange(0, 4) =~= spec_u32_to_le_bytes(COLUMN_MAGIC));
    assert(bytes.subrange(8, 12) =~= spec_u32_to_le_bytes(col_type));
    assert(bytes.subrange(16, 24) =~= spec_u64_to_le_bytes(words.len() as u64));
    assert(bytes.len() == HEADER_SIZE + 8 * words.len());
    assert((bytes.len() - HEADER_SIZE) % 8 == 0);
    assert((bytes.len() - HEADER_SIZE) / 8 == words.len());
    assert(words.len() as u64 == words.len());
    let ws = spec_words_at(bytes, HEADER_SIZE as int);
    assert forall|k: int| 0 <= k < words.len() implies ws[k] == words[k] by {
        lemma_words_bytes_index(words, k);
        assert(bytes.subrange(HEADER_SIZE + 8 * k, HEADER_SIZE + 8 * k + 8) =~= spec_words_bytes(
            words,
        ).subrange(8 * k, 8 * k + 8));
    }
}

pub(crate) fn read_words(bytes: &[u8], off: usize, count: usize) -> (words: Vec<u64>)
    requires
        off + 8 * count <= bytes@.len(),
    ensures
        words@.len() == count,
        forall|k: int|
            0 <= k < count ==> words@[k] == spec_u64_from_le_bytes(
                bytes@.subrange(off + 8 * k, off + 8 * k + 8),
            ),
{
    let len = bytes.len();
    let mut words: Vec<u64> = Vec::new();
    let mut k: usize = 0;
    while k < count
        invariant
            k <= count,
            off + 8 * count <= len,
            len == bytes@.len(),
            words@.len() == k,
            forall|j: int|
                0 <= j < k ==> words@[j] == spec_u64_from_le_bytes(
                    bytes@.subrange(off + 8 * j, off + 8 * j + 8),
                ),
        decreases count - k,
    {
        let w = read_u64_at(bytes, off + 8 * k);
        words.push(w);
        k = k + 1;
    }
    words
}

/// Decode a column file into its type code and words; errors with
/// `InvalidFile` exactly when the bytes are not a well-formed column file.
pub fn decode_column_file(path: String, bytes: &[u8]) -> (r: Result<
    (u32, Vec<u64>),
    ZolaError,
>)
    ensures
        r.is_ok() <==> spec_column_file_ok(bytes@),
        r matches Ok((code, words)) ==> {
            &&& code == spec_column_file_type(bytes@)
            &&& words@ == spec_words_at(bytes@, HEADER_SIZE as int)
            &&& 8 * words@.len() + HEADER_SIZE == bytes@.len()
        },
{
    let n = bytes.len();
    if n < HEADER_SIZE {
        return Err(ZolaError::invalid(path, String::from_str("file too small for header")));
    }
    let magic = read_u32_at(bytes, 0);
    if magic != COLUMN_MAGIC {
        return Err(ZolaError::invalid(path, String::from_str("bad magic")));
    }
    let col_type = read_u32_at(bytes, 8);
    let row_count = read_u64_at(bytes, 16);
    if (n - HEADER_SIZE) % 8 != 0 {
        return Err(ZolaError::invalid(path, String::from_str("column data not 8-byte aligned")));
    }
    let word_count = (n - HEADER_SIZE) / 8;
    if row_count != word_count as u64 {
        return Err(ZolaError::invalid(path, String::from_str("row count does not match file size")));
    }
    let words = read_words(bytes, HEADER_SIZE, word_count);
    proof {
        assert(words@ =~= spec_words_at(bytes@, HEADER_SIZE as int));
    }
    Ok((col_type, words))
}

/// The three words of one parted index record.
pub open spec fn spec_parted_entry_words(e: PartedEntry) -> Seq<u64> {
    seq![word_of_i64(e.symbol_id), e.start as u64, e.end as u64]
}

/// The bytes of a parted index file: 24 bytes per record, no header.
pub open spec fn spec_parted_bytes(entries: Seq<PartedEntry>) -> Seq<u8>
    decreases entries.len(),
{
    if entries.len() == 0 {
        Seq::empty()
    } else {
        spec_parted_bytes(entries.drop_last()) + spec_words_bytes(
            spec_parted_entry_words(entries.last()),
        )
    }
}

/// A parted index encodes to 24 bytes per record.
pub proof fn lemma_parted_bytes_len(entries: Seq<PartedEntry>)
    ensures
        spec_parted_bytes(entries).len() == 24 * entries.len(),
    decreases entries.len(),
{
    if entries.len() > 0 {
        lemma_parted_bytes_len(entries.drop_last());
        lemma_words_bytes_len(spec_parted_entry_words(entries.last()));
    }
}

/// Encode the parted index.
pub fn encode_parted_file(entries: &Vec<PartedEntry>) -> (r: Vec<u8>)
    requires
        24 * entries@.len() <= usize::MAX,
    ensures
        r@ == spec_parted_bytes(entries@),
        r@.len() == 24 * entries@.len(),
{
    let n = entries.len();
    let mut out: Vec<u8> = Vec::new();
    let mut i: usize = 0;
    while i < n
        invariant
            i <= n,
            n == entries@.len(),
            24 * n <= usize::MAX,
            out@ =~= spec_parted_bytes(entries@.take(i as int)),
            out@.len() == 24 * i,
        decreases n - i,
    {
        let e = entries[i];
        append_u64(&mut out, i64_to_word(e.symbol_id));
        append_u64(&mut out, e.start as u64);
        append_u64(&mut out, e.end as u64);
        proof {
            lemma_auto_spec_u64_to_from_le_bytes();
            lemma_words_bytes_three(word_of_i64(e.symbol_id), e.start as u64, e.end as u64);
            assert(entries@.take(i + 1 as int).drop_last() =~= entries@.take(i as int));
            assert(entries@.take(i + 1 as int).last() == e);
        }
        i = i + 1;
    }
    proof {
        assert(entries@.take(n as int) =~= entries@);
    }
    out
}

/// The parted record stored at position `k` of a parted index file.
pub open spec fn spec_parted_entry_at(bytes: Seq<u8>, k: int) -> PartedEntry {
    PartedEntry {
        symbol_id: i64_of_word(spec_u64_from_le_bytes(bytes.subrange(24 * k, 24 * k + 8))),
        start: spec_u64_from_le_bytes(bytes.subrange(24 * k + 8, 24 * k + 16)) as usize,
        end: spec_u64_from_le_bytes(bytes.subrange(24 * k + 16, 24 * k + 24)) as usize,
    }
}

/// A byte sequence is a well-formed parted index: a whole number of records,
/// each row index fitting the machine's word.
pub open spec fn spec_parted_file_ok(bytes: Seq<u8>) -> bool {
    &&& bytes.len() % 24 == 0
    &&& forall|k: int|
        0 <= k < bytes.len() / 24 ==> {
            &&& spec_u64_from_le_bytes(#[trigger] bytes.subrange(24 * k + 8, 24 * k + 16))
                <= usize::MAX
            &&& spec_u64_from_le_bytes(bytes.subrange(24 * k + 16, 24 * k + 24)) <= usize::MAX
        }
}

/// Decode a parted index file; errors with `InvalidFile` exactly when the
/// bytes are not a whole number of in-range records.
pub fn decode_parted_file(path: String, bytes: &[u8]) -> (r: Result<Vec<PartedEntry>, ZolaError>)
    ensures
        r.is_ok() <==> spec_parted_file_ok(bytes@),
        r matches Ok(entries) ==> {
            &&& entries@.len() == bytes@.len() / 24
            &&& forall|k: int|
                0 <= k < entries@.len() ==> entries@[k] == spec_parted_entry_at(bytes@, k)
        },
{
    let n = bytes.len();
    if n % 24 != 0 {
        return Err(ZolaError::invalid(path, String::from_str("bad parted index size")));
    }
    let count = n / 24;
    let mut entries: Vec<PartedEntry> = Vec::new();
    let mut k: usize = 0;
    while k < count
        invariant
            k <= count,
            n == bytes@.len(),
            n % 24 == 0,
            count == n / 24,
            entries@.len() == k,
            forall|j: int| 0 <= j < k ==> entries@[j] == spec_parted_entry_at(bytes@, j),
            forall|j: int|
                0 <= j < k ==> {
                    &&& spec_u64_from_le_bytes(#[trigger] bytes@.subrange(24 * j + 8, 24 * j + 16))
                        <= usize::MAX
                    &&& spec_u64_from_le_bytes(bytes@.subrange(24 * j + 16, 24 * j + 24))
                        <= usize::MAX
                },
        decreases count - k,
    {
        let sym = word_to_i64(read_u64_at(bytes, 24 * k));
        let start = read_u64_at(bytes, 24 * k + 8);
        let end = read_u64_at(bytes, 24 * k + 16);
        if start > usize::MAX as u64 || end > usize::MAX as u64 {
            return Err(ZolaError::invalid(path, String::from_str("parted row index out of range")));
        }
        entries.push(PartedEntry { symbol_id: sym, start: start as usize, end: end as usize });
        k = k + 1;
    }
    Ok(entries)
}

/// The words of one sidecar record: the symbol, the timestamp, then the value
/// words.
pub open spec fn spec_sidecar_entry_words(e: SidecarEntry) -> Seq<u64> {
    seq![word_of_i64(e.symbol), word_of_i64(e.timestamp)] + e.values@
}

pub open spec fn spec_sidecar_records_bytes(entries: Seq<SidecarEntry>) -> Seq<u8>
    decreases entries.len(),
{
    if entries.len() == 0 {
        Seq::empty()
    } else {
        spec_sidecar_records_bytes(entries.drop_last()) + spec_words_bytes(
            spec_sidecar_entry_words(entries.last()),
        )
    }
}

/// The bytes of a sidecar file: the 16-byte header, then one record per
/// symbol.
pub open spec fn spec_sidecar_bytes(num_value_cols: u32, entries: Seq<SidecarEntry>) -> Seq<u8> {
    spec_u32_to_le_bytes(SIDECAR_MAGIC) + spec_u32_to_le_bytes(entries.len() as u32)
        + spec_u32_to_le_bytes(num_value_cols) + spec_u32_to_le_bytes(0u32)
        + spec_sidecar_records_bytes(entries)
}

pub proof fn lemma_sidecar_records_bytes_len(entries: Seq<SidecarEntry>, ncols: int)
    requires
        forall|k: int| 0 <= k < entries.len() ==> (#[trigger] entries[k]).values@.len() == ncols,
        ncols >= 0,
    ensures
        spec_sidecar_records_bytes(entries).len() == entries.len() * (16 + 8 * ncols),
    decreases entries.len(),
{
    if entries.len() > 0 {
        lemma_sidecar_records_bytes_len(entries.drop_last(), ncols);
        lemma_words_bytes_len(spec_sidecar_entry_words(entries.last()));
        assert((entries.len() - 1) * (16 + 8 * ncols) + (16 + 8 * ncols) == entries.len() * (16 + 8
            * ncols)) by (nonlinear_arith);
    }
}

fn append_sidecar_entry(out: &mut Vec<u8>, e: &SidecarEntry)
    requires
        old(out)@.len() + 16 + 8 * e.values@.len() <= usize::MAX,
    ensures
        final(out)@ == old(out)@ + spec_words_bytes(spec_sidecar_entry_words(*e)),
{
    proof {
        lemma_auto_spec_u64_to_from_le_bytes();
    }
    append_u64(out, i64_to_word(e.symbol));
    append_u64(out, i64_to_word(e.timestamp));
    append_words(out, &e.values);
    proof {
        lemma_words_bytes_concat(
            seq![word_of_i64(e.symbol), word_of_i64(e.timestamp)],
            e.values@,
        );
        lemma_words_bytes_two(word_of_i64(e.symbol), word_of_i64(e.timestamp));
        assert(seq![word_of_i64(e.symbol), word_of_i64(e.timestamp)] + e.values@
            =~= spec_sidecar_entry_words(*e));
        assert(out@ =~= old(out)@ + spec_words_bytes(spec_sidecar_entry_words(*e)));
    }
}

/// Encode a sidecar file.
pub fn encode_sidecar_file(num_value_cols: u32, entries: &Vec<SidecarEntry>) -> (r: Vec<u8>)
    requires
        entries@.len() <= 0xffff_ffff,
        forall|k: int|
            0 <= k < entries@.len() ==> (#[trigger] entries@[k]).values@.len() == num_value_cols,
        SIDECAR_HEADER_SIZE + entries@.len() * (16 + 8 * num_value_cols) <= usize::MAX,
    ensures
        r@ == spec_sidecar_bytes(num_value_cols, entries@),
{
    proof {
        lemma_auto_spec_u32_to_from_le_bytes();
    }
    let n = entries.len();
    let mut out: Vec<u8> = Vec::new();
    append_u32(&mut out, SIDECAR_MAGIC);
    append_u32(&mut out, n as u32);
    append_u32(&mut out, num_value_cols);
    append_u32(&mut out, 0);
    let ghost header = spec_u32_to_le_bytes(SIDECAR_MAGIC) + spec_u32_to_le_bytes(n as u32)
        + spec_u32_to_le_bytes(num_value_cols) + spec_u32_to_le_bytes(0u32);
    let mut i: usize = 0;
    while i < n
        invariant
            i <= n,
            n == entries@.len(),
            n <= 0xffff_ffff,
            forall|k: int|
                0 <= k < entries@.len() ==> (#[trigger] entries@[k]).values@.len()
                    == num_value_cols,
            SIDECAR_HEADER_SIZE + n * (16 + 8 * num_value_cols) <= usize::MAX,
            header.len() == SIDECAR_HEADER_SIZE,
            out@ =~= header + spec_sidecar_records_bytes(entries@.take(i as int)),
            out@.len() == SIDECAR_HEADER_SIZE + i * (16 + 8 * num_value_cols),
        decreases n - i,
    {
        proof {
            lemma_sidecar_records_bytes_len(entries@.take(i as int), num_value_cols as int);
            assert(entries@.take(i as int).len() == i);
            assert((i + 1) * (16 + 8 * num_value_cols) <= n * (16 + 8 * num_value_cols) && (i + 1)
                * (16 + 8 * num_value_cols) == i * (16 + 8 * num_value_cols) + (16 + 8
                * num_value_cols)) by (nonlinear_arith)
                requires
                    0 <= i < n,
            ;
        }
        append_sidecar_entry(&mut out, &entries[i]);
        proof {
            lemma_words_bytes_len(spec_sidecar_entry_words(entries@[i as int]));
            assert(entries@.take(i + 1 as int).drop_last() =~= entries@.take(i as int));
            assert(entries@.take(i + 1 as int).last() == entries@[i as int]);
            assert(out@ =~= header + spec_sidecar_records_bytes(entries@.take(i + 1 as int)));
        }
        i = i + 1;
    }
    proof {
        assert(entries@.take(n as int) =~= entries@);
        assert(out@ =~= spec_sidecar_bytes(num_value_cols, entries@));
    }
    out
}

/// The sidecar record stored at position `k` of a sidecar file with
/// `ncols` value columns.
pub open spec fn spec_sidecar_entry_at(bytes: Seq<u8>, ncols: int, k: int) -> (i64, i64, Seq<u64>) {
    let base = SIDECAR_HEADER_SIZE + k * (16 + 8 * ncols);
    (
        i64_of_word(spec_u64_from_le_bytes(bytes.subrange(base, base + 8))),
        i64_of_word(spec_u64_from_le_bytes(bytes.subrange(base + 8, base + 16))),
        Seq::new(
            ncols as nat,
            |c: int| spec_u64_from_le_bytes(bytes.subrange(base + 16 + 8 * c, base + 24 + 8 * c)),
        ),
    )
}

/// A byte sequence is a well-formed sidecar file for its declared counts.
pub open spec fn spec_sidecar_file_ok(bytes: Seq<u8>) -> bool {
    &&& bytes.len() >= SIDECAR_HEADER_SIZE
    &&& spec_u32_from_le_bytes(bytes.subrange(0, 4)) == SIDECAR_MAGIC
    &&& SIDECAR_HEADER_SIZE + spec_u32_from_le_bytes(bytes.subrange(4, 8)) * (16 + 8
        * spec_u32_from_le_bytes(bytes.subrange(8, 12))) <= bytes.len()
}

/// Decode a sidecar file into its value-column count and records; errors with
/// `InvalidFile` exactly when the bytes are too small for their declared
/// counts or the magic is wrong.
pub fn decode_sidecar_file(path: String, bytes: &[u8]) -> (r: Result<
    (u32, Vec<SidecarEntry>),
    ZolaError,
>)
    ensures
        r.is_ok() <==> spec_sidecar_file_ok(bytes@),
        r matches Ok((ncols, entries)) ==> {
            &&& ncols == spec_u32_from_le_bytes(bytes@.subrange(8, 12))
            &&& entries@.len() == spec_u32_from_le_bytes(bytes@.subrange(4, 8))
            &&& forall|k: int|
                0 <= k < entries@.len() ==> {
                    let e = #[trigger] entries@[k];
                    let s = spec_sidecar_entry_at(bytes@, ncols as int, k);
                    e.symbol == s.0 && e.timestamp == s.1 && e.values@ == s.2
                }
        },
{
    let n = bytes.len();
    if n < SIDECAR_HEADER_SIZE {
        return Err(ZolaError::invalid(path, String::from_str("sidecar too small")));
    }
    let magic = read_u32_at(bytes, 0);
    if magic != SIDECAR_MAGIC {
        return Err(ZolaError::invalid(path, String::from_str("bad sidecar magic")));
    }
    let num_symbols = read_u32_at(bytes, 4);
    let num_value_cols = read_u32_at(bytes, 8);
    let esz: u128 = (2 + num_value_cols as u128) * 8;
    proof {
        vstd::arithmetic::mul::lemma_mul_upper_bound(
            num_symbols as int,
            0xffff_ffff,
            esz as int,
            0x8_0000_0008,
        );
    }
    if (SIDECAR_HEADER_SIZE as u128) + (num_symbols as u128) * esz > n as u128 {
        return Err(ZolaError::invalid(path, String::from_str("sidecar truncated")));
    }
    proof {
        assert((num_symbols as u128) * ((2 + num_value_cols as u128) * 8) == num_symbols as int * (
        16 + 8 * num_value_cols as int)) by (nonlinear_arith);
    }
    let mut entries: Vec<SidecarEntry> = Vec::new();
    let mut k: usize = 0;
    while k < num_symbols as usize
        invariant
            k <= num_symbols as usize,
            n == bytes@.len(),
            SIDECAR_HEADER_SIZE + (num_symbols as int) * (16 + 8 * (num_value_cols as int)) <= n,
            entries@.len() == k,
            forall|j: int|
                0 <= j < k ==> {
                    let e = #[trigger] entries@[j];
                    let s = spec_sidecar_entry_at(bytes@, num_value_cols as int, j);
                    e.symbol == s.0 && e.timestamp == s.1 && e.values@ == s.2
                },
        decreases num_symbols as usize - k,
    {
        proof {
            assert((k as int) * (16 + 8 * (num_value_cols as int)) <= (num_symbols as int) * (16 + 8
                * (num_value_cols as int)) && (k as int + 1) * (16 + 8 * (num_value_cols as int))
                <= (num_symbols as int) * (16 + 8 * (num_value_cols as int)) && (k as int + 1) * (16
                + 8 * (num_value_cols as int)) == (k as int) * (16 + 8 * (num_value_cols as int))
                + 16 + 8 * (num_value_cols as int)) by (nonlinear_arith)
                requires
                    0 <= k < num_symbols as int,
            ;
        }
        let base: usize = SIDECAR_HEADER_SIZE + k * (16 + 8 * (num_value_cols as usize));
        let sym = word_to_i64(read_u64_at(bytes, base));
        let ts = word_to_i64(read_u64_at(bytes, base + 8));
        let vals = read_words(bytes, base + 16, num_value_cols as usize);
        entries.push(SidecarEntry { symbol: sym, timestamp: ts, values: vals });
        proof {
            let s = spec_sidecar_entry_at(bytes@, num_value_cols as int, k as int);
            assert(entries@.last().values@ =~= s.2);
        }
        k = k + 1;
    }
    Ok((num_value_cols, entries))
}

} // verus!
