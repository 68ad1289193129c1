//! Concrete checks of the store's global guarantees and its smaller pieces:
//! monotone backward results, write-order independence, round trips of the
//! codecs, calendar rendering, the wire reader, errors, and the symbol map.

use zola_db::dates::{date_int_to_str, date_str_to_day, is_date_str, micros_to_date_int,
    micros_to_date_str, micros_to_day};
use zola_db::format::{
    decode_column_file, decode_parted_file, decode_sidecar_file, encode_column_file,
    encode_parted_file, encode_sidecar_file, i64_to_word, sidecar_entry_size, word_to_i64,
    PartedEntry, SidecarEntry,
};
use zola_db::proto::{encode_wire_header, decode_wire_header, padded_len, Reader, WireHeader,
    WIRE_MAGIC, WIRE_VERSION, MSG_ASOF};
use zola_db::schema::parse_schema_text;
use zola_db::{ColumnDef, ColumnType, Db, Direction, Probes, Schema, SymbolMap, ZolaError,
    NULL_I64};

fn ts(days: i64, hours: i64, mins: i64, secs: i64, micros: i64) -> i64 {
    const JAN15_2024_EPOCH_SECS: i64 = 1_705_276_800;
    (JAN15_2024_EPOCH_SECS + days * 86400 + hours * 3600 + mins * 60 + secs) * 1_000_000 + micros
}

fn price_schema() -> Schema {
    Schema {
        value_columns: vec![ColumnDef { name: String::from("price"), col_type: ColumnType::F64 }],
    }
}

fn f64_col(vals: &[f64]) -> Vec<u64> {
    vals.iter().map(|v| v.to_bits()).collect()
}

/// Monotone backward: constant symbol, non-decreasing probes, non-decreasing
/// non-null results.
#[test]
fn monotone_backward_results() {
    let mut db = Db::new();
    let schema = price_schema();
    let timestamps =
        vec![ts(0, 9, 0, 0, 0), ts(0, 10, 0, 0, 0), ts(1, 8, 0, 0, 0), ts(1, 12, 0, 0, 0)];
    let symbols = vec![7_i64, 7, 7, 7];
    let prices = vec![1.0, 2.0, 3.0, 4.0];
    db.write("t", &schema, &timestamps, &symbols, &vec![f64_col(&prices)]).unwrap();

    let probes = vec![
        ts(0, 9, 30, 0, 0),
        ts(0, 23, 0, 0, 0),
        ts(1, 7, 0, 0, 0),
        ts(1, 9, 0, 0, 0),
        ts(1, 23, 0, 0, 0),
    ];
    let r = db
        .asof(
            "t",
            &Probes { symbols: vec![7, 7, 7, 7, 7], timestamps: probes },
            Direction::Backward,
        )
        .unwrap();
    let mut prev = i64::MIN;
    for &x in &r.timestamps {
        if x != NULL_I64 {
            assert!(x >= prev);
            prev = x;
        }
    }
}

/// Round trip: every written `(symbol, timestamp)` probed backward returns
/// its own row bit-exactly.
#[test]
fn write_probe_roundtrip_exact() {
    let mut db = Db::new();
    let schema = price_schema();
    let timestamps = vec![ts(0, 1, 0, 0, 5), ts(0, 2, 0, 0, 6), ts(1, 3, 0, 0, 7)];
    let symbols = vec![1_i64, 2, 1];
    let prices = vec![1.25, -2.5, f64::from_bits(0x7ff8_0000_0000_1234)];
    db.write("t", &schema, &timestamps, &symbols, &vec![f64_col(&prices)]).unwrap();

    let r = db
        .asof(
            "t",
            &Probes { symbols: symbols.clone(), timestamps: timestamps.clone() },
            Direction::Backward,
        )
        .unwrap();
    for i in 0..timestamps.len() {
        assert_eq!(r.timestamps[i], timestamps[i]);
        assert_eq!(r.columns[0][i], prices[i].to_bits());
    }
}

/// Partition isolation: writes to disjoint date sets commute.
#[test]
fn disjoint_writes_commute() {
    let schema = price_schema();
    let write_a = (vec![ts(0, 10, 0, 0, 0)], vec![1_i64], vec![f64_col(&[10.0])]);
    let write_b = (vec![ts(2, 11, 0, 0, 0)], vec![2_i64], vec![f64_col(&[20.0])]);

    let mut db1 = Db::new();
    db1.write("t", &schema, &write_a.0, &write_a.1, &write_a.2).unwrap();
    db1.write("t", &schema, &write_b.0, &write_b.1, &write_b.2).unwrap();

    let mut db2 = Db::new();
    db2.write("t", &schema, &write_b.0, &write_b.1, &write_b.2).unwrap();
    db2.write("t", &schema, &write_a.0, &write_a.1, &write_a.2).unwrap();

    let probes = Probes {
        symbols: vec![1, 2, 1, 2],
        timestamps: vec![ts(0, 23, 0, 0, 0), ts(2, 23, 0, 0, 0), ts(2, 12, 0, 0, 0), ts(
            0, 12, 0, 0, 0,
        )],
    };
    let r1 = db1.asof("t", &probes, Direction::Backward).unwrap();
    let r2 = db2.asof("t", &probes, Direction::Backward).unwrap();
    assert_eq!(r1.timestamps, r2.timestamps);
    assert_eq!(r1.columns, r2.columns);
}

/// Writing a day again replaces it wholesale; other days are untouched.
#[test]
fn rewrite_replaces_partition() {
    let mut db = Db::new();
    let schema = price_schema();
    db.write("t", &schema, &vec![ts(0, 10, 0, 0, 0)], &vec![1], &vec![f64_col(&[1.0])]).unwrap();
    db.write("t", &schema, &vec![ts(1, 10, 0, 0, 0)], &vec![1], &vec![f64_col(&[2.0])]).unwrap();
    // Rewrite Jan 15 with a different row; Jan 16 must survive.
    db.write("t", &schema, &vec![ts(0, 11, 0, 0, 0)], &vec![1], &vec![f64_col(&[9.0])]).unwrap();

    let r = db
        .asof(
            "t",
            &Probes { symbols: vec![1, 1], timestamps: vec![ts(0, 23, 0, 0, 0), ts(
                1, 23, 0, 0, 0,
            )] },
            Direction::Backward,
        )
        .unwrap();
    assert_eq!(r.timestamps[0], ts(0, 11, 0, 0, 0));
    assert_eq!(f64::from_bits(r.columns[0][0]), 9.0);
    assert_eq!(r.timestamps[1], ts(1, 10, 0, 0, 0));
}

#[test]
fn schema_mismatch_errors() {
    let mut db = Db::new();
    let schema = price_schema();
    // Length mismatch.
    let r = db.write("t", &schema, &vec![1, 2], &vec![1], &vec![f64_col(&[1.0, 2.0])]);
    assert!(matches!(r, Err(ZolaError::SchemaMismatch(_))));
    // Column count mismatch.
    let r = db.write("t", &schema, &vec![1], &vec![1], &vec![]);
    assert!(matches!(r, Err(ZolaError::SchemaMismatch(_))));
    // Unsupported timestamp.
    let r = db.write("t", &schema, &vec![-5], &vec![1], &vec![f64_col(&[1.0])]);
    assert!(matches!(r, Err(ZolaError::SchemaMismatch(_))));
    // Empty batch is a no-op.
    db.write("t", &schema, &vec![], &vec![], &vec![f64_col(&[])]).unwrap();
    // Conflicting schema on an existing table.
    db.write("t", &schema, &vec![ts(0, 1, 0, 0, 0)], &vec![1], &vec![f64_col(&[1.0])]).unwrap();
    let other = Schema {
        value_columns: vec![ColumnDef { name: String::from("qty"), col_type: ColumnType::I64 }],
    };
    let r = db.write("t", &other, &vec![ts(0, 2, 0, 0, 0)], &vec![1], &vec![vec![5u64]]);
    assert!(matches!(r, Err(ZolaError::SchemaMismatch(_))));
}

#[test]
fn probe_out_of_range_errors() {
    let mut db = Db::new();
    let schema = price_schema();
    db.write("t", &schema, &vec![ts(0, 1, 0, 0, 0)], &vec![1], &vec![f64_col(&[1.0])]).unwrap();
    let r = db.asof("t", &Probes { symbols: vec![1], timestamps: vec![-1] }, Direction::Backward);
    assert!(matches!(r, Err(ZolaError::SchemaMismatch(_))));
}

#[test]
fn date_rendering() {
    // Jan 15, 2024 renders as its calendar date; the wrappers around jiff
    // must not hand their argument back unchanged.
    let t = ts(0, 0, 0, 0, 0);
    assert_eq!(micros_to_day(t), 1_705_276_800 / 86_400);
    assert_eq!(micros_to_date_int(t).unwrap(), 20240115);
    assert_eq!(micros_to_date_str(t).unwrap(), "2024.01.15");
    assert_eq!(date_int_to_str(19700101), "1970.01.01");
    assert_eq!(micros_to_date_str(0).unwrap(), "1970.01.01");
    // Leap-year day.
    let leap = (1_709_164_800i64) * 1_000_000; // 2024-02-29
    assert_eq!(micros_to_date_str(leap).unwrap(), "2024.02.29");
    assert!(micros_to_date_int(-1).is_err());
}

#[test]
fn column_file_roundtrip() {
    let words = vec![1u64, 2, 0xffff_ffff_ffff_ffff, 42];
    let bytes = encode_column_file(2, &words);
    assert_eq!(bytes.len(), 24 + 8 * words.len());
    let (code, back) = decode_column_file(String::from("price.col"), &bytes).unwrap();
    assert_eq!(code, 2);
    assert_eq!(back, words);
    // Corrupt magic is refused.
    let mut bad = bytes.clone();
    bad[0] = 0;
    assert!(matches!(
        decode_column_file(String::from("price.col"), &bad),
        Err(ZolaError::InvalidFile { .. })
    ));
    // A wrong row count is refused.
    let mut bad2 = bytes.clone();
    bad2[16] = 99;
    assert!(decode_column_file(String::from("price.col"), &bad2).is_err());
}

#[test]
fn parted_file_roundtrip() {
    let entries = vec![
        PartedEntry { symbol_id: -3, start: 0, end: 2 },
        PartedEntry { symbol_id: 9, start: 2, end: 5 },
    ];
    let bytes = encode_parted_file(&entries);
    assert_eq!(bytes.len(), 48);
    let back = decode_parted_file(String::from(".parted"), &bytes).unwrap();
    assert_eq!(back, entries);
    assert!(decode_parted_file(String::from(".parted"), &bytes[..40]).is_err());
}

#[test]
fn sidecar_file_roundtrip() {
    let entries = vec![
        SidecarEntry { symbol: 1, timestamp: 100, values: vec![7u64, 8u64] },
        SidecarEntry { symbol: 2, timestamp: 200, values: vec![9u64, 10u64] },
    ];
    let bytes = encode_sidecar_file(2, &entries);
    assert_eq!(bytes.len(), 16 + 2 * sidecar_entry_size(2));
    let (ncols, back) = decode_sidecar_file(String::from(".last_values"), &bytes).unwrap();
    assert_eq!(ncols, 2);
    assert_eq!(back.len(), 2);
    assert_eq!(back[0].symbol, 1);
    assert_eq!(back[0].timestamp, 100);
    assert_eq!(back[0].values, vec![7u64, 8u64]);
    assert_eq!(back[1].values, vec![9u64, 10u64]);
    assert!(decode_sidecar_file(String::from(".x"), &bytes[..20]).is_err());
}

#[test]
fn word_roundtrip() {
    for v in [0i64, -1, i64::MIN, i64::MAX, 123_456_789] {
        assert_eq!(word_to_i64(i64_to_word(v)), v);
    }
}

#[test]
fn wire_header_roundtrip() {
    let h = WireHeader {
        magic: WIRE_MAGIC,
        version: WIRE_VERSION,
        msg_type: MSG_ASOF,
        pad: 0,
        body_len: 96,
    };
    let bytes = encode_wire_header(&h);
    assert_eq!(bytes.len(), 24);
    assert_eq!(decode_wire_header(&bytes), h);
}

#[test]
fn reader_walks_sections() {
    assert_eq!(padded_len(0), 0);
    assert_eq!(padded_len(1), 8);
    assert_eq!(padded_len(8), 8);
    assert_eq!(padded_len(13), 16);

    let mut body: Vec<u8> = Vec::new();
    zola_db::proto::write_section(&mut body, b"trades");
    body.extend_from_slice(&7u64.to_le_bytes());
    body.extend_from_slice(&(-9i64 as u64).to_le_bytes());

    let mut r = Reader::new(body);
    let name = r.read_section().unwrap();
    assert_eq!(&name, b"trades");
    assert_eq!(r.read_u64().unwrap(), 7);
    assert_eq!(r.read_i64_slice(1).unwrap(), vec![-9i64]);
    assert!(r.read_u32().is_err());
}

#[test]
fn symbol_map_assigns_sequential_ids() {
    let mut m = SymbolMap::new();
    assert_eq!(m.get_or_insert("AAA"), 0);
    assert_eq!(m.get_or_insert("BBB"), 1);
    assert_eq!(m.get_or_insert("AAA"), 0);
    assert_eq!(m.get_id("BBB"), Some(1));
    assert_eq!(m.get_id("CCC"), None);
    assert_eq!(m.get_name(1).map(|s| s.as_str()), Some("BBB"));
    assert_eq!(m.get_name(5).map(|s| s.as_str()), None);
}

#[test]
fn schema_text_rendering() {
    let schema = Schema {
        value_columns: vec![
            ColumnDef { name: String::from("price"), col_type: ColumnType::F64 },
            ColumnDef { name: String::from("size"), col_type: ColumnType::I64 },
        ],
    };
    assert_eq!(zola_db::schema::schema_to_text(&schema), "price:f64\nsize:i64\n");
}

#[test]
fn schema_text_parsing() {
    let p = || String::from(".schema");
    // The rendering round-trips, comments and blank lines are skipped, and
    // surrounding whitespace is trimmed.
    let s = parse_schema_text(p(), "price:f64\nsize:i64\n").unwrap();
    assert_eq!(s.value_columns.len(), 2);
    assert_eq!(s.value_columns[0].name, "price");
    assert_eq!(s.value_columns[0].col_type, ColumnType::F64);
    assert_eq!(s.value_columns[1].name, "size");
    assert_eq!(s.value_columns[1].col_type, ColumnType::I64);

    let s = parse_schema_text(p(), "# header\n\n  qty:i64  \n").unwrap();
    assert_eq!(s.value_columns.len(), 1);
    assert_eq!(s.value_columns[0].name, "qty");

    assert_eq!(parse_schema_text(p(), "").unwrap().value_columns.len(), 0);
    // A line without a colon, or with an unknown type, is refused.
    assert!(matches!(parse_schema_text(p(), "price\n"), Err(ZolaError::InvalidFile { .. })));
    assert!(matches!(parse_schema_text(p(), "price:f32\n"), Err(ZolaError::InvalidFile { .. })));

    // Parsing inverts the library's own rendering.
    let schema = Schema {
        value_columns: vec![
            ColumnDef { name: String::from("price"), col_type: ColumnType::F64 },
            ColumnDef { name: String::from("size"), col_type: ColumnType::I64 },
        ],
    };
    let back = parse_schema_text(p(), &zola_db::schema::schema_to_text(&schema)).unwrap();
    assert_eq!(back.value_columns.len(), 2);
    assert_eq!(back.value_columns[0].name, "price");
    assert_eq!(back.value_columns[1].name, "size");
}

#[test]
fn reader_section_failures_keep_cursor() {
    // A truncated section errors and leaves the cursor where it was, so the
    // same read can be retried after more bytes arrive.
    let mut body: Vec<u8> = Vec::new();
    zola_db::proto::write_section(&mut body, b"trades");
    let cut = body[..10].to_vec();
    let mut r = Reader::new(cut);
    assert!(r.read_section().is_err());
    assert_eq!(r.pos, 0);
    let name = {
        let mut r2 = Reader::new(body);
        r2.read_section().unwrap()
    };
    assert_eq!(&name, b"trades");
}

#[test]
fn date_str_parsing() {
    assert!(is_date_str("2024.01.15"));
    assert!(!is_date_str("2024-01-15"));
    assert!(!is_date_str("2024.1.15"));
    assert_eq!(date_str_to_day("2024.01.15"), Some(1_705_276_800 / 86_400));
    assert_eq!(date_str_to_day("1970.01.01"), Some(0));
    assert_eq!(date_str_to_day("2024.13.01"), None);
    assert_eq!(date_str_to_day("junk"), None);
}

#[test]
fn invariant_check_accepts_written_and_rejects_corrupt() {
    let mut db = Db::new();
    let schema = price_schema();
    db.write("t", &schema, &vec![ts(0, 1, 0, 0, 0), ts(0, 2, 0, 0, 0)], &vec![2, 1], &vec![
        f64_col(&[1.0, 2.0]),
    ])
        .unwrap();
    assert!(db.check_wf());
    assert!(db.tables[0].1.check_wf());
    // Corrupting a symbol breaks the sort order and the parted index.
    db.tables[0].1.partitions[0].symbols[0] = 99;
    assert!(!db.tables[0].1.partitions[0].check_wf(1));
    assert!(!db.check_wf());
}

#[test]
fn error_constructors() {
    let e = ZolaError::io(String::from("/x"), String::from("denied"));
    assert!(matches!(e, ZolaError::Io { .. }));
    let e = ZolaError::invalid(String::from("/y"), String::from("bad magic"));
    assert!(matches!(e, ZolaError::InvalidFile { .. }));
}

#[test]
fn partition_files_are_returned() {
    let mut db = Db::new();
    let schema = price_schema();
    let files = db
        .write("t", &schema, &vec![ts(0, 10, 0, 0, 0), ts(1, 10, 0, 0, 0)], &vec![1, 1], &vec![
            f64_col(&[1.0, 2.0]),
        ])
        .unwrap();
    assert_eq!(files.len(), 2);
    assert_eq!(files[0].date_str, "2024.01.15");
    assert_eq!(files[1].date_str, "2024.01.16");
    let names: Vec<&str> = files[0].files.iter().map(|(n, _)| n.as_str()).collect();
    assert_eq!(
        names,
        vec!["timestamp.col", "symbol.col", "price.col", ".parted", ".last_values",
            ".first_values"]
    );
    // The column file for one row: 24-byte header + 8 bytes.
    assert_eq!(files[0].files[0].1.len(), 32);
}
