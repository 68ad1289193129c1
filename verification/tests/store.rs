//! End-to-end tests of the in-memory store: writes, as-of queries in both
//! directions, sidecar fallbacks, and null results.

use zola_db::{ColumnDef, ColumnType, Db, Direction, Probes, Schema, ZolaError, NULL_I64};

/// Microseconds for an offset from Jan 15, 2024 00:00:00 UTC.
fn ts(days: i64, hours: i64, mins: i64, secs: i64, micros: i64) -> i64 {
    const JAN15_2024_EPOCH_SECS: i64 = 1_705_276_800;
    (JAN15_2024_EPOCH_SECS + days * 86400 + hours * 3600 + mins * 60 + secs) * 1_000_000 + micros
}

fn price_schema() -> Schema {
    Schema {
        value_columns: vec![ColumnDef { name: String::from("price"), col_type: ColumnType::F64 }],
    }
}

fn two_col_schema() -> Schema {
    Schema {
        value_columns: vec![
            ColumnDef { name: String::from("price"), col_type: ColumnType::F64 },
            ColumnDef { name: String::from("size"), col_type: ColumnType::I64 },
        ],
    }
}

fn f64_col(vals: &[f64]) -> Vec<u64> {
    vals.iter().map(|v| v.to_bits()).collect()
}

fn i64_col(vals: &[i64]) -> Vec<u64> {
    vals.iter().map(|v| *v as u64).collect()
}

fn as_f64(word: u64) -> f64 {
    f64::from_bits(word)
}

fn as_i64(word: u64) -> i64 {
    word as i64
}

#[test]
fn test_backward_asof_basic() {
    let mut db = Db::new();
    let schema = price_schema();

    let timestamps = vec![ts(0, 10, 0, 0, 0), ts(0, 10, 0, 1, 0), ts(0, 10, 0, 2, 0)];
    let symbols = vec![1_i64, 1, 2];
    let prices = vec![100.0_f64, 100.5, 200.0];

    db.write("trades", &schema, &timestamps, &symbols, &vec![f64_col(&prices)]).unwrap();

    let result = db
        .asof(
            "trades",
            &Probes {
                symbols: vec![1, 2],
                timestamps: vec![ts(0, 10, 0, 0, 500_000), ts(0, 10, 0, 3, 0)],
            },
            Direction::Backward,
        )
        .unwrap();

    assert_eq!(result.timestamps[0], ts(0, 10, 0, 0, 0));
    assert_eq!(result.timestamps[1], ts(0, 10, 0, 2, 0));
    assert_eq!(as_f64(result.columns[0][0]), 100.0);
    assert_eq!(as_f64(result.columns[0][1]), 200.0);
}

#[test]
fn test_forward_asof_basic() {
    let mut db = Db::new();
    let schema = price_schema();

    let timestamps = vec![ts(0, 10, 0, 0, 0), ts(0, 10, 0, 1, 0)];
    let symbols = vec![1_i64, 1];
    let prices = vec![100.0_f64, 100.5];

    db.write("trades", &schema, &timestamps, &symbols, &vec![f64_col(&prices)]).unwrap();

    let result = db
        .asof(
            "trades",
            &Probes { symbols: vec![1], timestamps: vec![ts(0, 10, 0, 0, 500_000)] },
            Direction::Forward,
        )
        .unwrap();

    assert_eq!(result.timestamps[0], ts(0, 10, 0, 1, 0));
    assert_eq!(as_f64(result.columns[0][0]), 100.5);
}

#[test]
fn test_boundary_sidecar_backward() {
    let mut db = Db::new();
    let schema = price_schema();

    db.write("trades", &schema, &vec![ts(0, 23, 59, 59, 0)], &vec![1_i64], &vec![f64_col(
        &[150.0],
    )])
        .unwrap();

    db.write("trades", &schema, &vec![ts(1, 10, 0, 0, 0)], &vec![1_i64], &vec![f64_col(&[160.0])])
        .unwrap();

    // Probe before any data on Jan 16: found via Jan 15's last-value sidecar.
    let result = db
        .asof(
            "trades",
            &Probes { symbols: vec![1], timestamps: vec![ts(1, 9, 0, 0, 0)] },
            Direction::Backward,
        )
        .unwrap();

    assert_eq!(result.timestamps[0], ts(0, 23, 59, 59, 0));
    assert_eq!(as_f64(result.columns[0][0]), 150.0);
}

#[test]
fn test_strict_no_recursive_lookback() {
    let mut db = Db::new();
    let schema = price_schema();

    db.write("trades", &schema, &vec![ts(-2, 12, 0, 0, 0)], &vec![1_i64], &vec![f64_col(&[99.0])])
        .unwrap();
    db.write("trades", &schema, &vec![ts(-1, 12, 0, 0, 0)], &vec![2_i64], &vec![f64_col(
        &[300.0],
    )])
        .unwrap();
    db.write("trades", &schema, &vec![ts(0, 12, 0, 0, 0)], &vec![2_i64], &vec![f64_col(&[301.0])])
        .unwrap();

    // Jan 14's sidecar has no sym 1; the engine must not reach Jan 13.
    let result = db
        .asof(
            "trades",
            &Probes { symbols: vec![1], timestamps: vec![ts(0, 12, 0, 0, 0)] },
            Direction::Backward,
        )
        .unwrap();

    assert_eq!(result.timestamps[0], NULL_I64);
    assert!(as_f64(result.columns[0][0]).is_nan());
}

#[test]
fn test_microsecond_precision() {
    let mut db = Db::new();
    let schema = price_schema();

    let t1 = ts(0, 10, 0, 0, 1);
    let t2 = ts(0, 10, 0, 0, 999999);
    let timestamps = vec![t1, t2];
    let symbols = vec![1_i64, 1];
    let prices = vec![1.0_f64, 2.0];

    db.write("trades", &schema, &timestamps, &symbols, &vec![f64_col(&prices)]).unwrap();

    let r1 = db
        .asof("trades", &Probes { symbols: vec![1], timestamps: vec![t1] }, Direction::Backward)
        .unwrap();
    assert_eq!(r1.timestamps[0], t1);

    let r2 = db
        .asof(
            "trades",
            &Probes { symbols: vec![1], timestamps: vec![t1 + 500_000] },
            Direction::Backward,
        )
        .unwrap();
    assert_eq!(r2.timestamps[0], t1);

    let r3 = db
        .asof(
            "trades",
            &Probes { symbols: vec![1], timestamps: vec![t1 + 500_000] },
            Direction::Forward,
        )
        .unwrap();
    assert_eq!(r3.timestamps[0], t2);
}

#[test]
fn test_multi_column() {
    let mut db = Db::new();
    let schema = two_col_schema();

    let timestamps = vec![ts(0, 10, 0, 0, 0), ts(0, 10, 0, 1, 0)];
    let symbols = vec![1_i64, 1];
    let prices = vec![50.5_f64, 51.0];
    let sizes = vec![100_i64, 200];

    db.write("trades", &schema, &timestamps, &symbols, &vec![f64_col(&prices), i64_col(&sizes)])
        .unwrap();

    let result = db
        .asof(
            "trades",
            &Probes { symbols: vec![1], timestamps: vec![ts(0, 10, 0, 0, 500_000)] },
            Direction::Backward,
        )
        .unwrap();

    assert_eq!(result.timestamps[0], ts(0, 10, 0, 0, 0));
    assert_eq!(as_f64(result.columns[0][0]), 50.5);
    assert_eq!(as_i64(result.columns[1][0]), 100);
}

#[test]
fn test_missing_partition_null() {
    let mut db = Db::new();
    let schema = price_schema();

    db.write("trades", &schema, &vec![ts(0, 10, 0, 0, 0)], &vec![1_i64], &vec![f64_col(&[100.0])])
        .unwrap();

    // Probe on Jan 20, a day with no partition.
    let result = db
        .asof(
            "trades",
            &Probes { symbols: vec![1], timestamps: vec![ts(5, 10, 0, 0, 0)] },
            Direction::Backward,
        )
        .unwrap();

    assert_eq!(result.timestamps[0], NULL_I64);
}

#[test]
fn test_write_and_asof_roundtrip() {
    const JAN15: i64 = 1_705_276_800 * 1_000_000;
    let mut db = Db::new();
    let schema = two_col_schema();

    let timestamps = vec![JAN15 + 36_000_000_000, JAN15 + 36_001_000_000];
    let symbols = vec![1_i64, 1];
    let prices = vec![100.5_f64, 101.0];
    let sizes = vec![500_i64, 600];

    db.write("trades", &schema, &timestamps, &symbols, &vec![f64_col(&prices), i64_col(&sizes)])
        .unwrap();

    let result = db
        .asof(
            "trades",
            &Probes { symbols: vec![1], timestamps: vec![JAN15 + 36_000_500_000] },
            Direction::Backward,
        )
        .unwrap();

    assert_eq!(result.timestamps[0], JAN15 + 36_000_000_000);
    assert_eq!(as_f64(result.columns[0][0]), 100.5);
    assert_eq!(as_i64(result.columns[1][0]), 500);
}

#[test]
fn test_forward_asof_via_network() {
    const JAN15: i64 = 1_705_276_800 * 1_000_000;
    let mut db = Db::new();
    let schema = price_schema();

    let timestamps = vec![JAN15 + 36_000_000_000, JAN15 + 36_001_000_000];
    let symbols = vec![1_i64, 1];
    let prices = vec![100.0_f64, 101.0];

    db.write("trades", &schema, &timestamps, &symbols, &vec![f64_col(&prices)]).unwrap();

    let result = db
        .asof(
            "trades",
            &Probes { symbols: vec![1], timestamps: vec![JAN15 + 36_000_500_000] },
            Direction::Forward,
        )
        .unwrap();

    assert_eq!(result.timestamps[0], JAN15 + 36_001_000_000);
    assert_eq!(as_f64(result.columns[0][0]), 101.0);
}

#[test]
fn test_null_result_for_missing_symbol() {
    const JAN15: i64 = 1_705_276_800 * 1_000_000;
    let mut db = Db::new();
    let schema = price_schema();

    db.write("trades", &schema, &vec![JAN15 + 36_000_000_000], &vec![1_i64], &vec![f64_col(
        &[100.0],
    )])
        .unwrap();

    let result = db
        .asof(
            "trades",
            &Probes { symbols: vec![99], timestamps: vec![JAN15 + 36_000_000_000] },
            Direction::Backward,
        )
        .unwrap();

    assert_eq!(result.timestamps[0], NULL_I64);
    assert!(as_f64(result.columns[0][0]).is_nan());
}

#[test]
fn test_error_on_missing_table() {
    let db = Db::new();

    let result = db.asof(
        "nonexistent",
        &Probes { symbols: vec![1], timestamps: vec![1_705_276_800 * 1_000_000] },
        Direction::Backward,
    );

    assert!(result.is_err());
    assert!(matches!(result, Err(ZolaError::TableNotFound(_))));
}
