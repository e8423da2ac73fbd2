use read_buffer::agg::{AggResult, AggregateType};
use read_buffer::chunk::Chunk;
use read_buffer::column::{Column, ColumnData, Operator, Value};
use read_buffer::database::Database;
use read_buffer::error::{Error, ResponseClass};
use read_buffer::row_group::Predicate;
use read_buffer::store::Store;
use read_buffer::time_range_predicate;

fn col_i64(name: &str, vals: Vec<i64>) -> Column {
    Column { name: name.to_string(), data: ColumnData::I64(vals) }
}

fn col_str(name: &str, vals: Vec<&str>) -> Column {
    Column {
        name: name.to_string(),
        data: ColumnData::Str(vals.into_iter().map(|s| s.to_string()).collect()),
    }
}

fn pred_eq_str(column: &str, value: &str) -> Predicate {
    Predicate {
        column: column.to_string(),
        op: Operator::Equal,
        value: Value::Str(value.to_string()),
    }
}

/// A chunk with one table holding host/value/time columns.
fn host_value_chunk(key: &str, table: &str, hosts: Vec<&str>, values: Vec<i64>, times: Vec<i64>) -> Chunk {
    let batch = vec![(
        table.to_string(),
        vec![col_str("host", hosts), col_i64("value", values), col_i64("time", times)],
    )];
    Chunk::new(key.to_string(), batch).expect("chunk construction")
}

fn group_by_host() -> Vec<String> {
    vec!["host".to_string()]
}

fn sum_value() -> Vec<(String, AggregateType)> {
    vec![("value".to_string(), AggregateType::Sum)]
}

#[test]
fn backfill_chunks_merge_sum() {
    // Two chunks both hold rows for host=serverA inside the minute
    // window: the duplicate group key must merge to one row summing 12,
    // never two rows of 5 and 7.
    let mut db = Database::new();
    db.add_chunk(host_value_chunk("c1", "cpu", vec!["serverA"], vec![5], vec![10])).unwrap();
    db.add_chunk(host_value_chunk("c2", "cpu", vec!["serverA"], vec![7], vec![20])).unwrap();
    let rows = db
        .aggregate("cpu", (0, 60_000_000_000), &Vec::new(), &group_by_host(), &sum_value())
        .unwrap();
    assert_eq!(rows.len(), 1);
    assert_eq!(rows[0].key, vec!["serverA".to_string()]);
    assert_eq!(rows[0].accs.len(), 1);
    match rows[0].accs[0] {
        AggResult::Sum(s) => assert_eq!(s, 12),
        _ => panic!("expected a sum"),
    }
}

#[test]
fn window_splits_groups() {
    // Rows at t=10 and t=70_000_000_000 share a tag but land in
    // different one-minute windows: two output rows, starting at 0 and
    // 60_000_000_000.
    let mut db = Database::new();
    db.add_chunk(host_value_chunk(
        "c1",
        "cpu",
        vec!["serverA", "serverA"],
        vec![5, 7],
        vec![10, 70_000_000_000],
    ))
    .unwrap();
    let rows = db
        .aggregate_window(
            "cpu",
            (0, 120_000_000_000),
            &Vec::new(),
            &group_by_host(),
            &sum_value(),
            60_000_000_000,
        )
        .unwrap();
    assert_eq!(rows.len(), 2);
    let mut starts: Vec<i128> = rows.iter().map(|r| r.wstart).collect();
    starts.sort();
    assert_eq!(starts, vec![0, 60_000_000_000]);
}

#[test]
fn absent_database_is_an_explicit_error() {
    // A missing database name is a "no such database" signal, distinct
    // from a present database matching nothing.
    let mut store = Store::new();
    store.add_database("present".to_string(), Database::new()).unwrap();
    let miss = store.select("absent", "cpu", (0, 100), &Vec::new(), &vec!["time".to_string()]);
    assert_eq!(miss.unwrap_err(), Error::DatabaseNotFound);
    let empty = store
        .select("present", "cpu", (0, 100), &Vec::new(), &vec!["time".to_string()])
        .unwrap();
    assert!(empty.is_empty());
}

#[test]
fn half_open_interval() {
    // A row with time == from is included; a row with time == to is
    // excluded.
    let mut db = Database::new();
    db.add_chunk(host_value_chunk(
        "c1",
        "cpu",
        vec!["a", "a", "a"],
        vec![1, 2, 3],
        vec![10, 20, 30],
    ))
    .unwrap();
    let rows = db
        .select("cpu", (10, 30), &Vec::new(), &vec!["time".to_string()])
        .unwrap();
    let times: Vec<i64> = rows
        .iter()
        .map(|r| match r[0] {
            Value::I64(t) => t,
            _ => panic!("expected a timestamp"),
        })
        .collect();
    assert_eq!(times, vec![10, 20]);
}

#[test]
fn time_range_predicate_shape() {
    let preds = time_range_predicate(5, 9);
    assert_eq!(preds.len(), 2);
    assert_eq!(preds[0].column, "time");
    assert_eq!(preds[0].op, Operator::GTE);
    assert_eq!(preds[0].value, Value::I64(5));
    assert_eq!(preds[1].column, "time");
    assert_eq!(preds[1].op, Operator::LT);
    assert_eq!(preds[1].value, Value::I64(9));
}

#[test]
fn pruned_chunk_contributes_nothing() {
    // A chunk wholly outside the window is skipped; the result equals
    // scanning only the overlapping chunk.
    let mut db = Database::new();
    db.add_chunk(host_value_chunk("old", "cpu", vec!["a"], vec![100], vec![1_000])).unwrap();
    db.add_chunk(host_value_chunk("new", "cpu", vec!["a"], vec![5], vec![2_000_000])).unwrap();
    let rows = db
        .aggregate("cpu", (2_000_000, 3_000_000), &Vec::new(), &group_by_host(), &sum_value())
        .unwrap();
    assert_eq!(rows.len(), 1);
    match rows[0].accs[0] {
        AggResult::Sum(s) => assert_eq!(s, 5),
        _ => panic!("expected a sum"),
    }
}

#[test]
fn predicates_filter_rows() {
    let mut db = Database::new();
    db.add_chunk(host_value_chunk(
        "c1",
        "cpu",
        vec!["a", "b", "a"],
        vec![1, 2, 4],
        vec![10, 11, 12],
    ))
    .unwrap();
    let preds = vec![pred_eq_str("host", "a")];
    let rows = db
        .aggregate("cpu", (0, 100), &preds, &group_by_host(), &sum_value())
        .unwrap();
    assert_eq!(rows.len(), 1);
    assert_eq!(rows[0].key, vec!["a".to_string()]);
    match rows[0].accs[0] {
        AggResult::Sum(s) => assert_eq!(s, 5),
        _ => panic!("expected a sum"),
    }
}

#[test]
fn count_min_max_first_last() {
    let mut db = Database::new();
    // Backfilled second chunk carries an EARLIER row: First must follow
    // the timestamp, not the merge order.
    db.add_chunk(host_value_chunk("c1", "cpu", vec!["a", "a"], vec![9, 3], vec![20, 30])).unwrap();
    db.add_chunk(host_value_chunk("c2", "cpu", vec!["a"], vec![7], vec![10])).unwrap();
    let aggs = vec![
        ("value".to_string(), AggregateType::Count),
        ("value".to_string(), AggregateType::Min),
        ("value".to_string(), AggregateType::Max),
        ("value".to_string(), AggregateType::First),
        ("value".to_string(), AggregateType::Last),
    ];
    let rows = db.aggregate("cpu", (0, 100), &Vec::new(), &group_by_host(), &aggs).unwrap();
    assert_eq!(rows.len(), 1);
    match rows[0].accs[0] {
        AggResult::Count(c) => assert_eq!(c, 3),
        _ => panic!("expected a count"),
    }
    match rows[0].accs[1] {
        AggResult::Min(m) => assert_eq!(m, 3),
        _ => panic!("expected a minimum"),
    }
    match rows[0].accs[2] {
        AggResult::Max(m) => assert_eq!(m, 9),
        _ => panic!("expected a maximum"),
    }
    match &rows[0].accs[3] {
        AggResult::First(v, t) => {
            assert_eq!(*t, 10);
            assert_eq!(*v, Value::I64(7));
        },
        _ => panic!("expected a first"),
    }
    match &rows[0].accs[4] {
        AggResult::Last(v, t) => {
            assert_eq!(*t, 30);
            assert_eq!(*v, Value::I64(3));
        },
        _ => panic!("expected a last"),
    }
}

#[test]
fn schema_errors_are_reported() {
    let mut db = Database::new();
    db.add_chunk(host_value_chunk("c1", "cpu", vec!["a"], vec![1], vec![10])).unwrap();
    // Unknown predicate column.
    let bad_pred = vec![pred_eq_str("nonexistent", "x")];
    assert_eq!(
        db.select("cpu", (0, 100), &bad_pred, &vec!["time".to_string()]).unwrap_err(),
        Error::SchemaMismatch,
    );
    // Type mismatch: equality of a string literal against an integer column.
    let mismatched = vec![pred_eq_str("value", "5")];
    assert_eq!(
        db.select("cpu", (0, 100), &mismatched, &vec!["time".to_string()]).unwrap_err(),
        Error::SchemaMismatch,
    );
    // A non-string group column.
    assert_eq!(
        db.aggregate("cpu", (0, 100), &Vec::new(), &vec!["value".to_string()], &sum_value())
            .unwrap_err(),
        Error::SchemaMismatch,
    );
    // A non-positive window.
    assert_eq!(
        db.aggregate_window("cpu", (0, 100), &Vec::new(), &group_by_host(), &sum_value(), 0)
            .unwrap_err(),
        Error::InvalidArgument,
    );
    // An unknown table matches nothing but is no error.
    let rows = db.select("other", (0, 100), &Vec::new(), &vec!["time".to_string()]).unwrap();
    assert!(rows.is_empty());
}

#[test]
fn construction_is_atomic() {
    // Missing time column.
    let no_time = vec![("cpu".to_string(), vec![col_i64("value", vec![1])])];
    assert_eq!(Chunk::new("k".to_string(), no_time).unwrap_err(), Error::ConstructionError);
    // Mismatched row counts.
    let ragged = vec![(
        "cpu".to_string(),
        vec![col_i64("time", vec![1, 2]), col_i64("value", vec![1])],
    )];
    assert_eq!(Chunk::new("k".to_string(), ragged).unwrap_err(), Error::ConstructionError);
    // A repeated table name.
    let dup = vec![
        ("cpu".to_string(), vec![col_i64("time", vec![1])]),
        ("cpu".to_string(), vec![col_i64("time", vec![2])]),
    ];
    assert_eq!(Chunk::new("k".to_string(), dup).unwrap_err(), Error::ConstructionError);
    // An empty mapping.
    assert_eq!(Chunk::new("k".to_string(), Vec::new()).unwrap_err(), Error::ConstructionError);
}

#[test]
fn size_accounting_is_consistent() {
    // database.size() always equals the sum of its chunks' sizes, and
    // the store total equals the sum of its databases' sizes.
    let c1 = host_value_chunk("c1", "cpu", vec!["a"], vec![1], vec![10]);
    let c2 = host_value_chunk("c2", "mem", vec!["b", "b"], vec![1, 2], vec![10, 20]);
    let s1 = c1.size;
    let s2 = c2.size;
    // host: 16 bytes per string cell; value and time: 8 each.
    assert_eq!(s1, 16 + 8 + 8);
    assert_eq!(s2, 2 * (16 + 8 + 8));
    let mut db = Database::new();
    db.add_chunk(c1).unwrap();
    db.add_chunk(c2).unwrap();
    assert_eq!(db.size(), s1 + s2);
    // Duplicate chunk keys are rejected, leaving the size unchanged.
    let c3 = host_value_chunk("c1", "cpu", vec!["a"], vec![1], vec![10]);
    assert_eq!(db.add_chunk(c3).unwrap_err(), Error::DuplicateKey);
    assert_eq!(db.size(), s1 + s2);
    db.remove_chunk(&"c1".to_string()).unwrap();
    assert_eq!(db.size(), s2);
    assert_eq!(db.remove_chunk(&"c1".to_string()).unwrap_err(), Error::ChunkNotFound);

    let mut store = Store::new();
    let dbsize = db.size();
    store.add_database("tenant".to_string(), db).unwrap();
    assert_eq!(store.size(), dbsize);
    let other = Database::new();
    store.add_database("tenant2".to_string(), other).unwrap();
    assert_eq!(store.size(), dbsize);
    assert_eq!(
        store.add_database("tenant".to_string(), Database::new()).unwrap_err(),
        Error::DuplicateKey,
    );
    store.remove_database("tenant".to_string()).unwrap();
    assert_eq!(store.size(), 0);
    assert_eq!(
        store.remove_database("tenant".to_string()).unwrap_err(),
        Error::DatabaseNotFound,
    );
}

#[test]
fn schema_queries_agree() {
    // tag_keys followed by tag_values returns a value set for every
    // reported key and none for keys not reported.
    let mut db = Database::new();
    let batch = vec![(
        "weather".to_string(),
        vec![
            col_str("city", vec!["x", "y"]),
            col_str("station", vec!["s1", "s1"]),
            col_i64("reading", vec![3, 4]),
            col_i64("time", vec![10, 20]),
        ],
    )];
    db.add_chunk(Chunk::new("c1".to_string(), batch).expect("chunk")).unwrap();

    let names = db.table_names((0, 100), &Vec::new());
    assert_eq!(names, vec!["weather".to_string()]);
    // Outside the window nothing survives.
    let none = db.table_names((50, 100), &Vec::new());
    assert!(none.is_empty());

    let mut keys = db.tag_keys("weather", (0, 100), &Vec::new()).unwrap();
    keys.sort();
    assert_eq!(keys, vec!["city".to_string(), "station".to_string()]);

    let pairs = db.tag_values("weather", (0, 100), &Vec::new(), &keys).unwrap();
    assert_eq!(pairs.len(), 2);
    let mut cities = pairs[0].1.clone();
    cities.sort();
    assert_eq!(cities, vec!["x".to_string(), "y".to_string()]);
    assert_eq!(pairs[1].1, vec!["s1".to_string()]);

    // A key that is no tag column yields no values.
    let absent = db
        .tag_values("weather", (0, 100), &Vec::new(), &vec!["reading".to_string()])
        .unwrap();
    assert_eq!(absent.len(), 1);
    assert!(absent[0].1.is_empty());

    // An empty request asks for every tag key present.
    let all = db.tag_values("weather", (0, 100), &Vec::new(), &Vec::new()).unwrap();
    let mut all_keys: Vec<String> = all.iter().map(|p| p.0.clone()).collect();
    all_keys.sort();
    assert_eq!(all_keys, vec!["city".to_string(), "station".to_string()]);
}

#[test]
fn store_routes_queries() {
    let mut store = Store::new();
    let mut db = Database::new();
    db.add_chunk(host_value_chunk("c1", "cpu", vec!["a"], vec![5], vec![10])).unwrap();
    store.add_database("tenant".to_string(), db).unwrap();
    store
        .add_chunk("tenant", host_value_chunk("c2", "cpu", vec!["a"], vec![7], vec![20]))
        .unwrap();
    assert_eq!(
        store
            .add_chunk("ghost-tenant", host_value_chunk("c3", "cpu", vec!["a"], vec![1], vec![1]))
            .unwrap_err(),
        Error::DatabaseNotFound,
    );
    let rows = store
        .aggregate("tenant", "cpu", (0, 100), &Vec::new(), &group_by_host(), &sum_value())
        .unwrap();
    assert_eq!(rows.len(), 1);
    match rows[0].accs[0] {
        AggResult::Sum(s) => assert_eq!(s, 12),
        _ => panic!("expected a sum"),
    }
    let windowed = store
        .aggregate_window(
            "tenant",
            "cpu",
            (0, 100),
            &Vec::new(),
            &group_by_host(),
            &sum_value(),
            60,
        )
        .unwrap();
    assert_eq!(windowed.len(), 1);
    assert_eq!(windowed[0].wstart, 0);
    let names = store.table_names("tenant", (0, 100), &Vec::new()).unwrap();
    assert_eq!(names, vec!["cpu".to_string()]);
    let keys = store.tag_keys("tenant", "cpu", (0, 100), &Vec::new()).unwrap();
    assert_eq!(keys, vec!["host".to_string()]);
    let vals = store.tag_values("tenant", "cpu", (0, 100), &Vec::new(), &keys).unwrap();
    assert_eq!(vals[0].1, vec!["a".to_string()]);
    assert!(store.tag_keys("absent", "cpu", (0, 100), &Vec::new()).is_err());
}

#[test]
fn response_classes() {
    assert_eq!(Error::DatabaseNotFound.response_class(), ResponseClass::NotFound);
    assert_eq!(Error::ChunkNotFound.response_class(), ResponseClass::NotFound);
    assert_eq!(Error::DuplicateKey.response_class(), ResponseClass::BadRequest);
    assert_eq!(Error::SchemaMismatch.response_class(), ResponseClass::BadRequest);
    assert_eq!(Error::InvalidArgument.response_class(), ResponseClass::BadRequest);
    assert_eq!(Error::ConstructionError.response_class(), ResponseClass::Internal);
    assert_eq!(Error::SizeOverflow.response_class(), ResponseClass::Internal);
}

#[test]
fn negative_times_bucket_into_floor_windows() {
    // Window starts are the largest multiple of the window not above the
    // timestamp, also below zero.
    let mut db = Database::new();
    db.add_chunk(host_value_chunk("c1", "cpu", vec!["a"], vec![1], vec![-10])).unwrap();
    let rows = db
        .aggregate_window("cpu", (-100, 100), &Vec::new(), &group_by_host(), &sum_value(), 60)
        .unwrap();
    assert_eq!(rows.len(), 1);
    assert_eq!(rows[0].wstart, -60);
}

#[test]
fn empty_group_columns_form_one_group() {
    // With no group columns every surviving row lands in the one group
    // keyed by the empty tuple.
    let mut db = Database::new();
    db.add_chunk(host_value_chunk("c1", "cpu", vec!["a", "b"], vec![3, 4], vec![10, 20])).unwrap();
    let rows = db.aggregate("cpu", (0, 100), &Vec::new(), &Vec::new(), &sum_value()).unwrap();
    assert_eq!(rows.len(), 1);
    assert!(rows[0].key.is_empty());
    match rows[0].accs[0] {
        AggResult::Sum(s) => assert_eq!(s, 7),
        _ => panic!("expected a sum"),
    }
}

#[test]
fn range_and_inequality_predicates() {
    let mut db = Database::new();
    db.add_chunk(host_value_chunk(
        "c1",
        "cpu",
        vec!["a", "b", "c"],
        vec![1, 5, 9],
        vec![10, 20, 30],
    ))
    .unwrap();
    // value >= 5 keeps the last two rows.
    let ge = vec![Predicate {
        column: "value".to_string(),
        op: Operator::GTE,
        value: Value::I64(5),
    }];
    let rows = db.select("cpu", (0, 100), &ge, &vec!["value".to_string()]).unwrap();
    assert_eq!(rows.len(), 2);
    assert_eq!(rows[0][0], Value::I64(5));
    assert_eq!(rows[1][0], Value::I64(9));
    // host != "b" keeps the first and last rows.
    let ne = vec![Predicate {
        column: "host".to_string(),
        op: Operator::NotEqual,
        value: Value::Str("b".to_string()),
    }];
    let rows = db.select("cpu", (0, 100), &ne, &vec!["value".to_string()]).unwrap();
    assert_eq!(rows.len(), 2);
    assert_eq!(rows[0][0], Value::I64(1));
    assert_eq!(rows[1][0], Value::I64(9));
    // A range comparison against a tag (string) column is a schema error.
    let bad = vec![Predicate {
        column: "host".to_string(),
        op: Operator::LT,
        value: Value::Str("b".to_string()),
    }];
    assert_eq!(
        db.select("cpu", (0, 100), &bad, &vec!["value".to_string()]).unwrap_err(),
        Error::SchemaMismatch,
    );
}

#[test]
fn groups_come_in_key_order() {
    // Output groups are listed by key, not by which chunk arrived first.
    let mut db = Database::new();
    db.add_chunk(host_value_chunk("c1", "cpu", vec!["delta", "bravo"], vec![1, 2], vec![10, 11]))
        .unwrap();
    db.add_chunk(host_value_chunk("c2", "cpu", vec!["alpha", "charlie"], vec![3, 4], vec![12, 13]))
        .unwrap();
    let rows = db
        .aggregate("cpu", (0, 100), &Vec::new(), &group_by_host(), &sum_value())
        .unwrap();
    let keys: Vec<String> = rows.iter().map(|r| r.key[0].clone()).collect();
    assert_eq!(
        keys,
        vec![
            "alpha".to_string(),
            "bravo".to_string(),
            "charlie".to_string(),
            "delta".to_string(),
        ],
    );
    // Within one key, windows come in ascending order of their start.
    let windowed = db
        .aggregate_window(
            "cpu",
            (0, 100),
            &Vec::new(),
            &group_by_host(),
            &sum_value(),
            2,
        )
        .unwrap();
    for pair in windowed.windows(2) {
        assert!(
            pair[0].key < pair[1].key || (pair[0].key == pair[1].key && pair[0].wstart < pair[1].wstart)
        );
    }
}

#[test]
fn unsatisfiable_predicate_prunes_to_empty() {
    // value > 100 cannot hold anywhere (the column's statistics cap at
    // 9), so every row group is pruned and the result is empty — and
    // identical to scanning and filtering.
    let mut db = Database::new();
    db.add_chunk(host_value_chunk(
        "c1",
        "cpu",
        vec!["a", "a", "a"],
        vec![1, 5, 9],
        vec![10, 20, 30],
    ))
    .unwrap();
    let preds = vec![Predicate {
        column: "value".to_string(),
        op: Operator::GT,
        value: Value::I64(100),
    }];
    let rows = db.select("cpu", (0, 100), &preds, &vec!["value".to_string()]).unwrap();
    assert!(rows.is_empty());
    let groups = db.aggregate("cpu", (0, 100), &preds, &group_by_host(), &sum_value()).unwrap();
    assert!(groups.is_empty());
    // A satisfiable range on the same column still scans.
    let sat = vec![Predicate {
        column: "value".to_string(),
        op: Operator::GTE,
        value: Value::I64(5),
    }];
    let rows = db.select("cpu", (0, 100), &sat, &vec!["value".to_string()]).unwrap();
    assert_eq!(rows.len(), 2);
}
