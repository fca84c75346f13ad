use report_ingest::columns::{prepare_columns, push_raw_values, rows_to_columns, ColumnSpec, Row};
use report_ingest::encode::encode_record;
use report_ingest::error::{AdwordsError, PipelineError};
use report_ingest::names::{normalize_name, strip_symbols};
use report_ingest::normalize::{ColumnType, TypedValue};
use report_ingest::decimal::Decimal;
use report_ingest::persist::{check_unprocessed, BatchPersister, MAX_BATCH_WRITE_ITEMS};

fn spec(name: &str, ty: ColumnType) -> ColumnSpec {
    ColumnSpec { name: name.to_string(), ty }
}

fn row(pairs: &[(&str, &str)]) -> Row {
    let mut r = Row::new();
    for (k, v) in pairs {
        r.insert(k.to_string(), v.to_string());
    }
    r
}

#[test]
fn three_columns_against_two_batches_is_arity_error() {
    let schema = vec![spec("a", ColumnType::Int32), spec("b", ColumnType::Text), spec("c", ColumnType::Float)];
    let columns = vec![vec![Some("1".to_string())], vec![Some("x".to_string())]];
    match prepare_columns(&schema, &columns, 1) {
        Err(PipelineError::SchemaArity { expected, found }) => {
            assert_eq!(expected, 3);
            assert_eq!(found, 2);
        }
        other => panic!("unexpected {:?}", other),
    }
}

#[test]
fn short_column_batch_is_arity_error() {
    let schema = vec![spec("a", ColumnType::Int32)];
    let columns = vec![vec![Some("1".to_string())]];
    match prepare_columns(&schema, &columns, 2) {
        Err(PipelineError::SchemaArity { expected, found }) => {
            assert_eq!(expected, 2);
            assert_eq!(found, 1);
        }
        other => panic!("unexpected {:?}", other),
    }
}

#[test]
fn end_to_end_rows_to_typed_columns() {
    let rows = vec![
        row(&[("clicks", "500"), ("ctr", "< 10%")]),
        row(&[("clicks", " --"), ("ctr", "12%")]),
    ];
    let fields = vec!["clicks".to_string(), "ctr".to_string()];
    let columns = rows_to_columns(&rows, &fields);
    let schema = vec![spec("clicks", ColumnType::Int64), spec("ctr", ColumnType::Float)];
    let out = prepare_columns(&schema, &columns, rows.len()).unwrap();
    assert_eq!(out.len(), 2);
    let clicks: Vec<i64> = out[0]
        .iter()
        .map(|v| match v {
            TypedValue::Int64(x) => *x,
            other => panic!("unexpected {:?}", other),
        })
        .collect();
    assert_eq!(clicks, vec![500, 0]);
    let ctr: Vec<Decimal> = out[1]
        .iter()
        .map(|v| match v {
            TypedValue::Float(d) => d.clone(),
            other => panic!("unexpected {:?}", other),
        })
        .collect();
    assert_eq!(
        ctr,
        vec![
            Decimal { negative: false, digits: vec![5], exponent: -2 },
            Decimal { negative: false, digits: vec![1, 2], exponent: -2 },
        ]
    );
}

#[test]
fn bad_value_in_column_reports_it() {
    let schema = vec![spec("clicks", ColumnType::Int32)];
    let columns = vec![vec![Some("3".to_string()), Some("x1".to_string())]];
    match prepare_columns(&schema, &columns, 2) {
        Err(PipelineError::ValueParse { text, target }) => {
            assert_eq!(text, "x1");
            assert_eq!(target, ColumnType::Int32);
        }
        other => panic!("unexpected {:?}", other),
    }
}

#[test]
fn raw_values_follow_field_order() {
    let r = row(&[("b", "2"), ("a", "1"), ("a", "3")]);
    let fields = vec!["a".to_string(), "missing".to_string(), "b".to_string()];
    assert_eq!(push_raw_values(&r, &fields), vec!["3".to_string(), String::new(), "2".to_string()]);
    assert_eq!(r.get("a"), Some("3".to_string()));
    assert_eq!(r.get("zz"), None);
}

#[test]
fn full_batch_flushes_once_and_empties() {
    let mut p: BatchPersister<u32> = BatchPersister::new(MAX_BATCH_WRITE_ITEMS);
    let mut flushes = Vec::new();
    for i in 0..MAX_BATCH_WRITE_ITEMS as u32 {
        if let Some(b) = p.submit("reports", i) {
            flushes.push(b);
        }
    }
    assert_eq!(flushes.len(), 1);
    assert_eq!(flushes[0].table, "reports");
    assert_eq!(flushes[0].records, (0..25).collect::<Vec<u32>>());
    assert!(p.drain().is_empty());
}

#[test]
fn only_the_full_table_flushes() {
    let mut p: BatchPersister<u32> = BatchPersister::new(MAX_BATCH_WRITE_ITEMS);
    let mut flushes = Vec::new();
    for i in 0..(MAX_BATCH_WRITE_ITEMS as u32 + 1) {
        let table = if i == 7 { "other" } else { "reports" };
        if let Some(b) = p.submit(table, i) {
            flushes.push(b);
        }
    }
    assert_eq!(flushes.len(), 1);
    assert_eq!(flushes[0].table, "reports");
    assert_eq!(flushes[0].records.len(), 25);
    assert!(!flushes[0].records.contains(&7));
    let left = p.drain();
    assert_eq!(left.len(), 1);
    assert_eq!(left[0].table, "other");
    assert_eq!(left[0].records, vec![7]);

    let mut q: BatchPersister<u32> = BatchPersister::new(MAX_BATCH_WRITE_ITEMS);
    let mut flushed_tables = Vec::new();
    for i in 0..(MAX_BATCH_WRITE_ITEMS as u32 + 1) {
        let table = if i == 0 { "other" } else { "reports" };
        if let Some(b) = q.submit(table, i) {
            flushed_tables.push(b.table.clone());
            assert_eq!(b.records, (1..26).collect::<Vec<u32>>());
        }
    }
    assert_eq!(flushed_tables, vec!["reports".to_string()]);
    let rest = q.drain();
    assert_eq!(rest.len(), 1);
    assert_eq!(rest[0].table, "other");
}

#[test]
fn unprocessed_items_are_a_rejection() {
    assert!(check_unprocessed(0).is_ok());
    assert!(matches!(check_unprocessed(3), Err(PipelineError::StoreRejection { unprocessed: 3 })));
}

#[test]
fn encoding_strips_quotes() {
    let fields = vec![
        ("\"name\"".to_string(), "\"Campaign A\"".to_string()),
        ("id".to_string(), "42".to_string()),
    ];
    let rec = encode_record(&Some(fields)).unwrap();
    assert_eq!(
        rec.attributes,
        vec![("name".to_string(), "Campaign A".to_string()), ("id".to_string(), "42".to_string())]
    );
    assert!(matches!(encode_record(&None), Err(PipelineError::Encoding { .. })));
}

#[test]
fn header_names_are_normalized() {
    assert_eq!(normalize_name("Clicks"), "clicks");
    assert_eq!(normalize_name("Ad group"), "ad_group");
    assert_eq!(strip_symbols("cost_(conv.)%$+?/\\{}"), "cost_conv");
}

#[test]
fn adwords_error_message() {
    let e = AdwordsError::new("bad config".to_string());
    assert_eq!(e.message, "bad config");
    assert_eq!(e.describe(), "error occurred: bad config");
}

#[test]
fn submit_all_interleaves_tables_and_drains_in_first_seen_order() {
    let mut p: BatchPersister<u32> = BatchPersister::new(2);
    let tables: Vec<String> = ["b", "a", "b", "c", "a", "c"].iter().map(|t| t.to_string()).collect();
    let batches = p.submit_all(&tables, vec![1, 2, 3, 4, 5, 6]);
    let got: Vec<(String, Vec<u32>)> = batches.into_iter().map(|b| (b.table, b.records)).collect();
    assert_eq!(
        got,
        vec![("b".to_string(), vec![1, 3]), ("a".to_string(), vec![2, 5]), ("c".to_string(), vec![4, 6])]
    );
    let mut q: BatchPersister<u32> = BatchPersister::new(3);
    let tables: Vec<String> = ["z", "y", "z", "x"].iter().map(|t| t.to_string()).collect();
    assert!(q.submit_all(&tables, vec![1, 2, 3, 4]).is_empty());
    let left: Vec<(String, Vec<u32>)> = q.drain().into_iter().map(|b| (b.table, b.records)).collect();
    assert_eq!(
        left,
        vec![("z".to_string(), vec![1, 3]), ("y".to_string(), vec![2]), ("x".to_string(), vec![4])]
    );
}

#[test]
fn adwords_error_from_text() {
    assert_eq!(AdwordsError::from("oops").message, "oops");
    assert_eq!(AdwordsError::from("boom".to_string()).describe(), "error occurred: boom");
}
