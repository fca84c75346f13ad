use report_ingest::accounts::{split_accounts, website_of};
use report_ingest::columns::Row;
use report_ingest::error::PipelineError;
use report_ingest::normalize::ColumnType;

fn item(pairs: &[(&str, &str)]) -> Row {
    let mut r = Row::new();
    for (k, v) in pairs {
        r.insert(k.to_string(), v.to_string());
    }
    r
}

#[test]
fn accounts_split_by_flag_in_order() {
    let items = vec![
        item(&[("account_id", "11"), ("is_af", "true")]),
        item(&[("account_id", "22"), ("is_af", "false")]),
        item(&[("account_id", "33"), ("is_af", "true")]),
        item(&[("account_id", "44")]),
    ];
    let g = split_accounts(&items).unwrap();
    assert_eq!(g.af, vec![11, 33]);
    assert_eq!(g.not_af, vec![22, 44]);
}

#[test]
fn unreadable_account_id_is_reported() {
    let items = vec![item(&[("account_id", "12x"), ("is_af", "true")])];
    match split_accounts(&items) {
        Err(PipelineError::ValueParse { text, target }) => {
            assert_eq!(text, "12x");
            assert_eq!(target, ColumnType::Int64);
        }
        _ => panic!("expected a parse error"),
    }
}

#[test]
fn website_defaults_to_empty() {
    assert_eq!(website_of(&item(&[("website", "example.org")])), "example.org");
    assert_eq!(website_of(&item(&[("account_id", "1")])), "");
}
