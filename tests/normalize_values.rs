use report_ingest::normalize::{normalize, ColumnType, TypedValue};
use report_ingest::decimal::Decimal;
use report_ingest::error::PipelineError;

fn norm(raw: Option<&str>, ty: ColumnType) -> Result<TypedValue, PipelineError> {
    normalize(&raw.map(|s| s.to_string()), ty)
}

fn dec(negative: bool, digits: &[u8], exponent: i64) -> Decimal {
    Decimal { negative, digits: digits.to_vec(), exponent }
}

#[test]
fn blank_numeric_fields_are_zero() {
    for raw in [None, Some(""), Some(" --")] {
        assert!(matches!(norm(raw, ColumnType::Int32), Ok(TypedValue::Int32(0))));
        assert!(matches!(norm(raw, ColumnType::Int64), Ok(TypedValue::Int64(0))));
        match norm(raw, ColumnType::Float) {
            Ok(TypedValue::Float(d)) => assert_eq!(d, dec(false, &[0], 0)),
            other => panic!("unexpected {:?}", other),
        }
    }
}

#[test]
fn text_passes_through() {
    match norm(Some(" --"), ColumnType::Text) {
        Ok(TypedValue::Text(t)) => assert_eq!(t, " --"),
        other => panic!("unexpected {:?}", other),
    }
    match norm(None, ColumnType::Text) {
        Ok(TypedValue::Text(t)) => assert_eq!(t, ""),
        other => panic!("unexpected {:?}", other),
    }
}

fn float_of(raw: &str) -> Decimal {
    match norm(Some(raw), ColumnType::Float) {
        Ok(TypedValue::Float(d)) => d,
        other => panic!("unexpected {:?}", other),
    }
}

#[test]
fn percentage_sentinels_and_ranges() {
    assert_eq!(float_of("< 10%"), dec(false, &[5], -2));
    assert_eq!(float_of("> 90%"), dec(false, &[9, 5], -2));
    assert_eq!(float_of("55%"), dec(false, &[5, 5], -2));
    assert_eq!(float_of("12.5%"), dec(false, &[1, 2, 5], -3));
    assert_eq!(float_of("12%"), dec(false, &[1, 2], -2));
}

#[test]
fn plain_floats_are_exact_decimals() {
    assert_eq!(float_of("1.5"), dec(false, &[1, 5], -1));
    assert_eq!(float_of(" -0.25 "), dec(true, &[0, 2, 5], -2));
    assert_eq!(float_of("3"), dec(false, &[3], 0));
    assert!(matches!(norm(Some("1.2.3"), ColumnType::Float), Err(PipelineError::ValueParse { .. })));
}

#[test]
fn non_numeric_integer_text_is_an_error() {
    match norm(Some("abc"), ColumnType::Int32) {
        Err(PipelineError::ValueParse { text, target }) => {
            assert_eq!(text, "abc");
            assert_eq!(target, ColumnType::Int32);
        }
        other => panic!("unexpected {:?}", other),
    }
    assert!(matches!(norm(Some("--"), ColumnType::Int64), Err(PipelineError::ValueParse { .. })));
    assert!(matches!(norm(Some("1.0"), ColumnType::Int64), Err(PipelineError::ValueParse { .. })));
}

#[test]
fn integers_round_trip_through_text() {
    for (raw, v) in [("500", 500i64), ("  42 ", 42), ("-17", -17), ("+8", 8), ("007", 7)] {
        match norm(Some(raw), ColumnType::Int64) {
            Ok(TypedValue::Int64(x)) => {
                assert_eq!(x, v);
                match norm(Some(&x.to_string()), ColumnType::Int64) {
                    Ok(TypedValue::Int64(y)) => assert_eq!(y, v),
                    other => panic!("unexpected {:?}", other),
                }
            }
            other => panic!("unexpected {:?}", other),
        }
    }
    assert!(matches!(norm(Some("2147483647"), ColumnType::Int32), Ok(TypedValue::Int32(2147483647))));
    assert!(matches!(norm(Some("-2147483648"), ColumnType::Int32), Ok(TypedValue::Int32(-2147483648))));
    assert!(matches!(norm(Some("2147483648"), ColumnType::Int32), Err(PipelineError::ValueParse { .. })));
    assert!(matches!(
        norm(Some("-9223372036854775808"), ColumnType::Int64),
        Ok(TypedValue::Int64(i64::MIN))
    ));
    assert!(matches!(norm(Some("9223372036854775808"), ColumnType::Int64), Err(PipelineError::ValueParse { .. })));
}

#[test]
fn normalizing_restringified_value_is_stable() {
    let first = match norm(Some(" 0123 "), ColumnType::Int32) {
        Ok(TypedValue::Int32(x)) => x,
        other => panic!("unexpected {:?}", other),
    };
    match norm(Some(&first.to_string()), ColumnType::Int32) {
        Ok(TypedValue::Int32(y)) => assert_eq!(y, first),
        other => panic!("unexpected {:?}", other),
    }
}

#[test]
fn written_out_decimals_read_back() {
    assert_eq!(float_of("0.05"), dec(false, &[0, 0, 5], -2));
    assert_eq!(float_of("-0.125"), dec(true, &[0, 1, 2, 5], -3));
    assert_eq!(float_of("5e-2"), dec(false, &[5], -2));
    assert_eq!(float_of("-95e-2"), dec(true, &[9, 5], -2));
    assert_eq!(float_of("10.0"), dec(false, &[1, 0, 0], -1));
}

#[test]
fn exponents_and_long_mantissas_parse() {
    assert_eq!(float_of("1e2"), dec(false, &[1], 2));
    assert_eq!(float_of("2.5E-3"), dec(false, &[2, 5], -4));
    assert_eq!(float_of("+.5e+1"), dec(false, &[5], 0));
    assert_eq!(
        float_of("12345678901234567890"),
        dec(false, &[1, 2, 3, 4, 5, 6, 7, 8, 9, 0, 1, 2, 3, 4, 5, 6, 7, 8, 9, 0], 0)
    );
    assert_eq!(float_of("1e3%"), dec(false, &[1], 1));
    for bad in ["1e", "e5", "1e2.5", ".", "inf", "NaN", "1e99999999999999999999"] {
        assert!(matches!(norm(Some(bad), ColumnType::Float), Err(PipelineError::ValueParse { .. })), "{}", bad);
    }
}
