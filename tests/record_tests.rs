//! Reading input records and command-line arguments.

use orderbook::config::parse_args;
use orderbook::record::{parse_record, RecordError, Request};

fn fields(items: &[&str]) -> Vec<String> {
    items.iter().map(|s| s.to_string()).collect()
}

#[test]
fn new_order_record_is_trimmed_and_read() {
    match parse_record(&fields(&["N", " 1", " IBM ", " 10", " 100", " B", " 1"])) {
        Ok(Request::New(o)) => {
            assert_eq!((o.user, o.symbol.as_str(), o.price, o.qty, o.side, o.user_order_id), (1, "IBM", 10, 100, 'B', 1));
        }
        other => panic!("unexpected {:?}", other),
    }
}

#[test]
fn cancel_and_flush_records() {
    match parse_record(&fields(&["C", " 2", " +102"])) {
        Ok(Request::Cancel(c)) => assert_eq!((c.user, c.user_order_id), (2, 102)),
        other => panic!("unexpected {:?}", other),
    }
    assert!(matches!(parse_record(&fields(&["F"])), Ok(Request::Flush)));
    assert!(matches!(parse_record(&fields(&["X", "1"])), Ok(Request::Skip)));
    assert!(matches!(parse_record(&fields(&[" N"])), Ok(Request::Skip)));
    assert!(matches!(parse_record(&fields(&[])), Ok(Request::Skip)));
}

#[test]
fn comment_records_are_echoed() {
    match parse_record(&fields(&["#name: scenario 1"])) {
        Ok(Request::Echo(s)) => assert_eq!(s, "#name: scenario 1"),
        other => panic!("unexpected {:?}", other),
    }
    match parse_record(&fields(&["#descr: two", " parts"])) {
        Ok(Request::Echo(s)) => assert_eq!(s, "#descr: two, parts"),
        other => panic!("unexpected {:?}", other),
    }
    match parse_record(&fields(&["#descr:one"])) {
        Ok(Request::Echo(s)) => assert_eq!(s, "#descr:one"),
        other => panic!("unexpected {:?}", other),
    }
}

#[test]
fn malformed_records_are_errors() {
    assert_eq!(parse_record(&fields(&["N", "1", "IBM", "10", "100", "B"])).err(), Some(RecordError::FieldCount));
    assert_eq!(parse_record(&fields(&["C", "1"])).err(), Some(RecordError::FieldCount));
    assert_eq!(parse_record(&fields(&["N", "x", "IBM", "10", "100", "B", "1"])).err(), Some(RecordError::Number));
    assert_eq!(
        parse_record(&fields(&["N", "1", "IBM", "18446744073709551616", "100", "B", "1"])).err(),
        Some(RecordError::Number)
    );
    assert_eq!(parse_record(&fields(&["C", "1", ""])).err(), Some(RecordError::Number));
    assert_eq!(parse_record(&fields(&["N", "1", "IBM", "10", "100", "Q", "1"])).err(), Some(RecordError::Side));
    assert_eq!(parse_record(&fields(&["N", "1", "IBM", "10", "100", " ", "1"])).err(), Some(RecordError::Side));
    assert_eq!(parse_record(&fields(&["N", "1", "IBM", "10", "0", "S", "1"])).err(), Some(RecordError::ZeroQuantity));
}

#[test]
fn largest_number_is_read() {
    match parse_record(&fields(&["C", "18446744073709551615", "0"])) {
        Ok(Request::Cancel(c)) => assert_eq!((c.user, c.user_order_id), (u64::MAX, 0)),
        other => panic!("unexpected {:?}", other),
    }
}

#[test]
fn arguments_give_file_and_flag() {
    let c = parse_args(&fields(&["prog", "-t", "in.csv"])).unwrap();
    assert_eq!((c.input_file.as_str(), c.trading_enabled), ("in.csv", true));
    let c = parse_args(&fields(&["prog", "a.csv", "b.csv"])).unwrap();
    assert_eq!((c.input_file.as_str(), c.trading_enabled), ("b.csv", false));
    let c = parse_args(&fields(&["prog", "--trading-enabled", "x.csv"])).unwrap();
    assert!(c.trading_enabled);
    assert!(parse_args(&fields(&["prog", "-t"])).is_none());
}
