use codeprints_analyzer::dates::{date_from_str, format_date, parse_date, Date};
use codeprints_analyzer::quartiles::quartiles;
use codeprints_analyzer::Error;

#[test]
fn test_quartiles() {
    let input = [0, 1, 2, 3, 4, 5, 100];
    let actual = quartiles(&input).unwrap();
    let expected = vec![0, 1, 25, 50, 75];
    assert_eq!(actual, expected);
}

#[test]
fn test_quartiles_are_nondecreasing() {
    for max in 1..300usize {
        let input = [0, max];
        let q = quartiles(&input).unwrap();
        assert_eq!(q.len(), 5);
        for pair in q.windows(2) {
            assert!(pair[0] <= pair[1], "cut points for max {}: {:?}", max, q);
        }
    }
}

#[test]
fn test_quartiles_empty_input_rejected() {
    assert_eq!(quartiles(&[]).unwrap_err(), Error::EmptyYear);
    assert_eq!(quartiles(&[0, 0, 0]).unwrap_err(), Error::EmptyYear);
}

#[test]
fn test_parse_date_bare_lines() {
    assert_eq!(
        parse_date("  2020-04-15 ").unwrap(),
        Some(Date { year: 2020, month: 4, day: 15 })
    );
    assert_eq!(parse_date("   ").unwrap(), None);
    assert_eq!(parse_date("").unwrap(), None);
    match parse_date("2020-4-15") {
        Err(Error::MalformedRecord(line)) => assert_eq!(line, "2020-4-15"),
        other => panic!("expected a malformed record, got {:?}", other),
    }
}

#[test]
fn test_leap_year_days() {
    assert_eq!(
        date_from_str("2020-02-29"),
        Some(Date { year: 2020, month: 2, day: 29 })
    );
    assert_eq!(date_from_str("2019-02-29"), None);
    assert_eq!(date_from_str("2100-02-29"), None);
    assert_eq!(
        date_from_str("2000-02-29"),
        Some(Date { year: 2000, month: 2, day: 29 })
    );
    assert_eq!(date_from_str("2020-04-31"), None);
    assert_eq!(date_from_str("2020-00-10"), None);
    assert_eq!(date_from_str("2020-01-00"), None);
}

#[test]
fn test_format_date_round_trip() {
    let d = Date { year: 33, month: 1, day: 5 };
    let text = format_date(&d);
    assert_eq!(text, "0033-01-05");
    assert_eq!(date_from_str(&text), Some(d));

    let d = Date { year: 9999, month: 12, day: 31 };
    let text = format_date(&d);
    assert_eq!(text, "9999-12-31");
    assert_eq!(date_from_str(&text), Some(d));
}
