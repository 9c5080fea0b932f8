use codeprints_analyzer::parser::{get_intensity, map_color, Mode};
use codeprints_analyzer::types::{Range, Year};
use codeprints_analyzer::{Error, Parser};

#[test]
fn test_parse_years() {
    let input = r###"
            2020-04-15
            2020-04-15
            2020-04-16
            2020-04-17
            2020-04-17
            2020-04-17
            2020-04-17
        "###;

    let range = Range {
        start: "2020-04-15".to_string(),
        end: "2020-04-17".to_string(),
    };
    let expected = vec![Year {
        year: "2020".to_string(),
        total: 7,
        range,
    }];
    let mut parser = Parser::new(input.to_string());
    assert_eq!(parser.parse().unwrap().years, expected);
}

#[test]
fn test_parse_years_range() {
    let input = r###"
            2020-04-15
            2020-04-15
            2020-04-16
            2020-04-17
            2020-04-17
            2020-04-17
            2020-04-17
            2020-04-18
        "###;

    let range = Range {
        start: "2020-04-16".to_string(),
        end: "2020-04-17".to_string(),
    };
    let expected = vec![Year {
        year: "2020".to_string(),
        total: 5,
        range,
    }];
    let mut parser = Parser::new(input.to_string());
    parser.set_before("2020-04-18".into()).unwrap();
    parser.set_after("2020-04-15".into()).unwrap();
    assert_eq!(parser.parse().unwrap().years, expected);
}

#[test]
fn test_intensities() {
    let quartiles = [0, 1, 11, 22, 32];
    assert_eq!(0, get_intensity(&quartiles, 0));
    assert_eq!(1, get_intensity(&quartiles, 1));
    assert_eq!(1, get_intensity(&quartiles, 10));
    assert_eq!(2, get_intensity(&quartiles, 18));
    assert_eq!(3, get_intensity(&quartiles, 22));
    assert_eq!(4, get_intensity(&quartiles, 32));
    assert_eq!(4, get_intensity(&quartiles, 100));
}

#[test]
fn test_count_date_mode_full_year() {
    let input = "2 2020-04-15\n1 2020-04-16\n4 2020-04-17";
    let mut parser = Parser::new(input.to_string());
    parser.set_mode(Mode::CountDate);
    let timeline = parser.parse().unwrap();

    let range = Range {
        start: "2020-04-15".to_string(),
        end: "2020-04-17".to_string(),
    };
    let expected = vec![Year {
        year: "2020".to_string(),
        total: 7,
        range,
    }];
    assert_eq!(timeline.years, expected);

    // 2020 is a leap year, so the backfilled series covers 366 days.
    assert_eq!(timeline.contributions.len(), 366);
    // The greatest daily count is 4, so the cut points are [0, 1, 1, 2, 3].
    for c in &timeline.contributions {
        let (expected_count, expected_intensity) = match c.date.as_str() {
            "2020-04-15" => (2, 3),
            "2020-04-16" => (1, 2),
            "2020-04-17" => (4, 4),
            _ => (0, 0),
        };
        assert_eq!(c.count, expected_count, "count on {}", c.date);
        assert_eq!(c.intensity, expected_intensity, "intensity on {}", c.date);
    }
}

#[test]
fn test_contributions_cover_year_once_and_sorted() {
    let input = "2019-03-01\n2019-12-31\n2020-01-01";
    let mut parser = Parser::new(input.to_string());
    let timeline = parser.parse().unwrap();

    // Years come numerically descending.
    let years: Vec<&str> = timeline.years.iter().map(|y| y.year.as_str()).collect();
    assert_eq!(years, vec!["2020", "2019"]);

    // 365 days of 2019 plus 366 days of 2020, each exactly once, ascending.
    assert_eq!(timeline.contributions.len(), 365 + 366);
    for pair in timeline.contributions.windows(2) {
        assert!(pair[0].date < pair[1].date);
    }
    assert_eq!(timeline.contributions[0].date, "2019-01-01");
    assert_eq!(timeline.contributions[364].date, "2019-12-31");
    assert_eq!(timeline.contributions[365].date, "2020-01-01");
    assert_eq!(timeline.contributions.last().unwrap().date, "2020-12-31");
}

#[test]
fn test_malformed_line_rejected() {
    let mut parser = Parser::new("not-a-date".to_string());
    match parser.parse() {
        Err(Error::MalformedRecord(line)) => assert_eq!(line, "not-a-date"),
        other => panic!("expected a malformed record, got {:?}", other),
    }
}

#[test]
fn test_invalid_calendar_date_rejected() {
    let mut parser = Parser::new("2020-13-01".to_string());
    assert!(matches!(
        parser.parse(),
        Err(Error::MalformedRecord(_))
    ));

    let mut parser = Parser::new("2019-02-29".to_string());
    assert!(matches!(
        parser.parse(),
        Err(Error::MalformedRecord(_))
    ));
}

#[test]
fn test_count_mode_bad_lines_rejected() {
    for bad in ["x 2020-01-01", "1 2 2020-01-01", "2020-01-01", "-1 2020-01-01"] {
        let mut parser = Parser::new(bad.to_string());
        parser.set_mode(Mode::CountDate);
        assert!(
            matches!(parser.parse(), Err(Error::MalformedRecord(_))),
            "expected rejection of {:?}",
            bad
        );
    }
}

#[test]
fn test_count_mode_zero_counts_give_empty_year() {
    let mut parser = Parser::new("0 2020-01-01".to_string());
    parser.set_mode(Mode::CountDate);
    assert_eq!(parser.parse().unwrap_err(), Error::EmptyYear);
}

#[test]
fn test_count_mode_total_overflow_rejected() {
    let huge = format!("{} 2020-01-01\n{} 2020-01-02", usize::MAX, usize::MAX);
    let mut parser = Parser::new(huge);
    parser.set_mode(Mode::CountDate);
    assert_eq!(parser.parse().unwrap_err(), Error::Overflow);
}

#[test]
fn test_blank_lines_skipped() {
    let mut parser = Parser::new("\n   \n\t\n".to_string());
    let timeline = parser.parse().unwrap();
    assert!(timeline.years.is_empty());
    assert!(timeline.contributions.is_empty());
}

#[test]
fn test_set_before_rejects_bad_date() {
    let mut parser = Parser::new(String::new());
    match parser.set_before("garbage".to_string()) {
        Err(Error::MalformedRecord(s)) => assert_eq!(s, "garbage"),
        other => panic!("expected a malformed record, got {:?}", other),
    }
}

#[test]
fn test_color_tokens() {
    assert_eq!(map_color(0), "var(--color-calendar-graph-day-bg)");
    assert_eq!(map_color(1), "var(--color-calendar-graph-day-L1-bg)");
    assert_eq!(map_color(2), "var(--color-calendar-graph-day-L2-bg)");
    assert_eq!(map_color(3), "var(--color-calendar-graph-day-L3-bg)");
    assert_eq!(map_color(4), "var(--color-calendar-graph-day-L4-bg)");
    assert_eq!(map_color(9), "var(--color-calendar-graph-day-bg)");
}
