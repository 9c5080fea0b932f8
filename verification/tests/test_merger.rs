use codeprints_analyzer::types::{Contribution, Range, Year};
use codeprints_analyzer::{Error, Merger, Parser, Timeline};

#[test]
fn test_merge_none() {
    let mut merger = Merger::new();
    assert_eq!(merger.merge(&[]).unwrap(), Timeline::default());
}

#[test]
fn test_merge_one() {
    let mut timeline = Timeline::default();

    let year = "2020".into();
    let total = 1234;
    let range = Range {
        start: "2020-01-01".into(),
        end: "2020-01-02".into(),
    };

    let year1 = Year { year, total, range };
    let years = vec![year1];
    timeline.years = years;

    let contributions = vec![
        Contribution {
            date: "2020-01-01".into(),
            count: 1000,
            color: "".into(),
            intensity: 4,
        },
        Contribution {
            date: "2020-01-02".into(),
            count: 234,
            color: "".into(),
            intensity: 4,
        },
    ];

    timeline.contributions = contributions;

    let mut merger = Merger::new();
    let merged = merger.merge(&[timeline.clone()]).unwrap();
    assert_eq!(merged.years.len(), 1);
    let year = &merged.years[0];
    assert_eq!(year.year, "2020");
    assert_eq!(year.total, 1234);
    assert_eq!(year.range.start, "2020-01-01");
    assert_eq!(year.range.end, "2020-01-02");
}

#[test]
fn test_merge_multiple() {
    let mut timeline1 = Timeline::default();
    let mut timeline2 = Timeline::default();

    let range1 = Range {
        start: "2020-01-01".into(),
        end: "2020-01-02".into(),
    };
    let range2 = Range {
        start: "2020-01-01".into(),
        end: "2020-01-03".into(),
    };

    let year1 = Year {
        year: "2020".into(),
        total: 1234,
        range: range1,
    };
    timeline1.years = vec![year1];

    let year2 = Year {
        year: "2020".into(),
        total: 6,
        range: range2,
    };
    timeline2.years = vec![year2];

    let contributions1 = vec![
        Contribution {
            date: "2020-01-01".into(),
            count: 1000,
            color: "".into(),
            intensity: 4,
        },
        Contribution {
            date: "2020-01-02".into(),
            count: 234,
            color: "".into(),
            intensity: 4,
        },
    ];

    let contributions2 = vec![
        Contribution {
            date: "2020-01-01".into(),
            count: 0,
            color: "".into(),
            intensity: 0,
        },
        Contribution {
            date: "2020-01-02".into(),
            count: 5,
            color: "".into(),
            intensity: 4,
        },
        Contribution {
            date: "2020-01-03".into(),
            count: 1,
            color: "".into(),
            intensity: 1,
        },
    ];

    timeline1.contributions = contributions1.clone();
    timeline2.contributions = contributions2.clone();

    let mut merger = Merger::new();
    let merged = merger
        .merge(&[timeline1.clone(), timeline2.clone()])
        .unwrap();
    assert_eq!(merged.years.len(), 1);
    let year = &merged.years[0];
    assert_eq!(year.year, "2020");
    assert_eq!(year.total, 1240);
    assert_eq!(year.range.start, "2020-01-01");
    assert_eq!(year.range.end, "2020-01-03");
}

#[test]
fn test_merge_rejects_invalid_date() {
    let mut timeline = Timeline::default();
    timeline.contributions = vec![Contribution {
        date: "2020-99-01".into(),
        count: 1,
        color: "".into(),
        intensity: 1,
    }];
    let mut merger = Merger::new();
    match merger.merge_timeline(&timeline) {
        Err(Error::InvalidDate(s)) => assert_eq!(s, "2020-99-01"),
        other => panic!("expected an invalid date, got {:?}", other),
    }
}

#[test]
fn test_merge_skips_blank_dates() {
    let mut timeline = Timeline::default();
    timeline.contributions = vec![
        Contribution {
            date: "  ".into(),
            count: 7,
            color: "".into(),
            intensity: 1,
        },
        Contribution {
            date: "2020-05-01".into(),
            count: 3,
            color: "".into(),
            intensity: 1,
        },
    ];
    let mut merger = Merger::new();
    let merged = merger.merge(&[timeline]).unwrap();
    assert_eq!(merged.years.len(), 1);
    assert_eq!(merged.years[0].total, 3);
}

#[test]
fn test_merge_single_reproduces_totals() {
    // A timeline produced by the pipeline, replayed through the merger,
    // keeps every year total.
    let input = "2019-06-01\n2019-06-01\n2019-06-02\n2020-01-05";
    let mut parser = Parser::new(input.to_string());
    let original = parser.parse().unwrap();

    let mut merger = Merger::new();
    let merged = merger.merge(&[original.clone()]).unwrap();

    assert_eq!(merged.years.len(), original.years.len());
    for year in &merged.years {
        let before = original
            .years
            .iter()
            .find(|y| y.year == year.year)
            .unwrap();
        assert_eq!(year.total, before.total);
    }

    // The replayed day series is classified identically.
    for actual in &merged.contributions {
        let expected = original
            .contributions
            .iter()
            .find(|c| c.date == actual.date)
            .unwrap();
        assert_eq!(actual.count, expected.count);
        assert_eq!(actual.intensity, expected.intensity);
        assert_eq!(actual.color, expected.color);
    }
}

#[test]
fn test_merge_count_overflow_rejected() {
    let mut timeline = Timeline::default();
    timeline.contributions = vec![
        Contribution {
            date: "2020-01-01".into(),
            count: usize::MAX,
            color: "".into(),
            intensity: 4,
        },
        Contribution {
            date: "2020-01-01".into(),
            count: 1,
            color: "".into(),
            intensity: 1,
        },
    ];
    let mut merger = Merger::new();
    assert_eq!(merger.merge_timeline(&timeline).unwrap_err(), Error::Overflow);
}
