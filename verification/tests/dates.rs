use todo_tui::dates::{Date, MAX_DAY, MIN_DAY};
use todo_tui::due_filter::parse_due_range;
use todo_tui::search::subseq_match_ci;
use todo_tui::threshold::{parse_threshold, resolve_at, ThresholdSpec, Unit};
use todo_tui::todo::{body_after_priority, parse_file, parse_line};

fn d(s: &str) -> Date {
    Date::parse_ymd(s).unwrap()
}

#[test]
fn absolute_date_is_single_day_range() {
    assert_eq!(
        parse_due_range("2026-08-01", d("2026-07-28")),
        Some(("2026-08-01".to_string(), "2026-08-01".to_string()))
    );
}

#[test]
fn plus_offset_ranges_forward_from_today() {
    assert_eq!(
        parse_due_range("+1w", d("2026-07-28")),
        Some(("2026-07-28".to_string(), "2026-08-04".to_string()))
    );
}

#[test]
fn bare_offset_defaults_forward() {
    assert_eq!(
        parse_due_range("7d", d("2026-07-28")),
        Some(("2026-07-28".to_string(), "2026-08-04".to_string()))
    );
}

#[test]
fn minus_offset_ranges_backward_from_today() {
    assert_eq!(
        parse_due_range("-3d", d("2026-07-28")),
        Some(("2026-07-25".to_string(), "2026-07-28".to_string()))
    );
}

#[test]
fn month_offset_clamps_at_month_end() {
    // Mar 31 - 1m -> Feb 28 (non-leap year), same clamping as `t:`.
    assert_eq!(
        parse_due_range("-1m", d("2026-03-31")),
        Some(("2026-02-28".to_string(), "2026-03-31".to_string()))
    );
}

#[test]
fn business_day_offset_skips_weekends() {
    // Fri 2026-07-31 + 1b -> Mon 2026-08-03 (skip Sat/Sun).
    assert_eq!(
        parse_due_range("1b", d("2026-07-31")),
        Some(("2026-07-31".to_string(), "2026-08-03".to_string()))
    );
}

#[test]
fn rejects_invalid_forms() {
    for bad in ["", "abc", "1y", "1.5d", "d", "-", "+", "1z"] {
        assert!(
            parse_due_range(bad, d("2026-07-28")).is_none(),
            "expected None for {bad:?}"
        );
    }
}

#[test]
fn business_days_backward_and_from_weekend() {
    // Mon 2026-08-03 - 1b -> Fri 2026-07-31.
    assert_eq!(
        parse_due_range("-1b", d("2026-08-03")),
        Some(("2026-07-31".to_string(), "2026-08-03".to_string()))
    );
    // Sat 2026-08-01 + 1b -> Mon 2026-08-03; + 0b stays.
    assert_eq!(
        parse_due_range("+1b", d("2026-08-01")),
        Some(("2026-08-01".to_string(), "2026-08-03".to_string()))
    );
    assert_eq!(
        parse_due_range("0b", d("2026-08-01")),
        Some(("2026-08-01".to_string(), "2026-08-01".to_string()))
    );
    // Five business days is a calendar week.
    assert_eq!(
        parse_due_range("5b", d("2026-07-29")),
        Some(("2026-07-29".to_string(), "2026-08-05".to_string()))
    );
}

#[test]
fn month_offset_forward_and_leap_year() {
    assert_eq!(
        parse_due_range("+1m", d("2024-01-31")),
        Some(("2024-01-31".to_string(), "2024-02-29".to_string()))
    );
    assert_eq!(
        parse_due_range("12m", d("2026-07-28")),
        Some(("2026-07-28".to_string(), "2027-07-28".to_string()))
    );
}

#[test]
fn threshold_parsing() {
    match parse_threshold("-12w") {
        Some(ThresholdSpec::Relative { before, amount, unit }) => {
            assert!(before);
            assert_eq!(amount, 12);
            assert_eq!(unit, Unit::Week);
        }
        other => panic!("unexpected {other:?}"),
    }
    assert!(matches!(parse_threshold("2026-02-03"), Some(ThresholdSpec::Absolute(_))));
    assert!(parse_threshold("4294967295d").is_some());
    assert!(parse_threshold("4294967296d").is_none());
    assert!(parse_threshold("2026-02-30").is_none());
}

#[test]
fn dates_round_trip_through_chrono() {
    let t = d("2026-07-28");
    assert_eq!(t.format_ymd(), "2026-07-28");
    assert_eq!(t.to_display_string(), "2026-07-28");
    assert_eq!(d("0001-01-01").day_number(), 1);
    // 2026-07-28 is a Tuesday.
    assert_eq!(t.days_from_monday(), 1);
    assert_eq!(t.days_from_sunday(), 2);
    assert_eq!(t.add_days(4).unwrap().format_ymd(), "2026-08-01");
    assert_eq!(t.sub_days(28).unwrap().format_ymd(), "2026-06-30");
    assert_eq!(t.add_months(7).unwrap().format_ymd(), "2027-02-28");
    assert_eq!(t.sub_months(0).unwrap(), t);
}

#[test]
fn chrono_range_limits() {
    let max = d("+262142-12-31");
    assert_eq!(max.day_number(), MAX_DAY);
    assert!(max.add_days(1).is_none());
    assert_eq!(max.to_display_string(), "+262142-12-31");
    let min = d("-262143-01-01");
    assert_eq!(min.day_number(), MIN_DAY);
    assert!(min.sub_days(1).is_none());
    assert!(Date::parse_ymd("+262143-01-01").is_none());
    let spec = parse_threshold("+1b").unwrap();
    assert!(resolve_at(&spec, max).is_none());
}

#[test]
fn subsequence_match_positions() {
    assert_eq!(subseq_match_ci("Buy Milk", "bmk"), Some(vec![0, 4, 7]));
    assert_eq!(subseq_match_ci("Buy Milk", "mb"), None);
    assert_eq!(subseq_match_ci("anything", ""), Some(vec![]));
}

#[test]
fn parse_todo_lines() {
    let t = parse_line("x (A) 2026-05-02 2026-05-01 call mom +family @phone due:2026-05-09 t:-2d");
    assert!(t.done);
    assert_eq!(t.priority, Some('A'));
    assert_eq!(t.created_date.as_deref(), Some("2026-05-01"));
    assert_eq!(t.projects, vec!["family".to_string()]);
    assert_eq!(t.contexts, vec!["phone".to_string()]);
    assert_eq!(t.due.as_deref(), Some("2026-05-09"));
    assert_eq!(t.threshold.as_deref(), Some("-2d"));

    let t = parse_line("(B) 2026-05-01 plan + trip @ +a+b");
    assert!(!t.done);
    assert_eq!(t.priority, Some('B'));
    assert_eq!(t.created_date.as_deref(), Some("2026-05-01"));
    assert_eq!(t.projects, vec!["a+b".to_string()]);
    assert!(t.contexts.is_empty());
    assert_eq!(t.due, None);

    let tasks = parse_file("first\r\n\n   \nsecond +p");
    assert_eq!(tasks.len(), 2);
    assert_eq!(tasks[0].raw, "first");
    assert_eq!(tasks[1].projects, vec!["p".to_string()]);
}

#[test]
fn body_skips_priority_marker() {
    assert_eq!(body_after_priority("(A) call mom"), "call mom");
    assert_eq!(body_after_priority("(a) call mom"), "(a) call mom");
    assert_eq!(body_after_priority("call mom"), "call mom");
}
