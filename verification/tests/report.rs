use blame::event::AttributionEvent;
use blame::reltime::{format_relative, format_relative_time, seconds_between};
use blame::report::{build_report, row_ranks_before, ReportRow};
use blame::stats_map::StatsMap;

const NOW: i64 = 1_700_000_000;
const DAY: i64 = 86_400;

fn add_lines(stats: &mut StatsMap, author: &str, time: i64, n: usize) {
    for _ in 0..n {
        stats.record(&AttributionEvent {
            author: author.to_string(),
            commit_id: Some("c".to_string()),
            author_time: time,
        });
    }
}

#[test]
fn formatter_boundaries() {
    assert_eq!(format_relative(NOW - 59, NOW), "just now");
    assert_eq!(format_relative(NOW - 8 * DAY, NOW), "1 week ago");
    assert_eq!(format_relative(NOW - 40 * DAY, NOW), "1 month ago");
    assert_eq!(format_relative(NOW - 400 * DAY, NOW), "1 year ago");
}

#[test]
fn one_whole_minute_is_still_just_now() {
    assert_eq!(format_relative(NOW - 60, NOW), "just now");
    assert_eq!(format_relative(NOW - 90, NOW), "just now");
    assert_eq!(format_relative(NOW - 119, NOW), "just now");
    assert_eq!(format_relative(NOW - 120, NOW), "2 minutes ago");
}

#[test]
fn formatter_minutes_and_hours() {
    assert_eq!(format_relative(NOW, NOW), "just now");
    assert_eq!(format_relative(NOW - 59 * 60 - 59, NOW), "59 minutes ago");
    assert_eq!(format_relative(NOW - 3600, NOW), "1 hours ago");
    assert_eq!(format_relative(NOW - 2 * 3600, NOW), "2 hours ago");
    assert_eq!(format_relative(NOW - DAY + 1, NOW), "23 hours ago");
}

#[test]
fn formatter_days() {
    assert_eq!(format_relative(NOW - DAY, NOW), "yesterday");
    assert_eq!(format_relative(NOW - 2 * DAY + 1, NOW), "yesterday");
    assert_eq!(format_relative(NOW - 2 * DAY, NOW), "2 days ago");
    assert_eq!(format_relative(NOW - 6 * DAY, NOW), "6 days ago");
    assert_eq!(format_relative(NOW - 7 * DAY + 1, NOW), "6 days ago");
}

#[test]
fn formatter_weeks_months_years() {
    assert_eq!(format_relative(NOW - 7 * DAY, NOW), "1 week ago");
    assert_eq!(format_relative(NOW - 13 * DAY, NOW), "1 week ago");
    assert_eq!(format_relative(NOW - 14 * DAY, NOW), "2 weeks ago");
    assert_eq!(format_relative(NOW - 29 * DAY, NOW), "4 weeks ago");
    assert_eq!(format_relative(NOW - 30 * DAY, NOW), "1 month ago");
    assert_eq!(format_relative(NOW - 59 * DAY, NOW), "1 month ago");
    assert_eq!(format_relative(NOW - 60 * DAY, NOW), "2 months ago");
    assert_eq!(format_relative(NOW - 364 * DAY, NOW), "12 months ago");
    assert_eq!(format_relative(NOW - 365 * DAY, NOW), "1 year ago");
    assert_eq!(format_relative(NOW - 729 * DAY, NOW), "1 year ago");
    assert_eq!(format_relative(NOW - 730 * DAY, NOW), "2 years ago");
    assert_eq!(format_relative(0, NOW), "53 years ago");
}

#[test]
fn moment_in_the_future_counts_as_now() {
    assert_eq!(format_relative(NOW + 30, NOW), "just now");
    assert_eq!(format_relative(NOW + 10 * DAY, NOW), "just now");
    assert_eq!(format_relative(i64::MAX, i64::MIN), "just now");
    assert_eq!(seconds_between(NOW + 5, NOW), 0);
}

#[test]
fn formatter_takes_the_whole_range() {
    assert_eq!(seconds_between(i64::MIN, i64::MAX), u64::MAX);
    assert_eq!(seconds_between(NOW - 90, NOW), 90);
    assert_eq!(format_relative(i64::MIN, i64::MAX), "584942417355 years ago");
}

#[test]
fn formatter_reads_the_clock() {
    let now = chrono::Utc::now().timestamp();
    assert_eq!(format_relative_time(now - 59), "just now");
    assert_eq!(format_relative_time(now - 3 * DAY - 60), "3 days ago");
    assert_eq!(format_relative_time(now - 400 * DAY - 60), "1 year ago");
    assert_eq!(format_relative_time(now + 1000), "just now");
}

#[test]
fn report_orders_by_lines_descending() {
    let mut stats = StatsMap::new();
    add_lines(&mut stats, "small", NOW - 10, 1);
    add_lines(&mut stats, "large", NOW - 3 * DAY, 6);
    add_lines(&mut stats, "medium", NOW - 3600 * 5, 3);
    let rows = build_report(&stats, NOW);
    let authors: Vec<&str> = rows.iter().map(|r| r.author.as_str()).collect();
    assert_eq!(authors, vec!["large", "medium", "small"]);
    assert_eq!(rows[0].lines, 6);
    assert_eq!(rows[0].total_lines, 10);
    assert_eq!(rows[0].last_commit_time, NOW - 3 * DAY);
    assert_eq!(rows[0].last_touched, "3 days ago");
    assert_eq!(rows[1].lines, 3);
    assert_eq!(rows[1].last_touched, "5 hours ago");
    assert_eq!(rows[2].lines, 1);
    assert_eq!(rows[2].last_touched, "just now");
}

#[test]
fn report_of_nothing_is_empty() {
    assert_eq!(build_report(&StatsMap::new(), NOW).len(), 0);
}

#[test]
fn equal_line_counts_keep_one_order() {
    let mut first = StatsMap::new();
    add_lines(&mut first, "zoe", NOW, 4);
    add_lines(&mut first, "adam", NOW, 4);
    add_lines(&mut first, "mia", NOW, 4);
    add_lines(&mut first, "top", NOW, 9);
    let mut second = StatsMap::new();
    add_lines(&mut second, "mia", NOW, 4);
    add_lines(&mut second, "top", NOW, 9);
    add_lines(&mut second, "adam", NOW, 4);
    add_lines(&mut second, "zoe", NOW, 4);
    let a: Vec<String> = build_report(&first, NOW).into_iter().map(|r| r.author).collect();
    let b: Vec<String> = build_report(&second, NOW).into_iter().map(|r| r.author).collect();
    let again: Vec<String> = build_report(&first, NOW).into_iter().map(|r| r.author).collect();
    assert_eq!(a, vec!["top", "adam", "mia", "zoe"]);
    assert_eq!(a, b);
    assert_eq!(a, again);
}

#[test]
fn percentages_add_up_to_one_hundred() {
    let mut stats = StatsMap::new();
    add_lines(&mut stats, "a", NOW, 1);
    add_lines(&mut stats, "b", NOW, 2);
    add_lines(&mut stats, "c", NOW, 4);
    add_lines(&mut stats, "d", NOW, 7);
    add_lines(&mut stats, "e", NOW, 3);
    let rows = build_report(&stats, NOW);
    let mut lines = 0usize;
    let mut percent = 0.0f64;
    for r in &rows {
        assert_eq!(r.total_lines, 17);
        lines += r.lines;
        percent += (r.lines as f64 / r.total_lines as f64) * 100.0;
    }
    assert_eq!(lines, 17);
    assert!((percent - 100.0).abs() < 1e-9);
}

#[test]
fn rows_rank_by_lines_then_author() {
    let row = |author: &str, lines: usize| ReportRow {
        author: author.to_string(),
        lines,
        total_lines: 10,
        last_commit_time: 0,
        last_touched: String::new(),
    };
    assert!(row_ranks_before(&row("b", 5), &row("a", 4)));
    assert!(!row_ranks_before(&row("a", 4), &row("b", 5)));
    assert!(row_ranks_before(&row("a", 4), &row("b", 4)));
    assert!(!row_ranks_before(&row("b", 4), &row("a", 4)));
    assert!(!row_ranks_before(&row("a", 4), &row("a", 4)));
}
