use chrono::NaiveDate;
use timetracker::clock::Moment;
use timetracker::tui::summary::{
    bucket_index, bucket_range, days_in_month, project_buckets_at, summary_total, view_heat_buckets_at,
    visible_project_summary, BucketGrid, Grain, ProjectTotal,
};
use timetracker::tui::types::ViewMode;

fn day(year: i32, month: u32, dom: u32) -> i32 {
    NaiveDate::from_ymd_opt(year, month, dom).unwrap().to_epoch_days()
}

fn at(year: i32, month: u32, dom: u32, hour: u32, minute: u32) -> Moment {
    Moment { day: day(year, month, dom), second: hour * 3600 + minute * 60 }
}

fn row(project: &str, total: i64, human: i64, entries: usize) -> ProjectTotal {
    ProjectTotal {
        project: project.to_string(),
        total,
        human,
        agent: total - human,
        entries,
        share: 0,
    }
}

/// The index keys on the start alone, so a span never reaches the next bucket.
#[test]
fn a_bucket_index_counts_grains_from_the_anchor_to_the_start() {
    let anchor = at(2026, 1, 1, 0, 0);
    assert_eq!(bucket_index(Grain::Hour, anchor, at(2026, 1, 1, 23, 30)), 23);
    assert_eq!(bucket_index(Grain::Hour, anchor, at(2026, 1, 2, 0, 30)), 24);
    assert_eq!(bucket_index(Grain::Day, anchor, at(2026, 1, 2, 0, 30)), 1);
    assert_eq!(bucket_index(Grain::Week, anchor, at(2026, 1, 15, 9, 0)), 2);
    assert_eq!(bucket_index(Grain::Month, anchor, at(2026, 12, 31, 9, 0)), 11);
    assert_eq!(bucket_index(Grain::Month, anchor, at(2027, 2, 1, 9, 0)), 13);
}

/// The month's own length, taken from the calendar rather than a table.
#[test]
fn a_month_view_buckets_the_days_of_the_selected_month() {
    let starts = vec![at(2026, 2, 10, 9, 0)];

    let (anchor, count) = bucket_range(ViewMode::Month, &starts, day(2026, 2, 10)).unwrap();
    assert_eq!(anchor, at(2026, 2, 1, 0, 0), "bucket 0 opens the month");
    assert_eq!(count, 28, "February 2026 has 28 days");

    let (anchor, count) = bucket_range(ViewMode::Month, &starts, day(2026, 1, 31)).unwrap();
    assert_eq!(anchor, at(2026, 1, 1, 0, 0));
    assert_eq!(count, 31, "January has 31 days");
}

/// The Week view keeps its own seven days while Month shares its grain.
#[test]
fn a_week_view_still_buckets_seven_days_from_its_monday() {
    let starts = vec![at(2026, 2, 10, 9, 0)];

    let (anchor, count) = bucket_range(ViewMode::Week, &starts, day(2026, 2, 10)).unwrap();
    assert_eq!(anchor, at(2026, 2, 9, 0, 0), "the week opens on Monday");
    assert_eq!(count, 7);
}

#[test]
fn hours_before_the_anchor_count_back_toward_zero_and_weeks_round_down() {
    let anchor = at(2026, 1, 8, 0, 0);
    assert_eq!(bucket_index(Grain::Hour, anchor, at(2026, 1, 7, 23, 59)), -1);
    assert_eq!(bucket_index(Grain::Week, anchor, at(2026, 1, 7, 9, 0)), -1);
    assert_eq!(bucket_index(Grain::Week, anchor, at(2026, 1, 1, 9, 0)), -1);
    assert_eq!(bucket_index(Grain::Week, anchor, at(2025, 12, 31, 9, 0)), -2);
}

#[test]
fn nothing_folded_has_no_range() {
    assert_eq!(bucket_range(ViewMode::Day, &Vec::new(), day(2026, 2, 10)), None);
}

#[test]
fn the_year_and_everything_views_span_their_own_periods() {
    let starts = vec![at(2026, 2, 10, 9, 0), at(2026, 3, 4, 9, 0), at(2026, 2, 11, 9, 0)];
    assert_eq!(bucket_range(ViewMode::Year, &starts, day(2026, 6, 1)), Some((at(2026, 1, 1, 0, 0), 12)));
    assert_eq!(bucket_range(ViewMode::Day, &starts, day(2026, 6, 1)), Some((at(2026, 6, 1, 0, 0), 24)));
    // From the Monday of the earliest start's week to the latest start's week.
    assert_eq!(bucket_range(ViewMode::All, &starts, day(2026, 6, 1)), Some((at(2026, 2, 9, 0, 0), 4)));
}

#[test]
fn a_month_is_counted_off_the_calendar() {
    assert_eq!(days_in_month(day(2024, 2, 1)), 29);
    assert_eq!(days_in_month(day(2025, 2, 1)), 28);
    assert_eq!(days_in_month(day(2025, 4, 1)), 30);
}

#[test]
fn a_view_folds_each_reading_whole_into_its_starting_bucket() {
    let selected = day(2026, 2, 10);
    let starts = vec![at(2026, 2, 10, 9, 30), at(2026, 2, 10, 9, 45), at(2026, 2, 10, 14, 0), at(2026, 2, 11, 1, 0)];
    let secs: Vec<i128> = vec![600, 5400, 60, 7];
    let grid = view_heat_buckets_at(ViewMode::Day, &starts, &secs, selected);
    assert_eq!(grid.grain, Grain::Hour);
    assert_eq!(grid.anchor, at(2026, 2, 10, 0, 0));
    assert_eq!(grid.rows.len(), 1);
    assert_eq!(grid.len(), 24);
    assert_eq!(grid.rows[0][9], 6000, "a span past its hour stays in its starting bucket");
    assert_eq!(grid.rows[0][14], 60);
    assert_eq!(grid.rows[0].iter().sum::<i128>(), 6060, "the next day's reading folds nowhere");

    let empty = view_heat_buckets_at(ViewMode::Day, &Vec::new(), &Vec::new(), selected);
    assert_eq!(empty.anchor, at(2026, 2, 10, 0, 0));
    assert_eq!(empty.rows, vec![Vec::<i128>::new()]);
}

#[test]
fn each_project_row_folds_only_its_own_readings() {
    let selected = day(2026, 2, 10);
    let rows = vec![row("alpha", 0, 0, 0), row("beta", 0, 0, 0)];
    let keys: Vec<String> = ["alpha", "beta", "gamma", "alpha"].iter().map(|k| k.to_string()).collect();
    let starts = vec![at(2026, 2, 9, 9, 0), at(2026, 2, 10, 9, 0), at(2026, 2, 10, 9, 0), at(2026, 2, 15, 9, 0)];
    let secs: Vec<i128> = vec![100, 20, 3, 4];
    let grid = project_buckets_at(ViewMode::Week, &rows, &keys, &starts, &secs, selected);
    assert_eq!(grid.grain, Grain::Day);
    assert_eq!(grid.rows, vec![vec![100, 0, 0, 0, 0, 0, 4], vec![0, 20, 0, 0, 0, 0, 0]]);

    let none = project_buckets_at(ViewMode::Week, &rows, &Vec::new(), &Vec::new(), &Vec::new(), selected);
    assert_eq!(none.rows, vec![Vec::<i128>::new(), Vec::new()]);
}

#[test]
fn a_bucket_starts_its_grains_after_the_anchor() {
    let hours = BucketGrid { grain: Grain::Hour, anchor: at(2026, 1, 31, 0, 0), rows: Vec::new() };
    assert_eq!(hours.start(25), at(2026, 2, 1, 1, 0));
    assert_eq!(hours.len(), 0);
    let weeks = BucketGrid { grain: Grain::Week, anchor: at(2026, 1, 5, 0, 0), rows: Vec::new() };
    assert_eq!(weeks.start(2), at(2026, 1, 19, 0, 0));
    let months = BucketGrid { grain: Grain::Month, anchor: at(2026, 1, 31, 0, 0), rows: Vec::new() };
    assert_eq!(months.start(1), at(2026, 2, 28, 0, 0), "a short month clamps the day");
}

#[test]
fn the_total_row_sums_every_project_row() {
    let rows = vec![row("alpha", 3600, 600, 2), row("beta", 60, 60, 1), row("gamma", 1, 0, 5)];
    let total = summary_total(&rows);
    assert_eq!(total.project, "total");
    assert_eq!((total.total, total.human, total.agent, total.entries, total.share), (3661, 660, 3001, 8, 0));
    assert_eq!(visible_project_summary(&rows, 2).len(), 2);
    assert_eq!(visible_project_summary(&rows, 9).len(), 3);
    assert_eq!(visible_project_summary(&rows, 2)[1].project, "beta");
}

#[test]
fn the_everything_view_buckets_add_up_to_every_reading() {
    let starts = vec![at(2026, 2, 10, 9, 0), at(2026, 3, 4, 9, 0), at(2025, 12, 31, 23, 0)];
    let secs: Vec<i128> = vec![60, 600, 6000];
    let grid = view_heat_buckets_at(ViewMode::All, &starts, &secs, day(2026, 6, 1));
    assert_eq!(grid.anchor, at(2025, 12, 29, 0, 0));
    assert_eq!(grid.rows[0].iter().sum::<i128>(), 6660);
    assert_eq!(grid.rows[0][0], 6000);
}
