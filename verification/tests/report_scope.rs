use chrono::{Local, NaiveDate, TimeZone};
use timetracker::clock::{MAX_DAY, MIN_DAY};
use timetracker::report::{resolve_scope, select, select_on};
use timetracker::tracker::{TimeData, TimeEntry};

fn date(y: i32, m: u32, d: u32) -> i32 {
    NaiveDate::from_ymd_opt(y, m, d).expect("a real date").to_epoch_days()
}

fn local(y: i32, m: u32, d: u32, hour: u32, minute: u32) -> i64 {
    Local.with_ymd_and_hms(y, m, d, hour, minute, 0).single().expect("a real local time").timestamp()
}

fn entry(id: u64, project: Option<&str>, start: i64) -> TimeEntry {
    TimeEntry {
        id,
        description: "did the thing".to_string(),
        project: project.map(str::to_string),
        tags: Vec::new(),
        start_time: start,
        end_time: Some(start + 30 * 60),
        idle: Vec::new(),
        data: None,
    }
}

#[test]
fn the_day_range_is_the_one_chrono_can_hold() {
    assert_eq!(NaiveDate::MIN.to_epoch_days(), MIN_DAY);
    assert_eq!(NaiveDate::MAX.to_epoch_days(), MAX_DAY);
    assert!(NaiveDate::from_epoch_days(MIN_DAY - 1).is_none());
    assert!(NaiveDate::from_epoch_days(MAX_DAY + 1).is_none());
}

#[test]
fn the_default_scope_is_today_bounded_at_both_ends() {
    let today = date(2026, 8, 18);
    let scope = resolve_scope(today, false, false, None, None, None);
    assert_eq!(scope.from, Some(today));
    assert_eq!(scope.until, Some(today));
    assert_eq!(scope.label, "Today, 2026-08-18");
}

#[test]
fn all_is_unbounded_and_week_starts_on_monday_with_no_upper_bound() {
    // 2026-08-18 is a Tuesday, so the week starts the day before.
    let today = date(2026, 8, 18);
    let all = resolve_scope(today, true, false, None, None, None);
    assert_eq!((all.from, all.until), (None, None));
    assert_eq!(all.label, "All entries");

    let week = resolve_scope(today, false, true, None, None, None);
    assert_eq!(week.from, Some(date(2026, 8, 17)), "Monday");
    assert_eq!(week.until, None, "the script sets no upper bound for a week");
    assert_eq!(week.label, "Week of 2026-08-17");
}

#[test]
fn since_and_until_bound_the_range_and_project_suffixes_any_label() {
    let today = date(2026, 8, 18);
    let scope = resolve_scope(today, false, false, Some(date(2026, 8, 1)), Some(date(2026, 8, 5)), Some("vinge"));
    assert_eq!(scope.from, Some(date(2026, 8, 1)));
    assert_eq!(scope.until, Some(date(2026, 8, 5)));
    assert_eq!(scope.label, "Since 2026-08-01 — #vinge");
}

#[test]
fn a_week_starts_on_the_monday_at_or_before_the_day() {
    assert_eq!(TimeData::week_start(date(2026, 8, 17)), date(2026, 8, 17), "a Monday is its own week start");
    assert_eq!(TimeData::week_start(date(2026, 8, 23)), date(2026, 8, 17), "Sunday closes the week");
    assert_eq!(TimeData::week_start(0), date(1969, 12, 29), "1970-01-01 was a Thursday");
    assert_eq!(TimeData::week_start(date(1969, 12, 31)), date(1969, 12, 29), "before the epoch too");
}

#[test]
fn select_filters_on_the_date_bounds_and_on_the_project_field() {
    let inside = entry(1, Some("vinge"), local(2026, 8, 18, 9, 0));
    let earlier = entry(2, Some("vinge"), local(2026, 8, 15, 9, 0));
    let other_project = entry(3, Some("tt"), local(2026, 8, 18, 10, 0));
    let data = TimeData { entries: vec![inside, earlier, other_project], next_id: 4, schema_version: 1 };

    let today = date(2026, 8, 18);
    let day = resolve_scope(today, false, false, None, None, None);
    assert_eq!(select(&data, &day, None).len(), 2, "the two dated today");

    let all = resolve_scope(today, true, false, None, None, None);
    assert_eq!(select(&data, &all, None).len(), 3);
    assert_eq!(
        select(&data, &all, Some("vinge")).iter().map(|e| e.id).collect::<Vec<_>>(),
        vec![1, 2],
        "filtered on the field, not on a tag"
    );
}

#[test]
fn an_entry_with_no_day_reading_is_selected_only_by_an_unbounded_scope() {
    let data = TimeData { entries: vec![entry(1, Some("tt"), 0), entry(2, Some("tt"), 0)], next_id: 3, schema_version: 1 };
    let days = vec![None, Some(5)];
    let all = resolve_scope(5, true, false, None, None, None);
    assert_eq!(select_on(&data, &days, &all, None).len(), 2);
    let day = resolve_scope(5, false, false, None, None, None);
    assert_eq!(select_on(&data, &days, &day, None).iter().map(|e| e.id).collect::<Vec<_>>(), vec![2]);
}

#[test]
fn the_day_filters_keep_store_order_and_the_totals_add_up() {
    let monday = date(2026, 8, 17);
    let data = TimeData {
        entries: vec![
            entry(1, None, local(2026, 8, 17, 9, 0)),
            entry(2, None, local(2026, 8, 19, 9, 0)),
            entry(3, None, local(2026, 8, 24, 9, 0)),
            entry(4, None, local(2026, 8, 17, 14, 0)),
        ],
        next_id: 5,
        schema_version: 1,
    };
    assert_eq!(data.entries_for_date(monday).iter().map(|e| e.id).collect::<Vec<_>>(), vec![1, 4]);
    assert_eq!(data.entries_for_week(monday).iter().map(|e| e.id).collect::<Vec<_>>(), vec![1, 2, 4]);
    assert_eq!(data.total_for_date(monday), 60 * 60);
    assert_eq!(data.total_for_week(monday), 90 * 60);
    let days = data.daily_breakdown(monday);
    assert_eq!(days.len(), 7);
    assert_eq!(days[0], (monday, 60 * 60));
    assert_eq!(days[2], (monday + 2, 30 * 60));
    assert_eq!(days[6], (monday + 6, 0));
    let within = data.entries_within(&vec![Some(1), None, Some(3), Some(2)], Some(2), None);
    assert_eq!(within.iter().map(|e| e.id).collect::<Vec<_>>(), vec![3, 4]);
}
