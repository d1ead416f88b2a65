use chrono::{Local, TimeZone};
use timetracker::audit::{
    auto_log_after_minutes, max_gap_minutes, max_unvouched_minutes, over_floor, thresholds, unaccounted, Session,
    Unaccounted,
};
use timetracker::audit::uncovered_by_marks;
use timetracker::dismissed::Dismissal;
use timetracker::entry_data::with_agent_session;
use timetracker::marks::{rows_at, Lease, Mark, Thresholds};
use timetracker::tracker::TimeEntry;

const FLOOR: i64 = 120;
const HOUR: i64 = 3600;
const HOUSE: Thresholds = Thresholds { gap: 45, unvouched: FLOOR };

fn session(project: Option<&str>, start: i64, end: Option<i64>, subagents: usize) -> Session {
    Session {
        id: "sess-1".to_string(),
        project: project.map(str::to_string),
        start,
        end,
        subagents,
        subagent_at: Vec::new(),
    }
}

fn mark(project: &str, start: i64) -> Lease {
    Lease {
        mark: Mark { project: project.to_string(), issue: None, phase: "impl".to_string(), agent: None, start },
        last_seen: None,
        vouched: false,
    }
}

fn beaten(project: &str, start: i64, last_seen: i64) -> Lease {
    Lease { last_seen: Some(last_seen), vouched: true, ..mark(project, start) }
}

fn entry(project: &str, start: i64, end: Option<i64>, tags: &[&str]) -> TimeEntry {
    TimeEntry {
        id: 1,
        description: "x".to_string(),
        project: Some(project.to_string()),
        tags: tags.iter().map(|t| t.to_string()).collect(),
        start_time: start,
        end_time: end,
        idle: Vec::new(),
        data: None,
    }
}

fn dismissal(project: &str, session: &str, start: i64, end: i64) -> Dismissal {
    Dismissal { project: project.to_string(), session_id: session.to_string(), start, end, reason: None }
}

fn flagged(
    dismissals: &[Dismissal],
    sessions: &[Session],
    leases: &[Lease],
    entries: &[TimeEntry],
    now: i64,
) -> Vec<Unaccounted> {
    let rows = unaccounted(sessions, leases, entries, dismissals, now, HOUSE);
    over_floor(&rows, HOUSE)
}

#[test]
fn a_session_with_no_project_is_never_flagged() {
    let sessions = vec![session(None, 0, Some(3 * HOUR), 0)];
    assert!(flagged(&[], &sessions, &[], &[], 3 * HOUR).is_empty());
}

#[test]
fn a_session_under_the_floor_is_never_flagged() {
    let sessions = vec![session(Some("tt"), 0, Some(HOUR), 0)];
    assert!(flagged(&[], &sessions, &[], &[], HOUR).is_empty());
}

#[test]
fn a_session_under_the_floor_keeps_its_rows_for_the_addressing_commands() {
    let sessions = vec![session(Some("tt"), 0, Some(3 * HOUR), 0)];
    let entries = vec![entry("tt", 50 * 60, Some(3 * HOUR), &["tt", "agent"])];
    let rows = unaccounted(&sessions, &[], &entries, &[], 3 * HOUR, HOUSE);
    assert_eq!(rows.iter().map(|u| (u.start, u.end)).collect::<Vec<_>>(), vec![(0, 50 * 60)]);
    assert!(over_floor(&rows, HOUSE).is_empty(), "50 minutes is under the 120-minute warning floor");
}

#[test]
fn a_session_over_the_floor_with_no_coverage_is_flagged() {
    let sessions = vec![session(Some("tt"), 0, Some(3 * HOUR), 2)];
    let rows = flagged(&[], &sessions, &[], &[], 3 * HOUR);
    assert_eq!(rows.len(), 1);
    assert_eq!(rows[0].project, "tt");
    assert_eq!(rows[0].subagents, 2);
}

#[test]
fn a_session_covered_by_an_overlapping_open_mark_is_not_flagged() {
    let sessions = vec![session(Some("tt"), 0, Some(3 * HOUR), 0)];
    assert!(flagged(&[], &sessions, &[mark("tt", HOUR)], &[], 3 * HOUR).is_empty());
}

#[test]
fn a_mark_open_for_days_with_no_beats_no_longer_covers() {
    let sessions = vec![session(Some("tt"), 110 * HOUR, Some(113 * HOUR), 0)];
    assert_eq!(flagged(&[], &sessions, &[mark("tt", 0)], &[], 114 * HOUR).len(), 1);
    let live = vec![beaten("tt", 0, 114 * HOUR - 600)];
    assert!(flagged(&[], &sessions, &live, &[], 114 * HOUR).is_empty());
}

#[test]
fn two_consecutive_leases_covering_a_window_between_them_leave_nothing_flagged() {
    let sessions = vec![session(Some("tt"), 0, Some(4 * HOUR), 0)];
    let leases = vec![mark("tt", 0), beaten("tt", 2 * HOUR, 4 * HOUR)];
    assert!(flagged(&[], &sessions, &leases, &[], 4 * HOUR).is_empty());
}

#[test]
fn a_mark_for_a_different_project_does_not_cover() {
    let sessions = vec![session(Some("tt"), 0, Some(3 * HOUR), 0)];
    assert_eq!(flagged(&[], &sessions, &[mark("other", HOUR)], &[], 3 * HOUR).len(), 1);
}

#[test]
fn a_session_covered_by_a_closed_agent_tagged_entry_is_not_flagged() {
    let sessions = vec![session(Some("tt"), 0, Some(3 * HOUR), 0)];
    let entries = vec![entry("tt", 0, Some(3 * HOUR), &["tt", "agent"])];
    assert!(flagged(&[], &sessions, &[], &entries, 3 * HOUR).is_empty());
}

#[test]
fn a_logged_entry_without_the_agent_tag_does_not_cover() {
    let sessions = vec![session(Some("tt"), 0, Some(3 * HOUR), 0)];
    let entries = vec![entry("tt", 0, Some(3 * HOUR), &["tt"])];
    assert_eq!(flagged(&[], &sessions, &[], &entries, 3 * HOUR).len(), 1);
}

#[test]
fn a_dismissal_clears_the_session_it_names_and_no_other() {
    let sessions = vec![
        session(Some("tt"), 0, Some(3 * HOUR), 0),
        Session { id: "sess-2".to_string(), ..session(Some("tt"), 0, Some(3 * HOUR), 0) },
    ];
    let dismissals = vec![dismissal("tt", "sess-1", 0, 3 * HOUR)];
    let rows = flagged(&dismissals, &sessions, &[], &[], 3 * HOUR);
    assert_eq!(rows.iter().map(|u| u.session_id.as_str()).collect::<Vec<_>>(), vec!["sess-2"]);
}

#[test]
fn a_dismissed_stretch_does_not_count_toward_the_floor() {
    let sessions = vec![session(Some("tt"), 0, Some(3 * HOUR), 0)];
    let dismissals = vec![dismissal("tt", "sess-1", HOUR, 3 * HOUR)];
    assert!(flagged(&dismissals, &sessions, &[], &[], 3 * HOUR).is_empty());
}

#[test]
fn a_dismissal_of_another_project_does_not_subtract() {
    let sessions = vec![session(Some("tt"), 0, Some(3 * HOUR), 0)];
    let dismissals = vec![dismissal("other", "sess-1", 0, 3 * HOUR)];
    assert_eq!(flagged(&dismissals, &sessions, &[], &[], 3 * HOUR).len(), 1);
}

#[test]
fn results_come_back_newest_first() {
    let sessions = vec![session(Some("older"), 0, Some(3 * HOUR), 0), session(Some("newer"), HOUR, Some(4 * HOUR), 0)];
    let rows = flagged(&[], &sessions, &[], &[], 4 * HOUR);
    assert_eq!(rows.iter().map(|u| u.project.as_str()).collect::<Vec<_>>(), vec!["newer", "older"]);
}

#[test]
fn the_thresholds_come_from_the_environment_then_the_config_then_the_default() {
    assert_eq!(max_unvouched_minutes(None, None), 120);
    assert_eq!(max_gap_minutes(None, None), 45);
    assert_eq!(max_gap_minutes(Some("30".to_string()), Some(50)), 30);
    assert_eq!(max_gap_minutes(Some("soon".to_string()), Some(50)), 50);
    let t = thresholds(None, Some(10), Some("200".to_string()), None);
    assert_eq!((t.gap, t.unvouched), (10, 200));
}

#[test]
fn unset_leaves_auto_logging_disabled() {
    assert_eq!(auto_log_after_minutes(None, None, 120), None);
}

#[test]
fn a_value_over_the_unvouched_floor_is_honoured() {
    assert_eq!(auto_log_after_minutes(Some("180".to_string()), None, 120), Some(180));
    assert_eq!(auto_log_after_minutes(None, Some(150), 120), Some(150));
}

#[test]
fn a_value_at_or_under_the_unvouched_floor_disables_auto_logging() {
    assert_eq!(auto_log_after_minutes(Some("120".to_string()), None, 120), None);
    assert_eq!(auto_log_after_minutes(None, Some(60), 120), None);
}

fn session_with_subagents(project: &str, start: i64, end: Option<i64>, subagent_at: Vec<i64>) -> Session {
    Session {
        id: "sess-1".to_string(),
        project: Some(project.to_string()),
        start,
        end,
        subagents: subagent_at.len(),
        subagent_at,
    }
}

fn entry_for(session: &str, project: &str, start: i64, end: Option<i64>, tags: &[&str]) -> TimeEntry {
    TimeEntry { data: Some(with_agent_session(None, session).unwrap()), ..entry(project, start, end, tags) }
}

/// What a warning surface sees, with the unvouched grace as the floor.
fn flagged_under(sessions: &[Session], leases: &[Lease], entries: &[TimeEntry], now: i64, floor: i64) -> Vec<Unaccounted> {
    let t = Thresholds { gap: 45, unvouched: floor };
    over_floor(&unaccounted(sessions, leases, entries, &[], now, t), t)
}

fn spans(rows: &[Unaccounted]) -> Vec<(i64, i64)> {
    rows.iter().map(|u| (u.start, u.end)).collect()
}

#[test]
fn one_instant_decides_both_the_stale_row_and_the_coverage() {
    let leases = vec![beaten("tt", 0, 3 * HOUR)];
    let fresh = 3 * HOUR + 45 * 60 + 59;
    assert!(uncovered_by_marks("tt", 0, fresh, &leases, fresh, HOUSE).is_empty());
    assert!(!rows_at(&leases, fresh, HOUSE)[0].contains("[stale]"));
    let expired = 3 * HOUR + 46 * 60;
    assert!(rows_at(&leases, expired, HOUSE)[0].contains("[stale]"));
    assert_eq!(uncovered_by_marks("tt", 0, expired + 1, &leases, expired + 1, HOUSE), vec![(expired, expired + 1)]);
}

#[test]
fn a_still_open_session_marked_from_its_start_reports_nothing() {
    let sessions = vec![session(Some("tt"), 0, None, 0)];
    assert!(flagged_under(&sessions, &[mark("tt", 0)], &[], 114 * HOUR, FLOOR).is_empty());
}

#[test]
fn a_lease_for_a_lossy_project_name_still_covers_its_session() {
    let sessions = vec![session(Some("my proj"), 0, Some(3 * HOUR), 0)];
    let leases = vec![beaten("my_proj", 0, 3 * HOUR)];
    assert!(flagged_under(&sessions, &leases, &[], 3 * HOUR, FLOOR).is_empty());
}

#[test]
fn a_mark_of_a_dot_related_project_does_not_cover() {
    for (session_project, mark_project) in [("app", "app.web"), ("app.web", "app")] {
        let sessions = vec![session(Some(session_project), 0, Some(3 * HOUR), 0)];
        let leases = vec![beaten(mark_project, 0, 3 * HOUR)];
        assert_eq!(
            flagged_under(&sessions, &leases, &[], 3 * HOUR, FLOOR).len(),
            1,
            "a {mark_project} mark covered a {session_project} session"
        );
    }
}

#[test]
fn a_mark_that_started_after_the_window_ended_does_not_cover() {
    let sessions = vec![session(Some("tt"), 0, Some(3 * HOUR), 0)];
    assert_eq!(flagged_under(&sessions, &[mark("tt", 4 * HOUR)], &[], 5 * HOUR, FLOOR).len(), 1);
}

#[test]
fn an_auto_tagged_entry_covers_the_same_as_an_agent_tagged_one() {
    let sessions = vec![session(Some("tt"), 0, Some(3 * HOUR), 0)];
    let entries = vec![entry("tt", 0, Some(3 * HOUR), &["tt", "auto", "auto"])];
    assert!(flagged_under(&sessions, &[], &entries, 3 * HOUR, FLOOR).is_empty());
}

#[test]
fn an_entry_covering_the_tail_leaves_the_head_flagged() {
    let sessions = vec![session(Some("tt"), 0, Some(3 * HOUR), 0)];
    let entries = vec![entry("tt", 2 * HOUR, Some(4 * HOUR), &["tt", "agent"])];
    let rows = flagged_under(&sessions, &[], &entries, 3 * HOUR, FLOOR);
    assert_eq!(rows.len(), 1);
    assert_eq!((rows[0].start, rows[0].end), (0, 2 * HOUR));
}

#[test]
fn an_entry_covering_the_middle_leaves_the_head_and_the_tail_flagged() {
    let sessions = vec![session(Some("tt"), 0, Some(6 * HOUR), 0)];
    let entries = vec![entry("tt", 2 * HOUR, Some(4 * HOUR), &["tt", "auto"])];
    let rows = flagged_under(&sessions, &[], &entries, 6 * HOUR, FLOOR);
    assert_eq!(spans(&rows), vec![(4 * HOUR, 6 * HOUR), (0, 2 * HOUR)]);
}

#[test]
fn six_uncovered_fragments_under_the_floor_are_all_reported() {
    let sessions = vec![session(Some("tt"), 0, Some(12 * HOUR), 0)];
    let entries: Vec<TimeEntry> = (0..6)
        .map(|i| {
            let cut = i * 120 * 60 + 110 * 60;
            entry("tt", cut, Some(cut + 10 * 60), &["tt", "agent"])
        })
        .collect();
    let rows = flagged_under(&sessions, &[], &entries, 12 * HOUR, FLOOR);
    assert_eq!(rows.len(), 6);
    for item in &rows {
        assert_eq!((item.end - item.start) / 60, 110);
    }
}

#[test]
fn a_sub_minute_seam_is_never_a_row_of_its_own() {
    let sessions = vec![session(Some("tt"), 0, Some(6 * HOUR), 0)];
    let entries = vec![
        entry("tt", 0, Some(HOUR), &["tt", "agent"]),
        entry("tt", HOUR + 30, Some(2 * HOUR), &["tt", "agent"]),
        entry("tt", 2 * HOUR + 1, Some(3 * HOUR), &["tt", "agent"]),
    ];
    let rows = flagged_under(&sessions, &[], &entries, 6 * HOUR, FLOOR);
    assert_eq!(spans(&rows), vec![(3 * HOUR, 6 * HOUR)]);
}

#[test]
fn a_session_uncovered_only_by_sub_minute_seams_is_still_not_reported() {
    let sessions = vec![session(Some("tt"), 0, Some(6 * HOUR), 0)];
    let entries = vec![entry("tt", 0, Some(HOUR), &["tt", "agent"]), entry("tt", HOUR + 30, Some(6 * HOUR), &["tt", "agent"])];
    assert!(flagged_under(&sessions, &[], &entries, 6 * HOUR, FLOOR).is_empty());
}

#[test]
fn a_session_whose_coverage_leaves_three_minutes_reports_nothing() {
    let sessions = vec![session(Some("tt"), 0, Some(3 * HOUR), 0)];
    let entries = vec![entry("tt", 0, Some(3 * HOUR - 180), &["tt", "agent"])];
    assert!(flagged_under(&sessions, &[], &entries, 3 * HOUR, FLOOR).is_empty());
}

#[test]
fn an_entry_for_a_lossy_project_name_still_covers_its_session() {
    let sessions = vec![session(Some("my proj"), 0, Some(3 * HOUR), 0)];
    let entries = vec![entry("my_proj", 0, Some(3 * HOUR), &["tt", "agent"])];
    assert!(flagged_under(&sessions, &[], &entries, 3 * HOUR, FLOOR).is_empty());
}

#[test]
fn an_entry_of_a_dot_related_project_does_not_cover() {
    for (session_project, entry_project) in [("app", "app.web"), ("app.web", "app")] {
        let sessions = vec![session(Some(session_project), 0, Some(3 * HOUR), 0)];
        let entries = vec![entry(entry_project, 0, Some(3 * HOUR), &["tt", "agent"])];
        assert_eq!(
            flagged_under(&sessions, &[], &entries, 3 * HOUR, FLOOR).len(),
            1,
            "an {entry_project} entry covered an {session_project} session"
        );
    }
}

#[test]
fn each_fragment_counts_only_the_dispatches_inside_it() {
    let dispatches = vec![30 * 60, 60 * 60, 90 * 60, 4 * HOUR + 30 * 60, 5 * HOUR, 5 * HOUR + 30 * 60];
    let sessions = vec![session_with_subagents("tt", 0, Some(6 * HOUR), dispatches)];
    let entries = vec![entry("tt", 2 * HOUR, Some(4 * HOUR), &["tt", "agent"])];
    let rows = flagged_under(&sessions, &[], &entries, 6 * HOUR, FLOOR);
    assert_eq!(rows.len(), 2);
    assert_eq!(rows.iter().map(|u| u.subagents).sum::<usize>(), 6);
    for item in &rows {
        assert!(item.describe().contains("3 subagent dispatches"), "{}", item.describe());
    }
}

#[test]
fn a_still_open_session_with_no_dispatches_is_measured_to_its_bound() {
    let sessions = vec![session(Some("tt"), 0, None, 0)];
    let rows = flagged_under(&sessions, &[], &[], 114 * HOUR, FLOOR);
    assert_eq!(rows.len(), 1);
    assert_eq!(rows[0].end, 121 * 60, "start plus the unvouched grace");
}

#[test]
fn a_still_open_session_reports_nothing_past_its_last_dispatch() {
    let sessions = vec![session_with_subagents("tt", 0, None, vec![30 * 60, 60 * 60, 90 * 60])];
    let rows = flagged_under(&sessions, &[], &[], 200 * HOUR, 60);
    assert_eq!(rows.len(), 1);
    assert_eq!(rows[0].end, 90 * 60);
}

#[test]
fn a_session_younger_than_its_grace_is_measured_to_now() {
    let sessions = vec![session_with_subagents("tt", 0, None, vec![30 * 60, 60 * 60, 90 * 60])];
    let rows = flagged_under(&sessions, &[], &[], 100 * 60, 60);
    assert_eq!(rows.len(), 1);
    assert_eq!(rows[0].end, 100 * 60);
    assert!(!rows[0].abandoned, "its grace has not run out yet");
}

#[test]
fn a_bounded_window_a_mark_cuts_into_drops_under_the_floor() {
    let sessions = vec![session(Some("tt"), 0, None, 0)];
    assert!(flagged_under(&sessions, &[mark("tt", HOUR)], &[], 121 * 60, FLOOR).is_empty());
}

#[test]
fn only_the_trailing_row_of_a_bounded_session_is_marked_abandoned() {
    let sessions = vec![session(Some("smoke"), 0, None, 0)];
    let entries = vec![entry("smoke", 30 * 60, Some(31 * 60), &["smoke", "agent"])];
    let rows = flagged_under(&sessions, &[], &entries, 114 * HOUR, 60);
    assert_eq!(rows.iter().map(|u| (u.end, u.abandoned)).collect::<Vec<_>>(), vec![(61 * 60, true), (30 * 60, false)]);
    assert!(rows[0].describe().ends_with(" [abandoned]"), "{}", rows[0].describe());
}

#[test]
fn the_trailing_row_of_a_bounded_session_with_dispatches_is_marked_abandoned() {
    let sessions = vec![session_with_subagents("tt", 0, None, vec![30 * 60])];
    let rows = flagged_under(&sessions, &[], &[], 200 * HOUR, 30);
    assert_eq!(rows.len(), 1);
    assert_eq!(rows[0].end, 30 * 60);
    assert!(rows[0].describe().ends_with(" [abandoned]"), "{}", rows[0].describe());
}

#[test]
fn a_closed_session_reports_no_abandoned_row() {
    let sessions = vec![session(Some("tt"), 0, Some(3 * HOUR), 0)];
    let rows = flagged_under(&sessions, &[], &[], 3 * HOUR, FLOOR);
    assert!(!rows[0].abandoned);
    assert!(!rows[0].describe().contains("[abandoned]"));
}

#[test]
fn a_still_open_entry_is_measured_to_now_when_checking_coverage() {
    let sessions = vec![session(Some("tt"), 0, None, 0)];
    let entries = vec![entry("tt", 0, None, &["tt", "agent"])];
    assert!(flagged_under(&sessions, &[], &entries, 3 * HOUR, FLOOR).is_empty());
}

#[test]
fn two_overlapping_sessions_report_a_row_each() {
    let sessions = vec![
        session(Some("tt"), 0, Some(3 * HOUR), 0),
        Session { id: "sess-2".to_string(), ..session(Some("tt"), 0, None, 0) },
    ];
    let rows = flagged_under(&sessions, &[], &[], 3 * HOUR, FLOOR);
    assert_eq!(spans(&rows), vec![(0, 3 * HOUR), (0, 121 * 60)]);
    assert_eq!(rows.iter().map(|u| u.session_id.as_str()).collect::<Vec<_>>(), vec!["sess-1", "sess-2"]);
    assert_ne!(rows[0].describe(), rows[1].describe(), "two rows of one project must read differently");
}

#[test]
fn two_overlapping_sessions_keep_their_own_dispatches() {
    let sessions = vec![
        session_with_subagents("tt", 0, Some(3 * HOUR), (1..9).map(|i| i * 20 * 60).collect()),
        session(Some("tt"), 0, None, 0),
    ];
    let rows = flagged_under(&sessions, &[], &[], 3 * HOUR, FLOOR);
    assert_eq!(
        rows.iter().map(|u| (u.start, u.end, u.subagents)).collect::<Vec<_>>(),
        vec![(0, 3 * HOUR, 8), (0, 121 * 60, 0)]
    );
}

#[test]
fn an_entry_naming_a_session_covers_that_session_only() {
    let sessions = vec![
        session(Some("tt"), 0, Some(3 * HOUR), 0),
        Session { id: "sess-2".to_string(), ..session(Some("tt"), 0, Some(3 * HOUR), 0) },
    ];
    let entries = vec![entry_for("sess-1", "tt", 0, Some(3 * HOUR), &["tt", "agent"])];
    let rows = flagged_under(&sessions, &[], &entries, 3 * HOUR, FLOOR);
    assert_eq!(rows.iter().map(|u| u.session_id.as_str()).collect::<Vec<_>>(), vec!["sess-2"]);
}

#[test]
fn an_entry_naming_no_session_covers_every_session_of_the_project() {
    let sessions = vec![
        session(Some("tt"), 0, Some(3 * HOUR), 0),
        Session { id: "sess-2".to_string(), ..session(Some("tt"), 0, Some(3 * HOUR), 0) },
    ];
    let entries = vec![entry("tt", 0, Some(3 * HOUR), &["tt", "agent"])];
    assert!(flagged_under(&sessions, &[], &entries, 3 * HOUR, FLOOR).is_empty());
}

#[test]
fn a_window_with_no_subagent_dispatches_is_reported_whole() {
    let sessions = vec![session(Some("tt"), 0, Some(3 * HOUR), 0)];
    let rows = flagged_under(&sessions, &[], &[], 3 * HOUR, FLOOR);
    assert_eq!(rows.len(), 1);
    assert_eq!((rows[0].start, rows[0].end), (0, 3 * HOUR));
}

#[test]
fn a_window_active_for_ten_minutes_is_under_the_floor() {
    let sessions = vec![session_with_subagents("tt", 0, Some(3 * HOUR), vec![10 * 60])];
    assert!(flagged_under(&sessions, &[], &[], 3 * HOUR, FLOOR).is_empty());
}

fn thirteen_dispatches() -> Vec<i64> {
    [30, 60, 90, 120, 180, 210, 240, 270, 330, 360, 390, 420, 450].iter().map(|m| m * 60).collect()
}

#[test]
fn a_fragment_is_split_at_its_idle_holes() {
    let minute = 60;
    let sessions = vec![session_with_subagents("tt", 0, Some(8 * HOUR), thirteen_dispatches())];
    let rows = flagged_under(&sessions, &[], &[], 8 * HOUR, FLOOR);
    assert_eq!(
        spans(&rows),
        vec![(330 * minute, 480 * minute), (180 * minute, 270 * minute), (0, 120 * minute)]
    );
}

#[test]
fn a_hole_left_by_a_covering_entry_is_never_reported() {
    let minute = 60;
    let sessions = vec![session_with_subagents("tt", 0, Some(8 * HOUR), thirteen_dispatches())];
    let entries = vec![
        entry("tt", 0, Some(120 * minute), &["tt", "auto"]),
        entry("tt", 180 * minute, Some(270 * minute), &["tt", "auto"]),
        entry("tt", 330 * minute, Some(480 * minute), &["tt", "auto"]),
    ];
    assert!(flagged_under(&sessions, &[], &entries, 8 * HOUR, 60).is_empty());
}

fn row(project: &str, session: &str, start: i64, end: i64) -> Unaccounted {
    Unaccounted {
        project: project.to_string(),
        session_id: session.to_string(),
        start,
        end,
        subagents: 0,
        abandoned: false,
    }
}

#[test]
fn project_keeps_that_projects_rows_and_drops_the_rest() {
    let rows = vec![row("tt", "a", 0, HOUR), row("other", "b", 0, HOUR), row("my proj", "c", 0, HOUR)];
    let kept = timetracker::audit::rows_for_project(&rows, Some("TT"));
    assert_eq!(kept.iter().map(|u| u.session_id.as_str()).collect::<Vec<_>>(), vec!["a"]);
    let lossy = timetracker::audit::rows_for_project(&rows, Some("my_proj"));
    assert_eq!(lossy.iter().map(|u| u.session_id.as_str()).collect::<Vec<_>>(), vec!["c"]);
    assert_eq!(timetracker::audit::rows_for_project(&rows, None).len(), 3);
}

#[test]
fn fragments_under_the_floor_are_reported_but_never_auto_logged() {
    let rows = vec![row("tt", "a", 0, 3 * HOUR), row("tt", "b", 0, 30 * 60), row("tt", "b", HOUR, HOUR + 40 * 60)];
    let written = timetracker::audit::auto_log_rows(&rows, HOUSE, 60);
    assert_eq!(written.iter().map(|u| u.session_id.as_str()).collect::<Vec<_>>(), vec!["a"]);
    let none = timetracker::audit::auto_log_rows(&rows, HOUSE, 180);
    assert!(none.is_empty(), "three hours is not over 180 minutes");
}

#[test]
fn resolve_finds_the_row_by_its_session_and_start() {
    let rows = vec![row("tt", "a", 0, HOUR), row("tt", "b", 0, HOUR), row("tt", "b", HOUR, 2 * HOUR)];
    assert_eq!(timetracker::audit::find_row(&rows, "b", HOUR), Some(2));
    assert_eq!(timetracker::audit::find_row(&rows, "b", 0), Some(1));
    assert_eq!(timetracker::audit::find_row(&rows, "c", 0), None);
}

#[test]
fn the_stop_hook_auto_logs_only_when_asked_and_configured() {
    assert_eq!(timetracker::audit::stop_hook_threshold(true, true, Some(480)), Some(480));
    assert_eq!(timetracker::audit::stop_hook_threshold(true, false, Some(480)), None);
    assert_eq!(timetracker::audit::stop_hook_threshold(false, true, Some(480)), None);
    assert_eq!(timetracker::audit::stop_hook_threshold(true, true, None), None);
}

#[test]
fn a_row_reads_its_start_on_the_wall_clock_or_unknown_past_chronos_calendar() {
    let start = 1_787_040_000;
    let clock = Local.timestamp_opt(start, 0).unwrap().format("%H:%M").to_string();
    let text = row("tt", "sess-1", start, start + HOUR).describe();
    assert!(text.starts_with(&format!("tt - since {clock} (1h 0m)")), "{text}");
    let far = 100_000_000_000_000;
    let text = row("tt", "sess-1", far, far + HOUR).describe();
    assert!(text.starts_with("tt - since ??:?? (1h 0m)"), "{text}");
}
