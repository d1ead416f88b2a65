use timetracker::cli::{
    check_idle, idle_fields, log_in, parse_idle, project_display, start, stop, tags_display, ActivityCommands,
    AgentCommands,
};
use timetracker::tracker::{IdleInterval, TimeData};

fn store() -> TimeData {
    TimeData { entries: Vec::new(), next_id: 0, schema_version: 1 }
}

#[test]
fn a_well_formed_idle_value_parses_to_the_epoch_seconds_given() {
    let interval = parse_idle("1700000000-1700000600").unwrap();
    assert_eq!(interval.start, 1_700_000_000);
    assert_eq!(interval.end, 1_700_000_600);
    assert_eq!(interval.duration(), 600);
}

#[test]
fn a_malformed_idle_value_is_a_parse_error_not_a_dropped_interval() {
    for bad in ["notanumber", "100", "100-", "abc-200", "100-abc", "300-200"] {
        assert!(parse_idle(bad).is_err(), "`{bad}` parsed instead of failing");
    }
}

#[test]
fn each_malformed_idle_value_names_what_is_wrong() {
    assert_eq!(idle_fields("100").unwrap_err(), "expected <start>-<end> epoch seconds, got `100`");
    assert_eq!(idle_fields("abc-200").unwrap_err(), "start is not epoch seconds: `abc`");
    assert_eq!(idle_fields("100- x").unwrap_err(), "end is not epoch seconds: ` x`");
    assert_eq!(idle_fields(" 100 - 200 ").unwrap(), (100, 200));
    assert_eq!(check_idle("300-200", true, true).unwrap_err(), "idle interval ends before it starts: `300-200`");
    assert_eq!(check_idle("300-400", false, true).unwrap_err(), "start is not a valid timestamp: `300`");
    assert_eq!(check_idle("300-400", true, false).unwrap_err(), "end is not a valid timestamp: `400`");
}

#[test]
fn only_the_commands_that_log_reach_the_store() {
    let begin = AgentCommands::Begin { project: "p".into(), issue: "-".into(), phase: "plan".into(), agent: None };
    assert!(!begin.touches_store());
    assert!(!AgentCommands::List { project: None }.touches_store());
    let item = AgentCommands::Item {
        project: "p".into(),
        issue: "-".into(),
        phase: "plan".into(),
        summary: None,
        minutes: None,
        data: None,
    };
    assert!(item.touches_store());
    assert!(!AgentCommands::Audit { auto_log: false, json: true, project: None }.touches_store());
    assert!(AgentCommands::Audit { auto_log: true, json: false, project: None }.touches_store());
    assert!(!AgentCommands::Activity(ActivityCommands::Prompt { project: None }).touches_store());
}

#[test]
fn a_listing_shows_the_project_and_tags_apart() {
    assert_eq!(project_display(Some(&"demo".to_string())), " (demo)");
    assert_eq!(project_display(None), "");
    assert_eq!(tags_display(&vec!["a".to_string(), "b/1".to_string()]), " [#a #b/1]");
    assert_eq!(tags_display(&Vec::new()), "");
}

#[test]
fn start_refuses_while_something_runs() {
    let mut data = store();
    let words = vec!["wrote".to_string(), "the #tt".to_string(), "thing".to_string()];
    assert!(start(&mut data, &words, Some("demo".to_string()), 100).is_none());
    assert_eq!(data.entries[0].description, "wrote the thing");
    assert_eq!(data.entries[0].tags, vec!["tt".to_string()]);
    let again = start(&mut data, &words, None, 200);
    assert_eq!(again, Some(("wrote the thing".to_string(), 100)));
    assert_eq!(data.entries.len(), 1);
    assert_eq!(stop(&mut data, 400), Some(("wrote the thing".to_string(), 300)));
    assert_eq!(stop(&mut data, 500), None);
}

#[test]
fn idle_intervals_are_recorded_without_changing_the_logged_duration() {
    let mut data = store();
    let end = 1_700_000_000;
    let start = end - 90 * 60;
    let idle = vec![IdleInterval::new(start + 600, start + 1500)];
    log_in(&mut data, "wrote the thing", Vec::new(), None, idle, false, start, end, None);
    assert_eq!(data.entries.len(), 1, "--idle alone must not split anything");
    assert_eq!(data.entries[0].duration_at(0), 90 * 60);
    assert_eq!(data.entries[0].idle.len(), 1);
    assert_eq!(data.entries[0].idle[0].start, start + 600);
}

#[test]
fn trim_splits_the_logged_entry_in_the_same_command() {
    let mut data = store();
    let end = 1_700_000_000;
    let start = end - 7200;
    let gaps = [(start + 600, start + 1500), (start + 4000, start + 5800)];
    let idle = gaps.iter().map(|&(a, b)| IdleInterval::new(a, b)).collect();
    let (id, desc, tags, stored) =
        log_in(&mut data, "long session #tt", vec!["tt".to_string(), "x".to_string()], None, idle, true, start, end, None);
    assert_eq!(id, 0);
    assert_eq!(desc, "long session");
    assert_eq!(tags, vec!["tt".to_string(), "x".to_string()]);
    assert_eq!(data.entries.len(), gaps.len() + 1, "one piece per span left");
    let idle_total: i128 = gaps.iter().map(|(from, to)| (to - from) as i128).sum();
    let logged: i128 = data.entries.iter().map(|e| e.duration_at(0)).sum();
    assert_eq!(logged, 7200 - idle_total);
    assert_eq!(stored, logged, "the confirmation reports what the store holds");
    let ids: Vec<u64> = data.entries.iter().map(|e| e.id).collect();
    assert_eq!(ids, vec![0, 1, 2]);
    assert_eq!(data.next_id, 3, "no id was spent twice");
    assert!(data.entries.iter().all(|e| e.idle.is_empty()));
}

#[test]
fn two_idle_arguments_are_both_recorded_in_order() {
    let mut data = store();
    let base = 1_700_000_000 - 7200;
    let idle = vec![IdleInterval::new(base + 600, base + 900), IdleInterval::new(base + 3000, base + 3600)];
    log_in(&mut data, "long session", Vec::new(), None, idle, false, base, base + 7200, None);
    let stamps: Vec<(i64, i64)> = data.entries[0].idle.iter().map(|gap| (gap.start, gap.end)).collect();
    assert_eq!(stamps, vec![(base + 600, base + 900), (base + 3000, base + 3600)]);
}

#[test]
fn idle_without_trim_leaves_a_single_entry() {
    let mut data = store();
    let end = 1_700_000_000;
    let start = end - 3600;
    log_in(&mut data, "left alone", Vec::new(), None, vec![IdleInterval::new(start + 600, start + 1200)], false, start, end, None);
    assert_eq!(data.entries.len(), 1, "recording is not trimming");
    assert_eq!(data.entries[0].duration_at(0), 3600);
    assert_eq!(data.entries[0].idle.len(), 1, "the interval is still there");
}

#[test]
fn trim_reports_the_span_it_stored_and_not_the_span_it_was_asked_for() {
    let mut data = store();
    let end = 1_700_000_000;
    let start = end - 60 * 60;
    let hole = IdleInterval::new(end - 40 * 60, end - 20 * 60);
    let (_, _, _, stored) = log_in(&mut data, "an hour with a hole in it", Vec::new(), None, vec![hole], true, start, end, None);
    assert_eq!(data.entries.len(), 2, "the hole is interior, so it cuts in two");
    let held: i128 = data.entries.iter().map(|e| e.duration_at(0)).sum();
    assert_eq!(held, 40 * 60);
    assert_eq!(stored, 40 * 60, "the message states what the store holds, not the 60m it was asked for");
}

#[test]
fn a_plain_log_still_reports_the_span_it_was_asked_for() {
    let mut data = store();
    let end = 1_700_000_000;
    let (_, _, _, stored) = log_in(&mut data, "no holes here", Vec::new(), None, Vec::new(), false, end - 45 * 60, end, None);
    assert_eq!(stored, 45 * 60);
    assert_eq!(data.entries[0].duration_at(0), 45 * 60);
}

#[test]
fn idle_covering_the_whole_span_leaves_the_entry_and_reports_it_whole() {
    let mut data = store();
    let end = 1_700_000_000;
    let idle = vec![IdleInterval::new(end - 90 * 60, end + 90 * 60)];
    let (_, _, _, stored) = log_in(&mut data, "swallowed whole", Vec::new(), None, idle, true, end - 30 * 60, end, None);
    assert_eq!(data.entries.len(), 1, "nothing was split");
    assert_eq!(data.entries[0].duration_at(0), 30 * 60);
    assert_eq!(stored, 30 * 60);
}

#[test]
fn both_tag_styles_combine_and_duplicates_are_removed() {
    let mut data = store();
    let (_, desc, tags, _) = log_in(
        &mut data,
        "Fix #frontend bug #frontend",
        vec!["bugfix".to_string(), "frontend".to_string(), "bugfix".to_string()],
        None,
        Vec::new(),
        false,
        0,
        60,
        None,
    );
    assert_eq!(desc, "Fix bug");
    assert_eq!(tags, vec!["frontend".to_string(), "bugfix".to_string()]);
    assert_eq!(data.entries[0].tags, tags);
}

#[test]
fn only_one_task_can_be_active_at_a_time() {
    let mut data = store();
    let words = vec!["first".to_string()];
    assert!(start(&mut data, &words, None, 100).is_none());
    let second = vec!["second".to_string()];
    assert_eq!(start(&mut data, &second, None, 200), Some(("first".to_string(), 100)));
    assert_eq!(data.entries.iter().filter(|e| e.is_active()).count(), 1);
    stop(&mut data, 300);
    assert_eq!(data.entries.iter().filter(|e| e.is_active()).count(), 0);
}
