use chrono::{Local, TimeZone};
use timetracker::marks::{
    beat_line, beats_path, cancel_in, closable, closing_path, gaps_over, lease_of, mark_key, mark_path,
    marks_from, owned_by, phase_of, resolve_mark_dir, rows_at, split_key, start_of, touch_in, touch_project_in, owned_mark_keys,
    begin_in, begin_outcome, Begin,
    unclosable_in, Lease,
    Mark, MarkRef, Thresholds, Touch,
};

const HOUSE: Thresholds = Thresholds { gap: 45, unvouched: 120 };

fn key<'a>(project: &'a str, issue: &'a str, phase: &'a str) -> MarkRef<'a> {
    MarkRef { project, issue, phase, agent: None }
}

fn labelled<'a>(project: &'a str, issue: &'a str, phase: &'a str, agent: &'a str) -> MarkRef<'a> {
    MarkRef { project, issue, phase, agent: Some(agent) }
}

fn file(name: &str, contents: &str) -> (String, String) {
    (name.to_string(), contents.to_string())
}

fn mark(name: &str, contents: &str) -> Mark {
    marks_from(&vec![file(name, contents)]).remove(0)
}

fn clock(epoch: i64) -> String {
    Local.timestamp_opt(epoch, 0).unwrap().format("%H:%M").to_string()
}

fn labels(marks: &[Mark]) -> Vec<(String, Option<String>, String)> {
    marks.iter().map(|m| (m.project.clone(), m.issue.clone(), m.phase.clone())).collect()
}

#[test]
fn a_key_is_sanitised_once_and_keeps_the_no_issue_sentinel() {
    assert_eq!(mark_key(key("tt", "8", "impl")), "tt.8.impl");
    assert_eq!(mark_key(key("vinge", "-", "plan")), "vinge.-.plan");
    assert_eq!(mark_key(key("my proj", "7", "code/review")), "my_proj.7.code_review");
    assert_eq!(mark_key(key("app", "1.2", "impl")), "app.1-2.impl");
    assert_eq!(mark_key(key("app.web", "7", "impl")), "app-web.7.impl");
    let k = mark_key(key("my proj", "7", "impl"));
    assert_eq!(mark_path("/marks", &k), "/marks/my_proj.7.impl");
    assert_eq!(beats_path("/marks", &k), "/marks/beats/my_proj.7.impl");
    assert_eq!(closing_path("/marks", &k), "/marks/closing/my_proj.7.impl");
}

#[test]
fn an_agent_label_is_a_fourth_sanitised_segment() {
    assert_eq!(mark_key(labelled("tt", "8", "impl", "critic")), "tt.8.impl.critic");
    assert_eq!(mark_key(labelled("tt", "-", "impl", "code review")), "tt.-.impl.code_review");
    assert_eq!(mark_key(labelled("tt", "8", "impl", "v1.2")), "tt.8.impl.v1-2");
}

#[test]
fn a_four_segment_name_reads_back_as_a_labelled_mark() {
    let m = mark("tt.8.impl.critic", "1000200\n");
    assert_eq!(m.project, "tt");
    assert_eq!(m.issue.as_deref(), Some("8"));
    assert_eq!(m.phase, "impl");
    assert_eq!(m.agent.as_deref(), Some("critic"));
    assert_eq!(m.label(), "tt/8 impl:critic");
    assert!(closable(&m));
}

#[test]
fn split_key_reads_every_shape_back() {
    assert_eq!(split_key("proj.phase"), ("proj".to_string(), None, "phase".to_string(), None));
    assert_eq!(split_key("vinge.-.plan"), ("vinge".to_string(), None, "plan".to_string(), None));
    assert_eq!(
        split_key("app.web.7.impl.v2"),
        ("app".to_string(), Some("web.7.impl".to_string()), "v2".to_string(), None)
    );
    assert_eq!(split_key("solo"), ("solo".to_string(), None, String::new(), None));
}

#[test]
fn a_phase_with_no_beats_is_one_unvouched_stretch() {
    assert_eq!(gaps_over(0, 46 * 60, &[], 45), vec![(0, 46 * 60)]);
    assert_eq!(gaps_over(0, 10 * 60, &[], 45), vec![]);
}

#[test]
fn silence_before_the_first_beat_is_a_gap() {
    let start = 1_000_000;
    let first = start + 60 * 60;
    let gaps = gaps_over(start, first + 300, &[first], 45);
    assert_eq!(gaps, vec![(start, first)]);
}

#[test]
fn silence_after_the_last_beat_is_a_gap() {
    let start = 1_000_000;
    let beat = start + 300;
    let end = beat + 60 * 60;
    assert_eq!(gaps_over(start, end, &[beat], 45), vec![(beat, end)]);
}

#[test]
fn a_beat_that_does_not_advance_the_sequence_is_skipped() {
    let start = 1_000_000;
    let beat = start + 10 * 60;
    let end = start + 70 * 60;
    let beats = [beat, beat, beat - 60, end + 600, end];
    assert_eq!(gaps_over(start, end, &beats, 45), vec![(beat, end)]);
}

#[test]
fn the_threshold_is_floor_minutes_and_strictly_greater() {
    let start = 1_000_000;
    assert_eq!(gaps_over(start, start + 45 * 60 + 59, &[], 45), vec![]);
    let end = start + 46 * 60;
    assert_eq!(gaps_over(start, end, &[], 45), vec![(start, end)]);
}

#[test]
fn two_holes_come_back_in_chronological_order() {
    let start = 1_000_000;
    let beats = [start + 10 * 60, start + 70 * 60, start + 80 * 60, start + 140 * 60];
    let end = start + 150 * 60;
    assert_eq!(gaps_over(start, end, &beats, 45), vec![(beats[0], beats[1]), (beats[2], beats[3])]);
}

#[test]
fn a_mark_that_never_beat_expires_one_minute_past_the_unvouched_grace() {
    let lease = lease_of(mark("proj.7.impl", "1000000\n"), "");
    assert_eq!(lease.last_seen, None);
    assert_eq!(lease.expires_at(HOUSE), 1_000_000 + 121 * 60);
}

#[test]
fn a_beaten_mark_expires_one_minute_past_the_gap_after_its_last_beat() {
    let lease = lease_of(mark("proj.-.plan", "1000000\n"), "1000300\n1000600\n");
    assert_eq!(lease.last_seen, Some(1_000_600));
    assert_eq!(lease.expires_at(HOUSE), 1_000_600 + 46 * 60);
}

#[test]
fn a_tagged_beat_is_still_a_last_seen_for_liveness() {
    let lease = lease_of(mark("proj.7.impl", "1000000\n"), "1000600 hook\n");
    assert_eq!(lease.last_seen, Some(1_000_600));
    assert_eq!(lease.expires_at(HOUSE), 1_000_600 + 46 * 60);
}

#[test]
fn an_empty_beats_file_takes_the_unvouched_grace() {
    let lease = lease_of(mark("proj.7.impl", "1000000\n"), "\n");
    assert_eq!(lease.last_seen, None);
    assert_eq!(lease.expires_at(HOUSE), 1_000_000 + 121 * 60);
}

#[test]
fn only_a_bare_beat_vouches_for_a_lease() {
    let hooked = lease_of(mark("proj.7.impl", "1000000\n"), "1000600 hook\n");
    assert!(!hooked.vouched);
    assert!(hooked.close_command().ends_with("<minutes>"));
    let touched = lease_of(mark("proj.7.impl", "1000000\n"), "1000600\n1000900 hook\n");
    assert!(touched.vouched, "a bare beat anywhere in the file vouches");
    assert!(touched.close_command().ends_with("--trim"));
}

#[test]
fn expiry_is_floor_minutes_and_strictly_greater() {
    let start = 1_000_000;
    let lease = lease_of(mark("proj.7.impl", &format!("{start}\n")), &format!("{start} hook\n"));
    assert!(!lease.is_expired_at(start + 45 * 60 + 59, HOUSE));
    assert!(lease.is_expired_at(start + 46 * 60, HOUSE));
}

#[test]
fn the_last_beats_line_wins_over_the_largest_beat() {
    let lease = lease_of(mark("proj.7.impl", "1000000\n"), "1009000\n1000600\n");
    assert_eq!(lease.last_seen, Some(1_000_600));
}

#[test]
fn a_mark_with_more_segments_than_a_key_has_prints_no_close_line() {
    let lease = lease_of(mark("app.web.7.impl.v2", "1000000\n"), "");
    assert!(!closable(&lease.mark));
    let note = lease.close_command();
    assert!(!note.contains("tt agent end"), "{note}");
    assert!(note.contains("app.web.7.impl.v2"), "{note}");
    assert!(note.contains("tt agent item app web.7.impl v2"), "{note}");
}

#[test]
fn a_healthy_mark_is_closable_in_both_forms() {
    for m in marks_from(&vec![file("app.7.impl", "1000000\n"), file("app.-.plan", "1000000\n")]) {
        assert!(closable(&m), "{:?}", m);
    }
}

#[test]
fn only_the_marks_no_command_can_close_get_a_note() {
    let marks = marks_from(&vec![
        file("app.web.7.impl.v2", "1000000\n"),
        file("app.7.impl", "1000000\n"),
        file("app.7.impl.critic", "1000000\n"),
    ]);
    let notes = unclosable_in(&marks);
    assert_eq!(notes.len(), 1, "{notes:?}");
    assert!(notes[0].contains("app.web.7.impl.v2"), "{notes:?}");
}

#[test]
fn marks_come_back_newest_first() {
    let marks = marks_from(&vec![
        file("tt.8.impl", "1000200\n"),
        file("loremind.64.plan", "1000300\n"),
        file("vinge.-.plan", "1000100\n"),
    ]);
    assert_eq!(
        labels(&marks),
        vec![
            ("loremind".into(), Some("64".into()), "plan".into()),
            ("tt".into(), Some("8".into()), "impl".into()),
            ("vinge".into(), None, "plan".into()),
        ]
    );
    assert_eq!(marks[0].start, 1000300);
}

#[test]
fn a_phase_literally_called_last_is_a_mark() {
    let marks = marks_from(&vec![file("proj.-.last", "1000100\n"), file("tt.8.impl", "1000200\n")]);
    assert_eq!(
        labels(&marks),
        vec![("tt".into(), Some("8".into()), "impl".into()), ("proj".into(), None, "last".into())]
    );
}

#[test]
fn an_unparseable_file_is_skipped_without_failing_its_siblings() {
    let marks = marks_from(&vec![
        file("tt.8.impl", "1000200\n"),
        file("broken.1.impl", "not a timestamp\n"),
        file("empty.1.impl", ""),
    ]);
    assert_eq!(labels(&marks), vec![("tt".into(), Some("8".into()), "impl".into())]);
}

#[test]
fn equal_starts_list_by_name() {
    let marks = marks_from(&vec![file("b.1.impl", "5\n"), file("a.2.impl", "5\n"), file("a.1.impl", "5\n")]);
    assert_eq!(
        labels(&marks),
        vec![
            ("a".into(), Some("1".into()), "impl".into()),
            ("a".into(), Some("2".into()), "impl".into()),
            ("b".into(), Some("1".into()), "impl".into()),
        ]
    );
}

#[test]
fn a_mark_holding_a_signed_or_padded_timestamp_still_reads() {
    assert_eq!(start_of("  1000000 \n"), Some(1_000_000));
    assert_eq!(start_of("+12"), Some(12));
    assert_eq!(start_of("not a timestamp"), None);
    assert_eq!(start_of(""), None);
}

#[test]
fn a_phase_reads_back_its_start_beats_and_last_line() {
    let phase = phase_of(1_000_000, "1000600\n1002000\n1001200\n");
    assert_eq!(phase.started, 1_000_000);
    assert_eq!(phase.beats, vec![1_000_600, 1_002_000, 1_001_200]);
}

#[test]
fn a_tagged_beat_after_a_touch_does_not_discard_the_touchs_anchor() {
    let start = 1_000_000;
    let phase = phase_of(start, &format!("{}\n{} hook\n", start + 20 * 60, start + 21 * 60));
    assert_eq!(phase.beats, vec![start + 20 * 60]);
    assert_eq!((phase.beats[0] - phase.started) / 60, 20);
}

#[test]
fn a_phase_whose_only_beats_are_tagged_reads_back_as_beatless() {
    let phase = phase_of(1_000_000, "1000600 hook\n1000900 hook\n");
    assert_eq!(phase.started, 1_000_000);
    assert!(phase.beats.is_empty());
}

#[test]
fn a_line_that_is_not_a_bare_timestamp_is_dropped() {
    let phase = phase_of(1_000_000, "\nnope\n1000600 note\n-5\nx1000700\n");
    assert!(phase.beats.is_empty(), "only a bare line is a beat");
}

#[test]
fn touch_on_an_unbegun_phase_writes_nothing_at_all() {
    let (result, write) = touch_in("/marks", key("tt", "8", "impl"), false, 1_000_000);
    assert_eq!(result, Touch::NoMark);
    assert!(write.is_none());
}

#[test]
fn each_touch_appends_one_bare_beat() {
    let (result, write) = touch_in("/marks", labelled("tt", "8", "review", "style"), true, 1_000_060);
    assert_eq!(result, Touch::Recorded);
    assert_eq!(write, Some(("/marks/beats/tt.8.review.style".to_string(), "1000060\n".to_string())));
}

#[test]
fn an_automatic_beat_is_tagged_so_it_enters_no_judgement() {
    assert_eq!(beat_line(1_000_000, Some("hook")), "1000000 hook\n");
    assert_eq!(beat_line(1_000_000, None), "1000000\n");
}

#[test]
fn touch_beats_every_open_mark_of_that_project_and_nothing_else() {
    let marks = marks_from(&vec![
        file("tt.8.impl", "1000200\n"),
        file("tt.9.plan", "1000100\n"),
        file("other.1.impl", "1000300\n"),
        file("tt-web.2.impl", "1000400\n"),
    ]);
    assert_eq!(owned_mark_keys(&marks, "TT"), vec!["tt.8.impl".to_string(), "tt.9.plan".to_string()]);
    assert_eq!(
        touch_project_in("/marks", &marks, "TT", 1_000_500),
        vec![
            ("/marks/beats/tt.8.impl".to_string(), "1000500 hook\n".to_string()),
            ("/marks/beats/tt.9.plan".to_string(), "1000500 hook\n".to_string()),
        ]
    );
}

#[test]
fn cancel_clears_the_beats_first_then_the_mark_then_the_sentinel() {
    assert_eq!(
        cancel_in("/marks", labelled("tt", "8", "review", "style")),
        vec![
            "/marks/beats/tt.8.review.style".to_string(),
            "/marks/tt.8.review.style".to_string(),
            "/marks/closing/tt.8.review.style".to_string(),
        ]
    );
}

fn leases(files: Vec<(String, String)>) -> Vec<Lease> {
    marks_from(&files).into_iter().map(|m| lease_of(m, "")).collect()
}

#[test]
fn a_row_is_one_padded_label_column_then_since_and_the_house_duration() {
    let now = 1_000_000_000;
    let rows = rows_at(
        &leases(vec![
            file("timetracker-rs.54.plan", &format!("{}\n", now - 15 * 60)),
            file("vinge.12.impl", &format!("{}\n", now - 45 * 60)),
        ]),
        now,
        HOUSE,
    );
    assert_eq!(
        rows,
        vec![
            format!("timetracker-rs/54 plan - since {} (0h 15m) last seen never", clock(now - 15 * 60)),
            format!("vinge/12 impl          - since {} (0h 45m) last seen never", clock(now - 45 * 60)),
        ]
    );
}

#[test]
fn a_row_reads_the_names_back_the_way_the_reader_does() {
    let now = 1_000_000_000;
    let rows = rows_at(
        &leases(vec![
            file("vinge.-.plan", &format!("{}\n", now)),
            file("solo", &format!("{}\n", now)),
            file("proj.-.last", &format!("{}\n", now)),
        ]),
        now,
        HOUSE,
    );
    assert!(rows.iter().any(|row| row.starts_with("vinge plan ")), "{rows:?}");
    assert!(rows.iter().any(|row| row.starts_with("solo ")), "{rows:?}");
    assert!(rows.iter().any(|row| row.starts_with("proj last ")), "{rows:?}");
    assert!(!rows.iter().any(|row| row.contains("vinge/-")), "{rows:?}");
    for row in &rows {
        assert_eq!(row.find(" - since"), Some(18), "{row:?}");
    }
}

#[test]
fn a_rows_duration_is_the_house_format_and_never_negative() {
    let now = 1_000_000_000;
    let rows = rows_at(
        &leases(vec![
            file("long.1.impl", &format!("{}\n", now - 126 * 60)),
            file("short.2.impl", &format!("{}\n", now - 2 * 60)),
            file("future.3.impl", &format!("{}\n", now + 600)),
        ]),
        now,
        Thresholds { gap: 45, unvouched: 10_000 },
    );
    let ages: Vec<&str> =
        rows.iter().map(|row| &row[row.find('(').unwrap()..row.find(')').unwrap() + 1]).collect();
    assert_eq!(ages, vec!["(0h 0m)", "(0h 2m)", "(2h 6m)"], "{rows:?}");
}

#[test]
fn a_stale_beatless_mark_is_flagged_with_the_explicit_minutes_command() {
    let now = 1_000_000_000;
    let rows = rows_at(&leases(vec![file("tt.8.impl", &format!("{}\n", now - 3 * 3600))]), now, HOUSE);
    assert_eq!(rows.len(), 2, "{rows:?}");
    assert!(rows[0].ends_with(" [stale]"), "{rows:?}");
    assert_eq!(rows[1], "  tt agent end tt 8 impl \"<summary>\" <minutes>");
}

#[test]
fn a_labelled_stale_row_closes_the_mark_it_names() {
    let now = 1_000_000_000;
    let rows = rows_at(&leases(vec![file("tt.8.review.style", &format!("{}\n", now - 6 * 3600))]), now, HOUSE);
    assert_eq!(rows.len(), 2, "{rows:?}");
    assert!(rows[0].starts_with("tt/8 review:style "), "{rows:?}");
    assert_eq!(rows[1], "  tt agent end tt 8 review --agent style \"<summary>\" <minutes>");
}

#[test]
fn no_marks_have_no_rows() {
    assert!(rows_at(&Vec::new(), 1_000_000_000, HOUSE).is_empty());
}

#[test]
fn elapsed_is_derived_from_the_start_and_counts_up() {
    let start = 1_000_000;
    let m = mark("tt.1.impl", &format!("{start}\n"));
    assert_eq!(m.elapsed_at(start + 2 * 60), "2m");
    assert_eq!(m.elapsed_at(start + 60 * 60), "1h 0m");
    assert_eq!(m.elapsed_at(start + 126 * 60), "2h 6m");
    assert_eq!(m.elapsed_at(start - 600), "0m");
    assert_eq!(m.age_at(start - 600), "0h 0m");
}

#[test]
fn a_beat_matches_the_mark_by_its_sanitised_key() {
    let marks = marks_from(&vec![file("my_proj.7.impl", "1000100\n"), file("app-web.7.impl", "1000200\n")]);
    assert_eq!(owned_mark_keys(&marks, "my proj"), vec!["my_proj.7.impl".to_string()]);
    assert_eq!(owned_mark_keys(&marks, "app.web"), vec!["app-web.7.impl".to_string()]);
}

#[test]
fn a_dot_related_project_does_not_cross_beat() {
    let marks = marks_from(&vec![file("app.7.impl", "1000100\n"), file("app-web.7.impl", "1000200\n")]);
    assert_eq!(owned_mark_keys(&marks, "app"), vec!["app.7.impl".to_string()], "app beat app.web's mark");
    assert_eq!(owned_mark_keys(&marks, "app.web"), vec!["app-web.7.impl".to_string()], "app.web beat app's mark");
}

#[test]
fn a_dotted_issue_stays_inside_its_own_segment() {
    let k = mark_key(key("app", "1.2", "impl"));
    assert_eq!(k, "app.1-2.impl");
    let marks = marks_from(&vec![file(&k, "1000100\n")]);
    assert_eq!(owned_mark_keys(&marks, "app"), vec!["app.1-2.impl".to_string()]);
    assert!(owned_by(&marks[0], "app"));
}

#[test]
fn the_beats_subdirectory_is_not_a_mark_but_a_beats_phase_is() {
    // The listing holds regular files only, so `beats/` never reaches the reader.
    let marks = marks_from(&vec![file("tt.8.impl", "1000200\n"), file("proj.-.beats", "1000100\n")]);
    assert_eq!(
        labels(&marks),
        vec![("tt".into(), Some("8".into()), "impl".into()), ("proj".into(), None, "beats".into())]
    );
}

#[test]
fn a_missing_or_empty_directory_yields_no_marks() {
    assert!(marks_from(&Vec::new()).is_empty(), "empty directory");
}

#[test]
fn tt_mark_dir_is_honoured() {
    assert_eq!(resolve_mark_dir(Some("/tmp/sandbox".to_string()), Some("cache".to_string())), Some("/tmp/sandbox".to_string()));
    let marks = marks_from(&vec![file("tt.13.impl", "1000200\n")]);
    assert_eq!(labels(&marks), vec![("tt".into(), Some("13".into()), "impl".into())]);
}

#[test]
fn the_default_directory_is_marks_inside_the_app_cache_dir() {
    assert_eq!(resolve_mark_dir(None, Some("cache".to_string())), Some("cache/marks".to_string()));
    assert_eq!(resolve_mark_dir(None, None), None, "no cache dir, no default");
    assert_eq!(resolve_mark_dir(Some(String::new()), Some("cache".to_string())), Some("cache/marks".to_string()));
}

#[test]
fn a_row_reads_project_slash_issue_phase_and_drops_a_missing_issue() {
    let marks = marks_from(&vec![
        file("tt.8.impl", "1000200\n"),
        file("loremind.64.plan", "1000300\n"),
        file("vinge.-.plan", "1000100\n"),
        file("bare", "1000000\n"),
    ]);
    let names: Vec<String> = marks.iter().map(Mark::label).collect();
    assert_eq!(names, vec!["loremind/64 plan", "tt/8 impl", "vinge plan", "bare"]);
    assert_eq!(marks[1].started_at(), clock(marks[1].start));
    assert_eq!(marks[1].started_at().len(), 5, "HH:MM");
}

#[test]
fn a_lossy_name_degrades_to_a_label_instead_of_an_error() {
    let marks = marks_from(&vec![
        file("my.proj.7.impl.v2", "1000400\n"),
        file("my_proj.-.code_review", "1000200\n"),
        file("bare", "1000100\n"),
    ]);
    assert_eq!(
        labels(&marks),
        vec![
            ("my".into(), Some("proj.7.impl".into()), "v2".into()),
            ("my_proj".into(), None, "code_review".into()),
            ("bare".into(), None, String::new()),
        ]
    );
}

#[test]
fn a_stale_beaten_mark_is_flagged_with_the_trim_command() {
    let now = 1_000_000_000;
    let m = marks_from(&vec![file("loremind.-.ops", &format!("{}\n", now - 6 * 3600))]).remove(0);
    let rows = rows_at(&vec![lease_of(m, &format!("{}\n", now - 3 * 3600))], now, HOUSE);
    assert_eq!(rows.len(), 2, "{rows:?}");
    assert!(rows[0].ends_with(&format!("last seen {} [stale]", clock(now - 3 * 3600))), "{rows:?}");
    assert_eq!(rows[1], "  tt agent end loremind - ops \"<summary>\" --trim");
}

#[test]
fn a_stale_hook_beaten_mark_is_flagged_with_the_explicit_minutes_command() {
    let now = 1_000_000_000;
    let m = marks_from(&vec![file("loremind.-.ops", &format!("{}\n", now - 6 * 3600))]).remove(0);
    let rows = rows_at(&vec![lease_of(m, &format!("{} hook\n", now - 3 * 3600))], now, HOUSE);
    assert_eq!(rows.len(), 2, "{rows:?}");
    assert_eq!(rows[1], "  tt agent end loremind - ops \"<summary>\" <minutes>");
}

#[test]
fn two_labels_on_one_phase_are_independent_marks() {
    let style = mark_key(labelled("tt", "8", "review", "style"));
    let code = mark_key(labelled("tt", "8", "review", "code"));
    let bare = mark_key(key("tt", "8", "review"));
    assert_eq!((style.as_str(), code.as_str(), bare.as_str()), ("tt.8.review.style", "tt.8.review.code", "tt.8.review"));
    let (touch, write) = touch_in("/marks", labelled("tt", "8", "review", "style"), true, 1_000_060);
    assert_eq!(touch, Touch::Recorded);
    assert_eq!(write.unwrap().0, beats_path("/marks", &style));
    assert_eq!(phase_of(1_000_000, "1000060\n").beats.len(), 1);
    assert_eq!(phase_of(1_000_000, "").beats.len(), 0);
    assert_eq!(cancel_in("/marks", labelled("tt", "8", "review", "style"))[1], mark_path("/marks", &style));
}

#[test]
fn elapsed_reads_the_clock() {
    let now = Local::now().timestamp();
    let m = mark("tt.1.impl", &format!("{}\n", now - 125));
    let shown = m.elapsed();
    assert!(shown == "2m" || shown == "3m", "{shown}");
    let ahead = mark("tt.1.impl", &format!("{}\n", now + 3600));
    assert_eq!(ahead.elapsed(), "0m");
}

#[test]
fn begin_creates_the_mark_with_its_start_unless_a_close_is_unfinished() {
    let write = begin_in("/marks", key("tt", "8", "impl"), false, 1_000_000).expect("no close stands in the way");
    assert_eq!(write.mark, "/marks/tt.8.impl");
    assert_eq!(write.line, "1000000\n");
    assert_eq!(write.stale_beats, "/marks/beats/tt.8.impl");
    assert!(begin_in("/marks", key("tt", "8", "impl"), true, 1_000_000).is_none());

    assert_eq!(begin_outcome(false, true, "", 1_000_000), Begin::Created(1_000_000));
    assert_eq!(begin_outcome(false, false, "999000\n", 1_000_000), Begin::AlreadyOpen(Some(999_000)));
    assert_eq!(begin_outcome(false, false, "garbage", 1_000_000), Begin::AlreadyOpen(None));
    assert_eq!(begin_outcome(true, false, "", 1_000_000), Begin::Closing);
}
