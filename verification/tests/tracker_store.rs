use timetracker::tracker::{infer_project, migrate, parse_tags, IdleInterval, TimeData, TimeEntry};

fn tags(values: &[&str]) -> Vec<String> {
    values.iter().map(|t| t.to_string()).collect()
}

fn entry(id: u64, project: Option<&str>, entry_tags: &[&str]) -> TimeEntry {
    TimeEntry {
        id,
        description: format!("entry {}", id),
        project: project.map(|p| p.to_string()),
        tags: tags(entry_tags),
        start_time: 1_000_000,
        end_time: None,
        idle: Vec::new(),
        data: None,
    }
}

#[test]
fn infers_project_from_sibling_tag_not_first_tag() {
    assert_eq!(
        infer_project(&tags(&["62", "77", "90/#91/#94/#95", "loremind", "loremind/62", "ops"])),
        Some("loremind".to_string())
    );
}

#[test]
fn infers_project_from_sibling_tag_when_summary_token_is_first() {
    assert_eq!(infer_project(&tags(&["63:", "loremind", "loremind/63", "plan"])), Some("loremind".to_string()));
}

#[test]
fn falls_back_to_first_tag_when_no_sibling_pair() {
    assert_eq!(infer_project(&tags(&["tt", "impl"])), Some("tt".to_string()));
}

#[test]
fn infers_no_project_without_tags() {
    assert_eq!(infer_project(&Vec::new()), None);
}

#[test]
fn parse_tags_harvests_hash_words_and_rejoins_the_rest() {
    let (text, found) = parse_tags("  fixed  the #tt/12 bug #impl # and #\tmore ");
    assert_eq!(text, "fixed the bug # and # more");
    assert_eq!(found, tags(&["tt/12", "impl"]));
}

#[test]
fn migrate_fills_missing_projects_and_sets_schema_version() {
    let mut data = TimeData {
        entries: vec![
            entry(1, None, &["tt", "impl"]),
            entry(2, None, &["63:", "loremind", "loremind/63", "plan"]),
            entry(3, Some("explicit"), &["tt", "impl"]),
            entry(4, None, &[]),
        ],
        next_id: 5,
        schema_version: 0,
    };
    migrate(&mut data);
    assert_eq!(data.schema_version, 1);
    assert_eq!(data.entries[0].project.as_deref(), Some("tt"));
    assert_eq!(data.entries[1].project.as_deref(), Some("loremind"));
    assert_eq!(data.entries[2].project.as_deref(), Some("explicit"));
    assert_eq!(data.entries[3].project, None);
}

#[test]
fn migrate_is_idempotent() {
    let mut data = TimeData { entries: vec![entry(1, None, &["tt", "impl"])], next_id: 2, schema_version: 0 };
    migrate(&mut data);
    data.entries[0].tags = tags(&["other", "other/1"]);
    migrate(&mut data);
    assert_eq!(data.entries[0].project.as_deref(), Some("tt"));
    assert_eq!(data.schema_version, 1);
    assert_eq!(data.next_id, 2);
}

const BASE: i64 = 1_787_040_000;

fn logged_with_idle(span_minutes: i64, gaps: &[(i64, i64)]) -> TimeData {
    TimeData {
        entries: vec![TimeEntry {
            id: 7,
            description: "logged span".to_string(),
            project: Some("tt".to_string()),
            tags: tags(&["tt", "tt/36"]),
            start_time: BASE,
            end_time: Some(BASE + span_minutes * 60),
            idle: gaps.iter().map(|(from, to)| IdleInterval::new(BASE + from * 60, BASE + to * 60)).collect(),
            data: None,
        }],
        next_id: 8,
        schema_version: 1,
    }
}

fn spans(data: &TimeData) -> Vec<(i64, i64)> {
    data.entries.iter().map(|e| ((e.start_time - BASE) / 60, (e.end_time.unwrap() - BASE) / 60)).collect()
}

#[test]
fn splitting_on_one_idle_interval_gives_two_pieces_excluding_it() {
    let mut data = logged_with_idle(120, &[(50, 80)]);
    let ids = data.split_at_idle(7);
    assert_eq!(ids, vec![7, 8]);
    assert_eq!(data.next_id, 9);
    assert_eq!(spans(&data), vec![(0, 50), (80, 120)]);
    for entry in &data.entries {
        assert_eq!(entry.description, "logged span");
        assert_eq!(entry.project.as_deref(), Some("tt"));
        assert_eq!(entry.tags, tags(&["tt", "tt/36"]));
        assert!(entry.idle.is_empty(), "a piece kept a hole it excludes");
    }
}

#[test]
fn splitting_on_two_idle_intervals_gives_three_pieces() {
    let mut data = logged_with_idle(180, &[(30, 45), (100, 130)]);
    assert_eq!(data.split_at_idle(7), vec![7, 8, 9]);
    assert_eq!(spans(&data), vec![(0, 30), (45, 100), (130, 180)]);
}

#[test]
fn an_idle_interval_touching_an_endpoint_gives_one_piece_not_an_empty_one() {
    let mut leading = logged_with_idle(90, &[(0, 20)]);
    assert_eq!(leading.split_at_idle(7), vec![7]);
    assert_eq!(spans(&leading), vec![(20, 90)]);
    assert_eq!(leading.next_id, 8, "no fresh id was spent on an empty piece");
    let mut trailing = logged_with_idle(90, &[(70, 90)]);
    assert_eq!(trailing.split_at_idle(7), vec![7]);
    assert_eq!(spans(&trailing), vec![(0, 70)]);
    assert_eq!(trailing.next_id, 8);
}

#[test]
fn idle_covering_the_whole_span_leaves_the_entry_untouched() {
    let mut data = logged_with_idle(90, &[(0, 90)]);
    assert!(data.split_at_idle(7).is_empty());
    assert_eq!(spans(&data), vec![(0, 90)], "the logged entry survived");
    assert_eq!(data.entries[0].idle.len(), 1);
    assert_eq!(data.next_id, 8);
}

#[test]
fn an_entry_with_no_idle_is_not_split() {
    let mut data = logged_with_idle(90, &[]);
    assert!(data.split_at_idle(7).is_empty());
    assert!(data.split_at_idle(999).is_empty(), "an unknown id");
    assert_eq!(spans(&data), vec![(0, 90)]);
}

#[test]
fn the_pieces_sum_to_the_span_minus_the_idle_intervals() {
    let gaps = [(20, 35), (60, 61), (100, 140)];
    let mut data = logged_with_idle(180, &gaps);
    let original = data.entries[0].duration_at(0);
    let idle_total: i128 = data.entries[0].idle.iter().map(|gap| gap.duration()).sum();
    data.split_at_idle(7);
    let after: i128 = data.entries.iter().map(|e| e.duration_at(0)).sum();
    assert_eq!(after, original - idle_total);
}

#[test]
fn overlapping_idle_cuts_one_hole() {
    let mut data = logged_with_idle(120, &[(10, 40), (30, 50), (200, 300)]);
    assert_eq!(data.split_at_idle(7), vec![7, 8]);
    assert_eq!(spans(&data), vec![(0, 10), (50, 120)]);
}

#[test]
fn a_running_entry_has_no_end_to_split_against() {
    let mut data = logged_with_idle(120, &[(50, 80)]);
    data.entries[0].end_time = None;
    assert!(data.split_at_idle(7).is_empty());
}

#[test]
fn the_store_keeps_its_ids_and_its_running_entry() {
    let mut data = TimeData { entries: Vec::new(), next_id: 0, schema_version: 1 };
    let id = data.add_entry("first".to_string(), Some("tt".to_string()), tags(&["a"]), 100, None).id;
    assert_eq!(id, 0);
    assert_eq!(data.next_id, 1);
    assert_eq!(data.active_entry().map(|e| e.id), Some(0));
    assert!(data.stop_active_at(500));
    assert_eq!(data.entries[0].end_time, Some(500));
    assert!(!data.stop_active_at(600), "nothing runs any more");
    assert!(data.update_entry(0, "renamed".to_string(), None, Vec::new(), 100, Some(400)));
    assert_eq!(data.get_entry(0).map(|e| e.description.clone()), Some("renamed".to_string()));
    assert!(!data.update_entry(5, "x".to_string(), None, Vec::new(), 0, None));
    assert!(data.get_entry(5).is_none());
}

#[test]
fn tags_match_case_insensitively_and_projects_trimmed() {
    let e = TimeEntry { project: Some("  Vinge ".to_string()), ..entry(1, None, &["Impl", "tt/8"]) };
    assert!(e.has_tag("impl"));
    assert!(!e.has_tag("plan"));
    assert!(e.has_any_tag(&tags(&["plan", "TT/8"])));
    assert!(e.has_any_project(&tags(&["other", " vinge"])));
    assert!(!e.has_any_project(&tags(&["ving"])));
    let blank = TimeEntry { project: Some("  ".to_string()), ..entry(2, None, &[]) };
    assert!(!blank.has_any_project(&tags(&[""])));
    assert_eq!(e.format_tags(), "#Impl #tt/8");
}

fn hm(epoch: i64) -> String {
    use_local(epoch).format("%H:%M").to_string()
}

fn use_local(epoch: i64) -> chrono::DateTime<chrono::Local> {
    chrono::DateTime::from_timestamp(epoch, 0).unwrap().with_timezone(&chrono::Local)
}

#[test]
fn the_table_columns_read_the_wall_clock() {
    let mut e = entry(7, Some("Vinge"), &["plan", "vinge/6"]);
    e.description = "Wrote The Spec".to_string();
    e.end_time = Some(1_000_000 + 30 * 60);
    assert_eq!(e.format_start_time(), hm(1_000_000));
    assert_eq!(e.format_end_time(), hm(1_000_000 + 30 * 60));
    assert_eq!(e.format_date(), use_local(1_000_000).format("%Y-%m-%d").to_string());
    assert_eq!(e.format_duration(), "0h 30m");
    let hay = e.search_haystack();
    assert_eq!(
        hay,
        format!(
            "7 wrote the spec vinge #plan #vinge/6 {} {} {} 0h 30m",
            e.format_date(),
            hm(1_000_000),
            hm(1_000_000 + 30 * 60)
        )
    );
    assert!(e.matches_search("the spec"));
    assert!(e.matches_search("#vinge/6"));
    assert!(e.matches_search(""));
    assert!(!e.matches_search("The Spec"), "the needle comes lower-cased");
    assert!(!e.matches_search("nothing like it"));
}

#[test]
fn a_running_entry_shows_a_dash_for_its_end() {
    let e = entry(1, None, &[]);
    assert_eq!(e.format_end_time(), "—");
    assert!(e.search_haystack().starts_with("1 entry 1  "), "an absent project leaves an empty column");
}

#[test]
fn an_idle_interval_reads_as_two_clock_times_and_its_length() {
    let gap = IdleInterval::new(1_000_000, 1_000_000 + 30 * 60);
    assert_eq!(gap.format_span(), format!("{} – {} (0h 30m)", hm(1_000_000), hm(1_000_000 + 30 * 60)));
}

#[test]
fn list_shows_the_most_recent_entries_newest_first() {
    let data = TimeData { entries: (0..5).map(|i| entry(i, None, &[])).collect(), next_id: 5, schema_version: 1 };
    assert_eq!(data.recent(3).iter().map(|e| e.id).collect::<Vec<_>>(), vec![4, 3, 2]);
    assert_eq!(data.recent(20).len(), 5);
    assert!(data.recent(0).is_empty());
}
