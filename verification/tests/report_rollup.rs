use timetracker::report::{classify, count_overlaps_at, render, rollup_at, to_json, Rollup, NO_PROJECT};
use timetracker::tracker::TimeEntry;

const CAL: &str = "[cal]";
const WARN: &str = "[!]";
const DAY: i64 = 1_787_040_000;

fn at(hour: i64, minute: i64) -> i64 {
    DAY + hour * 3600 + minute * 60
}

fn entry(id: u64, project: Option<&str>, tags: &[&str], from: (i64, i64), minutes: i64) -> TimeEntry {
    let start = at(from.0, from.1);
    TimeEntry {
        id,
        description: "did the thing".to_string(),
        project: project.map(str::to_string),
        tags: tags.iter().map(|t| t.to_string()).collect(),
        start_time: start,
        end_time: Some(start + minutes * 60),
        idle: Vec::new(),
        data: None,
    }
}

fn keys<T>(pairs: &[(String, T)]) -> Vec<&str> {
    pairs.iter().map(|(k, _)| k.as_str()).collect()
}

fn get<'a, T>(pairs: &'a [(String, T)], key: &str) -> &'a T {
    &pairs.iter().find(|(k, _)| k == key).expect("the key is there").1
}

const NOW: i64 = DAY + 20 * 3600;

#[test]
fn classify_ignores_the_provenance_tag_and_takes_the_first_of_each_axis() {
    let tags: Vec<String> = ["agent", "vinge/6", "vinge/9", "plan", "impl"].iter().map(|t| t.to_string()).collect();
    assert_eq!(classify(&tags), (Some("vinge/6".to_string()), Some("plan".to_string())));
    assert_eq!(classify(&Vec::new()), (None, None));
}

#[test]
fn an_empty_rollup_says_so_and_renders_nothing_else() {
    let rendered = render(&Rollup::empty(), "Today, 2026-08-18", CAL, WARN);
    assert_eq!(rendered, "No entries for Today, 2026-08-18.\n");
}

#[test]
fn an_agent_shaped_entry_rolls_up_under_its_project_not_under_agent() {
    let e = entry(1, Some("vinge"), &["vinge/6", "plan", "agent"], (9, 0), 30);
    let rolled = rollup_at(&[&e], NOW);
    assert_eq!(keys(&rolled.projects), vec!["vinge"]);
    let node = get(&rolled.projects, "vinge");
    assert_eq!(keys(&node.items), vec!["vinge/6"]);
    assert_eq!(*get(&get(&node.items, "vinge/6").phases, "plan"), 30 * 60);
}

#[test]
fn an_entry_with_no_item_tag_is_keyed_on_its_description() {
    let e = entry(1, Some("tt"), &["impl", "agent"], (9, 0), 15);
    let rolled = rollup_at(&[&e], NOW);
    assert_eq!(keys(&get(&rolled.projects, "tt").items), vec!["did the thing"]);
}

#[test]
fn an_entry_with_no_project_field_buckets_under_no_project() {
    let e = entry(1, None, &["plan"], (9, 0), 15);
    let rolled = rollup_at(&[&e], NOW);
    assert_eq!(keys(&rolled.projects), vec![NO_PROJECT]);
}

#[test]
fn phase_seconds_sum_across_entries_under_one_item() {
    let a = entry(1, Some("tt"), &["tt/12", "plan"], (9, 0), 30);
    let b = entry(2, Some("tt"), &["tt/12", "plan"], (10, 0), 15);
    let c = entry(3, Some("tt"), &["tt/12", "impl"], (11, 0), 60);
    let rolled = rollup_at(&[&a, &b, &c], NOW);
    let item = get(&get(&rolled.projects, "tt").items, "tt/12");
    assert_eq!(*get(&item.phases, "plan"), 45 * 60, "two plan passes add up");
    assert_eq!(*get(&item.phases, "impl"), 60 * 60);
    assert_eq!(item.seconds, 105 * 60);
    assert_eq!(rolled.total_seconds, 105 * 60);
}

#[test]
fn an_active_entry_is_marked_and_measured_to_now() {
    let mut e = entry(1, Some("tt"), &["tt/12", "impl"], (9, 0), 30);
    e.start_time = NOW - 20 * 60;
    e.end_time = None;
    let rolled = rollup_at(&[&e], NOW);
    let item = get(&get(&rolled.projects, "tt").items, "tt/12");
    assert!(item.active, "a running entry is flagged");
    assert_eq!(item.seconds, 20 * 60);
}

#[test]
fn overlaps_count_pairs_and_the_early_break_does_not_undercount() {
    let a = entry(1, Some("tt"), &["tt/1"], (9, 0), 60);
    let b = entry(2, Some("tt"), &["tt/2"], (9, 30), 60);
    let c = entry(3, Some("tt"), &["tt/3"], (10, 15), 30);
    assert_eq!(count_overlaps_at(&[&a, &b, &c], NOW), 2, "a×b and b×c, not a×c");
    assert_eq!(count_overlaps_at(&[&c, &a, &b], NOW), 2, "input order does not matter");
    assert_eq!(count_overlaps_at(&[&a], NOW), 0, "one span overlaps nothing");
}

#[test]
fn a_corrupt_backwards_entry_contributes_no_negative_time() {
    let mut e = entry(1, Some("tt"), &["tt/12", "impl"], (9, 0), 30);
    e.end_time = Some(at(8, 0));
    let rolled = rollup_at(&[&e], NOW);
    assert_eq!(rolled.total_seconds, 0, "clamped, not negative");
}

#[test]
fn the_human_form_carries_the_header_the_rows_and_the_phase_breakdown() {
    let a = entry(1, Some("tt"), &["tt/12", "plan", "agent"], (9, 0), 30);
    let b = entry(2, Some("tt"), &["tt/12", "impl", "agent"], (11, 0), 60);
    let rendered = render(&rollup_at(&[&a, &b], NOW), "Today, 2026-08-18", CAL, WARN);
    assert!(rendered.starts_with("[cal] Today, 2026-08-18 — 1h 30m\n\n"), "{rendered:?}");
    assert!(rendered.contains("tt                             1h 30m\n"), "{rendered:?}");
    assert!(rendered.contains("  tt/12                        1h 30m\n"), "{rendered:?}");
    assert!(rendered.contains("      impl 1h 0m · plan 0h 30m\n"), "{rendered:?}");
    assert!(rendered.contains("      did the thing\n"), "{rendered:?}");
    assert!(!rendered.contains("overlapping"), "two disjoint spans warn about nothing");
}

#[test]
fn the_overlap_warning_appears_only_when_spans_collide() {
    let a = entry(1, Some("tt"), &["tt/1", "impl"], (9, 0), 60);
    let b = entry(2, Some("tt"), &["tt/2", "impl"], (9, 30), 60);
    let rendered = render(&rollup_at(&[&a, &b], NOW), "Today, 2026-08-18", CAL, WARN);
    assert!(rendered.contains("[!] 1 overlapping span(s)"), "{rendered:?}");
    assert!(rendered.contains("Log at each commit, not in batches."));
}

#[test]
fn an_active_entry_is_starred_in_the_item_row() {
    let mut e = entry(1, Some("tt"), &["tt/12", "impl"], (9, 0), 30);
    e.end_time = None;
    let rendered = render(&rollup_at(&[&e], NOW), "Today", CAL, WARN);
    assert!(rendered.lines().any(|l| l.starts_with("  tt/12") && l.ends_with(" *")), "{rendered:?}");
}

#[test]
fn a_long_key_and_description_are_truncated_by_characters_not_bytes() {
    let mut e = entry(1, Some("tt"), &[], (9, 0), 30);
    e.description = "å".repeat(80);
    let rendered = render(&rollup_at(&[&e], NOW), "Today", CAL, WARN);
    assert!(rendered.contains(&"å".repeat(26)), "{rendered:?}");
    assert!(!rendered.contains(&"å".repeat(27)), "cut at 26 characters");
}

#[test]
fn projects_rank_by_time_and_then_by_name() {
    let a = entry(1, Some("beta"), &["beta/1"], (9, 0), 30);
    let b = entry(2, Some("alpha"), &["alpha/1"], (10, 0), 30);
    let c = entry(3, Some("gamma"), &["gamma/1"], (11, 0), 60);
    let rendered = render(&rollup_at(&[&a, &b, &c], NOW), "Today", CAL, WARN);
    let g = rendered.find("gamma ").unwrap();
    let al = rendered.find("alpha ").unwrap();
    let be = rendered.find("beta ").unwrap();
    assert!(g < al && al < be, "{rendered:?}");
}

#[test]
fn the_json_payload_keeps_the_scripts_keys_with_integer_seconds() {
    let agent_shaped = entry(1, Some("vinge"), &["vinge/6", "plan", "agent"], (9, 0), 30);
    let fieldless = entry(2, None, &["plan"], (9, 15), 15);
    let rolled = rollup_at(&[&agent_shaped, &fieldless], NOW);
    let json = to_json(&rolled, "Today, 2026-08-18");
    assert_eq!(json.total_seconds, 45 * 60);
    assert_eq!(json.overlaps, 1, "the two spans collide");
    assert_eq!(json.label, "Today, 2026-08-18");
    assert_eq!(keys(&json.projects), vec![NO_PROJECT, "vinge"]);
    let item = get(&get(&json.projects, "vinge").items, "vinge/6");
    assert_eq!(item.seconds, 30 * 60);
    assert_eq!(*get(&item.phases, "plan"), 30 * 60);
    assert_eq!(item.description, "did the thing");
    assert!(!item.active);
}
