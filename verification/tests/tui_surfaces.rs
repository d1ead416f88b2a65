use timetracker::marks::{Lease, Mark, Thresholds};
use timetracker::tui::cells::Tone;
use timetracker::tui::columns::{ColumnPicker, EntryColumn};
use timetracker::tracker::TimeEntry;
use timetracker::tui::panes::PaneSurface;
use timetracker::tui::rows::{table_layout, GroupHeader, Member, VisibleRow};
use timetracker::tui::summary::{summary_total, ProjectTotal};
use timetracker::audit::Unaccounted;
use timetracker::tui::surfaces::{unaccounted_section, marks_surface, summary_collapsed, summary_empty, summary_lines, Emphasis};
use timetracker::tui::types::{Focus, Pane};

const HOUSE: Thresholds = Thresholds { gap: 45, unvouched: 120 };

fn lease(project: &str, issue: Option<&str>, phase: &str, start: i64, last_seen: Option<i64>) -> Lease {
    Lease {
        mark: Mark {
            project: project.to_string(),
            issue: issue.map(|i| i.to_string()),
            phase: phase.to_string(),
            agent: None,
            start,
        },
        last_seen,
        vouched: true,
    }
}

#[test]
fn an_empty_marks_surface_says_nothing_is_in_progress() {
    let lines = marks_surface(&Vec::new(), 1_700_000_000, HOUSE);
    assert_eq!(lines.len(), 1);
    assert_eq!(lines[0].len(), 1);
    assert_eq!(lines[0][0].text, " no phases in progress");
    assert_eq!(lines[0][0].tone, Tone::Inactive);
    assert_eq!(lines[0][0].emphasis, Emphasis::Italic);
}

#[test]
fn each_mark_gets_a_padded_label_its_times_and_a_stale_flag() {
    let now = 1_700_000_000;
    let leases = vec![
        lease("tt", Some("42"), "build", now - 7_560, Some(now - 60)),
        lease("tt", None, "triage", now - 120, None),
    ];
    let lines = marks_surface(&leases, now, HOUSE);
    assert_eq!(lines.len(), 2);
    assert_eq!(lines[0].len(), 5);
    assert_eq!(lines[0][0].text, format!(" {:<18}", "tt/42 build"));
    assert_eq!(lines[0][0].tone, Tone::White);
    assert_eq!(lines[0][1].text.chars().count(), 6);
    assert_eq!(lines[0][2].text, "   (2h 6m)");
    assert_eq!(lines[0][2].tone, Tone::Highlight);
    assert!(lines[0][3].text.starts_with("  last seen "));
    assert_eq!(lines[0][4].text, "");
    assert_eq!(lines[1][0].text, format!(" {:<18}", "tt triage"));
    assert_eq!(lines[1][2].text, "   (2m)");
    assert_eq!(lines[1][3].text, "  last seen never");
    assert_eq!(lines[1][4].text, "");
    let later = now + 130 * 60;
    let stale = marks_surface(&leases, later, HOUSE);
    assert_eq!(stale[0][4].text, " [stale]");
    assert_eq!(stale[0][4].tone, Tone::Accent);
    assert_eq!(stale[1][4].text, " [stale]");
}

#[test]
fn the_label_column_widens_to_the_longest_label() {
    let now = 1_700_000_000;
    let leases = vec![
        lease("a-rather-long-project", Some("1234"), "implementation", now, None),
        lease("tt", None, "x", now, None),
    ];
    let lines = marks_surface(&leases, now, HOUSE);
    let long = "a-rather-long-project/1234 implementation";
    assert_eq!(lines[0][0].text, format!(" {long}"));
    assert_eq!(lines[1][0].text.chars().count(), long.chars().count() + 1);
}

#[test]
fn picker_rows_follow_the_vocabulary_and_show_numbers_or_dashes() {
    let picker = ColumnPicker::open(&vec![EntryColumn::Description, EntryColumn::Date]);
    let rows = picker.rows();
    assert_eq!(rows.len(), 7);
    let labels: Vec<&str> = rows.iter().map(|r| r.label.as_str()).collect();
    assert_eq!(labels, vec!["Date", "Start", "End", "Description", "Project", "Tags", "Duration"]);
    assert_eq!(rows[0].rank, " 2 ");
    assert_eq!(rows[3].rank, " 1 ");
    assert_eq!(rows[1].rank, " - ");
    assert!(rows[0].cursor);
    assert_eq!(rows[0].tone, Tone::Highlight);
    assert_eq!(rows[0].emphasis, Emphasis::Bold);
    assert_eq!(rows[3].tone, Tone::Active);
    assert_eq!(rows[3].emphasis, Emphasis::Normal);
    assert_eq!(rows[1].tone, Tone::Inactive);
    assert!(!rows[1].cursor);
}

#[test]
fn a_shared_number_draws_as_an_error_until_the_tie_is_gone() {
    let mut picker = ColumnPicker::open(&vec![EntryColumn::Description, EntryColumn::Date]);
    picker.set_rank(1);
    assert!(picker.rank_is_shared(0));
    assert!(picker.rank_is_shared(3));
    let rows = picker.rows();
    assert_eq!(rows[0].tone, Tone::Error);
    assert_eq!(rows[3].tone, Tone::Error);
    picker.set_rank(12);
    assert!(!picker.rank_is_shared(0));
    let rows = picker.rows();
    assert_eq!(rows[0].rank, "12 ");
    assert_eq!(rows[3].tone, Tone::Active);
}

#[test]
fn the_picker_footer_names_the_order_or_asks_for_a_number() {
    let picker = ColumnPicker::open(&vec![EntryColumn::Duration, EntryColumn::Date, EntryColumn::Tags]);
    assert_eq!(picker.footer(), "Order: Duration  Date  Tags");
    let empty = ColumnPicker::open(&Vec::new());
    assert_eq!(empty.footer(), "Number at least one column");
}

fn tagged(id: u64, project: &str, tags: &[&str]) -> TimeEntry {
    TimeEntry {
        id,
        description: "x".to_string(),
        project: Some(project.to_string()),
        tags: tags.iter().map(|t| t.to_string()).collect(),
        start_time: 1_787_040_000,
        end_time: Some(1_787_043_600),
        idle: Vec::new(),
        data: None,
    }
}

fn panes(selected_tags: &[&str]) -> PaneSurface {
    PaneSurface {
        show_projects: true,
        show_tags: true,
        focus: Focus::Table,
        project_cursor: 0,
        tag_cursor: 0,
        selected_projects: Vec::new(),
        selected_tags: selected_tags.iter().map(|t| t.to_string()).collect(),
        table_selected: Some(0),
    }
}

#[test]
fn a_pane_line_pushes_the_count_to_the_right_edge_and_dots_a_filtered_value() {
    let entries = vec![tagged(0, "tt", &["impl"]), tagged(1, "tt", &["impl", "ops"])];
    let scope: Vec<&TimeEntry> = entries.iter().collect();
    let lines = panes(&["ops"]).pane_lines(&scope, Pane::Tags, 12);
    assert_eq!(lines.len(), 2);
    let texts: Vec<Vec<&str>> = lines.iter().map(|l| l.iter().map(|s| s.text.as_str()).collect()).collect();
    assert_eq!(texts[0], vec![" impl", "     ", "2"]);
    assert_eq!(texts[1], vec!["\u{2022}ops", "      ", "1"]);
    assert_eq!(lines[0][0].tone, Tone::White);
    assert_eq!(lines[1][0].tone, Tone::Accent);
    assert_eq!(lines[1][0].emphasis, Emphasis::Bold);
    assert_eq!(lines[0][2].tone, Tone::Highlight);
}

#[test]
fn a_narrow_pane_keeps_one_space_before_the_count() {
    let entries = vec![tagged(0, "a-long-project-name", &[])];
    let scope: Vec<&TimeEntry> = entries.iter().collect();
    let lines = panes(&[]).pane_lines(&scope, Pane::Projects, 5);
    assert_eq!(lines[0][0].text, " a-long-project-name");
    assert_eq!(lines[0][1].text, " ");
    assert_eq!(lines[0][2].text, "1");
}

#[test]
fn an_empty_pane_says_nothing_is_in_view() {
    let lines = panes(&[]).pane_lines(&Vec::new(), Pane::Tags, 20);
    assert_eq!(lines.len(), 1);
    assert_eq!(lines[0][0].text, " nothing in view");
    assert_eq!(lines[0][0].emphasis, Emphasis::Italic);
}

fn total_row(project: &str, total: i64, human: i64, entries: usize, share: u16) -> ProjectTotal {
    ProjectTotal { project: project.to_string(), total, human, agent: total - human, entries, share }
}

fn texts(line: &[timetracker::tui::surfaces::StyledSpan]) -> Vec<&str> {
    line.iter().map(|s| s.text.as_str()).collect()
}

#[test]
fn the_summary_table_flushes_its_figures_right_under_fixed_heads() {
    let rows = vec![total_row("tt", 3_600, 1_800, 2, 75), total_row("(no project)", 1_200, 1_200, 1, 25)];
    let sum = summary_total(&rows);
    let lines = summary_lines(&rows, &sum, "project", 12, false);
    assert_eq!(lines.len(), 5);
    assert_eq!(texts(&lines[0]), vec![" project         total count share"]);
    assert_eq!(lines[0][0].emphasis, Emphasis::Italic);
    assert_eq!(texts(&lines[1]), vec![" tt          ", "    1h 0m", "     2", "   75%"]);
    assert_eq!(texts(&lines[2]), vec![" (no project)", "   0h 20m", "     1", "   25%"]);
    assert_eq!(lines[3][0].text, " ".repeat(13));
    assert_eq!(lines[3][1].text, "\u{2500}".repeat(21));
    assert_eq!(lines[3][1].tone, Tone::Border);
    assert_eq!(texts(&lines[4]), vec![" total       ", "   1h 20m", "     3"]);
    assert_eq!(lines[4][0].tone, Tone::Title);
    assert_eq!(lines[4][1].emphasis, Emphasis::Bold);
}

#[test]
fn the_split_adds_human_and_agent_columns() {
    let rows = vec![total_row("tt", 3_600, 1_800, 2, 100)];
    let sum = summary_total(&rows);
    let lines = summary_lines(&rows, &sum, "project", 7, true);
    assert_eq!(texts(&lines[0]), vec![" project    total    human    agent count share"]);
    assert_eq!(texts(&lines[1]), vec![" tt     ", "    1h 0m", "   0h 30m", "   0h 30m", "     2", "  100%"]);
    assert_eq!(lines[1][2].tone, Tone::Active);
    assert_eq!(lines[1][3].tone, Tone::Highlight);
    assert_eq!(lines[2][1].text.chars().count(), 39);
    assert_eq!(texts(&lines[3]), vec![" total  ", "    1h 0m", "   0h 30m", "   0h 30m", "     2"]);
}

#[test]
fn the_collapsed_summary_is_one_total_line() {
    let line = summary_collapsed(5_400, false);
    assert_eq!(texts(&line), vec![" Total: ", "1h 30m"]);
    assert_eq!(line[1].emphasis, Emphasis::Bold);
    let line = summary_collapsed(60, true);
    assert_eq!(texts(&line), vec![" Filtered total: ", "0h 1m"]);
    assert_eq!(summary_empty(true)[0].text, " nothing matches the filter");
    assert_eq!(summary_empty(false)[0].text, " nothing in scope");
}

#[test]
fn stripes_alternate_per_day_and_the_cursor_maps_past_day_headers() {
    let header = GroupHeader { tag: "42".to_string(), members: vec![1, 2], expanded: true, start: 0, end: None };
    let rows = vec![
        VisibleRow::DayHeader { date: 20_000 },
        VisibleRow::Entry { index: 0, member: None },
        VisibleRow::GroupHeader(header),
        VisibleRow::Entry { index: 1, member: Some(Member { tag: "42".to_string(), last: false }) },
        VisibleRow::Entry { index: 2, member: Some(Member { tag: "42".to_string(), last: true }) },
        VisibleRow::Entry { index: 3, member: None },
        VisibleRow::Entry { index: 9, member: None },
        VisibleRow::DayHeader { date: 19_999 },
        VisibleRow::Entry { index: 4, member: None },
    ];
    let (drawn, visual) = table_layout(&rows, 5);
    assert_eq!(
        drawn,
        vec![None, Some(false), None, Some(true), Some(true), Some(true), None, Some(false)]
    );
    assert_eq!(visual, vec![1, 2, 3, 4, 5, 7]);
}

#[test]
fn the_unaccounted_section_heads_its_rows_and_describes_each() {
    let row = Unaccounted {
        project: "tt".to_string(),
        session_id: "abcdefghijk".to_string(),
        start: 1_787_040_000,
        end: 1_787_040_000 + 1_800,
        subagents: 0,
        abandoned: false,
    };
    let lines = unaccounted_section(3, std::slice::from_ref(&row), Some("1/3"));
    assert_eq!(lines.len(), 2);
    assert_eq!(lines[0][0].text, " \u{26a0} unaccounted activity (1/3)");
    assert_eq!(lines[0][0].emphasis, Emphasis::Italic);
    assert_eq!(lines[1][0].text, format!(" {}", row.describe()));
    assert_eq!(lines[1][0].tone, Tone::Highlight);
    let bare = unaccounted_section(1, &[], None);
    assert_eq!(bare[0][0].text, " \u{26a0} unaccounted activity");
    assert!(unaccounted_section(0, &[], None).is_empty());
}
