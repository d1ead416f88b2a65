use timetracker::tracker::TimeEntry;
use timetracker::tui::cells::{entry_cell, entry_cells, member_description, Tone};
use timetracker::tui::columns::EntryColumn;
use timetracker::tui::rows::Member;
use timetracker::tui::theme::DurationShade;

fn entry(project: Option<&str>, end: Option<i64>) -> TimeEntry {
    TimeEntry {
        id: 1,
        description: "wrote it".to_string(),
        project: project.map(str::to_string),
        tags: vec!["impl".to_string(), "tt/8".to_string()],
        start_time: 1_787_040_000,
        end_time: end,
        idle: Vec::new(),
        data: None,
    }
}

#[test]
fn each_column_shows_its_part_of_the_entry() {
    let e = entry(Some("  tt "), Some(1_787_040_000 + 5400));
    let columns = vec![EntryColumn::Project, EntryColumn::Tags, EntryColumn::Duration, EntryColumn::Description];
    let cells = entry_cells(&columns, &e, "wrote it", DurationShade::Low);
    assert_eq!(cells[0].text, "tt");
    assert_eq!(cells[0].tone, Tone::Accent);
    assert_eq!(cells[1].text, "#impl #tt/8");
    assert_eq!(cells[2].text, "1h 30m");
    assert_eq!(cells[2].tone, Tone::Shade(DurationShade::Low));
    assert_eq!(cells[3].text, "wrote it");
    assert_eq!(entry_cell(EntryColumn::Project, &entry(None, None), "x", DurationShade::Low).text, "(no project)");
    assert_eq!(entry_cell(EntryColumn::Date, &e, "x", DurationShade::Low).text.len(), 10);
    assert_eq!(entry_cell(EntryColumn::Start, &e, "x", DurationShade::Low).text.len(), 5);
}

#[test]
fn a_member_hangs_off_the_header_and_the_last_closes_the_tree() {
    let middle = Some(Member { tag: "tt/8".to_string(), last: false });
    let last = Some(Member { tag: "tt/8".to_string(), last: true });
    assert_eq!(member_description("round two", &middle), "\u{251c}\u{2500}\u{2500} round two");
    assert_eq!(member_description("round one", &last), "\u{2514}\u{2500}\u{2500} round one");
    assert_eq!(member_description("loose", &None), "loose");
}
