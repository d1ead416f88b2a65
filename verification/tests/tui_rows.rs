use timetracker::duration;
use timetracker::tracker::TimeEntry;
use timetracker::tui::rows::{
    compute_rows, members_total_at, push_segment, selectable_index_of, selectable_len, selected_position,
    toggle_group_at_cursor, VisibleRow,
};
use timetracker::tui::types::ViewMode;

/// A Wednesday, 2026-08-19, as days from 1970-01-01.
const TODAY: i32 = 20_684;

/// A half-hour entry starting at `hour` on `day`.
fn at(id: u64, description: &str, tags: &[&str], day: i32, hour: i64) -> TimeEntry {
    let start = day as i64 * 86_400 + hour * 3600;
    TimeEntry {
        id,
        description: description.to_string(),
        project: Some("tt".to_string()),
        tags: tags.iter().map(|t| t.to_string()).collect(),
        start_time: start,
        end_time: Some(start + 30 * 60),
        idle: Vec::new(),
        data: None,
    }
}

fn days_of(entries: &[TimeEntry]) -> Vec<Option<i32>> {
    entries.iter().map(|e| Some(e.start_time.div_euclid(86_400) as i32)).collect()
}

/// The listing's order: newest first.
fn newest_first(entries: &[TimeEntry]) -> Vec<usize> {
    let mut indices: Vec<usize> = (0..entries.len()).collect();
    indices.sort_by(|a, b| entries[*b].start_time.cmp(&entries[*a].start_time));
    indices
}

fn rows_of(entries: &Vec<TimeEntry>, view: ViewMode, expanded: &[&str]) -> Vec<VisibleRow> {
    let expanded: Vec<String> = expanded.iter().map(|t| t.to_string()).collect();
    compute_rows(entries, &newest_first(entries), &days_of(entries), view, &expanded)
}

/// Each row as one line: `day <date>`, `group <tag> <members> <total>`, or
/// `entry <description>`, a member's behind its connector.
fn shape(entries: &Vec<TimeEntry>, rows: &[VisibleRow]) -> Vec<String> {
    rows.iter()
        .map(|row| match row {
            VisibleRow::DayHeader { date } => format!("day {date}"),
            VisibleRow::GroupHeader(header) => format!(
                "group {} {} {}",
                header.tag,
                header.members.len(),
                duration::format(members_total_at(entries, &header.members, 0) as i64)
            ),
            VisibleRow::Entry { index, member } => format!(
                "entry {}{}",
                match member {
                    Some(m) if m.last => "\u{2514} ",
                    Some(_) => "\u{251c} ",
                    None => "",
                },
                entries[*index].description
            ),
        })
        .collect()
}

fn expanded_set(tags: &[&str]) -> Vec<String> {
    tags.iter().map(|t| t.to_string()).collect()
}

#[test]
fn untagged_and_single_member_issues_stay_one_row_each() {
    let entries = vec![
        at(0, "loose", &[], TODAY, 9),
        at(1, "only member", &["impl", "tt/8"], TODAY, 10),
        at(2, "other issue", &["tt/9"], TODAY, 11),
    ];
    let rows = rows_of(&entries, ViewMode::Day, &[]);
    assert_eq!(
        shape(&entries, &rows),
        vec!["entry other issue", "entry only member", "entry loose"]
    );
    assert_eq!(rows.len(), entries.len());
}

#[test]
fn three_entries_on_one_issue_collapse_to_a_header_carrying_their_total() {
    let entries = vec![
        at(0, "round one", &["tt/8"], TODAY, 9),
        at(1, "round two", &["tt/8"], TODAY, 10),
        at(2, "round three", &["tt/8"], TODAY, 11),
        at(3, "loose", &[], TODAY, 12),
    ];
    let rows = rows_of(&entries, ViewMode::Day, &[]);
    assert_eq!(shape(&entries, &rows), vec!["entry loose", "group tt/8 3 1h 30m"]);
}

#[test]
fn an_expanded_issue_shows_its_header_and_then_its_members() {
    let entries = vec![
        at(0, "round one", &["tt/8"], TODAY, 9),
        at(1, "round two", &["tt/8"], TODAY, 10),
        at(2, "round three", &["tt/8"], TODAY, 11),
    ];
    let rows = rows_of(&entries, ViewMode::Day, &["tt/8"]);
    assert_eq!(
        shape(&entries, &rows),
        vec![
            "group tt/8 3 1h 30m",
            "entry \u{251c} round three",
            "entry \u{251c} round two",
            "entry \u{2514} round one",
        ]
    );
}

/// One issue over two days: a header per day, each under its day header.
#[test]
fn week_view_nests_a_group_header_inside_every_day_partition() {
    // 2026-08-17 is a Monday.
    let week_start: i32 = 20_682;
    let day_two = week_start + 1;
    let entries = vec![
        at(0, "mon one", &["tt/8"], week_start, 9),
        at(1, "mon two", &["tt/8"], week_start, 10),
        at(2, "tue one", &["tt/8"], day_two, 9),
        at(3, "tue two", &["tt/8"], day_two, 10),
    ];
    let rows = rows_of(&entries, ViewMode::Week, &[]);
    assert_eq!(
        shape(&entries, &rows),
        vec![
            format!("day {day_two}"),
            "group tt/8 2 1h 0m".to_string(),
            format!("day {week_start}"),
            "group tt/8 2 1h 0m".to_string(),
        ]
    );
}

/// Expanding inserts the members after the header, so the cursor keeps its
/// index by itself.
#[test]
fn toggling_the_group_under_the_cursor_leaves_the_cursor_where_it_is() {
    let entries = vec![
        at(0, "round one", &["tt/8"], TODAY, 9),
        at(1, "round two", &["tt/8"], TODAY, 10),
        at(2, "round three", &["tt/8"], TODAY, 11),
        at(3, "loose", &[], TODAY, 12),
    ];
    let mut expanded: Vec<String> = Vec::new();
    // Newest first puts `loose` above the group.
    let selected = Some(1);
    let rows = rows_of(&entries, ViewMode::Day, &[]);
    assert_eq!(selectable_len(&rows), 2);

    assert_eq!(toggle_group_at_cursor(&entries, &rows, selected, &mut expanded), None);
    let tags: Vec<&str> = expanded.iter().map(String::as_str).collect();
    let rows = rows_of(&entries, ViewMode::Day, &tags);
    assert_eq!(selectable_len(&rows), 5);
    let position = selected_position(&rows, 1).expect("the cursor is on a row");
    assert!(matches!(rows[position], VisibleRow::GroupHeader(_)));

    assert_eq!(toggle_group_at_cursor(&entries, &rows, selected, &mut expanded), None);
    let tags: Vec<&str> = expanded.iter().map(String::as_str).collect();
    let rows = rows_of(&entries, ViewMode::Day, &tags);
    assert_eq!(selectable_len(&rows), 2);
}

/// `g` from inside a group is the way back out of it, so it collapses the group
/// and follows the cursor onto the header that replaces the members.
#[test]
fn toggling_on_a_member_collapses_its_group_and_lands_on_the_header() {
    let entries = vec![
        at(0, "round one", &["tt/8"], TODAY, 9),
        at(1, "round two", &["tt/8"], TODAY, 10),
        at(2, "round three", &["tt/8"], TODAY, 11),
        at(3, "loose", &[], TODAY, 12),
    ];
    let mut expanded = expanded_set(&["tt/8"]);
    let rows = rows_of(&entries, ViewMode::Day, &["tt/8"]);
    // Rows: loose, the header, then the three members newest first.
    let position = selected_position(&rows, 3).expect("the cursor is on a row");
    let VisibleRow::Entry { index, .. } = rows[position] else {
        panic!("the cursor is not on an entry");
    };
    assert_eq!(entries[index].description, "round two");

    let follow = toggle_group_at_cursor(&entries, &rows, Some(3), &mut expanded);

    assert!(expanded.is_empty(), "the group stayed open");
    assert_eq!(follow, Some(1));
    let rows = rows_of(&entries, ViewMode::Day, &[]);
    let selected = selectable_index_of(&entries, &rows, 1);
    assert_eq!(selected, Some(1));
    let position = selected_position(&rows, 1).expect("the cursor is on a row");
    assert!(matches!(rows[position], VisibleRow::GroupHeader(_)));
}

#[test]
fn toggling_does_nothing_on_an_entry_row_or_an_empty_list() {
    let entries = vec![
        at(0, "round one", &["tt/8"], TODAY, 9),
        at(1, "round two", &["tt/8"], TODAY, 10),
        at(2, "loose", &[], TODAY, 12),
    ];
    let mut expanded: Vec<String> = Vec::new();
    let rows = rows_of(&entries, ViewMode::Day, &[]);
    assert_eq!(toggle_group_at_cursor(&entries, &rows, Some(0), &mut expanded), None);
    assert!(expanded.is_empty(), "an entry row toggled");

    let none: Vec<TimeEntry> = Vec::new();
    let rows = rows_of(&none, ViewMode::Day, &[]);
    assert_eq!(toggle_group_at_cursor(&none, &rows, None, &mut expanded), None);
    assert!(expanded.is_empty());
}

#[test]
fn the_rows_are_rebuilt_when_the_expanded_set_moves() {
    let entries = vec![
        at(0, "round one", &["tt/8"], TODAY, 9),
        at(1, "round two", &["tt/8"], TODAY, 10),
    ];
    assert_eq!(shape(&entries, &rows_of(&entries, ViewMode::Day, &[])), vec!["group tt/8 2 1h 0m"]);
    assert_eq!(
        shape(&entries, &rows_of(&entries, ViewMode::Day, &["tt/8"])),
        vec!["group tt/8 2 1h 0m", "entry \u{251c} round two", "entry \u{2514} round one"]
    );
    assert_eq!(shape(&entries, &rows_of(&entries, ViewMode::Day, &[])), vec!["group tt/8 2 1h 0m"]);
}

#[test]
fn a_group_header_spans_its_members_and_stays_open_while_one_runs() {
    let mut entries = vec![
        at(0, "first", &["tt/3"], TODAY, 9),
        at(1, "second", &["tt/3"], TODAY, 14),
    ];
    let rows = rows_of(&entries, ViewMode::Day, &[]);
    let VisibleRow::GroupHeader(header) = &rows[0] else {
        panic!("two entries of one issue did not fold");
    };
    assert_eq!(header.start, TODAY as i64 * 86_400 + 9 * 3600);
    assert_eq!(header.end, Some(TODAY as i64 * 86_400 + 14 * 3600 + 1800));
    assert_eq!(header.members, vec![1, 0]);
    assert!(!header.expanded);

    entries[0].end_time = None;
    let rows = rows_of(&entries, ViewMode::Day, &[]);
    let VisibleRow::GroupHeader(header) = &rows[0] else {
        panic!("two entries of one issue did not fold");
    };
    assert_eq!(header.end, None);
}

#[test]
fn an_index_past_the_entries_is_skipped() {
    let entries = vec![at(0, "only", &[], TODAY, 9)];
    let mut rows: Vec<VisibleRow> = Vec::new();
    push_segment(&entries, &vec![7, 0, 3], &Vec::new(), &mut rows);
    assert_eq!(shape(&entries, &rows), vec!["entry only"]);
}

#[test]
fn an_issue_folds_where_its_first_entry_is_listed() {
    let entries = vec![
        at(0, "a", &["tt/1"], TODAY, 9),
        at(1, "loose", &[], TODAY, 10),
        at(2, "b", &["tt/1"], TODAY, 11),
        at(3, "c", &["tt/2"], TODAY, 12),
        at(4, "d", &["tt/2"], TODAY, 13),
    ];
    let listed = vec![0, 1, 2, 3, 4];
    let rows = compute_rows(&entries, &listed, &days_of(&entries), ViewMode::All, &Vec::new());
    assert_eq!(shape(&entries, &rows), vec!["group tt/1 2 1h 0m", "entry loose", "group tt/2 2 1h 0m"]);
}

#[test]
fn the_cursor_prefers_an_entrys_own_row_over_its_header() {
    let entries = vec![
        at(0, "round one", &["tt/8"], TODAY, 9),
        at(1, "round two", &["tt/8"], TODAY, 10),
    ];
    let expanded = expanded_set(&["tt/8"]);
    let rows = compute_rows(&entries, &vec![1, 0], &days_of(&entries), ViewMode::Day, &expanded);
    // The header, then round two, then round one.
    assert_eq!(selectable_index_of(&entries, &rows, 0), Some(2));
    let rows = compute_rows(&entries, &vec![1, 0], &days_of(&entries), ViewMode::Day, &Vec::new());
    assert_eq!(selectable_index_of(&entries, &rows, 0), Some(0));
    assert_eq!(selectable_index_of(&entries, &rows, 9), None);
}

#[test]
fn day_headers_take_no_cursor_index() {
    let entries = vec![at(0, "mon", &[], 20_682, 9), at(1, "tue", &[], 20_683, 9)];
    let rows = rows_of(&entries, ViewMode::Week, &[]);
    assert_eq!(rows.len(), 4);
    assert_eq!(selectable_len(&rows), 2);
    assert_eq!(selected_position(&rows, 0), Some(1));
    assert_eq!(selected_position(&rows, 1), Some(3));
    assert_eq!(selected_position(&rows, 2), None);
}

#[test]
fn a_group_total_runs_a_live_member_to_the_reading() {
    let mut entries = vec![at(0, "a", &["tt/1"], TODAY, 9), at(1, "b", &["tt/1"], TODAY, 10)];
    entries[1].end_time = None;
    let now = TODAY as i64 * 86_400 + 10 * 3600 + 600;
    assert_eq!(members_total_at(&entries, &vec![0, 1, 5], now), 1800 + 600);
}
