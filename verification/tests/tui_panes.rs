use timetracker::tracker::{TimeData, TimeEntry};
use timetracker::tui::panes::{pane_values, PaneSurface};
use timetracker::tui::types::{Focus, Pane, ViewMode};

/// 2026-08-17, a Monday, as days from 1970-01-01.
const WEEK_START: i32 = 20_682;

fn dated(id: u64, description: &str, project: &str, tags: &[&str], day: i32) -> TimeEntry {
    let start = day as i64 * 86_400 + 9 * 3600;
    TimeEntry {
        id,
        description: description.to_string(),
        project: (!project.is_empty()).then(|| project.to_string()),
        tags: tags.iter().map(|t| t.to_string()).collect(),
        start_time: start,
        end_time: Some(start + 3600),
        idle: Vec::new(),
        data: None,
    }
}

/// A store spanning three scopes: two days inside the week plus one entry a week
/// back, so day / week / all each see a different set.
fn seeded() -> TimeData {
    let day_one = WEEK_START;
    let day_two = WEEK_START + 1;
    let last_week = WEEK_START - 7;
    TimeData {
        entries: vec![
            dated(0, "a", "tt", &["impl", "tt/8"], day_one),
            dated(1, "b", "tt", &["plan"], day_one),
            dated(2, "c", "loremind", &["impl", "ops"], day_one),
            dated(3, "d", "vinge", &["ops"], day_two),
            dated(4, "e", "vinge", &["impl"], last_week),
            dated(5, "f", "", &[], day_one),
        ],
        next_id: 6,
        schema_version: 1,
    }
}

/// The entries a view's scope holds, the selected day being the week's Monday.
fn scope(data: &TimeData, view: ViewMode) -> Vec<&TimeEntry> {
    let days: Vec<Option<i32>> = data.entries.iter().map(|e| Some(e.start_time.div_euclid(86_400) as i32)).collect();
    match view {
        ViewMode::Day => data.entries_within(&days, Some(WEEK_START), Some(WEEK_START)),
        ViewMode::Week => data.entries_within(&days, Some(WEEK_START), Some(WEEK_START + 6)),
        _ => data.entries.iter().collect(),
    }
}

/// A pane's rows as `value=count`, in the order they are listed.
fn values(data: &TimeData, view: ViewMode, pane: Pane) -> String {
    pane_values(&scope(data, view), pane)
        .iter()
        .map(|(value, count)| format!("{value}={count}"))
        .collect::<Vec<_>>()
        .join(" ")
}

fn closed() -> PaneSurface {
    PaneSurface {
        show_projects: false,
        show_tags: false,
        focus: Focus::Table,
        project_cursor: 0,
        tag_cursor: 0,
        selected_projects: Vec::new(),
        selected_tags: Vec::new(),
        table_selected: Some(0),
    }
}

/// Each pane offers the distinct values of the current view scope with their
/// match counts, and an entry with no project contributes no Projects row.
#[test]
fn pane_values_follow_the_view_scope() {
    let data = seeded();
    assert_eq!(values(&data, ViewMode::Day, Pane::Projects), "tt=2 loremind=1");
    assert_eq!(values(&data, ViewMode::Day, Pane::Tags), "impl=2 ops=1 plan=1 tt/8=1");

    assert_eq!(values(&data, ViewMode::Week, Pane::Projects), "tt=2 loremind=1 vinge=1");
    assert_eq!(values(&data, ViewMode::Week, Pane::Tags), "impl=2 ops=2 plan=1 tt/8=1");

    assert_eq!(values(&data, ViewMode::All, Pane::Projects), "tt=2 vinge=2 loremind=1");
    assert_eq!(values(&data, ViewMode::All, Pane::Tags), "impl=3 ops=2 plan=1 tt/8=1");
}

/// The panes read the scope before the filter, so a pane never hides the value
/// the user has just filtered on.
#[test]
fn pane_values_ignore_the_active_filter_and_search() {
    let data = seeded();
    let in_scope = scope(&data, ViewMode::Day);
    let before = pane_values(&in_scope, Pane::Tags);

    let tag_filter = vec!["plan".to_string()];
    let filtered: Vec<&TimeEntry> = in_scope
        .iter()
        .copied()
        .filter(|e| e.has_any_tag(&tag_filter) && e.matches_search("nothing matches this"))
        .collect();
    assert!(filtered.is_empty(), "filter did not bite");
    assert_eq!(pane_values(&in_scope, Pane::Tags), before);
    assert_eq!(pane_values(&in_scope, Pane::Projects).len(), 2);
}

#[test]
fn the_surface_has_no_height_until_a_pane_is_opened() {
    let data = seeded();
    let in_scope = scope(&data, ViewMode::Day);
    let mut surface = closed();
    assert!(!surface.show_projects && !surface.show_tags);
    assert_eq!(surface.pane_surface_height(&in_scope), 0);

    surface.toggle_pane(Pane::Projects);
    assert!(surface.pane_surface_height(&in_scope) > 0);
    surface.toggle_pane(Pane::Projects);
    assert_eq!(surface.pane_surface_height(&in_scope), 0);
}

#[test]
fn tab_cycles_focus_through_the_visible_panes_only() {
    let mut surface = closed();

    // No pane open: Tab is a no-op.
    surface.cycle_focus();
    assert_eq!(surface.focus, Focus::Table);

    surface.toggle_pane(Pane::Tags);
    surface.cycle_focus();
    assert_eq!(surface.focus, Focus::Pane(Pane::Tags));
    surface.cycle_focus();
    assert_eq!(surface.focus, Focus::Table);

    surface.toggle_pane(Pane::Projects);
    surface.cycle_focus();
    assert_eq!(surface.focus, Focus::Pane(Pane::Projects));
    surface.cycle_focus();
    assert_eq!(surface.focus, Focus::Pane(Pane::Tags));
    surface.cycle_focus();
    assert_eq!(surface.focus, Focus::Table);
}

#[test]
fn hiding_the_focused_pane_hands_focus_back_to_the_table() {
    let mut surface = closed();
    surface.toggle_pane(Pane::Projects);
    surface.cycle_focus();
    assert_eq!(surface.focus, Focus::Pane(Pane::Projects));

    surface.toggle_pane(Pane::Projects);
    assert_eq!(surface.focus, Focus::Table);
    assert!(surface.focused_pane().is_none());
}

/// `j`/`k` wrap inside the focused pane and leave the table alone; with no pane
/// focused they report "not handled" so the table moves instead.
#[test]
fn pane_cursor_moves_only_while_a_pane_has_focus() {
    let data = seeded();
    let in_scope = scope(&data, ViewMode::Day);
    let mut surface = closed();

    assert!(!surface.pane_next(&in_scope), "no pane focused, yet j was swallowed");
    assert_eq!(surface.pane_cursor(&in_scope, Pane::Tags), 0);

    surface.toggle_pane(Pane::Tags);
    surface.cycle_focus();
    let len = pane_values(&in_scope, Pane::Tags).len();
    assert_eq!(len, 4);
    assert!(surface.pane_next(&in_scope));
    assert_eq!(surface.pane_cursor(&in_scope, Pane::Tags), 1);
    assert!(surface.pane_previous(&in_scope));
    assert_eq!(surface.pane_cursor(&in_scope, Pane::Tags), 0);
    // k at the top wraps to the last value
    assert!(surface.pane_previous(&in_scope));
    assert_eq!(surface.pane_cursor(&in_scope, Pane::Tags), len - 1);
    // ...and j at the bottom wraps back
    assert!(surface.pane_next(&in_scope));
    assert_eq!(surface.pane_cursor(&in_scope, Pane::Tags), 0);
    assert_eq!(surface.table_selected, Some(0), "the table moved too");
}

/// A cursor left past the end by a scope change is clamped, not panicking.
#[test]
fn a_stale_pane_cursor_is_clamped_to_the_new_value_list() {
    let data = seeded();
    let mut surface = closed();
    surface.project_cursor = 2;
    assert_eq!(surface.pane_cursor(&scope(&data, ViewMode::All), Pane::Projects), 2);

    // Day scope has fewer projects than All
    assert_eq!(pane_values(&scope(&data, ViewMode::Day), Pane::Projects).len(), 2);
    assert_eq!(surface.pane_cursor(&scope(&data, ViewMode::Day), Pane::Projects), 1);
}

#[test]
fn enter_toggles_the_value_under_the_cursor_and_sends_the_table_to_the_top() {
    let data = seeded();
    let in_scope = scope(&data, ViewMode::Day);
    let mut surface = closed();
    surface.table_selected = Some(3);
    assert!(!surface.toggle_pane_value(&in_scope), "Enter on the table was swallowed");

    surface.toggle_pane(Pane::Tags);
    surface.cycle_focus();
    surface.pane_next(&in_scope);
    assert!(surface.toggle_pane_value(&in_scope));
    assert_eq!(surface.selected_tags, vec!["ops".to_string()]);
    assert!(surface.pane_value_is_selected(Pane::Tags, "ops"));
    assert!(!surface.pane_value_is_selected(Pane::Projects, "ops"));
    assert_eq!(surface.table_selected, Some(0));
    assert_eq!(surface.pane_scroll_indicator(&in_scope, Pane::Tags, 2), Some("2/4".to_string()));
    assert_eq!(surface.pane_scroll_indicator(&in_scope, Pane::Tags, 4), None);

    assert!(surface.toggle_pane_value(&in_scope));
    assert!(surface.selected_tags.is_empty());
}

#[test]
fn shift_tab_walks_the_ring_backwards() {
    let mut surface = closed();
    surface.toggle_pane(Pane::Projects);
    surface.toggle_pane(Pane::Tags);
    surface.cycle_focus_back();
    assert_eq!(surface.focus, Focus::Pane(Pane::Tags));
    surface.cycle_focus_back();
    assert_eq!(surface.focus, Focus::Pane(Pane::Projects));
    surface.cycle_focus();
    surface.cycle_focus_back();
    assert_eq!(surface.focus, Focus::Pane(Pane::Projects));

    // A focus left on a hidden pane reads as the table.
    surface.toggle_pane(Pane::Tags);
    surface.focus = Focus::Pane(Pane::Tags);
    surface.cycle_focus();
    assert_eq!(surface.focus, Focus::Pane(Pane::Projects));
}
