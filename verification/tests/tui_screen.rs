use timetracker::tracker::TimeEntry;
use timetracker::tui::panes::PaneSurface;
use timetracker::tui::screen::{Action, Key, Screen};
use timetracker::tui::types::{Focus, InputMode, Pane, SortOrder, ViewMode};

fn screen() -> Screen {
    Screen {
        view_mode: ViewMode::Day,
        selected_date: 20_682,
        sort_order: SortOrder::NewestFirst,
        input_mode: InputMode::Normal,
        should_quit: false,
        searching: false,
        tag_filtering: false,
        panes: PaneSurface {
            show_projects: false,
            show_tags: false,
            focus: Focus::Table,
            project_cursor: 0,
            tag_cursor: 0,
            selected_projects: Vec::new(),
            selected_tags: Vec::new(),
            table_selected: Some(0),
        },
    }
}

fn entry(id: u64, tags: &[&str]) -> TimeEntry {
    TimeEntry {
        id,
        description: "x".to_string(),
        project: Some("tt".to_string()),
        tags: tags.iter().map(|t| t.to_string()).collect(),
        start_time: 1_787_040_000,
        end_time: Some(1_787_043_600),
        idle: Vec::new(),
        data: None,
    }
}

#[test]
fn j_and_k_wrap_round_the_table_until_a_pane_takes_focus() {
    let entries = vec![entry(0, &["impl"]), entry(1, &["ops"])];
    let scope: Vec<&TimeEntry> = entries.iter().collect();
    let mut s = screen();
    assert_eq!(s.step(Key::Char('j'), false, 3, &scope, 0), Action::Nothing);
    assert_eq!(s.panes.table_selected, Some(1));
    s.step(Key::Down, false, 3, &scope, 0);
    s.step(Key::Down, false, 3, &scope, 0);
    assert_eq!(s.panes.table_selected, Some(0));
    s.step(Key::Char('k'), false, 3, &scope, 0);
    assert_eq!(s.panes.table_selected, Some(2));

    s.step(Key::Char('T'), false, 3, &scope, 0);
    s.step(Key::Tab, false, 3, &scope, 0);
    assert_eq!(s.panes.focus, Focus::Pane(Pane::Tags));
    s.step(Key::Char('j'), false, 3, &scope, 0);
    assert_eq!(s.panes.table_selected, Some(2), "the table moved under a focused pane");
    assert_eq!(s.panes.tag_cursor, 1);
    s.step(Key::Down, false, 3, &scope, 0);
    assert_eq!(s.panes.tag_cursor, 0, "the pane's cursor wraps past its last value");
    s.step(Key::Up, false, 3, &scope, 0);
    assert_eq!(s.panes.tag_cursor, 1);
    s.step(Key::Char('k'), false, 3, &scope, 0);
    assert_eq!(s.panes.tag_cursor, 0);
    assert_eq!(s.panes.table_selected, Some(2));
}

#[test]
fn q_clears_the_search_then_the_filter_then_quits() {
    let scope: Vec<&TimeEntry> = Vec::new();
    let mut s = screen();
    s.searching = true;
    s.tag_filtering = true;
    assert_eq!(s.step(Key::Char('q'), false, 0, &scope, 0), Action::ClearSearch);
    s.searching = false;
    assert_eq!(s.step(Key::Esc, false, 0, &scope, 0), Action::ClearTagFilter);
    s.tag_filtering = false;
    assert_eq!(s.step(Key::Char('q'), false, 0, &scope, 0), Action::Nothing);
    assert!(s.should_quit);
}

#[test]
fn periods_views_and_the_help_overlay_move_as_the_keys_say() {
    let scope: Vec<&TimeEntry> = Vec::new();
    let mut s = screen();
    s.panes.table_selected = Some(4);
    s.step(Key::Char('l'), false, 9, &scope, 0);
    assert_eq!((s.selected_date, s.panes.table_selected), (20_683, Some(0)));
    s.step(Key::Char('2'), false, 9, &scope, 0);
    s.step(Key::Left, false, 9, &scope, 0);
    assert_eq!((s.view_mode, s.selected_date), (ViewMode::Week, 20_676));
    s.step(Key::Char('3'), false, 9, &scope, 0);
    s.step(Key::Char('h'), false, 9, &scope, 0);
    assert_eq!(s.selected_date, 20_676, "the everything view has no period");
    s.step(Key::Char('t'), false, 9, &scope, 20_700);
    assert_eq!(s.selected_date, 20_700);
    s.step(Key::Char('o'), false, 9, &scope, 0);
    assert_eq!(s.sort_order, SortOrder::OldestFirst);
    s.step(Key::Char('?'), false, 9, &scope, 0);
    assert_eq!(s.input_mode, InputMode::Help);
    s.step(Key::Char('j'), false, 9, &scope, 0);
    assert_eq!(s.input_mode, InputMode::Help);
    s.step(Key::Esc, false, 9, &scope, 0);
    assert_eq!(s.input_mode, InputMode::Normal);
    assert!(!s.should_quit);
}

#[test]
fn store_work_and_the_form_are_handed_to_the_binary() {
    let scope: Vec<&TimeEntry> = Vec::new();
    let mut s = screen();
    assert_eq!(s.step(Key::Char('d'), false, 1, &scope, 0), Action::DeleteSelected);
    assert_eq!(s.step(Key::Char('s'), false, 1, &scope, 0), Action::StopActive);
    assert_eq!(s.step(Key::Char('/'), false, 1, &scope, 0), Action::StartSearch);
    s.input_mode = InputMode::AddingEntry;
    assert_eq!(s.step(Key::Left, true, 1, &scope, 0), Action::Form(Key::Left, true));
    s.input_mode = InputMode::Searching;
    assert_eq!(s.step(Key::Char('x'), false, 1, &scope, 0), Action::Search(Key::Char('x'), false));
}
