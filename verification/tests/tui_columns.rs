use timetracker::tui::columns::{resolve, ColumnPicker, EntryColumn};

fn names(list: &[&str]) -> Vec<String> {
    list.iter().map(|s| s.to_string()).collect()
}

fn index_of(column: EntryColumn) -> usize {
    EntryColumn::all_with_project().iter().position(|c| *c == column).unwrap()
}

#[test]
fn an_absent_list_resolves_to_the_default_order() {
    assert_eq!(resolve(None).0, EntryColumn::all());
    assert!(resolve(None).1.is_empty());
}

#[test]
fn an_empty_list_resolves_to_the_default_order() {
    assert_eq!(resolve(Some(&Vec::new())).0, EntryColumn::all());
}

#[test]
fn a_reordered_list_resolves_in_the_given_order() {
    let configured = names(&["duration", "date"]);
    assert_eq!(resolve(Some(&configured)).0, vec![EntryColumn::Duration, EntryColumn::Date]);
}

#[test]
fn a_hidden_column_is_left_out() {
    let configured = names(&["date", "duration"]);
    assert!(!resolve(Some(&configured)).0.contains(&EntryColumn::Tags));
}

#[test]
fn an_all_unknown_list_falls_back_to_the_default_order() {
    let configured = names(&["Datum", "Dauer"]);
    let (columns, warnings) = resolve(Some(&configured));
    assert_eq!(columns, EntryColumn::all());
    assert_eq!(
        warnings.last().unwrap(),
        "Warning: layout.columns has no recognised column; using the default order."
    );
}

#[test]
fn an_unknown_name_warns_and_is_skipped() {
    let configured = names(&["date", "bogus"]);
    let (columns, warnings) = resolve(Some(&configured));
    assert_eq!(columns, vec![EntryColumn::Date]);
    assert_eq!(warnings, vec!["Warning: layout.columns has an unknown column \"bogus\"; ignoring it.".to_string()]);
}

#[test]
fn a_duplicate_name_warns_and_is_kept_once() {
    let configured = names(&["date", " Date "]);
    let (columns, warnings) = resolve(Some(&configured));
    assert_eq!(columns, vec![EntryColumn::Date]);
    assert_eq!(warnings, vec!["Warning: layout.columns repeats \" Date \"; keeping only the first.".to_string()]);
}

#[test]
fn project_is_in_the_vocabulary_but_not_the_default_order() {
    assert!(!EntryColumn::all().contains(&EntryColumn::Project));
    let configured = names(&["project"]);
    assert_eq!(resolve(Some(&configured)).0, vec![EntryColumn::Project]);
}

#[test]
fn names_and_labels_read_back() {
    assert_eq!(EntryColumn::Description.name(), "description");
    assert_eq!(EntryColumn::Description.label(), "Description");
    assert_eq!(EntryColumn::all_with_project().len(), 7);
}

#[test]
fn opening_reproduces_a_non_default_order() {
    let live = vec![EntryColumn::Duration, EntryColumn::Project, EntryColumn::Date];
    let picker = ColumnPicker::open(&live);
    assert_eq!(picker.cursor, 0);
    assert_eq!(picker.order(), live);
}

#[test]
fn clearing_a_rank_drops_the_column_from_the_order() {
    let mut picker = ColumnPicker::open(&EntryColumn::all());
    picker.cursor = 0;
    picker.clear();
    assert!(!picker.order().contains(&EntryColumn::Date));
}

#[test]
fn equal_ranks_come_out_in_canonical_order() {
    let mut picker = ColumnPicker::open(&Vec::new());
    picker.ranks = vec![None; 7];
    picker.ranks[index_of(EntryColumn::Date)] = Some(1);
    picker.ranks[index_of(EntryColumn::Duration)] = Some(1);
    assert_eq!(picker.order(), vec![EntryColumn::Date, EntryColumn::Duration]);
}

#[test]
fn applying_with_everything_cleared_changes_nothing() {
    let mut picker = ColumnPicker::open(&EntryColumn::all());
    picker.ranks = vec![None; 7];
    assert_eq!(picker.apply(), None);
}

#[test]
fn applying_writes_the_new_names_in_rank_order() {
    let mut picker = ColumnPicker::open(&EntryColumn::all());
    picker.ranks = vec![None; 7];
    picker.cursor = index_of(EntryColumn::Project);
    picker.set_rank(1);
    picker.move_by(-4);
    assert_eq!(picker.cursor, index_of(EntryColumn::Date));
    picker.set_rank(2);
    let applied = picker.apply().unwrap();
    assert_eq!(applied, vec![EntryColumn::Project, EntryColumn::Date]);
    assert_eq!(applied.iter().map(|c| c.name()).collect::<Vec<_>>(), vec!["project", "date"]);
}

#[test]
fn the_cursor_wraps_both_ways() {
    let mut picker = ColumnPicker::open(&Vec::new());
    picker.move_by(-1);
    assert_eq!(picker.cursor, 6);
    picker.move_by(15);
    assert_eq!(picker.cursor, 0);
}
