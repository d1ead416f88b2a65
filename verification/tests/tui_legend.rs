use timetracker::tui::legend::{legend, line_text};

fn pane_entries() -> Vec<(String, String, bool)> {
    [("Enter", "filter", false), ("-", "back", false), ("j/k", "move", false)]
        .iter()
        .map(|(key, label, accented)| (key.to_string(), label.to_string(), *accented))
        .collect()
}

fn drawn(width: u16) -> Option<String> {
    let entries = pane_entries();
    legend(&entries, width).map(|kept| line_text(&entries, kept))
}

#[test]
fn the_whole_legend_is_drawn_while_it_fits() {
    let line = drawn(37).expect("the full legend fits 37 cells");
    assert_eq!(line, " Enter: filter \u{b7} -: back \u{b7} j/k: move ");
}

#[test]
fn a_narrow_box_sheds_the_trailing_entries_one_at_a_time() {
    let line = drawn(36).expect("two entries fit 36 cells");
    assert_eq!(line, " Enter: filter \u{b7} -: back ");

    let line = drawn(24).expect("one entry fits 24 cells");
    assert_eq!(line, " Enter: filter ");
}

#[test]
fn a_box_too_narrow_for_the_first_entry_draws_nothing() {
    assert!(drawn(14).is_none());
}

#[test]
fn a_wide_key_is_measured_in_cells() {
    // A CJK key takes two cells a character.
    let entries = vec![("\u{5168}".to_string(), "all".to_string(), true)];
    assert_eq!(legend(&entries, 9), Some(1));
    assert_eq!(legend(&entries, 8), None);
    assert_eq!(line_text(&entries, 1), " \u{5168}: all ");
    assert_eq!(legend(&Vec::new(), 80), None);
}
