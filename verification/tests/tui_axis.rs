use timetracker::tui::heat::{axis_line, gutter_label, heat_block_title};

fn labels(ticks: &[(usize, &str)], cells: usize) -> Vec<Option<String>> {
    let mut out: Vec<Option<String>> = vec![None; cells];
    for (cell, text) in ticks {
        out[*cell] = Some(text.to_string());
    }
    out
}

#[test]
fn a_tick_stands_over_the_cell_it_names() {
    let day = labels(&[(0, "00"), (6, "06"), (12, "12"), (18, "18")], 24);
    assert_eq!(axis_line(&day, 1), "00    06    12    18    ");
    assert_eq!(axis_line(&day, 2).len(), 48);
    assert_eq!(&axis_line(&day, 2)[..14], "00          06");
}

#[test]
fn a_dense_axis_abbreviates_instead_of_running_together() {
    let week = labels(&[(0, "Mon"), (1, "Tue"), (2, "Wed")], 3);
    assert_eq!(axis_line(&week, 2), "M T We");
    let packed = labels(&[(0, "ab"), (1, "cd")], 2);
    assert_eq!(axis_line(&packed, 1), "ac");
    assert_eq!(axis_line(&labels(&[], 4), 3), "            ");
}

#[test]
fn a_gutter_label_leaves_a_column_before_the_cells() {
    assert_eq!(gutter_label("2026", 5), "2026 ");
    assert_eq!(gutter_label("September", 4), "Sep ");
    assert_eq!(gutter_label("tt", 6), "tt    ");
    assert_eq!(gutter_label("tt", 0), "");
}

#[test]
fn a_heat_block_counts_its_active_units() {
    assert_eq!(heat_block_title(3 * 3600, 2, "day"), " 3h 0m tracked over 2 active days ");
    assert_eq!(heat_block_title(90 * 60, 1, "hour"), " 1h 30m tracked over 1 active hour ");
    assert_eq!(heat_block_title(0, 0, "week"), " 0h 0m tracked over 0 active weeks ");
}
