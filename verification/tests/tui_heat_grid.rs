use timetracker::tui::cells::Tone;
use timetracker::tui::heat_grid::{heat_lines, HeatBand};
use timetracker::tui::surfaces::{Emphasis, StyledSpan};

fn band(title: Option<&str>) -> HeatBand {
    HeatBand {
        title: title.map(str::to_string),
        row_labels: vec!["Mon".to_string(), "Tue".to_string()],
        column_ticks: vec![Some("00".to_string()), None, Some("06".to_string()), None],
        cells: vec![
            vec![Some(3_600), None, Some(0), Some(1_800)],
            vec![Some(60), Some(60), Some(60), Some(60)],
        ],
        cell_span: 3_600,
        now_column: Some(2),
        now_row: Some(0),
    }
}

fn text(line: &[StyledSpan]) -> String {
    line.iter().map(|s| s.text.as_str()).collect()
}

#[test]
fn each_row_is_drawn_as_tall_as_the_room_allows_under_its_axis() {
    let lines = heat_lines(&vec![band(None)], 5, 13, 5, 0);
    assert_eq!(lines.len(), 5);
    assert_eq!(text(&lines[0]), "     00  06  ");
    assert_eq!(lines[0][0].tone, Tone::Inactive);
    assert_eq!(text(&lines[1]), "             ");
    assert_eq!(text(&lines[2]), format!("Mon{}\u{25cf}{}", " ".repeat(6), " ".repeat(3)));
    assert_eq!(text(&lines[4]), "Tue          ");
    assert_eq!(lines[1][1].tone, Tone::Heat { held: 3_600, span: 3_600, day_sized: false, today: false });
    assert_eq!(lines[1][2].tone, Tone::Plain);
    assert_eq!(lines[2][3].tone, Tone::Heat { held: 0, span: 3_600, day_sized: false, today: true });
    assert_eq!(lines[2][3].emphasis, Emphasis::Bold);
    assert_eq!(lines[3][3].tone, Tone::Heat { held: 60, span: 3_600, day_sized: false, today: false });
}

#[test]
fn a_band_title_opens_it_and_the_grid_is_cut_to_the_box() {
    let lines = heat_lines(&vec![band(Some("2026"))], 5, 13, 3, 0);
    assert_eq!(lines.len(), 3);
    assert_eq!(lines[1][0].text, "2026");
    assert_eq!(lines[2][0].text, "Tue  ");
    let cut = heat_lines(&vec![band(None)], 5, 13, 2, 0);
    assert_eq!(cut.len(), 2);
}

#[test]
fn no_room_or_no_rows_draws_nothing() {
    assert!(heat_lines(&vec![band(None)], 13, 13, 5, 0).is_empty());
    assert!(heat_lines(&vec![band(None)], 5, 13, 5, 2).is_empty());
    assert!(heat_lines(&Vec::new(), 5, 13, 5, 0).is_empty());
}

#[test]
fn scrolling_skips_rows_and_a_day_sized_band_says_so() {
    let mut b = band(None);
    b.cell_span = 86_400;
    let lines = heat_lines(&vec![b], 5, 13, 5, 1);
    assert_eq!(lines.len(), 5);
    assert_eq!(text(&lines[0]), "     00  06  ");
    assert_eq!(lines[1][1].tone, Tone::Heat { held: 60, span: 86_400, day_sized: true, today: false });
    assert_eq!(lines.iter().filter(|l| text(l).starts_with("Tue")).count(), 1);
}
