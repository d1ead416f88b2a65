use timetracker::tui::theme::{duration_color, DurationShade, DAY_DURATION_HIGH_H, DAY_DURATION_MED_H, ENTRY_DURATION_HIGH_H, ENTRY_DURATION_MED_H};
use timetracker::tui::summary::{project_key, share_of, strip_cells, Grain};
use timetracker::tui::types::{ConfirmAction, Pane, SortOrder, ViewMode};

#[test]
fn every_view_mode_maps_to_its_own_grain() {
    assert_eq!(Grain::for_view(ViewMode::Day), Grain::Hour);
    assert_eq!(Grain::for_view(ViewMode::Week), Grain::Day);
    assert_eq!(Grain::for_view(ViewMode::All), Grain::Week);
    assert_eq!(Grain::for_view(ViewMode::Month), Grain::Day);
    assert_eq!(Grain::for_view(ViewMode::Year), Grain::Month);
}

#[test]
fn strip_cells_fill_the_room_and_then_shed() {
    for buckets in [1usize, 7, 12, 24, 53] {
        for available in 0..200usize {
            let (cell_width, cells) = strip_cells(available, buckets);
            assert!(cell_width >= 1, "a cell is never nothing");
            assert!(cells <= buckets, "more cells drawn than buckets held");
            assert!(cells * cell_width <= available, "the strip overran");
            if available >= buckets {
                assert_eq!(cells, buckets, "every bucket fits and must be drawn");
                assert!(
                    available - cells * cell_width < buckets,
                    "{available} columns over {buckets} buckets left a whole cell unused"
                );
            } else {
                assert_eq!(cell_width, 1, "a shed strip keeps the narrowest cell");
                assert_eq!(cells, available, "a shed strip fills what is left");
            }
        }
    }
    assert_eq!(strip_cells(40, 0), (1, 0), "nothing folded draws nothing");
}

#[test]
fn a_share_rounds_half_up_and_nothing_folded_is_zero() {
    assert_eq!(share_of(1, 3), 33);
    assert_eq!(share_of(1, 2), 50);
    assert_eq!(share_of(1, 200), 1);
    assert_eq!(share_of(-5, 10), 0);
    assert_eq!(share_of(5, 0), 0);
    assert_eq!(share_of(10, 10), 100);
}

#[test]
fn a_blank_project_rows_as_no_project() {
    assert_eq!(project_key(&Some("  tt ".to_string())), "tt");
    assert_eq!(project_key(&Some("   ".to_string())), "(no project)");
    assert_eq!(project_key(&None), "(no project)");
}

#[test]
fn the_screen_words_are_its_own() {
    assert_eq!(ViewMode::Week.title(), "Weekly View");
    assert_eq!(ViewMode::Day.label(), "day");
    assert_eq!(ConfirmAction::Trim.key(), 't');
    assert_eq!(ConfirmAction::Delete.verb(), "Delete");
    assert_eq!(Pane::Tags.title(), " Tags (T) ");
    assert_eq!(SortOrder::NewestFirst.toggle(), SortOrder::OldestFirst);
    assert_eq!(SortOrder::NewestFirst.toggle().toggle(), SortOrder::NewestFirst);
    assert_eq!(SortOrder::OldestFirst.label(), "oldest first");
    assert_eq!(Grain::Week.unit(), "week");
}

#[test]
fn a_duration_is_shaded_by_its_thresholds() {
    assert_eq!(duration_color(5, ENTRY_DURATION_HIGH_H, ENTRY_DURATION_MED_H), DurationShade::High);
    assert_eq!(duration_color(4, ENTRY_DURATION_HIGH_H, ENTRY_DURATION_MED_H), DurationShade::High);
    assert_eq!(duration_color(3, ENTRY_DURATION_HIGH_H, ENTRY_DURATION_MED_H), DurationShade::Med);
    assert_eq!(duration_color(1, ENTRY_DURATION_HIGH_H, ENTRY_DURATION_MED_H), DurationShade::Low);
    assert_eq!(duration_color(7, DAY_DURATION_HIGH_H, DAY_DURATION_MED_H), DurationShade::Med);
    assert_eq!(duration_color(8, DAY_DURATION_HIGH_H, DAY_DURATION_MED_H), DurationShade::High);
}
