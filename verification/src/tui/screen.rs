//! The interactive screen's event loop, as a step from one state and one key to
//! the next state and the outside work it asks for. The binary reads the key,
//! performs the action (a store write, a reload, the entry form, the search line)
//! and draws; the decisions are here.

use vstd::prelude::*;
use crate::clock::{MAX_DAY, MIN_DAY};
use crate::tracker::{derefs, TimeEntry, MAX_ENTRIES};
use crate::tui::panes::{clamped, cursor_of, pane_list, shifted, shown, wrapped, PaneSurface};
use crate::tui::types::{Focus, InputMode, Pane, SortOrder, ViewMode};

verus! {

/// A key as the screen reads it.
#[derive(Clone, Copy, Debug, PartialEq, Eq, Structural)]
pub enum Key {
    Char(char),
    Esc,
    Enter,
    Tab,
    BackTab,
    Backspace,
    Up,
    Down,
    Left,
    Right,
    Other,
}

/// The outside work a key asks for, which the binary performs.
#[derive(Clone, Copy, Debug, PartialEq, Eq, Structural)]
pub enum Action {
    Nothing,
    /// Delete the entry under the cursor from the store.
    DeleteSelected,
    /// Stop the running entry in the store.
    StopActive,
    /// Read the store again.
    Reload,
    StartAdding,
    StartEditing,
    FilterBySelectedTags,
    StartSearch,
    ClearSearch,
    ClearTagFilter,
    /// A key for the open entry form, with whether Control was held.
    Form(Key, bool),
    /// A key for the search line, with whether Control was held.
    Search(Key, bool),
}

/// What the event loop keeps between keys.
pub struct Screen {
    pub view_mode: ViewMode,
    /// The day the view is anchored on, as days from 1970-01-01.
    pub selected_date: i32,
    pub sort_order: SortOrder,
    pub input_mode: InputMode,
    pub should_quit: bool,
    /// Whether a search term narrows the list.
    pub searching: bool,
    /// Whether a tag filter narrows the list.
    pub tag_filtering: bool,
    /// The pane surface, which holds the table's cursor too.
    pub panes: PaneSurface,
}

/// The table cursor one row down, wrapping round `listed` rows.
pub open spec fn row_after(selected: Option<usize>, listed: int) -> Option<usize> {
    if listed == 0 {
        selected
    } else {
        match selected {
            Some(i) => Some(((i + 1) % listed) as usize),
            None => Some(0),
        }
    }
}

/// The table cursor one row up, wrapping round `listed` rows.
pub open spec fn row_before(selected: Option<usize>, listed: int) -> Option<usize> {
    if listed == 0 {
        selected
    } else {
        match selected {
            Some(i) => Some(if i == 0 { (listed - 1) as usize } else { (i - 1) as usize }),
            None => Some(0),
        }
    }
}

/// The view's day a period on (`forward`) or back: a day in the day view, a week
/// in the week view, none in the others; never past chrono's calendar.
pub open spec fn period_moved(view: ViewMode, date: int, forward: bool) -> int {
    let step = match view {
        ViewMode::Day => 1int,
        ViewMode::Week => 7int,
        _ => 0int,
    };
    let next = if forward { date + step } else { date - step };
    if MIN_DAY <= next <= MAX_DAY { next } else { date }
}

/// Whether `j` or `k` moves a pane's cursor: a pane has focus and is open.
pub open spec fn pane_focused(p: PaneSurface) -> bool {
    p.focus matches Focus::Pane(pane) && shown(p, pane)
}

/// The focused pane's cursor once `j` (`delta` 1) or `k` (`delta` -1) moves it
/// over the values the pane lists for `scope`: one place on or back, round the
/// ends; it stays where it is while the pane lists nothing.
pub open spec fn pane_cursor_moved(p: PaneSurface, scope: Seq<TimeEntry>, delta: int) -> int {
    match p.focus {
        Focus::Pane(pane) => {
            let len = pane_list(scope, pane).len() as int;
            if len == 0 {
                cursor_of(p, pane) as int
            } else {
                wrapped(clamped(cursor_of(p, pane) as int, len), delta, len)
            }
        },
        Focus::Table => 0,
    }
}

/// What `j` or `k` does to a focused pane: its cursor moves by `delta`, and the
/// focus and the table's cursor stay.
pub open spec fn pane_stepped(s: PaneSurface, t: PaneSurface, scope: Seq<TimeEntry>, delta: int) -> bool {
    &&& t.table_selected == s.table_selected
    &&& t.focus == s.focus
    &&& (s.focus matches Focus::Pane(pane) ==> cursor_of(t, pane) == pane_cursor_moved(s, scope, delta))
}

fn next_row(selected: Option<usize>, listed: usize) -> (r: Option<usize>)
    ensures
        r == row_after(selected, listed as int),
{
    if listed == 0 {
        return selected;
    }
    match selected {
        Some(i) => {
            let j = i % listed;
            let next = if j + 1 == listed { 0 } else { j + 1 };
            proof {
                let n = listed as int;
                let q = i as int / n;
                vstd::arithmetic::div_mod::lemma_fundamental_div_mod(i as int, n);
                if j + 1 == listed {
                    assert(i + 1 == (q + 1) * n) by (nonlinear_arith)
                        requires
                            i == n * q + j,
                            j + 1 == n,
                    ;
                    vstd::arithmetic::div_mod::lemma_fundamental_div_mod_converse(i + 1, n, q + 1, 0);
                } else {
                    assert(i + 1 == q * n + (j + 1)) by (nonlinear_arith)
                        requires
                            i == n * q + j,
                    ;
                    vstd::arithmetic::div_mod::lemma_fundamental_div_mod_converse(i + 1, n, q, j + 1);
                }
            }
            Some(next)
        },
        None => Some(0),
    }
}

fn previous_row(selected: Option<usize>, listed: usize) -> (r: Option<usize>)
    ensures
        r == row_before(selected, listed as int),
{
    if listed == 0 {
        return selected;
    }
    match selected {
        Some(i) => Some(if i == 0 { listed - 1 } else { i - 1 }),
        None => Some(0),
    }
}

fn move_period(view: ViewMode, date: i32, forward: bool) -> (r: i32)
    ensures
        r == period_moved(view, date as int, forward),
{
    let step: i64 = match view {
        ViewMode::Day => 1,
        ViewMode::Week => 7,
        _ => 0,
    };
    let next = if forward { date as i64 + step } else { date as i64 - step };
    if MIN_DAY as i64 <= next && next <= MAX_DAY as i64 { next as i32 } else { date }
}

impl Screen {
    /// One key in the normal mode and the help overlay, the modes this loop
    /// decides itself; the entry form's and the search line's keys are handed on.
    /// `listed` counts the rows the table lists, `scope` holds the view's entries
    /// before any filter (what the panes offer), and `today` is the clock's day.
    pub fn step(&mut self, key: Key, ctrl: bool, listed: usize, scope: &Vec<&TimeEntry>, today: i32) -> (r: Action)
        requires
            scope@.len() <= MAX_ENTRIES,
        ensures
            ({
                let s = *old(self);
                let t = *final(self);
                match s.input_mode {
                    InputMode::Normal => match key {
                        Key::Char('q') | Key::Esc => if s.searching {
                            r == Action::ClearSearch && t == s
                        } else if s.tag_filtering {
                            r == Action::ClearTagFilter && t == s
                        } else {
                            r == Action::Nothing && t.should_quit && t.view_mode == s.view_mode
                        },
                        Key::Char('j') | Key::Down => r == Action::Nothing && if pane_focused(s.panes) {
                            pane_stepped(s.panes, t.panes, derefs(scope@), 1)
                        } else {
                            t.panes.table_selected == row_after(s.panes.table_selected, listed as int)
                        },
                        Key::Char('k') | Key::Up => r == Action::Nothing && if pane_focused(s.panes) {
                            pane_stepped(s.panes, t.panes, derefs(scope@), -1)
                        } else {
                            t.panes.table_selected == row_before(s.panes.table_selected, listed as int)
                        },
                        Key::Char('P') => r == Action::Nothing && shown(t.panes, Pane::Projects) == !shown(s.panes, Pane::Projects),
                        Key::Char('T') => r == Action::Nothing && shown(t.panes, Pane::Tags) == !shown(s.panes, Pane::Tags),
                        Key::Tab => r == Action::Nothing && t.panes.focus == shifted(s.panes, 1),
                        Key::Char('d') => r == Action::DeleteSelected && t == s,
                        Key::Char('s') => r == Action::StopActive && t == s,
                        Key::Char('r') => r == Action::Reload && t == s,
                        Key::Char('a') => r == Action::StartAdding && t == s,
                        Key::Char('e') => r == Action::StartEditing && t == s,
                        Key::Char('f') => r == Action::FilterBySelectedTags && t == s,
                        Key::Char('/') => r == Action::StartSearch && t == s,
                        Key::Char('1') => r == Action::Nothing && t.view_mode == ViewMode::Day && t.panes.table_selected == Some(0usize),
                        Key::Char('2') => r == Action::Nothing && t.view_mode == ViewMode::Week && t.panes.table_selected == Some(0usize),
                        Key::Char('3') => r == Action::Nothing && t.view_mode == ViewMode::All && t.panes.table_selected == Some(0usize),
                        Key::Char('h') | Key::Left => r == Action::Nothing && t.selected_date == period_moved(
                            s.view_mode,
                            s.selected_date as int,
                            false,
                        ) && t.panes.table_selected == Some(0usize),
                        Key::Char('l') | Key::Right => r == Action::Nothing && t.selected_date == period_moved(
                            s.view_mode,
                            s.selected_date as int,
                            true,
                        ) && t.panes.table_selected == Some(0usize),
                        Key::Char('t') => r == Action::Nothing && t.selected_date == today && t.panes.table_selected == Some(0usize),
                        Key::Char('o') => r == Action::Nothing && t.sort_order != s.sort_order && t.panes.table_selected == Some(0usize),
                        Key::Char('?') => r == Action::Nothing && t.input_mode == InputMode::Help,
                        _ => r == Action::Nothing && t == s,
                    },
                    InputMode::AddingEntry | InputMode::EditingEntry => r == Action::Form(key, ctrl) && t == s,
                    InputMode::Searching => r == Action::Search(key, ctrl) && t == s,
                    InputMode::Help => r == Action::Nothing && if key == Key::Esc || key == Key::Char('q') || key == Key::Char('?') {
                        t.input_mode == InputMode::Normal && t.should_quit == s.should_quit
                    } else {
                        t == s
                    },
                    _ => r == Action::Nothing && t == s,
                }
            }),
    {
        match self.input_mode {
            InputMode::Normal => match key {
                Key::Char('q') | Key::Esc => {
                    if self.searching {
                        Action::ClearSearch
                    } else if self.tag_filtering {
                        Action::ClearTagFilter
                    } else {
                        self.should_quit = true;
                        Action::Nothing
                    }
                },
                Key::Char('j') | Key::Down => {
                    if !self.panes.pane_next(scope) {
                        self.panes.table_selected = next_row(self.panes.table_selected, listed);
                    }
                    Action::Nothing
                },
                Key::Char('k') | Key::Up => {
                    if !self.panes.pane_previous(scope) {
                        self.panes.table_selected = previous_row(self.panes.table_selected, listed);
                    }
                    Action::Nothing
                },
                Key::Char('P') => {
                    self.panes.toggle_pane(Pane::Projects);
                    Action::Nothing
                },
                Key::Char('T') => {
                    self.panes.toggle_pane(Pane::Tags);
                    Action::Nothing
                },
                Key::Tab => {
                    self.panes.cycle_focus();
                    Action::Nothing
                },
                Key::Char('d') => Action::DeleteSelected,
                Key::Char('s') => Action::StopActive,
                Key::Char('r') => Action::Reload,
                Key::Char('a') => Action::StartAdding,
                Key::Char('e') => Action::StartEditing,
                Key::Char('f') => Action::FilterBySelectedTags,
                Key::Char('/') => Action::StartSearch,
                Key::Char('1') => {
                    self.view_mode = ViewMode::Day;
                    self.panes.table_selected = Some(0);
                    Action::Nothing
                },
                Key::Char('2') => {
                    self.view_mode = ViewMode::Week;
                    self.panes.table_selected = Some(0);
                    Action::Nothing
                },
                Key::Char('3') => {
                    self.view_mode = ViewMode::All;
                    self.panes.table_selected = Some(0);
                    Action::Nothing
                },
                Key::Char('h') | Key::Left => {
                    self.selected_date = move_period(self.view_mode, self.selected_date, false);
                    self.panes.table_selected = Some(0);
                    Action::Nothing
                },
                Key::Char('l') | Key::Right => {
                    self.selected_date = move_period(self.view_mode, self.selected_date, true);
                    self.panes.table_selected = Some(0);
                    Action::Nothing
                },
                Key::Char('t') => {
                    self.selected_date = today;
                    self.panes.table_selected = Some(0);
                    Action::Nothing
                },
                Key::Char('o') => {
                    self.sort_order = self.sort_order.toggle();
                    self.panes.table_selected = Some(0);
                    Action::Nothing
                },
                Key::Char('?') => {
                    self.input_mode = InputMode::Help;
                    Action::Nothing
                },
                _ => Action::Nothing,
            },
            InputMode::AddingEntry | InputMode::EditingEntry => Action::Form(key, ctrl),
            InputMode::Searching => Action::Search(key, ctrl),
            InputMode::Help => {
                if key == Key::Esc || key == Key::Char('q') || key == Key::Char('?') {
                    self.input_mode = InputMode::Normal;
                }
                Action::Nothing
            },
            _ => Action::Nothing,
        }
    }
}

} // verus!
