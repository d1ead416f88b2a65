//! The entries table's cells as text with a tone: what each configured column
//! shows for an entry, and the tree connector a group's member hangs from. The
//! binary turns the tones into colours and draws the cells.

use vstd::prelude::*;
use crate::marks::{join, opt_string};
use crate::text::{chars_of, push_all, push_str, string_of, trim, trim_chars};
use crate::clock::clock_text;
use crate::tracker::{date_of, length_at, pinned, running_mark, TimeEntry};
use crate::tui::columns::EntryColumn;
use crate::tui::rows::Member;
use crate::tui::theme::DurationShade;

verus! {

/// How a cell is tinted.
#[derive(Clone, Copy, Debug, PartialEq, Eq, Structural)]
pub enum Tone {
    Plain,
    Title,
    Accent,
    Inactive,
    Highlight,
    White,
    Active,
    Error,
    Border,
    Shade(DurationShade),
    /// A heat cell: the seconds it holds and the seconds it spans, whether it
    /// spans a day or more, and whether today's marker is drawn on it.
    Heat { held: i64, span: i64, day_sized: bool, today: bool },
}

/// One cell: its text and its tone.
pub struct StyledCell {
    pub text: String,
    pub tone: Tone,
}

/// The project column's text: the trimmed project, or `(no project)`.
pub open spec fn project_cell(project: Option<Seq<char>>) -> Seq<char> {
    match project {
        Some(p) => trim(p),
        None => "(no project)"@,
    }
}

/// What one configured column shows for an entry; `description` already carries
/// the member connector, if any, and `shade` tints the duration.
pub fn entry_cell(column: EntryColumn, entry: &TimeEntry, description: &str, shade: DurationShade) -> (r: StyledCell)
    ensures
        match column {
            EntryColumn::Date => r.tone == Tone::Title && date_of(entry.start_time as int, r.text@),
            EntryColumn::Start => r.tone == Tone::Accent && clock_text(entry.start_time as int, r.text@),
            EntryColumn::End => r.tone == Tone::Inactive && (entry.end_time is None ==> r.text@ == running_mark())
                && (entry.end_time matches Some(e) ==> clock_text(e as int, r.text@)),
            EntryColumn::Description => r.tone == Tone::Plain && r.text@ == description@,
            EntryColumn::Project => r.tone == Tone::Accent && r.text@ == project_cell(opt_string(entry.project)),
            EntryColumn::Tags => r.tone == Tone::Highlight && r.text@ == join(
                entry.tags@.map_values(|t: String| seq!['#'] + t@),
                ' ',
            ),
            EntryColumn::Duration => r.tone == Tone::Shade(shade) && exists|now: i64|
                r.text@ == crate::duration::hm_text(pinned(#[trigger] length_at(*entry, now as int))),
        },
{
    match column {
        EntryColumn::Date => StyledCell { text: entry.format_date(), tone: Tone::Title },
        EntryColumn::Start => StyledCell { text: entry.format_start_time(), tone: Tone::Accent },
        EntryColumn::End => StyledCell { text: entry.format_end_time(), tone: Tone::Inactive },
        EntryColumn::Description => StyledCell { text: string_of(&chars_of(description)), tone: Tone::Plain },
        EntryColumn::Project => {
            let text = match &entry.project {
                Some(p) => string_of(&trim_chars(&chars_of(p.as_str()))),
                None => String::from_str("(no project)"),
            };
            StyledCell { text, tone: Tone::Accent }
        },
        EntryColumn::Tags => StyledCell { text: entry.format_tags(), tone: Tone::Highlight },
        EntryColumn::Duration => StyledCell { text: entry.format_duration(), tone: Tone::Shade(shade) },
    }
}

/// The description a row shows: a group's member hangs off the header's tree,
/// the last one closing it.
pub open spec fn row_description(description: Seq<char>, member: Option<(Seq<char>, bool)>) -> Seq<char> {
    match member {
        Some((_, true)) => "\u{2514}\u{2500}\u{2500} "@ + description,
        Some((_, false)) => "\u{251c}\u{2500}\u{2500} "@ + description,
        None => description,
    }
}

/// The description a row shows for an entry, with a member's tree connector.
pub fn member_description(description: &str, member: &Option<Member>) -> (r: String)
    ensures
        r@ == row_description(description@, match member {
            Some(m) => Some((m.tag@, m.last)),
            None => None,
        }),
{
    let mut out: Vec<char> = Vec::new();
    match member {
        Some(m) => if m.last {
            push_str(&mut out, "\u{2514}\u{2500}\u{2500} ");
        } else {
            push_str(&mut out, "\u{251c}\u{2500}\u{2500} ");
        },
        None => {},
    }
    let d = chars_of(description);
    push_all(&mut out, &d);
    string_of(&out)
}

/// An entry's cells, one per configured column, in order.
pub fn entry_cells(columns: &Vec<EntryColumn>, entry: &TimeEntry, description: &str, shade: DurationShade) -> (r: Vec<StyledCell>)
    ensures
        r@.len() == columns@.len(),
        forall|i: int| 0 <= i < columns@.len() ==> (#[trigger] r@[i]).tone == match columns@[i] {
            EntryColumn::Date => Tone::Title,
            EntryColumn::Start | EntryColumn::Project => Tone::Accent,
            EntryColumn::End => Tone::Inactive,
            EntryColumn::Description => Tone::Plain,
            EntryColumn::Tags => Tone::Highlight,
            EntryColumn::Duration => Tone::Shade(shade),
        },
        forall|i: int| 0 <= i < columns@.len() && columns@[i] == EntryColumn::Description ==> (#[trigger] r@[i]).text@ == description@,
        forall|i: int| 0 <= i < columns@.len() && columns@[i] == EntryColumn::Project ==> (#[trigger] r@[i]).text@
            == project_cell(opt_string(entry.project)),
{
    let mut out: Vec<StyledCell> = Vec::new();
    let mut i: usize = 0;
    while i < columns.len()
        invariant
            i <= columns@.len(),
            out@.len() == i,
            forall|k: int| 0 <= k < i ==> (#[trigger] out@[k]).tone == match columns@[k] {
                EntryColumn::Date => Tone::Title,
                EntryColumn::Start | EntryColumn::Project => Tone::Accent,
                EntryColumn::End => Tone::Inactive,
                EntryColumn::Description => Tone::Plain,
                EntryColumn::Tags => Tone::Highlight,
                EntryColumn::Duration => Tone::Shade(shade),
            },
            forall|k: int| 0 <= k < i && columns@[k] == EntryColumn::Description ==> (#[trigger] out@[k]).text@ == description@,
            forall|k: int| 0 <= k < i && columns@[k] == EntryColumn::Project ==> (#[trigger] out@[k]).text@
                == project_cell(opt_string(entry.project)),
        decreases columns@.len() - i,
    {
        out.push(entry_cell(columns[i], entry, description, shade));
        i += 1;
    }
    out
}

} // verus!
