//! Surfaces as toned text: the marks surface, one line per open mark; a Projects
//! or Tags pane, one line per value; the summary table; and the rows and footer
//! of the `c` column picker. The binary turns tones and emphasis into styles, draws the boxes
//! around them and the cursor glyph.

use vstd::prelude::*;
use crate::clock::clock_text;
use crate::marks::{
    clocks_fit, elapsed_text, epoch_ok, expiry, label_of, label_width, lease_ok, lemma_label_width,
    push_spaces, spaces, thresholds_ok, Lease, Thresholds, LABEL_WIDTH,
};
use crate::report::{join_str, pad_left};
use crate::text::{chars_of, decimal, push_all, push_str, push_u64, string_of};
use crate::tui::cells::Tone;
use crate::duration::hm_text;
use crate::audit::{describe_text, Unaccounted};
use crate::marks::opt_str;
use crate::tracker::{derefs, TimeEntry, MAX_ENTRIES};
use crate::tui::summary::ProjectTotal;
use crate::tui::columns::{picked, vocabulary, ColumnPicker, EntryColumn};
use crate::tui::panes::{pane_list, pane_values, selection_of, value_views, PaneSurface};
use crate::tui::types::Pane;

verus! {

/// How a span is set besides its tone.
#[derive(Clone, Copy, Debug, PartialEq, Eq, Structural)]
pub enum Emphasis {
    Normal,
    Bold,
    Italic,
}

/// A run of text with one style.
pub struct StyledSpan {
    pub text: String,
    pub tone: Tone,
    pub emphasis: Emphasis,
}

pub open spec fn span_view(s: StyledSpan) -> (Seq<char>, Tone, Emphasis) {
    (s.text@, s.tone, s.emphasis)
}

pub open spec fn line_view(line: Seq<StyledSpan>) -> Seq<(Seq<char>, Tone, Emphasis)> {
    line.map_values(|s: StyledSpan| span_view(s))
}

pub open spec fn lines_view(lines: Seq<Vec<StyledSpan>>) -> Seq<Seq<(Seq<char>, Tone, Emphasis)>> {
    lines.map_values(|l: Vec<StyledSpan>| line_view(l@))
}

/// One mark's line given its start and last-beat clock readings: the label padded
/// to the column, the start, how long it has been open, when it was last seen, and
/// `[stale]` once its lease has run out.
pub open spec fn mark_line(lease: Lease, width: int, now: int, t: Thresholds, since: Seq<char>, seen: Seq<char>) -> Seq<
    (Seq<char>, Tone, Emphasis),
> {
    let label = label_of(lease.mark);
    seq![
        (seq![' '] + label + spaces(width - label.len()), Tone::White, Emphasis::Normal),
        (seq![' '] + since, Tone::Inactive, Emphasis::Normal),
        ("   ("@ + elapsed_text(lease.mark.start as int, now) + seq![')'], Tone::Highlight, Emphasis::Normal),
        ("  last seen "@ + seen, Tone::Inactive, Emphasis::Normal),
        (if now >= expiry(lease, t) {
            " [stale]"@
        } else {
            seq![]
        }, Tone::Accent, Emphasis::Normal),
    ]
}

/// The surface's lines: a line per mark in the order given, or the one italic
/// line that says nothing is in progress.
pub open spec fn marks_lines(leases: Seq<Lease>, now: int, t: Thresholds, clocks: Seq<(Seq<char>, Seq<char>)>) -> Seq<
    Seq<(Seq<char>, Tone, Emphasis)>,
> {
    if leases.len() == 0 {
        seq![seq![(" no phases in progress"@, Tone::Inactive, Emphasis::Italic)]]
    } else {
        Seq::new(
            leases.len(),
            |i: int| mark_line(leases[i], label_width(leases), now, t, clocks[i].0, clocks[i].1),
        )
    }
}

fn span(text: Vec<char>, tone: Tone, emphasis: Emphasis) -> (r: StyledSpan)
    ensures
        span_view(r) == (text@, tone, emphasis),
{
    StyledSpan { text: string_of(&text), tone, emphasis }
}

/// The marks surface at `now`: one label column for the whole box so the times
/// read as columns. The clock readings shown depend on the machine's time zone;
/// the contract says which line each mark gets and what stands around them.
pub fn marks_surface(leases: &Vec<Lease>, now: i64, thresholds: Thresholds) -> (r: Vec<Vec<StyledSpan>>)
    requires
        thresholds_ok(thresholds),
        epoch_ok(now as int),
        forall|i: int| 0 <= i < leases@.len() ==> lease_ok(#[trigger] leases@[i]),
    ensures
        exists|clocks: Seq<(Seq<char>, Seq<char>)>|
            clocks_fit(leases@, clocks) && lines_view(r@) == #[trigger] marks_lines(
                leases@,
                now as int,
                thresholds,
                clocks,
            ),
{
    if leases.len() == 0 {
        let mut text: Vec<char> = Vec::new();
        push_str(&mut text, " no phases in progress");
        let mut line: Vec<StyledSpan> = Vec::new();
        line.push(span(text, Tone::Inactive, Emphasis::Italic));
        let mut out: Vec<Vec<StyledSpan>> = Vec::new();
        out.push(line);
        let ghost clocks: Seq<(Seq<char>, Seq<char>)> = seq![];
        assert(line_view(out@[0]@) =~= seq![(" no phases in progress"@, Tone::Inactive, Emphasis::Italic)]);
        assert(lines_view(out@) =~= marks_lines(leases@, now as int, thresholds, clocks));
        assert(clocks_fit(leases@, clocks));
        return out;
    }
    let mut width: usize = LABEL_WIDTH;
    let mut labels: Vec<Vec<char>> = Vec::new();
    let mut i: usize = 0;
    while i < leases.len()
        invariant
            i <= leases.len(),
            width == label_width(leases@.subrange(0, i as int)),
            labels@.len() == i,
            forall|j: int| 0 <= j < i ==> (#[trigger] labels@[j])@ == label_of(leases@[j].mark),
        decreases leases.len() - i,
    {
        assert(leases@.subrange(0, i + 1).drop_last() =~= leases@.subrange(0, i as int));
        let label = chars_of(leases[i].mark.label().as_str());
        if label.len() > width {
            width = label.len();
        }
        labels.push(label);
        i += 1;
    }
    assert(leases@.subrange(0, leases@.len() as int) =~= leases@);
    let mut out: Vec<Vec<StyledSpan>> = Vec::new();
    let ghost mut clocks: Seq<(Seq<char>, Seq<char>)> = seq![];
    let mut i: usize = 0;
    while i < leases.len()
        invariant
            i <= leases.len(),
            leases@.len() > 0,
            thresholds_ok(thresholds),
            epoch_ok(now as int),
            forall|j: int| 0 <= j < leases@.len() ==> lease_ok(#[trigger] leases@[j]),
            width == label_width(leases@),
            labels@.len() == leases@.len(),
            forall|j: int| 0 <= j < leases@.len() ==> (#[trigger] labels@[j])@ == label_of(leases@[j].mark),
            clocks.len() == i,
            out@.len() == i,
            clocks_fit(leases@.subrange(0, i as int), clocks),
            forall|j: int|
                0 <= j < i ==> line_view((#[trigger] out@[j])@) == mark_line(
                    leases@[j],
                    width as int,
                    now as int,
                    thresholds,
                    clocks[j].0,
                    clocks[j].1,
                ),
        decreases leases.len() - i,
    {
        let lease = &leases[i];
        let label = &labels[i];
        proof {
            lemma_label_width(leases@, i as int);
        }
        let since = lease.mark.started_at();
        let seen = lease.last_seen_at();
        let elapsed = lease.mark.elapsed_at(now);
        let stale = lease.is_expired_at(now, thresholds);
        let mut first: Vec<char> = Vec::new();
        first.push(' ');
        push_all(&mut first, label);
        push_spaces(&mut first, width - label.len());
        let mut second: Vec<char> = Vec::new();
        second.push(' ');
        push_str(&mut second, since.as_str());
        let mut third: Vec<char> = Vec::new();
        push_str(&mut third, "   (");
        push_str(&mut third, elapsed.as_str());
        third.push(')');
        let mut fourth: Vec<char> = Vec::new();
        push_str(&mut fourth, "  last seen ");
        push_str(&mut fourth, seen.as_str());
        let mut fifth: Vec<char> = Vec::new();
        if stale {
            push_str(&mut fifth, " [stale]");
        }
        let mut line: Vec<StyledSpan> = Vec::new();
        line.push(span(first, Tone::White, Emphasis::Normal));
        line.push(span(second, Tone::Inactive, Emphasis::Normal));
        line.push(span(third, Tone::Highlight, Emphasis::Normal));
        line.push(span(fourth, Tone::Inactive, Emphasis::Normal));
        line.push(span(fifth, Tone::Accent, Emphasis::Normal));
        let ghost old_clocks = clocks;
        proof {
            clocks = clocks.push((since@, seen@));
            assert(clocks_fit(leases@.subrange(0, i + 1), clocks)) by {
                assert forall|j: int| 0 <= j < i + 1 implies clock_text(leases@.subrange(0, i + 1)[j].mark.start as int, (#[trigger] clocks[j]).0) && (match leases@.subrange(0, i + 1)[j].last_seen {
                    Some(seen) => clock_text(seen as int, clocks[j].1),
                    None => clocks[j].1 == "never"@,
                }) by {
                    if j < i {
                        assert(leases@.subrange(0, i + 1)[j] == leases@.subrange(0, i as int)[j]);
                        assert(clocks[j] == old_clocks[j]);
                    }
                }
            }
            if !stale {
                assert(fifth@ =~= seq![]);
            }
            let m = mark_line(leases@[i as int], width as int, now as int, thresholds, since@, seen@);
            assert(first@ =~= m[0].0);
            assert(second@ =~= m[1].0);
            assert(third@ =~= m[2].0);
            assert(fourth@ =~= m[3].0);
            assert(fifth@ =~= m[4].0);
            assert(line_view(line@) =~= mark_line(
                leases@[i as int],
                width as int,
                now as int,
                thresholds,
                since@,
                seen@,
            ));
        }
        out.push(line);
        i += 1;
    }
    assert(leases@.subrange(0, leases@.len() as int) =~= leases@);
    assert(lines_view(out@) =~= marks_lines(leases@, now as int, thresholds, clocks));
    out
}

/// The marks surface's unaccounted section: a warning head, with the count the
/// box shows when one is given, then each row shown as `describe` writes it,
/// each with the wall-clock time of its start. Nothing when there is no row at all.
pub open spec fn unaccounted_lines(
    total: int,
    shown: Seq<Unaccounted>,
    count: Option<Seq<char>>,
    clocks: Seq<Seq<char>>,
) -> Seq<Seq<(Seq<char>, Tone, Emphasis)>> {
    if total == 0 {
        seq![]
    } else {
        seq![seq![(
            seq![' ', '\u{26a0}'] + " unaccounted activity"@ + match count {
                Some(c) => " ("@ + c + seq![')'],
                None => seq![],
            },
            Tone::Inactive,
            Emphasis::Italic,
        )]] + Seq::new(
            shown.len(),
            |i: int| seq![(seq![' '] + describe_text(shown[i], clocks[i]), Tone::Highlight, Emphasis::Normal)],
        )
    }
}

/// The unaccounted section under the open marks, for `total` rows in all, of
/// which `shown` fit, and the count for its head.
pub fn unaccounted_section(total: usize, shown: &[Unaccounted], count: Option<&str>) -> (r: Vec<Vec<StyledSpan>>)
    requires
        shown@.len() <= total,
        forall|i: int| 0 <= i < shown@.len() ==> epoch_ok((#[trigger] shown@[i]).start as int) && epoch_ok(shown@[i].end as int),
    ensures
        exists|clocks: Seq<Seq<char>>|
            clocks.len() == shown@.len() && (forall|i: int| 0 <= i < shown@.len() ==> clock_text(shown@[i].start as int, #[trigger] clocks[i]))
                && lines_view(r@) == #[trigger] unaccounted_lines(total as int, shown@, opt_str(count), clocks),
{
    let mut out: Vec<Vec<StyledSpan>> = Vec::new();
    let ghost mut clocks: Seq<Seq<char>> = seq![];
    if total == 0 {
        assert(lines_view(out@) =~= unaccounted_lines(total as int, shown@, opt_str(count), clocks));
        return out;
    }
    let mut head: Vec<char> = Vec::new();
    head.push(' ');
    head.push('\u{26a0}');
    push_str(&mut head, " unaccounted activity");
    match count {
        Some(c) => {
            push_str(&mut head, " (");
            push_str(&mut head, c);
            head.push(')');
        },
        None => {},
    }
    assert(head@ =~= seq![' ', '\u{26a0}'] + " unaccounted activity"@ + match opt_str(count) {
        Some(c) => " ("@ + c + seq![')'],
        None => seq![],
    });
    let mut first: Vec<StyledSpan> = Vec::new();
    first.push(span(head, Tone::Inactive, Emphasis::Italic));
    out.push(first);
    let ghost head_line = unaccounted_lines(total as int, shown@, opt_str(count), seq![])[0];
    assert(line_view(out@[0]@) =~= head_line);
    let mut i: usize = 0;
    while i < shown.len()
        invariant
            i <= shown@.len(),
            total > 0,
            forall|j: int| 0 <= j < shown@.len() ==> epoch_ok((#[trigger] shown@[j]).start as int) && epoch_ok(shown@[j].end as int),
            out@.len() == i + 1,
            clocks.len() == i,
            line_view(out@[0]@) == head_line,
            forall|j: int| 0 <= j < i ==> clock_text(shown@[j].start as int, #[trigger] clocks[j]),
            forall|j: int|
                0 <= j < i ==> line_view((#[trigger] out@[j + 1])@) == seq![
                    (seq![' '] + describe_text(shown@[j], clocks[j]), Tone::Highlight, Emphasis::Normal),
                ],
        decreases shown.len() - i,
    {
        let item = &shown[i];
        let text = item.describe();
        let ghost since = choose|since: Seq<char>| clock_text(item.start as int, since) && text@ == #[trigger] describe_text(*item, since);
        let mut t: Vec<char> = Vec::new();
        t.push(' ');
        push_str(&mut t, text.as_str());
        let mut line: Vec<StyledSpan> = Vec::new();
        line.push(span(t, Tone::Highlight, Emphasis::Normal));
        proof {
            clocks = clocks.push(since);
            assert(line_view(line@) =~= seq![(seq![' '] + describe_text(shown@[i as int], clocks[i as int]), Tone::Highlight, Emphasis::Normal)]);
        }
        out.push(line);
        i += 1;
    }
    let ghost want = unaccounted_lines(total as int, shown@, opt_str(count), clocks);
    assert(head_line == want[0]);
    assert(lines_view(out@) =~= want) by {
        assert forall|j: int| 0 <= j < out@.len() implies #[trigger] lines_view(out@)[j] == want[j] by {
            if j >= 1 {
                assert(line_view(out@[(j - 1) + 1]@) == seq![
                    (seq![' '] + describe_text(shown@[j - 1], clocks[j - 1]), Tone::Highlight, Emphasis::Normal),
                ]);
            }
        }
    }
    out
}

/// One pane line: the value behind its filter mark, a gap of at least one space
/// that pushes the count to the row's right edge, and the count of entries the
/// value matches. A value in the pane's filter carries the dot and is set bold.
pub open spec fn pane_line(value: Seq<char>, count: int, selected: bool, width: int) -> Seq<(Seq<char>, Tone, Emphasis)> {
    let count_text = decimal(count as nat);
    let used = 1 + value.len() + count_text.len() + 1;
    let gap = if width - used > 1 {
        width - used
    } else {
        1
    };
    seq![
        (if selected {
            seq!['\u{2022}']
        } else {
            seq![' ']
        } + value, if selected {
            Tone::Accent
        } else {
            Tone::White
        }, if selected {
            Emphasis::Bold
        } else {
            Emphasis::Normal
        }),
        (spaces(gap), Tone::Plain, Emphasis::Normal),
        (count_text, Tone::Highlight, Emphasis::Normal),
    ]
}

/// A pane's lines for rows `width` wide: a line per value it offers, in its
/// order, or the one italic line that says nothing is in view.
pub open spec fn pane_lines_of(values: Seq<(Seq<char>, int)>, selection: Seq<Seq<char>>, width: int) -> Seq<
    Seq<(Seq<char>, Tone, Emphasis)>,
> {
    if values.len() == 0 {
        seq![seq![(" nothing in view"@, Tone::Inactive, Emphasis::Italic)]]
    } else {
        Seq::new(
            values.len(),
            |i: int| pane_line(values[i].0, values[i].1, selection.contains(values[i].0), width),
        )
    }
}

impl PaneSurface {
    /// What `pane` shows for the entries in scope, its rows `width` wide once the
    /// cursor gutter is taken off.
    pub fn pane_lines(&self, entries: &Vec<&TimeEntry>, pane: Pane, width: usize) -> (r: Vec<Vec<StyledSpan>>)
        requires
            entries@.len() <= MAX_ENTRIES,
        ensures
            lines_view(r@) == pane_lines_of(pane_list(derefs(entries@), pane), selection_of(*self, pane), width as int),
    {
        let values = pane_values(entries, pane);
        let ghost vs = value_views(values@);
        let mut out: Vec<Vec<StyledSpan>> = Vec::new();
        if values.len() == 0 {
            let mut text: Vec<char> = Vec::new();
            push_str(&mut text, " nothing in view");
            let mut line: Vec<StyledSpan> = Vec::new();
            line.push(span(text, Tone::Inactive, Emphasis::Italic));
            out.push(line);
            assert(line_view(out@[0]@) =~= seq![(" nothing in view"@, Tone::Inactive, Emphasis::Italic)]);
            assert(lines_view(out@) =~= pane_lines_of(vs, selection_of(*self, pane), width as int));
            return out;
        }
        let mut i: usize = 0;
        while i < values.len()
            invariant
                i <= values@.len(),
                values@.len() > 0,
                vs == value_views(values@),
                vs.len() == values@.len(),
                out@.len() == i,
                forall|j: int|
                    0 <= j < i ==> line_view((#[trigger] out@[j])@) == pane_line(
                        vs[j].0,
                        vs[j].1,
                        selection_of(*self, pane).contains(vs[j].0),
                        width as int,
                    ),
            decreases values.len() - i,
        {
            let value = &values[i].0;
            let count = values[i].1;
            assert(vs[i as int] == (value@, count as int));
            let selected = self.pane_value_is_selected(pane, value.as_str());
            let mut first: Vec<char> = Vec::new();
            if selected {
                first.push('\u{2022}');
            } else {
                first.push(' ');
            }
            push_str(&mut first, value.as_str());
            let mut digits: Vec<char> = Vec::new();
            push_u64(&mut digits, count as u64);
            let used: u128 = 2 + value.unicode_len() as u128 + digits.len() as u128;
            let gap: usize = if (width as u128) > used + 1 {
                (width as u128 - used) as usize
            } else {
                1
            };
            let mut middle: Vec<char> = Vec::new();
            push_spaces(&mut middle, gap);
            let mut line: Vec<StyledSpan> = Vec::new();
            if selected {
                line.push(span(first, Tone::Accent, Emphasis::Bold));
            } else {
                line.push(span(first, Tone::White, Emphasis::Normal));
            }
            line.push(span(middle, Tone::Plain, Emphasis::Normal));
            line.push(span(digits, Tone::Highlight, Emphasis::Normal));
            proof {
                let m = pane_line(vs[i as int].0, vs[i as int].1, selected, width as int);
                assert(first@ =~= m[0].0);
                assert(line_view(line@) =~= m);
            }
            out.push(line);
            i += 1;
        }
        assert(lines_view(out@) =~= pane_lines_of(vs, selection_of(*self, pane), width as int));
        out
    }
}

/// The summary's number columns are flushed right in fixed widths, so a re-scope
/// that widens one figure cannot shift them: total, human and agent nine wide,
/// count and share six.
pub const FIGURE_WIDTH: usize = 9;
pub const COUNT_WIDTH: usize = 6;

fn right(text: Vec<char>, width: usize) -> (r: Vec<char>)
    ensures
        r@ == pad_left(text@, width as int),
{
    let mut out: Vec<char> = Vec::new();
    if text.len() < width {
        push_spaces(&mut out, width - text.len());
    } else {
        assert(spaces(width - text@.len()) =~= seq![]);
    }
    push_all(&mut out, &text);
    out
}

fn seconds_chars(seconds: i64) -> (r: Vec<char>)
    ensures
        r@ == hm_text(seconds as int),
{
    chars_of(crate::duration::format(seconds).as_str())
}

fn count_chars(n: u64) -> (r: Vec<char>)
    ensures
        r@ == decimal(n as nat),
{
    let mut out: Vec<char> = Vec::new();
    push_u64(&mut out, n);
    out
}

/// A project row: the name padded to the label column, its total, with the split
/// on its human and agent parts, its entry count and its share.
pub open spec fn summary_row(row: ProjectTotal, label_width: int, split: bool) -> Seq<(Seq<char>, Tone, Emphasis)> {
    seq![
        (seq![' '] + row.project@ + spaces(label_width - row.project@.len()), Tone::White, Emphasis::Normal),
        (pad_left(hm_text(row.total as int), 9), Tone::White, Emphasis::Normal),
    ] + (if split {
        seq![
            (pad_left(hm_text(row.human as int), 9), Tone::Active, Emphasis::Normal),
            (pad_left(hm_text(row.agent as int), 9), Tone::Highlight, Emphasis::Normal),
        ]
    } else {
        seq![]
    }) + seq![
        (pad_left(decimal(row.entries as nat), 6), Tone::Inactive, Emphasis::Normal),
        (pad_left(decimal(row.share as nat) + seq!['%'], 6), Tone::Accent, Emphasis::Normal),
    ]
}

/// The total row: the same columns set bold, without a share.
pub open spec fn summary_total_row(sum: ProjectTotal, label_width: int, split: bool) -> Seq<(Seq<char>, Tone, Emphasis)> {
    seq![
        (seq![' '] + sum.project@ + spaces(label_width - sum.project@.len()), Tone::Title, Emphasis::Normal),
        (pad_left(hm_text(sum.total as int), 9), Tone::White, Emphasis::Bold),
    ] + (if split {
        seq![
            (pad_left(hm_text(sum.human as int), 9), Tone::Active, Emphasis::Bold),
            (pad_left(hm_text(sum.agent as int), 9), Tone::Highlight, Emphasis::Bold),
        ]
    } else {
        seq![]
    }) + seq![(pad_left(decimal(sum.entries as nat), 6), Tone::Inactive, Emphasis::Normal)]
}

/// The column heads, one italic run over the table's columns.
pub open spec fn summary_header(label: Seq<char>, label_width: int, split: bool) -> Seq<char> {
    seq![' '] + label + spaces(label_width - label.len()) + pad_left("total"@, 9) + (if split {
        pad_left("human"@, 9) + pad_left("agent"@, 9)
    } else {
        seq![]
    }) + pad_left("count"@, 6) + pad_left("share"@, 6)
}

/// The rule under the number columns only, as a hand sum has it.
pub open spec fn summary_rule(label_width: int, split: bool) -> Seq<(Seq<char>, Tone, Emphasis)> {
    let numbers = if split {
        39int
    } else {
        21int
    };
    seq![
        (spaces(label_width + 1), Tone::Plain, Emphasis::Normal),
        (Seq::new(numbers as nat, |i: int| '\u{2500}'), Tone::Border, Emphasis::Normal),
    ]
}

/// The summary table: the heads, a row per project shown, the rule, and the
/// total over every project in scope.
pub open spec fn summary_table(
    rows: Seq<ProjectTotal>,
    sum: ProjectTotal,
    label: Seq<char>,
    label_width: int,
    split: bool,
) -> Seq<Seq<(Seq<char>, Tone, Emphasis)>> {
    seq![seq![(summary_header(label, label_width, split), Tone::Inactive, Emphasis::Italic)]]
        + Seq::new(rows.len(), |i: int| summary_row(rows[i], label_width, split))
        + seq![summary_rule(label_width, split), summary_total_row(sum, label_width, split)]
}

fn left_label(label: &str, label_width: usize) -> (r: Vec<char>)
    ensures
        r@ == seq![' '] + label@ + spaces(label_width - label@.len()),
{
    let mut out: Vec<char> = Vec::new();
    out.push(' ');
    push_str(&mut out, label);
    let n = label.unicode_len();
    if n < label_width {
        push_spaces(&mut out, label_width - n);
    } else {
        assert(spaces(label_width - label@.len()) =~= seq![]);
    }
    out
}

fn figures(line: &mut Vec<StyledSpan>, row: &ProjectTotal, split: bool, bold: bool)
    ensures
        line_view(final(line)@) == line_view(old(line)@) + seq![
            (pad_left(hm_text(row.total as int), 9), Tone::White, if bold { Emphasis::Bold } else { Emphasis::Normal }),
        ] + (if split {
            seq![
                (pad_left(hm_text(row.human as int), 9), Tone::Active, if bold { Emphasis::Bold } else { Emphasis::Normal }),
                (pad_left(hm_text(row.agent as int), 9), Tone::Highlight, if bold { Emphasis::Bold } else { Emphasis::Normal }),
            ]
        } else {
            seq![]
        }) + seq![(pad_left(decimal(row.entries as nat), 6), Tone::Inactive, Emphasis::Normal)],
{
    let emphasis = if bold {
        Emphasis::Bold
    } else {
        Emphasis::Normal
    };
    let ghost before = line_view(line@);
    line.push(span(right(seconds_chars(row.total), FIGURE_WIDTH), Tone::White, emphasis));
    if split {
        line.push(span(right(seconds_chars(row.human), FIGURE_WIDTH), Tone::Active, emphasis));
        line.push(span(right(seconds_chars(row.agent), FIGURE_WIDTH), Tone::Highlight, emphasis));
    }
    line.push(span(right(count_chars(row.entries as u64), COUNT_WIDTH), Tone::Inactive, Emphasis::Normal));
    assert(line_view(line@) =~= before + seq![
        (pad_left(hm_text(row.total as int), 9), Tone::White, emphasis),
    ] + (if split {
        seq![
            (pad_left(hm_text(row.human as int), 9), Tone::Active, emphasis),
            (pad_left(hm_text(row.agent as int), 9), Tone::Highlight, emphasis),
        ]
    } else {
        seq![]
    }) + seq![(pad_left(decimal(row.entries as nat), 6), Tone::Inactive, Emphasis::Normal)]);
}

/// The summary table for the rows on screen, `sum` being the total over every
/// row in scope, with `label` heading a label column `label_width` wide; `split`
/// adds the human and agent columns.
pub fn summary_lines(rows: &[ProjectTotal], sum: &ProjectTotal, label: &str, label_width: usize, split: bool) -> (r: Vec<
    Vec<StyledSpan>,
>)
    ensures
        lines_view(r@) == summary_table(rows@, *sum, label@, label_width as int, split),
{
    let mut out: Vec<Vec<StyledSpan>> = Vec::new();
    let mut head = left_label(label, label_width);
    let mut word: Vec<char> = Vec::new();
    push_str(&mut word, "total");
    push_all(&mut head, &right(word, FIGURE_WIDTH));
    if split {
        let mut human: Vec<char> = Vec::new();
        push_str(&mut human, "human");
        push_all(&mut head, &right(human, FIGURE_WIDTH));
        let mut agent: Vec<char> = Vec::new();
        push_str(&mut agent, "agent");
        push_all(&mut head, &right(agent, FIGURE_WIDTH));
    }
    let mut count: Vec<char> = Vec::new();
    push_str(&mut count, "count");
    push_all(&mut head, &right(count, COUNT_WIDTH));
    let mut share: Vec<char> = Vec::new();
    push_str(&mut share, "share");
    push_all(&mut head, &right(share, COUNT_WIDTH));
    assert(head@ =~= summary_header(label@, label_width as int, split));
    let mut first: Vec<StyledSpan> = Vec::new();
    first.push(span(head, Tone::Inactive, Emphasis::Italic));
    out.push(first);
    let ghost head_line = seq![(summary_header(label@, label_width as int, split), Tone::Inactive, Emphasis::Italic)];
    assert(line_view(out@[0]@) =~= head_line);
    let mut i: usize = 0;
    while i < rows.len()
        invariant
            i <= rows@.len(),
            out@.len() == i + 1,
            line_view(out@[0]@) == head_line,
            forall|j: int| 0 <= j < i ==> line_view((#[trigger] out@[j + 1])@) == summary_row(rows@[j], label_width as int, split),
        decreases rows.len() - i,
    {
        let row = &rows[i];
        let mut line: Vec<StyledSpan> = Vec::new();
        line.push(span(left_label(row.project.as_str(), label_width), Tone::White, Emphasis::Normal));
        figures(&mut line, row, split, false);
        let ghost filled = line@;
        let mut pct = count_chars(row.share as u64);
        pct.push('%');
        assert(pct@ =~= decimal(row.share as nat) + seq!['%']);
        let last = span(right(pct, COUNT_WIDTH), Tone::Accent, Emphasis::Normal);
        line.push(last);
        assert(line@ =~= filled.push(last));
        assert(line_view(line@) =~= line_view(filled).push(span_view(last)));
        assert(line_view(line@) =~= summary_row(rows@[i as int], label_width as int, split));
        out.push(line);
        i += 1;
    }
    let mut rule: Vec<StyledSpan> = Vec::new();
    let mut lead: Vec<char> = Vec::new();
    push_spaces(&mut lead, label_width);
    lead.push(' ');
    assert(lead@ =~= spaces(label_width + 1));
    rule.push(span(lead, Tone::Plain, Emphasis::Normal));
    let numbers: usize = if split {
        39
    } else {
        21
    };
    let mut bar: Vec<char> = Vec::new();
    let mut k: usize = 0;
    while k < numbers
        invariant
            k <= numbers,
            bar@ == Seq::new(k as nat, |i: int| '\u{2500}'),
        decreases numbers - k,
    {
        bar.push('\u{2500}');
        k += 1;
        assert(bar@ =~= Seq::new(k as nat, |i: int| '\u{2500}'));
    }
    assert(bar@ =~= summary_rule(label_width as int, split)[1].0);
    rule.push(span(bar, Tone::Border, Emphasis::Normal));
    assert(line_view(rule@) =~= summary_rule(label_width as int, split));
    let ghost body = out@;
    out.push(rule);
    let mut total: Vec<StyledSpan> = Vec::new();
    total.push(span(left_label(sum.project.as_str(), label_width), Tone::Title, Emphasis::Normal));
    figures(&mut total, sum, split, true);
    assert(line_view(total@) =~= summary_total_row(*sum, label_width as int, split));
    out.push(total);
    let ghost want = summary_table(rows@, *sum, label@, label_width as int, split);
    assert(lines_view(out@) =~= want) by {
        assert forall|j: int| 0 <= j < out@.len() implies #[trigger] lines_view(out@)[j] == want[j] by {
            if j <= rows@.len() {
                assert(out@[j] == body[j]);
            }
            if 1 <= j <= rows@.len() {
                assert(line_view(body[(j - 1) + 1]@) == summary_row(rows@[j - 1], label_width as int, split));
            }
        }
    }
    out
}

/// The collapsed summary: one line with the total of the scope, headed
/// `Filtered total:` while the total follows a filter that is set.
pub open spec fn collapsed_line(seconds: int, filtered: bool) -> Seq<(Seq<char>, Tone, Emphasis)> {
    seq![
        (if filtered {
            " Filtered total: "@
        } else {
            " Total: "@
        }, Tone::Title, Emphasis::Normal),
        (hm_text(seconds), Tone::Highlight, Emphasis::Bold),
    ]
}

pub fn summary_collapsed(seconds: i64, filtered: bool) -> (r: Vec<StyledSpan>)
    ensures
        line_view(r@) == collapsed_line(seconds as int, filtered),
{
    let mut label: Vec<char> = Vec::new();
    if filtered {
        push_str(&mut label, " Filtered total: ");
    } else {
        push_str(&mut label, " Total: ");
    }
    let mut line: Vec<StyledSpan> = Vec::new();
    line.push(span(label, Tone::Title, Emphasis::Normal));
    line.push(span(seconds_chars(seconds), Tone::Highlight, Emphasis::Bold));
    assert(line_view(line@) =~= collapsed_line(seconds as int, filtered));
    line
}

/// The open summary with nothing to show: it blames the filter only when the
/// total follows one that is set.
pub open spec fn empty_summary_text(filtered: bool) -> Seq<char> {
    if filtered {
        " nothing matches the filter"@
    } else {
        " nothing in scope"@
    }
}

pub fn summary_empty(filtered: bool) -> (r: Vec<StyledSpan>)
    ensures
        line_view(r@) == seq![(empty_summary_text(filtered), Tone::Inactive, Emphasis::Italic)],
{
    let mut text: Vec<char> = Vec::new();
    if filtered {
        push_str(&mut text, " nothing matches the filter");
    } else {
        push_str(&mut text, " nothing in scope");
    }
    let mut line: Vec<StyledSpan> = Vec::new();
    line.push(span(text, Tone::Inactive, Emphasis::Italic));
    assert(line_view(line@) =~= seq![(empty_summary_text(filtered), Tone::Inactive, Emphasis::Italic)]);
    line
}

/// The header text of a vocabulary column.
pub open spec fn label_text(c: EntryColumn) -> Seq<char> {
    match c {
        EntryColumn::Date => "Date"@,
        EntryColumn::Start => "Start"@,
        EntryColumn::End => "End"@,
        EntryColumn::Description => "Description"@,
        EntryColumn::Project => "Project"@,
        EntryColumn::Tags => "Tags"@,
        EntryColumn::Duration => "Duration"@,
    }
}

/// Whether row `i`'s number is one another row also has.
pub open spec fn shares_rank(ranks: Seq<Option<u8>>, i: int) -> bool {
    ranks[i] is Some && exists|j: int| 0 <= j < ranks.len() && j != i && ranks[j] == ranks[i]
}

/// A row's number right-aligned in two columns then a space, a dash for none.
pub open spec fn rank_text(rank: Option<u8>) -> Seq<char> {
    match rank {
        Some(n) => pad_left(decimal(n as nat), 2) + seq![' '],
        None => " - "@,
    }
}

/// A shared number draws as an error until the tie is gone; otherwise the cursor
/// row is highlighted, a numbered row active and the rest inactive.
pub open spec fn rank_tone(ranks: Seq<Option<u8>>, cursor: int, i: int) -> Tone {
    if shares_rank(ranks, i) {
        Tone::Error
    } else if i == cursor {
        Tone::Highlight
    } else if ranks[i] is Some {
        Tone::Active
    } else {
        Tone::Inactive
    }
}

/// One picker row: whether the cursor is on it, its number, its column, and how
/// the number and the column are set. Bold marks the cursor row only.
pub struct PickerRow {
    pub cursor: bool,
    pub rank: String,
    pub label: String,
    pub tone: Tone,
    pub emphasis: Emphasis,
}

pub open spec fn picker_row(ranks: Seq<Option<u8>>, cursor: int, i: int) -> (bool, Seq<char>, Seq<char>, Tone, Emphasis) {
    (
        i == cursor,
        rank_text(ranks[i]),
        label_text(vocabulary()[i]),
        rank_tone(ranks, cursor, i),
        if i == cursor {
            Emphasis::Bold
        } else {
            Emphasis::Normal
        },
    )
}

pub open spec fn row_view(r: PickerRow) -> (bool, Seq<char>, Seq<char>, Tone, Emphasis) {
    (r.cursor, r.rank@, r.label@, r.tone, r.emphasis)
}

/// The footer: the order the numbers derive, or the prompt to number a column.
pub open spec fn picker_footer(ranks: Seq<Option<u8>>) -> Seq<char> {
    let order = picked(ranks);
    if order.len() == 0 {
        "Number at least one column"@
    } else {
        "Order: "@ + join_str(order.map_values(|c: EntryColumn| label_text(c)), "  "@)
    }
}

fn column_label(c: EntryColumn) -> (r: &'static str)
    ensures
        r@ == label_text(c),
{
    c.label()
}

fn rank_chars(rank: Option<u8>) -> (r: Vec<char>)
    ensures
        r@ == rank_text(rank),
{
    let mut out: Vec<char> = Vec::new();
    match rank {
        Some(n) => {
            if n < 10 {
                out.push(' ');
            }
            push_u64(&mut out, n as u64);
            out.push(' ');
            proof {
                let d = decimal(n as nat);
                if n < 10 {
                    assert(d.len() == 1) by {
                        reveal_with_fuel(decimal, 2);
                    }
                    assert(spaces(2 - d.len()) =~= seq![' ']);
                } else {
                    assert(d.len() >= 2) by {
                        reveal_with_fuel(decimal, 2);
                    }
                    assert(spaces(2 - d.len()) =~= seq![]);
                }
                assert(out@ =~= rank_text(rank));
            }
        },
        None => {
            push_str(&mut out, " - ");
        },
    }
    out
}

impl ColumnPicker {
    /// Whether the number on row `index` is one another row also has.
    pub fn rank_is_shared(&self, index: usize) -> (r: bool)
        requires
            self.well_formed(),
            index < 7,
        ensures
            r == shares_rank(self.ranks@, index as int),
    {
        match self.ranks[index] {
            None => false,
            Some(rank) => {
                let mut j: usize = 0;
                while j < 7
                    invariant
                        j <= 7,
                        self.well_formed(),
                        index < 7,
                        self.ranks@[index as int] == Some(rank),
                        forall|k: int| 0 <= k < j && k != index ==> self.ranks@[k] != Some(rank),
                    decreases 7 - j,
                {
                    if j != index && self.ranks[j] == Some(rank) {
                        assert(self.ranks@[j as int] == self.ranks@[index as int]);
                        return true;
                    }
                    j += 1;
                }
                false
            },
        }
    }

    /// The popup's rows, one per vocabulary column in its fixed order; typing
    /// never reorders them.
    pub fn rows(&self) -> (r: Vec<PickerRow>)
        requires
            self.well_formed(),
        ensures
            r@.len() == 7,
            forall|i: int| 0 <= i < 7 ==> row_view(#[trigger] r@[i]) == picker_row(self.ranks@, self.cursor as int, i),
    {
        let vocab = EntryColumn::all_with_project();
        let mut out: Vec<PickerRow> = Vec::new();
        let mut i: usize = 0;
        while i < 7
            invariant
                i <= 7,
                self.well_formed(),
                vocab@ == vocabulary(),
                out@.len() == i,
                forall|k: int| 0 <= k < i ==> row_view(#[trigger] out@[k]) == picker_row(self.ranks@, self.cursor as int, k),
            decreases 7 - i,
        {
            let selected = i == self.cursor;
            let tone = if self.rank_is_shared(i) {
                Tone::Error
            } else if selected {
                Tone::Highlight
            } else if self.ranks[i].is_some() {
                Tone::Active
            } else {
                Tone::Inactive
            };
            let emphasis = if selected {
                Emphasis::Bold
            } else {
                Emphasis::Normal
            };
            let rank = string_of(&rank_chars(self.ranks[i]));
            let label = String::from_str(column_label(vocab[i]));
            out.push(PickerRow { cursor: selected, rank, label, tone, emphasis });
            i += 1;
        }
        out
    }

    /// The footer under the rows: `Order:` and the derived order's labels two
    /// spaces apart, or `Number at least one column` while nothing is numbered.
    pub fn footer(&self) -> (r: String)
        requires
            self.well_formed(),
        ensures
            r@ == picker_footer(self.ranks@),
    {
        let order = self.order();
        let mut out: Vec<char> = Vec::new();
        if order.len() == 0 {
            push_str(&mut out, "Number at least one column");
            return string_of(&out);
        }
        let ghost labels = order@.map_values(|c: EntryColumn| label_text(c));
        push_str(&mut out, "Order: ");
        let mut i: usize = 0;
        while i < order.len()
            invariant
                i <= order@.len(),
                order@.len() > 0,
                labels == order@.map_values(|c: EntryColumn| label_text(c)),
                out@ == "Order: "@ + join_str(labels.take(i as int), "  "@),
            decreases order.len() - i,
        {
            let ghost before = out@;
            if i > 0 {
                push_str(&mut out, "  ");
            }
            push_str(&mut out, column_label(order[i]));
            proof {
                assert(labels.take(i + 1).drop_last() =~= labels.take(i as int));
                assert(labels.take(i + 1).last() == label_text(order@[i as int]));
                if i == 0 {
                    assert(labels.take(1) =~= seq![labels[0]]);
                    assert(join_str(labels.take(0), "  "@) =~= seq![]);
                    assert(out@ =~= "Order: "@ + join_str(labels.take(1), "  "@));
                } else {
                    assert(out@ =~= "Order: "@ + join_str(labels.take(i + 1), "  "@));
                }
            }
            i += 1;
        }
        assert(labels.take(order@.len() as int) =~= labels);
        string_of(&out)
    }
}

} // verus!
