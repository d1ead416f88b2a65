//! The entries table's row model: the listed entries with every issue's entries
//! folded into one group header, expanded or not, and in the week view a day
//! header opening each day's run.

use vstd::prelude::*;
use crate::report::{classify, item_of};
use crate::text::{chars_eq, chars_of, views};
use crate::tracker::{TimeData, TimeEntry, MAX_ENTRIES};
use crate::tui::types::ViewMode;

verus! {

/// A member row's place under its group header.
pub struct Member {
    /// The item tag of the group whose header sits above this row.
    pub tag: String,
    /// The group's last member, which closes the tree.
    pub last: bool,
}

/// One issue's entries, summarised for the collapsed row.
pub struct GroupHeader {
    /// The item tag as stored, carrying no `#`.
    pub tag: String,
    /// Indices into the entries, in the order the listing gave them.
    pub members: Vec<usize>,
    pub expanded: bool,
    /// The earliest member's start.
    pub start: i64,
    /// The latest member's end; `None` while any member still runs.
    pub end: Option<i64>,
}

/// One line of the entries table. `Entry` holds an index into the entries,
/// never a reference.
pub enum VisibleRow {
    DayHeader { date: i32 },
    GroupHeader(GroupHeader),
    Entry {
        index: usize,
        /// Where this row sits in its group; `None` for a top-level row.
        member: Option<Member>,
    },
}

/// A row as the contracts read it.
pub enum RowView {
    Day(int),
    Header { tag: Seq<char>, members: Seq<usize>, expanded: bool, start: int, end: Option<int> },
    Entry { index: usize, member: Option<(Seq<char>, bool)> },
}

impl View for VisibleRow {
    type V = RowView;

    open spec fn view(&self) -> RowView {
        match self {
            VisibleRow::DayHeader { date } => RowView::Day(*date as int),
            VisibleRow::GroupHeader(h) => RowView::Header {
                tag: h.tag@,
                members: h.members@,
                expanded: h.expanded,
                start: h.start as int,
                end: match h.end {
                    Some(e) => Some(e as int),
                    None => None,
                },
            },
            VisibleRow::Entry { index, member } => RowView::Entry {
                index: *index,
                member: match member {
                    Some(m) => Some((m.tag@, m.last)),
                    None => None,
                },
            },
        }
    }
}

pub open spec fn row_views(rows: Seq<VisibleRow>) -> Seq<RowView> {
    rows.map_values(|r: VisibleRow| r@)
}

/// Whether the cursor can land on a row: entries and group headers, never a day header.
pub open spec fn selectable(r: RowView) -> bool {
    !(r is Day)
}

/// The issue an entry is filed under: the first of its tags holding a `/`.
pub open spec fn issue_at(entries: Seq<TimeEntry>, i: usize) -> Option<Seq<char>> {
    item_of(views(entries[i as int].tags@))
}

/// Whether `i` names an entry of the issue `tag`.
pub open spec fn in_issue(entries: Seq<TimeEntry>, i: usize, tag: Seq<char>) -> bool {
    i < entries.len() && issue_at(entries, i) == Some(tag)
}

/// The indices of `seg` filed under `tag`, in `seg`'s order.
pub open spec fn members_of(entries: Seq<TimeEntry>, seg: Seq<usize>, tag: Seq<char>) -> Seq<usize>
    decreases seg.len(),
{
    if seg.len() == 0 {
        seq![]
    } else {
        let rest = members_of(entries, seg.drop_last(), tag);
        if in_issue(entries, seg.last(), tag) {
            rest.push(seg.last())
        } else {
            rest
        }
    }
}

/// The earliest start among `ms`, which is never empty.
pub open spec fn earliest(entries: Seq<TimeEntry>, ms: Seq<usize>) -> int
    decreases ms.len(),
{
    if ms.len() <= 1 {
        entries[ms[0] as int].start_time as int
    } else {
        let s = entries[ms.last() as int].start_time as int;
        let before = earliest(entries, ms.drop_last());
        if s < before { s } else { before }
    }
}

/// The latest end among `ms`, or `None` while any of them runs.
pub open spec fn latest_end(entries: Seq<TimeEntry>, ms: Seq<usize>) -> Option<int>
    decreases ms.len(),
{
    if ms.len() == 0 {
        None
    } else {
        let e = match entries[ms.last() as int].end_time {
            Some(x) => Some(x as int),
            None => None,
        };
        if ms.len() == 1 {
            e
        } else {
            match (latest_end(entries, ms.drop_last()), e) {
                (Some(a), Some(b)) => Some(if a < b { b } else { a }),
                _ => None,
            }
        }
    }
}

/// An issue's rows: a lone entry stays the plain row it is; two or more fold into
/// a header, followed by their own rows while the issue is expanded.
pub open spec fn group_rows(entries: Seq<TimeEntry>, tag: Seq<char>, ms: Seq<usize>, expanded: Seq<Seq<char>>) -> Seq<RowView> {
    if ms.len() < 2 {
        seq![RowView::Entry { index: ms[0], member: None }]
    } else {
        let open = expanded.contains(tag);
        let header = RowView::Header {
            tag,
            members: ms,
            expanded: open,
            start: earliest(entries, ms),
            end: latest_end(entries, ms),
        };
        if open {
            seq![header] + Seq::new(
                ms.len(),
                |n: int| RowView::Entry { index: ms[n], member: Some((tag, n == ms.len() - 1)) },
            )
        } else {
            seq![header]
        }
    }
}

/// What position `k` of `seg` contributes: an untagged entry its own row, an
/// issue's first entry the issue's rows, a later one of the same issue nothing.
/// An index past the entries contributes nothing.
pub open spec fn slot_rows(entries: Seq<TimeEntry>, seg: Seq<usize>, k: int, expanded: Seq<Seq<char>>) -> Seq<RowView> {
    let i = seg[k];
    if i >= entries.len() {
        seq![]
    } else {
        match issue_at(entries, i) {
            None => seq![RowView::Entry { index: i, member: None }],
            Some(tag) => if members_of(entries, seg.take(k), tag).len() == 0 {
                group_rows(entries, tag, members_of(entries, seg, tag), expanded)
            } else {
                seq![]
            },
        }
    }
}

/// The rows of the first `n` positions of `seg`.
pub open spec fn rows_upto(entries: Seq<TimeEntry>, seg: Seq<usize>, n: int, expanded: Seq<Seq<char>>) -> Seq<RowView>
    decreases n,
{
    if n <= 0 {
        seq![]
    } else {
        rows_upto(entries, seg, n - 1, expanded) + slot_rows(entries, seg, n - 1, expanded)
    }
}

/// One day partition's rows, in `seg`'s order.
pub open spec fn segment_rows(entries: Seq<TimeEntry>, seg: Seq<usize>, expanded: Seq<Seq<char>>) -> Seq<RowView> {
    rows_upto(entries, seg, seg.len() as int, expanded)
}

// --- the spec's small facts ---------------------------------------------------------

/// A list has no member of `tag` exactly when none of its indices is filed there.
pub proof fn lemma_no_members(entries: Seq<TimeEntry>, s: Seq<usize>, tag: Seq<char>)
    ensures
        (members_of(entries, s, tag).len() == 0) == (forall|j: int| 0 <= j < s.len() ==> !in_issue(entries, #[trigger] s[j], tag)),
    decreases s.len(),
{
    if s.len() > 0 {
        lemma_no_members(entries, s.drop_last(), tag);
        assert forall|j: int| 0 <= j < s.len() - 1 implies s.drop_last()[j] == #[trigger] s[j] by {}
        if members_of(entries, s, tag).len() == 0 {
            assert forall|j: int| 0 <= j < s.len() implies !in_issue(entries, #[trigger] s[j], tag) by {
                if j < s.len() - 1 {
                    assert(s.drop_last()[j] == s[j]);
                }
            }
        }
    }
}

/// Every member of `tag` is an entry filed there.
pub proof fn lemma_members_in_issue(entries: Seq<TimeEntry>, s: Seq<usize>, tag: Seq<char>)
    ensures
        forall|n: int| 0 <= n < members_of(entries, s, tag).len() ==> in_issue(entries, #[trigger] members_of(entries, s, tag)[n], tag),
    decreases s.len(),
{
    if s.len() > 0 {
        lemma_members_in_issue(entries, s.drop_last(), tag);
        let rest = members_of(entries, s.drop_last(), tag);
        if in_issue(entries, s.last(), tag) {
            assert forall|n: int| 0 <= n < rest.len() implies rest.push(s.last())[n] == rest[n] by {}
        }
    }
}

proof fn lemma_row_views_push(rows: Seq<VisibleRow>, r: VisibleRow)
    ensures
        row_views(rows.push(r)) == row_views(rows).push(r@),
{
    assert(row_views(rows.push(r)) =~= row_views(rows).push(r@));
}

// --- building a day's rows ------------------------------------------------------------

/// The issue each position of `seg` is filed under, as characters; `None` for an
/// untagged entry and for an index past the entries.
fn segment_issues(entries: &Vec<TimeEntry>, seg: &Vec<usize>) -> (r: Vec<Option<Vec<char>>>)
    ensures
        r@.len() == seg@.len(),
        forall|k: int| 0 <= k < seg@.len() && seg@[k] < entries@.len() ==>
            opt_chars(#[trigger] r@[k]) == issue_at(entries@, seg@[k]),
{
    let mut out: Vec<Option<Vec<char>>> = Vec::new();
    let mut k: usize = 0;
    while k < seg.len()
        invariant
            k <= seg@.len(),
            out@.len() == k,
            forall|j: int| 0 <= j < k && seg@[j] < entries@.len() ==>
                opt_chars(#[trigger] out@[j]) == issue_at(entries@, seg@[j]),
        decreases seg@.len() - k,
    {
        let i = seg[k];
        if i < entries.len() {
            let (item, _) = classify(&entries[i].tags);
            let tag = match item {
                Some(t) => Some(chars_of(t.as_str())),
                None => None,
            };
            out.push(tag);
        } else {
            out.push(None);
        }
        k += 1;
    }
    out
}

pub open spec fn opt_chars(o: Option<Vec<char>>) -> Option<Seq<char>> {
    match o {
        Some(v) => Some(v@),
        None => None,
    }
}

pub open spec fn issues_agree(entries: Seq<TimeEntry>, seg: Seq<usize>, issues: Seq<Option<Vec<char>>>) -> bool {
    &&& issues.len() == seg.len()
    &&& forall|k: int| 0 <= k < seg.len() && seg[k] < entries.len() ==>
        opt_chars(#[trigger] issues[k]) == issue_at(entries, seg[k])
}

/// Whether position `k` is filed under `tag`.
fn files_under(entries: &Vec<TimeEntry>, seg: &Vec<usize>, issues: &Vec<Option<Vec<char>>>, k: usize, tag: &Vec<char>) -> (r: bool)
    requires
        issues_agree(entries@, seg@, issues@),
        k < seg@.len(),
    ensures
        r == in_issue(entries@, seg@[k as int], tag@),
{
    if seg[k] >= entries.len() {
        return false;
    }
    match &issues[k] {
        Some(t) => chars_eq(t, tag),
        None => false,
    }
}

/// Whether no position before `k` is filed under `tag`.
fn opens_group(entries: &Vec<TimeEntry>, seg: &Vec<usize>, issues: &Vec<Option<Vec<char>>>, k: usize, tag: &Vec<char>) -> (r: bool)
    requires
        issues_agree(entries@, seg@, issues@),
        k <= seg@.len(),
    ensures
        r == (members_of(entries@, seg@.take(k as int), tag@).len() == 0),
{
    proof {
        lemma_no_members(entries@, seg@.take(k as int), tag@);
    }
    let mut j: usize = 0;
    while j < k
        invariant
            issues_agree(entries@, seg@, issues@),
            j <= k <= seg@.len(),
            forall|x: int| 0 <= x < j ==> !in_issue(entries@, #[trigger] seg@[x], tag@),
        decreases k - j,
    {
        if files_under(entries, seg, issues, j, tag) {
            assert(seg@.take(k as int)[j as int] == seg@[j as int]);
            assert(in_issue(entries@, seg@.take(k as int)[j as int], tag@));
            proof {
                lemma_no_members(entries@, seg@.take(k as int), tag@);
            }
            return false;
        }
        j += 1;
    }
    assert forall|x: int| 0 <= x < k implies !in_issue(entries@, #[trigger] seg@.take(k as int)[x], tag@) by {
        assert(seg@.take(k as int)[x] == seg@[x]);
    }
    true
}

/// The members of `tag` in `seg`, given that none sits before position `k`.
fn collect_members(entries: &Vec<TimeEntry>, seg: &Vec<usize>, issues: &Vec<Option<Vec<char>>>, k: usize, tag: &Vec<char>) -> (ms: Vec<usize>)
    requires
        issues_agree(entries@, seg@, issues@),
        k <= seg@.len(),
        members_of(entries@, seg@.take(k as int), tag@).len() == 0,
    ensures
        ms@ == members_of(entries@, seg@, tag@),
{
    let mut ms: Vec<usize> = Vec::new();
    let mut m: usize = k;
    assert(ms@ =~= members_of(entries@, seg@.take(k as int), tag@));
    while m < seg.len()
        invariant
            issues_agree(entries@, seg@, issues@),
            k <= m <= seg@.len(),
            ms@ == members_of(entries@, seg@.take(m as int), tag@),
        decreases seg@.len() - m,
    {
        assert(seg@.take(m + 1).drop_last() =~= seg@.take(m as int));
        assert(seg@.take(m + 1).last() == seg@[m as int]);
        if files_under(entries, seg, issues, m, tag) {
            ms.push(seg[m]);
        }
        m += 1;
    }
    assert(seg@.take(seg@.len() as int) =~= seg@);
    ms
}

pub open spec fn opt_int(o: Option<i64>) -> Option<int> {
    match o {
        Some(x) => Some(x as int),
        None => None,
    }
}

/// The earliest start and the latest end among `ms`, the end `None` while any runs.
fn span_of(entries: &Vec<TimeEntry>, ms: &Vec<usize>) -> (r: (i64, Option<i64>))
    requires
        ms@.len() >= 1,
        forall|n: int| 0 <= n < ms@.len() ==> #[trigger] ms@[n] < entries@.len(),
    ensures
        r.0 == earliest(entries@, ms@),
        opt_int(r.1) == latest_end(entries@, ms@),
{
    let mut start: i64 = entries[ms[0]].start_time;
    let mut end: Option<i64> = entries[ms[0]].end_time;
    let mut p: usize = 1;
    assert(ms@.take(1).last() == ms@[0]);
    while p < ms.len()
        invariant
            1 <= p <= ms@.len(),
            forall|n: int| 0 <= n < ms@.len() ==> #[trigger] ms@[n] < entries@.len(),
            start == earliest(entries@, ms@.take(p as int)),
            opt_int(end) == latest_end(entries@, ms@.take(p as int)),
        decreases ms@.len() - p,
    {
        assert(ms@.take(p + 1).drop_last() =~= ms@.take(p as int));
        assert(ms@.take(p + 1).last() == ms@[p as int]);
        let e = &entries[ms[p]];
        if e.start_time < start {
            start = e.start_time;
        }
        end = match (end, e.end_time) {
            (Some(a), Some(b)) => Some(if a < b { b } else { a }),
            _ => None,
        };
        p += 1;
    }
    assert(ms@.take(ms@.len() as int) =~= ms@);
    (start, end)
}

/// Whether `tag` is among the expanded issues.
fn expanded_has(expanded: &Vec<String>, tag: &Vec<char>) -> (r: bool)
    ensures
        r == views(expanded@).contains(tag@),
{
    let mut i: usize = 0;
    while i < expanded.len()
        invariant
            i <= expanded@.len(),
            forall|j: int| 0 <= j < i ==> views(expanded@)[j] != tag@,
        decreases expanded@.len() - i,
    {
        let e = chars_of(expanded[i].as_str());
        if chars_eq(&e, tag) {
            assert(views(expanded@)[i as int] == tag@);
            return true;
        }
        i += 1;
    }
    false
}

/// Append an issue's rows for its members `ms`.
fn push_group(entries: &Vec<TimeEntry>, tag: &Vec<char>, ms: Vec<usize>, expanded: &Vec<String>, rows: &mut Vec<VisibleRow>)
    requires
        ms@.len() >= 1,
        forall|n: int| 0 <= n < ms@.len() ==> #[trigger] ms@[n] < entries@.len(),
    ensures
        row_views(final(rows)@) == row_views(old(rows)@) + group_rows(entries@, tag@, ms@, views(expanded@)),
{
    let ghost before = row_views(rows@);
    if ms.len() < 2 {
        let r = VisibleRow::Entry { index: ms[0], member: None };
        proof { lemma_row_views_push(rows@, r); }
        rows.push(r);
        assert(row_views(rows@) =~= before + group_rows(entries@, tag@, ms@, views(expanded@)));
        return;
    }
    let open = expanded_has(expanded, tag);
    let (start, end) = span_of(entries, &ms);
    let copy = ms.clone();
    assert(copy@ =~= ms@);
    let header = VisibleRow::GroupHeader(GroupHeader {
        tag: crate::text::string_of(tag),
        members: copy,
        expanded: open,
        start,
        end,
    });
    proof { lemma_row_views_push(rows@, header); }
    rows.push(header);
    let ghost head = row_views(rows@);
    assert(head =~= before + seq![header@]);
    if open {
        let count = ms.len();
        let mut n: usize = 0;
        while n < count
            invariant
                count == ms@.len(),
                n <= count,
                row_views(rows@) =~= head + Seq::new(
                    n as nat,
                    |x: int| RowView::Entry { index: ms@[x], member: Some((tag@, x == ms@.len() - 1)) },
                ),
            decreases count - n,
        {
            let r = VisibleRow::Entry {
                index: ms[n],
                member: Some(Member { tag: crate::text::string_of(tag), last: n + 1 == count }),
            };
            proof { lemma_row_views_push(rows@, r); }
            rows.push(r);
            n += 1;
        }
    }
}

/// Append one day partition's rows: an issue with two or more entries as a group
/// header, anything else as the plain entry row it is. An issue's rows stand
/// where its first entry does; an index past the entries is skipped.
pub fn push_segment(entries: &Vec<TimeEntry>, segment: &Vec<usize>, expanded: &Vec<String>, rows: &mut Vec<VisibleRow>)
    ensures
        row_views(final(rows)@) == row_views(old(rows)@) + segment_rows(entries@, segment@, views(expanded@)),
{
    let issues = segment_issues(entries, segment);
    let ghost before = row_views(rows@);
    let ghost ex = views(expanded@);
    let mut k: usize = 0;
    while k < segment.len()
        invariant
            issues_agree(entries@, segment@, issues@),
            k <= segment@.len(),
            ex == views(expanded@),
            row_views(rows@) == before + rows_upto(entries@, segment@, k as int, ex),
        decreases segment@.len() - k,
    {
        let ghost prior = row_views(rows@);
        let i = segment[k];
        if i < entries.len() {
            match &issues[k] {
                None => {
                    let r = VisibleRow::Entry { index: i, member: None };
                    proof { lemma_row_views_push(rows@, r); }
                    rows.push(r);
                },
                Some(tag) => {
                    if opens_group(entries, segment, &issues, k, tag) {
                        let ms = collect_members(entries, segment, &issues, k, tag);
                        proof {
                            lemma_members_in_issue(entries@, segment@, tag@);
                            lemma_no_members(entries@, segment@, tag@);
                            assert(in_issue(entries@, segment@[k as int], tag@));
                        }
                        push_group(entries, tag, ms, expanded, rows);
                    }
                },
            }
        }
        assert(row_views(rows@) == prior + slot_rows(entries@, segment@, k as int, ex));
        k += 1;
    }
}

// --- the week view's day partitions -------------------------------------------------

/// The runs of `idx` whose entries start on one day, each with that day, in order.
/// An index past the entries, or one whose day is unknown, joins no run and does
/// not break one.
pub open spec fn day_runs(entries: Seq<TimeEntry>, days: Seq<Option<i32>>, idx: Seq<usize>) -> Seq<(int, Seq<usize>)>
    decreases idx.len(),
{
    if idx.len() == 0 {
        seq![]
    } else {
        let runs = day_runs(entries, days, idx.drop_last());
        let i = idx.last();
        if i >= entries.len() || days[i as int] is None {
            runs
        } else {
            let d = days[i as int]->Some_0 as int;
            if runs.len() > 0 && runs.last().0 == d {
                runs.update(runs.len() - 1, (d, runs.last().1.push(i)))
            } else {
                runs.push((d, seq![i]))
            }
        }
    }
}

/// Each run's rows under a header naming its day.
pub open spec fn runs_rows(entries: Seq<TimeEntry>, runs: Seq<(int, Seq<usize>)>, expanded: Seq<Seq<char>>) -> Seq<RowView>
    decreases runs.len(),
{
    if runs.len() == 0 {
        seq![]
    } else {
        runs_rows(entries, runs.drop_last(), expanded) + seq![RowView::Day(runs.last().0)]
            + segment_rows(entries, runs.last().1, expanded)
    }
}

/// The table's rows for the listed `idx`: one partition in every view but the
/// week's, which partitions by the day each entry starts on (`days`, entry for entry).
pub open spec fn table_rows(entries: Seq<TimeEntry>, days: Seq<Option<i32>>, idx: Seq<usize>, view: ViewMode, expanded: Seq<Seq<char>>) -> Seq<RowView> {
    if view != ViewMode::Week {
        segment_rows(entries, idx, expanded)
    } else {
        runs_rows(entries, day_runs(entries, days, idx), expanded)
    }
}

/// The rows the entries table draws for the listed `indices`, in their order.
/// In the week view a day header opens each run of entries starting on one day
/// (`days`, entry for entry); an issue's group header exists per issue per day.
pub fn compute_rows(entries: &Vec<TimeEntry>, indices: &Vec<usize>, days: &Vec<Option<i32>>, view: ViewMode, expanded: &Vec<String>) -> (r: Vec<VisibleRow>)
    requires
        days@.len() == entries@.len(),
    ensures
        row_views(r@) == table_rows(entries@, days@, indices@, view, views(expanded@)),
{
    let mut rows: Vec<VisibleRow> = Vec::new();
    let ghost ex = views(expanded@);
    if view != ViewMode::Week {
        push_segment(entries, indices, expanded, &mut rows);
        assert(row_views(rows@) =~= segment_rows(entries@, indices@, ex));
        return rows;
    }
    let mut segment: Vec<usize> = Vec::new();
    let mut current: Option<i32> = None;
    let mut k: usize = 0;
    assert(row_views(rows@) =~= seq![]);
    while k < indices.len()
        invariant
            days@.len() == entries@.len(),
            k <= indices@.len(),
            ex == views(expanded@),
            day_runs(entries@, days@, indices@.take(k as int)).len() == 0 ==> segment@.len() == 0 && current is None && row_views(rows@) == Seq::<RowView>::empty(),
            day_runs(entries@, days@, indices@.take(k as int)).len() > 0 ==> {
                let runs = day_runs(entries@, days@, indices@.take(k as int));
                &&& current matches Some(c) && c as int == runs.last().0
                &&& segment@ == runs.last().1
                &&& row_views(rows@) == runs_rows(entries@, runs.drop_last(), ex) + seq![RowView::Day(runs.last().0)]
            },
        decreases indices@.len() - k,
    {
        let ghost runs = day_runs(entries@, days@, indices@.take(k as int));
        assert(indices@.take(k + 1).drop_last() =~= indices@.take(k as int));
        assert(indices@.take(k + 1).last() == indices@[k as int]);
        let index = indices[k];
        if index < entries.len() {
            if let Some(date) = days[index] {
                let fresh = match current {
                    Some(c) => c != date,
                    None => true,
                };
                if fresh {
                    push_segment(entries, &segment, expanded, &mut rows);
                    assert(row_views(rows@) == runs_rows(entries@, runs, ex));
                    segment = Vec::new();
                    current = Some(date);
                    let r = VisibleRow::DayHeader { date };
                    proof { lemma_row_views_push(rows@, r); }
                    rows.push(r);
                    let ghost next = day_runs(entries@, days@, indices@.take(k + 1));
                    assert(next =~= runs.push((date as int, seq![index])));
                    assert(next.drop_last() =~= runs);
                    segment.push(index);
                    assert(segment@ =~= seq![index]);
                } else {
                    let ghost next = day_runs(entries@, days@, indices@.take(k + 1));
                    assert(next.drop_last() =~= runs.drop_last());
                    segment.push(index);
                }
            }
        }
        k += 1;
    }
    push_segment(entries, &segment, expanded, &mut rows);
    assert(indices@.take(indices@.len() as int) =~= indices@);
    rows
}

/// The rows the entries table draws for the listed `indices` of the store, each
/// entry dated by the machine's clock.
pub fn visible_rows(data: &TimeData, indices: &Vec<usize>, view: ViewMode, expanded: &Vec<String>) -> (r: Vec<VisibleRow>)
    ensures
        exists|days: Seq<Option<i32>>|
            crate::tracker::clock_days(data.entries@, days) && row_views(r@) == #[trigger] table_rows(
                data.entries@,
                days,
                indices@,
                view,
                views(expanded@),
            ),
{
    let days = data.start_days();
    compute_rows(&data.entries, indices, &days, view, expanded)
}

// --- the cursor over the rows ---------------------------------------------------------

/// How many of `rs` the cursor can land on.
pub open spec fn selectable_count(rs: Seq<RowView>) -> nat
    decreases rs.len(),
{
    if rs.len() == 0 {
        0
    } else {
        selectable_count(rs.drop_last()) + if selectable(rs.last()) { 1nat } else { 0nat }
    }
}

/// How many rows the cursor can land on: entries and group headers.
pub fn selectable_len(rows: &Vec<VisibleRow>) -> (r: usize)
    ensures
        r == selectable_count(row_views(rows@)),
{
    let ghost rs = row_views(rows@);
    let mut count: usize = 0;
    let mut p: usize = 0;
    while p < rows.len()
        invariant
            rs == row_views(rows@),
            p <= rows@.len(),
            count == selectable_count(rs.take(p as int)),
            count <= p,
        decreases rows@.len() - p,
    {
        assert(rs.take(p + 1).drop_last() =~= rs.take(p as int));
        if !matches!(rows[p], VisibleRow::DayHeader { .. }) {
            count += 1;
        }
        p += 1;
    }
    assert(rs.take(rows@.len() as int) =~= rs);
    count
}

/// Where in `rs` the `n`th selectable row stands.
pub open spec fn nth_selectable(rs: Seq<RowView>, n: nat, p: int) -> bool {
    &&& 0 <= p < rs.len()
    &&& selectable(rs[p])
    &&& selectable_count(rs.take(p)) == n
}

proof fn lemma_count_grows(rs: Seq<RowView>, p: int, q: int)
    requires
        0 <= p <= q <= rs.len(),
    ensures
        selectable_count(rs.take(p)) <= selectable_count(rs.take(q)),
    decreases q - p,
{
    if p < q {
        lemma_count_grows(rs, p, q - 1);
        assert(rs.take(q).drop_last() =~= rs.take(q - 1));
    }
}

/// The position of the row under the cursor, which counts selectable rows only;
/// `None` when the cursor is past them.
pub fn selected_position(rows: &Vec<VisibleRow>, selected: usize) -> (r: Option<usize>)
    ensures
        match r {
            Some(p) => nth_selectable(row_views(rows@), selected as nat, p as int),
            None => selectable_count(row_views(rows@)) <= selected,
        },
{
    let ghost rs = row_views(rows@);
    let mut count: usize = 0;
    let mut p: usize = 0;
    while p < rows.len()
        invariant
            rs == row_views(rows@),
            p <= rows@.len(),
            count == selectable_count(rs.take(p as int)),
            count <= selected,
            count <= p,
        decreases rows@.len() - p,
    {
        assert(rs.take(p + 1).drop_last() =~= rs.take(p as int));
        if !matches!(rows[p], VisibleRow::DayHeader { .. }) {
            if count == selected {
                return Some(p);
            }
            count += 1;
        }
        p += 1;
    }
    assert(rs.take(rows@.len() as int) =~= rs);
    None
}

/// Whether row `r` is the entry `id`'s own row.
pub open spec fn shows(entries: Seq<TimeEntry>, r: RowView, id: u64) -> bool {
    r matches RowView::Entry { index, .. } && index < entries.len() && entries[index as int].id == id
}

/// Whether row `r` is a group header holding the entry `id`.
pub open spec fn holds(entries: Seq<TimeEntry>, r: RowView, id: u64) -> bool {
    r matches RowView::Header { members, .. }
        && exists|n: int| 0 <= n < members.len() && #[trigger] members[n] < entries.len() && entries[members[n] as int].id == id
}

/// The rows a cursor search looks for: the entry `id`'s own rows, or (`headers`)
/// the group headers holding it.
pub open spec fn picked(entries: Seq<TimeEntry>, r: RowView, id: u64, headers: bool) -> bool {
    if headers { holds(entries, r, id) } else { shows(entries, r, id) }
}

/// Whether `p` is the first position of `rs` the search picks.
pub open spec fn first_pick(entries: Seq<TimeEntry>, rs: Seq<RowView>, p: int, id: u64, headers: bool) -> bool {
    &&& 0 <= p < rs.len()
    &&& picked(entries, rs[p], id, headers)
    &&& forall|q: int| 0 <= q < p ==> !picked(entries, #[trigger] rs[q], id, headers)
}

/// The selectable index of the first row the search picks, or `None` when it picks none.
pub open spec fn cursor_at(entries: Seq<TimeEntry>, rs: Seq<RowView>, id: u64, headers: bool) -> Option<nat> {
    if exists|p: int| first_pick(entries, rs, p, id, headers) {
        Some(selectable_count(rs.take(choose|p: int| first_pick(entries, rs, p, id, headers))))
    } else {
        None
    }
}

proof fn lemma_first_pick_unique(entries: Seq<TimeEntry>, rs: Seq<RowView>, p: int, id: u64, headers: bool)
    requires
        first_pick(entries, rs, p, id, headers),
    ensures
        cursor_at(entries, rs, id, headers) == Some(selectable_count(rs.take(p))),
{
    let c = choose|q: int| first_pick(entries, rs, q, id, headers);
    assert(first_pick(entries, rs, c, id, headers));
    if c < p {
        assert(!picked(entries, rs[c], id, headers));
    } else if p < c {
        assert(!picked(entries, rs[p], id, headers));
    }
}

/// Whether `members` holds an index of the entry `id`.
fn members_hold(entries: &Vec<TimeEntry>, members: &Vec<usize>, id: u64) -> (r: bool)
    ensures
        r == exists|n: int| 0 <= n < members@.len() && #[trigger] members@[n] < entries@.len() && entries@[members@[n] as int].id == id,
{
    let mut n: usize = 0;
    while n < members.len()
        invariant
            n <= members@.len(),
            forall|x: int| 0 <= x < n ==> !(#[trigger] members@[x] < entries@.len() && entries@[members@[x] as int].id == id),
        decreases members@.len() - n,
    {
        let i = members[n];
        if i < entries.len() && entries[i].id == id {
            return true;
        }
        n += 1;
    }
    false
}

/// Whether `row` is one the search looks for.
fn picks(entries: &Vec<TimeEntry>, row: &VisibleRow, id: u64, headers: bool) -> (r: bool)
    ensures
        r == picked(entries@, row@, id, headers),
{
    match row {
        VisibleRow::Entry { index, .. } => !headers && *index < entries.len() && entries[*index].id == id,
        VisibleRow::GroupHeader(h) => headers && members_hold(entries, &h.members, id),
        VisibleRow::DayHeader { .. } => false,
    }
}

/// The selectable index of the first row the search picks, as `cursor_at` says.
fn first_cursor(entries: &Vec<TimeEntry>, rows: &Vec<VisibleRow>, id: u64, headers: bool) -> (r: Option<usize>)
    ensures
        (match r {
            Some(c) => Some(c as nat),
            None => None,
        }) == cursor_at(entries@, row_views(rows@), id, headers),
{
    let ghost rs = row_views(rows@);
    let mut count: usize = 0;
    let mut p: usize = 0;
    while p < rows.len()
        invariant
            rs == row_views(rows@),
            p <= rows@.len(),
            count == selectable_count(rs.take(p as int)),
            count <= p,
            forall|q: int| 0 <= q < p ==> !picked(entries@, #[trigger] rs[q], id, headers),
        decreases rows@.len() - p,
    {
        assert(rs.take(p + 1).drop_last() =~= rs.take(p as int));
        assert(rs[p as int] == rows@[p as int]@);
        if picks(entries, &rows[p], id, headers) {
            proof { lemma_first_pick_unique(entries@, rs, p as int, id, headers); }
            return Some(count);
        }
        if !matches!(rows[p], VisibleRow::DayHeader { .. }) {
            count += 1;
        }
        p += 1;
    }
    assert(!exists|q: int| first_pick(entries@, rs, q, id, headers));
    None
}

/// The selectable index showing entry `id`: its own row where it has one, else
/// the header of the collapsed group that holds it. Its own row wins: an
/// expanded member is on screen twice over, once as itself.
pub fn selectable_index_of(entries: &Vec<TimeEntry>, rows: &Vec<VisibleRow>, id: u64) -> (r: Option<usize>)
    ensures
        (match r {
            Some(c) => Some(c as nat),
            None => None,
        }) == (match cursor_at(entries@, row_views(rows@), id, false) {
            Some(c) => Some(c),
            None => cursor_at(entries@, row_views(rows@), id, true),
        }),
{
    match first_cursor(entries, rows, id, false) {
        Some(c) => Some(c),
        None => first_cursor(entries, rows, id, true),
    }
}

proof fn lemma_nth_selectable_unique(rs: Seq<RowView>, n: nat, p: int, q: int)
    requires
        nth_selectable(rs, n, p),
        nth_selectable(rs, n, q),
    ensures
        p == q,
{
    if p < q {
        lemma_count_grows(rs, p + 1, q);
        assert(rs.take(p + 1).drop_last() =~= rs.take(p));
    } else if q < p {
        lemma_count_grows(rs, q + 1, p);
        assert(rs.take(q + 1).drop_last() =~= rs.take(q));
    }
}

/// The row under the cursor, which counts selectable rows only.
pub open spec fn cursor_row(rs: Seq<RowView>, selected: Option<usize>) -> Option<RowView> {
    match selected {
        Some(s) => if exists|p: int| nth_selectable(rs, s as nat, p) {
            Some(rs[choose|p: int| nth_selectable(rs, s as nat, p)])
        } else {
            None
        },
        None => None,
    }
}

/// Take `tag` out of the expanded issues; whether it was there.
fn remove_tag(expanded: &mut Vec<String>, tag: &Vec<char>) -> (r: bool)
    ensures
        r == views(old(expanded)@).contains(tag@),
        forall|x: Seq<char>| #[trigger] views(final(expanded)@).contains(x) == (views(old(expanded)@).contains(x) && x != tag@),
{
    let ghost before = views(expanded@);
    let mut kept: Vec<String> = Vec::new();
    let mut found = false;
    let mut i: usize = 0;
    while i < expanded.len()
        invariant
            before == views(expanded@),
            i <= expanded@.len(),
            found == exists|j: int| 0 <= j < i && before[j] == tag@,
            forall|x: Seq<char>| #[trigger] views(kept@).contains(x) == (exists|j: int| 0 <= j < i && before[j] == x && x != tag@),
        decreases expanded@.len() - i,
    {
        let e = chars_of(expanded[i].as_str());
        assert(before[i as int] == e@);
        let ghost old_kept = views(kept@);
        if chars_eq(&e, tag) {
            found = true;
        } else {
            let c = expanded[i].clone();
            kept.push(c);
            assert(views(kept@) =~= old_kept.push(e@));
        }
        assert forall|x: Seq<char>| #[trigger] views(kept@).contains(x) == (exists|j: int| 0 <= j < i + 1 && before[j] == x && x != tag@) by {
            if views(kept@).contains(x) {
                if old_kept.contains(x) {
                } else {
                    assert(x == e@);
                    assert(before[i as int] == x);
                }
            }
            if exists|j: int| 0 <= j < i + 1 && before[j] == x && x != tag@ {
                let j = choose|j: int| 0 <= j < i + 1 && before[j] == x && x != tag@;
                if j < i {
                    assert(old_kept.contains(x));
                    if views(kept@) != old_kept {
                        assert(views(kept@)[old_kept.len() as int] == e@);
                        let k = choose|k: int| 0 <= k < old_kept.len() && old_kept[k] == x;
                        assert(views(kept@)[k] == x);
                    }
                } else {
                    assert(views(kept@)[views(kept@).len() - 1] == x);
                }
            }
        }
        i += 1;
    }
    *expanded = kept;
    proof {
        assert forall|x: Seq<char>| #[trigger] before.contains(x) == (exists|j: int| 0 <= j < before.len() && before[j] == x) by {}
    }
    found
}

/// What `g` does on the cursor's row. On a group header it flips the issue's
/// expanded state, and the cursor keeps its index: expanding inserts rows after
/// the header. On a member row it collapses the group and hands back the entry's
/// id, for the cursor to follow onto the header that now holds it. Anything else
/// is left alone.
pub fn toggle_group_at_cursor(entries: &Vec<TimeEntry>, rows: &Vec<VisibleRow>, selected: Option<usize>, expanded: &mut Vec<String>) -> (follow: Option<u64>)
    ensures
        match cursor_row(row_views(rows@), selected) {
            Some(RowView::Header { tag, .. }) => {
                &&& follow is None
                &&& forall|x: Seq<char>| #[trigger] views(final(expanded)@).contains(x) == if views(old(expanded)@).contains(tag) {
                    views(old(expanded)@).contains(x) && x != tag
                } else {
                    views(old(expanded)@).contains(x) || x == tag
                }
            },
            Some(RowView::Entry { index, member: Some((tag, _)) }) => {
                &&& follow == (if index < entries@.len() { Some(entries@[index as int].id) } else { None })
                &&& forall|x: Seq<char>| #[trigger] views(final(expanded)@).contains(x) == (views(old(expanded)@).contains(x) && x != tag)
            },
            _ => follow is None && final(expanded)@ == old(expanded)@,
        },
{
    let ghost rs = row_views(rows@);
    let pos = match selected {
        Some(s) => selected_position(rows, s),
        None => None,
    };
    let p = match pos {
        Some(p) => p,
        None => {
            proof {
                if let Some(s) = selected {
                    if exists|q: int| nth_selectable(rs, s as nat, q) {
                        let q = choose|q: int| nth_selectable(rs, s as nat, q);
                        lemma_count_grows(rs, q + 1, rs.len() as int);
                        assert(rs.take(q + 1).drop_last() =~= rs.take(q));
                        assert(rs.take(rs.len() as int) =~= rs);
                    }
                }
            }
            return None;
        },
    };
    proof {
        let s = selected->Some_0;
        let q = choose|q: int| nth_selectable(rs, s as nat, q);
        lemma_nth_selectable_unique(rs, s as nat, p as int, q);
        assert(rs[p as int] == rows@[p as int]@);
    }
    match &rows[p] {
        VisibleRow::GroupHeader(h) => {
            let t = chars_of(h.tag.as_str());
            let ghost old_ex = views(expanded@);
            if !remove_tag(expanded, &t) {
                let ghost mid = views(expanded@);
                expanded.push(h.tag.clone());
                proof {
                    assert(views(expanded@) =~= mid.push(t@));
                    let now_ex = views(expanded@);
                    assert(now_ex[mid.len() as int] == t@);
                    assert forall|x: Seq<char>| #[trigger] now_ex.contains(x) == (old_ex.contains(x) || x == t@) by {
                        if x == t@ {
                            assert(now_ex[mid.len() as int] == x);
                        } else {
                            if now_ex.contains(x) {
                                let k = choose|k: int| 0 <= k < now_ex.len() && now_ex[k] == x;
                                assert(k != mid.len());
                                assert(mid[k] == x);
                                assert(mid.contains(x));
                            }
                            if old_ex.contains(x) {
                                assert(mid.contains(x));
                                let k = choose|k: int| 0 <= k < mid.len() && mid[k] == x;
                                assert(now_ex[k] == x);
                            }
                        }
                    }
                }
            }
            None
        },
        VisibleRow::Entry { index, member: Some(m) } => {
            let id = if *index < entries.len() { Some(entries[*index].id) } else { None };
            let t = chars_of(m.tag.as_str());
            remove_tag(expanded, &t);
            id
        },
        _ => None,
    }
}

// --- a group's live total -------------------------------------------------------------

/// The seconds of the entries at `members`, a running one measured to `now`; an
/// index past the entries adds nothing.
pub open spec fn members_seconds(entries: Seq<TimeEntry>, members: Seq<usize>, now: int) -> int
    decreases members.len(),
{
    if members.len() == 0 {
        0
    } else {
        let i = members.last();
        members_seconds(entries, members.drop_last(), now) + if i < entries.len() {
            (match entries[i as int].end_time {
                Some(end) => end as int,
                None => now,
            }) - entries[i as int].start_time
        } else {
            0
        }
    }
}

/// The sum of the entries at `members` as of `now`: what a group header shows.
pub fn members_total_at(entries: &Vec<TimeEntry>, members: &Vec<usize>, now: i64) -> (r: i128)
    requires
        members@.len() <= MAX_ENTRIES,
    ensures
        r == members_seconds(entries@, members@, now as int),
{
    let mut total: i128 = 0;
    let mut p: usize = 0;
    while p < members.len()
        invariant
            p <= members@.len(),
            members@.len() <= MAX_ENTRIES,
            total == members_seconds(entries@, members@.take(p as int), now as int),
            -0x2_0000_0000_0000_0000 * p <= total <= 0x2_0000_0000_0000_0000 * p,
        decreases members@.len() - p,
    {
        assert(members@.take(p + 1).drop_last() =~= members@.take(p as int));
        let i = members[p];
        if i < entries.len() {
            total = total + entries[i].duration_at(now);
        }
        p += 1;
    }
    assert(members@.take(members@.len() as int) =~= members@);
    total
}

/// The live sum of the entries at `members`, a running one measured to the
/// clock's reading.
pub fn members_total(entries: &Vec<TimeEntry>, members: &Vec<usize>) -> (r: i128)
    requires
        members@.len() <= MAX_ENTRIES,
    ensures
        exists|now: i64| r == members_seconds(entries@, members@, now as int),
{
    members_total_at(entries, members, crate::clock::now())
}

// --- laws of the row model ----------------------------------------------------------

/// Whether position `k` of `seg` is the first one filed under `tag`.
pub open spec fn opens_at(entries: Seq<TimeEntry>, seg: Seq<usize>, k: int, tag: Seq<char>) -> bool {
    &&& 0 <= k < seg.len()
    &&& in_issue(entries, seg[k], tag)
    &&& members_of(entries, seg.take(k), tag).len() == 0
}

proof fn lemma_opens_unique(entries: Seq<TimeEntry>, seg: Seq<usize>, k1: int, k2: int, tag: Seq<char>)
    requires
        opens_at(entries, seg, k1, tag),
        opens_at(entries, seg, k2, tag),
    ensures
        k1 == k2,
{
    if k1 < k2 {
        lemma_no_members(entries, seg.take(k2), tag);
        assert(seg.take(k2)[k1] == seg[k1]);
    } else if k2 < k1 {
        lemma_no_members(entries, seg.take(k1), tag);
        assert(seg.take(k1)[k2] == seg[k2]);
    }
}

/// A slot's only header is its first row, and it names the issue that opens there.
proof fn lemma_slot_header(entries: Seq<TimeEntry>, seg: Seq<usize>, k: int, ex: Seq<Seq<char>>, j: int)
    requires
        0 <= k < seg.len(),
        0 <= j < slot_rows(entries, seg, k, ex).len(),
        slot_rows(entries, seg, k, ex)[j] is Header,
    ensures
        j == 0,
        opens_at(entries, seg, k, slot_rows(entries, seg, k, ex)[j]->tag),
{
}

/// The rows of a shorter prefix open the rows of a longer one.
proof fn lemma_rows_prefix(entries: Seq<TimeEntry>, seg: Seq<usize>, k: int, n: int, ex: Seq<Seq<char>>)
    requires
        0 <= k <= n,
    ensures
        rows_upto(entries, seg, k, ex).len() <= rows_upto(entries, seg, n, ex).len(),
        rows_upto(entries, seg, n, ex).take(rows_upto(entries, seg, k, ex).len() as int) == rows_upto(entries, seg, k, ex),
    decreases n - k,
{
    if k < n {
        lemma_rows_prefix(entries, seg, k, n - 1, ex);
        let a = rows_upto(entries, seg, k, ex);
        let b = rows_upto(entries, seg, n - 1, ex);
        assert(rows_upto(entries, seg, n, ex).take(a.len() as int) =~= b.take(a.len() as int));
    } else {
        assert(rows_upto(entries, seg, n, ex).take(rows_upto(entries, seg, k, ex).len() as int) =~= rows_upto(entries, seg, k, ex));
    }
}

/// A header among a prefix's rows stands where the slot opening its issue starts.
proof fn header_slot(entries: Seq<TimeEntry>, seg: Seq<usize>, n: int, ex: Seq<Seq<char>>, p: int) -> (k0: int)
    requires
        0 <= n <= seg.len(),
        0 <= p < rows_upto(entries, seg, n, ex).len(),
        rows_upto(entries, seg, n, ex)[p] is Header,
    ensures
        0 <= k0 < n,
        opens_at(entries, seg, k0, rows_upto(entries, seg, n, ex)[p]->tag),
        p == rows_upto(entries, seg, k0, ex).len(),
    decreases n,
{
    let prior = rows_upto(entries, seg, n - 1, ex);
    if p < prior.len() {
        assert(rows_upto(entries, seg, n, ex)[p] == prior[p]);
        header_slot(entries, seg, n - 1, ex, p)
    } else {
        let j = p - prior.len();
        assert(rows_upto(entries, seg, n, ex)[p] == slot_rows(entries, seg, n - 1, ex)[j]);
        lemma_slot_header(entries, seg, n - 1, ex, j);
        n - 1
    }
}

/// Within one partition's rows an issue has at most one group header: the header
/// stands where the issue's first entry does, and its later entries add no row.
pub proof fn lemma_one_header_per_issue(entries: Seq<TimeEntry>, seg: Seq<usize>, ex: Seq<Seq<char>>, p: int, q: int)
    requires
        0 <= p < q < segment_rows(entries, seg, ex).len(),
        segment_rows(entries, seg, ex)[p] is Header,
        segment_rows(entries, seg, ex)[q] is Header,
    ensures
        segment_rows(entries, seg, ex)[p]->tag != segment_rows(entries, seg, ex)[q]->tag,
{
    let n = seg.len() as int;
    let kp = header_slot(entries, seg, n, ex, p);
    let kq = header_slot(entries, seg, n, ex, q);
    if segment_rows(entries, seg, ex)[p]->tag == segment_rows(entries, seg, ex)[q]->tag {
        lemma_opens_unique(entries, seg, kp, kq, segment_rows(entries, seg, ex)[p]->tag);
    }
}

/// Expanded sets that differ at most in `tag` give the same rows up to the slot
/// where `tag` opens.
proof fn lemma_rows_agree_before(entries: Seq<TimeEntry>, seg: Seq<usize>, k0: int, tag: Seq<char>, ex: Seq<Seq<char>>, ex2: Seq<Seq<char>>, n: int)
    requires
        opens_at(entries, seg, k0, tag),
        0 <= n <= k0,
        forall|x: Seq<char>| x != tag ==> ex2.contains(x) == ex.contains(x),
    ensures
        rows_upto(entries, seg, n, ex) == rows_upto(entries, seg, n, ex2),
    decreases n,
{
    if n > 0 {
        lemma_rows_agree_before(entries, seg, k0, tag, ex, ex2, n - 1);
        let k = n - 1;
        let i = seg[k];
        if i < entries.len() {
            if let Some(t) = issue_at(entries, i) {
                if members_of(entries, seg.take(k), t).len() == 0 && t == tag {
                    lemma_opens_unique(entries, seg, k, k0, tag);
                }
            }
        }
        assert(slot_rows(entries, seg, k, ex) == slot_rows(entries, seg, k, ex2));
    }
}

/// In a view of one partition, `g` on a group header leaves the cursor on that
/// issue's header once the rows are rebuilt: flipping the issue's expanded state
/// only adds or drops rows after its header.
pub proof fn lemma_toggle_keeps_the_cursor(
    entries: Seq<TimeEntry>,
    days: Seq<Option<i32>>,
    idx: Seq<usize>,
    view: ViewMode,
    ex: Seq<Seq<char>>,
    ex2: Seq<Seq<char>>,
    s: usize,
    tag: Seq<char>,
)
    requires
        view != ViewMode::Week,
        cursor_row(table_rows(entries, days, idx, view, ex), Some(s)) matches Some(RowView::Header { tag: t, .. }) && t == tag,
        forall|x: Seq<char>| x != tag ==> ex2.contains(x) == ex.contains(x),
    ensures
        cursor_row(table_rows(entries, days, idx, view, ex2), Some(s)) matches Some(RowView::Header { tag: t, .. }) && t == tag,
{
    let rs = segment_rows(entries, idx, ex);
    let rs2 = segment_rows(entries, idx, ex2);
    let n = idx.len() as int;
    let p = choose|p: int| nth_selectable(rs, s as nat, p);
    let k0 = header_slot(entries, idx, n, ex, p);
    lemma_rows_agree_before(entries, idx, k0, tag, ex, ex2, k0);
    let before = rows_upto(entries, idx, k0, ex);
    // The slot that opens the issue yields a header under either set.
    lemma_rows_prefix(entries, idx, k0 + 1, n, ex);
    lemma_rows_prefix(entries, idx, k0 + 1, n, ex2);
    assert(rs[p] == rows_upto(entries, idx, k0 + 1, ex)[p]);
    assert(rows_upto(entries, idx, k0 + 1, ex)[p] == slot_rows(entries, idx, k0, ex)[0]);
    let ms = members_of(entries, idx, tag);
    assert(ms.len() >= 2);
    assert(rows_upto(entries, idx, k0 + 1, ex2)[p] == slot_rows(entries, idx, k0, ex2)[0]);
    assert(rs2[p] == rows_upto(entries, idx, k0 + 1, ex2)[p]);
    assert(rs2[p] is Header && rs2[p]->tag == tag);
    // Everything before it is the same rows.
    lemma_rows_prefix(entries, idx, k0, n, ex);
    lemma_rows_prefix(entries, idx, k0, n, ex2);
    assert(rs.take(p) == before);
    assert(rs2.take(p) == before);
    assert(nth_selectable(rs2, s as nat, p));
    let p2 = choose|q: int| nth_selectable(rs2, s as nat, q);
    lemma_nth_selectable_unique(rs2, s as nat, p, p2);
}

/// A group header folds two or more entries, every one of them filed under its
/// issue: exactly the partition's entries of that issue, in listing order.
pub proof fn lemma_headers_fold_an_issue(entries: Seq<TimeEntry>, seg: Seq<usize>, ex: Seq<Seq<char>>, p: int)
    requires
        0 <= p < segment_rows(entries, seg, ex).len(),
        segment_rows(entries, seg, ex)[p] is Header,
    ensures
        ({
            let h = segment_rows(entries, seg, ex)[p];
            &&& h->members == members_of(entries, seg, h->tag)
            &&& h->members.len() >= 2
            &&& forall|n: int| 0 <= n < h->members.len() ==> in_issue(entries, #[trigger] h->members[n], h->tag)
        }),
{
    let n = seg.len() as int;
    let k0 = header_slot(entries, seg, n, ex, p);
    let tag = segment_rows(entries, seg, ex)[p]->tag;
    lemma_rows_prefix(entries, seg, k0 + 1, n, ex);
    assert(segment_rows(entries, seg, ex)[p] == rows_upto(entries, seg, k0 + 1, ex)[p]);
    assert(rows_upto(entries, seg, k0 + 1, ex)[p] == slot_rows(entries, seg, k0, ex)[0]);
    lemma_members_in_issue(entries, seg, tag);
}

/// How the table lays the row model out, over its first `n` rows, for a store of
/// `len` entries: the stripe the next top-level entry takes, each drawn row's
/// stripe (`None` for a header), and for each selectable row where it draws. The
/// stripe alternates over top-level entries and starts again under each day; a
/// member of an expanded group takes the stripe of where it stands and passes it
/// on unchanged; a row naming no entry of the store is not drawn.
pub open spec fn layout(rows: Seq<VisibleRow>, n: int, len: int) -> (bool, Seq<Option<bool>>, Seq<usize>)
    decreases n,
{
    if n <= 0 {
        (false, seq![], seq![])
    } else {
        let before = layout(rows, n - 1, len);
        let stripe = before.0;
        let drawn = before.1;
        let visual = before.2;
        match rows[n - 1] {
            VisibleRow::DayHeader { .. } => (false, drawn.push(None), visual),
            VisibleRow::GroupHeader(_) => (stripe, drawn.push(None), visual.push(drawn.len() as usize)),
            VisibleRow::Entry { index, member } => if index < len {
                (if member is None {
                    !stripe
                } else {
                    stripe
                }, drawn.push(Some(stripe)), visual.push(drawn.len() as usize))
            } else {
                before
            },
        }
    }
}

proof fn lemma_layout_grows(rows: Seq<VisibleRow>, n: int, len: int)
    requires
        0 <= n <= usize::MAX,
    ensures
        layout(rows, n, len).1.len() <= n,
        layout(rows, n, len).2.len() <= layout(rows, n, len).1.len(),
        forall|i: int, j: int|
            0 <= i < j < layout(rows, n, len).2.len() ==> layout(rows, n, len).2[i] < layout(rows, n, len).2[j],
        forall|i: int|
            0 <= i < layout(rows, n, len).2.len() ==> (#[trigger] layout(rows, n, len).2[i]) < layout(rows, n, len).1.len(),
    decreases n,
{
    if n > 0 {
        lemma_layout_grows(rows, n - 1, len);
        let prev = layout(rows, n - 1, len);
        let cur = layout(rows, n, len);
        if cur.2.len() > prev.2.len() {
            assert(cur.2 == prev.2.push(prev.1.len() as usize));
            assert forall|i: int, j: int| 0 <= i < j < cur.2.len() implies cur.2[i] < cur.2[j] by {
                if j < prev.2.len() {
                    assert(cur.2[i] == prev.2[i] && cur.2[j] == prev.2[j]);
                } else {
                    assert(cur.2[i] == prev.2[i]);
                    assert(prev.2[i] < prev.1.len());
                }
            }
        }
    }
}

/// Draw order of the rows and where the cursor's selectable rows land among
/// them, the stripes alternating as [`layout`] says. The positions rise strictly
/// and each names a drawn row.
pub fn table_layout(rows: &Vec<VisibleRow>, len: usize) -> (r: (Vec<Option<bool>>, Vec<usize>))
    ensures
        r.0@ == layout(rows@, rows@.len() as int, len as int).1,
        r.1@ == layout(rows@, rows@.len() as int, len as int).2,
        forall|i: int, j: int| 0 <= i < j < r.1@.len() ==> r.1@[i] < r.1@[j],
        forall|i: int| 0 <= i < r.1@.len() ==> (#[trigger] r.1@[i]) < r.0@.len(),
{
    let mut stripe = false;
    let mut drawn: Vec<Option<bool>> = Vec::new();
    let mut visual: Vec<usize> = Vec::new();
    let mut i: usize = 0;
    while i < rows.len()
        invariant
            i <= rows@.len(),
            drawn@.len() <= i,
            (stripe, drawn@, visual@) == layout(rows@, i as int, len as int),
        decreases rows.len() - i,
    {
        match &rows[i] {
            VisibleRow::DayHeader { .. } => {
                stripe = false;
                drawn.push(None);
            },
            VisibleRow::GroupHeader(_) => {
                visual.push(drawn.len());
                drawn.push(None);
            },
            VisibleRow::Entry { index, member } => {
                if *index < len {
                    visual.push(drawn.len());
                    drawn.push(Some(stripe));
                    if member.is_none() {
                        stripe = !stripe;
                    }
                }
            },
        }
        i += 1;
    }
    proof {
        lemma_layout_grows(rows@, rows@.len() as int, len as int);
    }
    (drawn, visual)
}

} // verus!
