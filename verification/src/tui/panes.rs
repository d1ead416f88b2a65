//! The collapsible Projects / Tags pane surface: what each pane offers from the
//! entries of the view's scope, and the focus, cursors and selections that move
//! over it.
//!
//! A pane lists the distinct values found in the scope *before* any filter, with
//! the number of entries each matches, so it never offers a value that matches
//! nothing and never hides the value just filtered on.

use vstd::prelude::*;
use crate::marks::opt_string;
use crate::report::{add_phase, indexed_phases, key_position, keys_of, phase_views, rank_exec, rank_views, ranked};
use crate::text::{chars_eq, chars_of, string_of, trim, trim_chars, views};
use crate::tracker::{derefs, TimeEntry, MAX_ENTRIES};
use crate::tui::types::{Focus, Pane};

verus! {

/// The Projects value an entry offers: its trimmed project, unless it has none or
/// only whitespace. "No project" is an absence, not a value to filter on.
pub open spec fn project_offered(e: TimeEntry) -> Seq<Seq<char>> {
    match opt_string(e.project) {
        Some(p) => if trim(p).len() > 0 {
            seq![trim(p)]
        } else {
            seq![]
        },
        None => seq![],
    }
}

/// The Tags values an entry offers: its trimmed tags in order, blanks skipped and
/// a repeated tag offered once.
pub open spec fn tags_offered(tags: Seq<Seq<char>>) -> Seq<Seq<char>>
    decreases tags.len(),
{
    if tags.len() == 0 {
        seq![]
    } else {
        let before = tags_offered(tags.drop_last());
        let t = trim(tags.last());
        if t.len() == 0 || before.contains(t) {
            before
        } else {
            before.push(t)
        }
    }
}

/// What an entry offers a pane.
pub open spec fn offered(e: TimeEntry, pane: Pane) -> Seq<Seq<char>> {
    match pane {
        Pane::Projects => project_offered(e),
        Pane::Tags => tags_offered(views(e.tags@)),
    }
}

/// Counts by value, one more for each of `vs`.
pub open spec fn tally_in(counts: Seq<(Seq<char>, int)>, vs: Seq<Seq<char>>) -> Seq<(Seq<char>, int)>
    decreases vs.len(),
{
    if vs.len() == 0 {
        counts
    } else {
        add_phase(tally_in(counts, vs.drop_last()), vs.last(), 1)
    }
}

/// How many of the entries offer each value.
pub open spec fn tally(entries: Seq<TimeEntry>, pane: Pane) -> Seq<(Seq<char>, int)>
    decreases entries.len(),
{
    if entries.len() == 0 {
        seq![]
    } else {
        tally_in(tally(entries.drop_last(), pane), offered(entries.last(), pane))
    }
}

/// A pane's rows: each distinct value with the entries matching it, most used
/// first, the name breaking ties.
pub open spec fn pane_list(entries: Seq<TimeEntry>, pane: Pane) -> Seq<(Seq<char>, int)> {
    ranked(indexed_phases(tally(entries, pane))).map_values(|x: (Seq<char>, int, int)| (x.0, x.1))
}

pub open spec fn value_views(v: Seq<(String, usize)>) -> Seq<(Seq<char>, int)> {
    v.map_values(|x: (String, usize)| (x.0@, x.1 as int))
}

proof fn lemma_tags_offered_distinct(tags: Seq<Seq<char>>)
    ensures
        tags_offered(tags).no_duplicates(),
    decreases tags.len(),
{
    if tags.len() > 0 {
        lemma_tags_offered_distinct(tags.drop_last());
    }
}

/// Whether `v` is among `vs`.
fn among(vs: &Vec<Vec<char>>, v: &Vec<char>) -> (r: bool)
    ensures
        r == vs@.map_values(|x: Vec<char>| x@).contains(v@),
{
    let ghost vv = vs@.map_values(|x: Vec<char>| x@);
    let mut i: usize = 0;
    while i < vs.len()
        invariant
            vv == vs@.map_values(|x: Vec<char>| x@),
            i <= vs@.len(),
            forall|j: int| 0 <= j < i ==> vv[j] != v@,
        decreases vs@.len() - i,
    {
        if chars_eq(&vs[i], v) {
            assert(vv[i as int] == v@);
            return true;
        }
        i += 1;
    }
    false
}

/// The values an entry offers a pane, as characters.
fn offered_exec(e: &TimeEntry, pane: Pane) -> (r: Vec<Vec<char>>)
    ensures
        r@.map_values(|x: Vec<char>| x@) == offered(*e, pane),
{
    let mut out: Vec<Vec<char>> = Vec::new();
    match pane {
        Pane::Projects => {
            if let Some(p) = &e.project {
                let t = trim_chars(&chars_of(p.as_str()));
                if t.len() > 0 {
                    out.push(t);
                }
            }
            assert(out@.map_values(|x: Vec<char>| x@) =~= project_offered(*e));
        },
        Pane::Tags => {
            let ghost ts = views(e.tags@);
            let mut i: usize = 0;
            assert(out@.map_values(|x: Vec<char>| x@) =~= tags_offered(ts.take(0)));
            while i < e.tags.len()
                invariant
                    ts == views(e.tags@),
                    i <= e.tags@.len(),
                    out@.map_values(|x: Vec<char>| x@) == tags_offered(ts.take(i as int)),
                decreases e.tags@.len() - i,
            {
                assert(ts.take(i + 1).drop_last() =~= ts.take(i as int));
                assert(ts.take(i + 1).last() == e.tags@[i as int]@);
                let t = trim_chars(&chars_of(e.tags[i].as_str()));
                if t.len() > 0 && !among(&out, &t) {
                    let ghost before = out@.map_values(|x: Vec<char>| x@);
                    out.push(t);
                    assert(out@.map_values(|x: Vec<char>| x@) =~= before.push(t@));
                }
                i += 1;
            }
            assert(ts.take(e.tags@.len() as int) =~= ts);
        },
    }
    out
}

pub open spec fn chars_views(v: Seq<Vec<char>>) -> Seq<Seq<char>> {
    v.map_values(|x: Vec<char>| x@)
}

/// Whether every count is at least one and at most `i`, plus one for a value
/// already among `seen`.
pub open spec fn counts_within(counts: Seq<(Seq<char>, int)>, i: int, seen: Seq<Seq<char>>) -> bool {
    forall|k: int| 0 <= k < counts.len() ==> 1 <= #[trigger] counts[k].1 <= i + if seen.contains(counts[k].0) { 1int } else { 0 }
}

/// Count one more for each of `vs`, a list holding no value twice.
fn tally_exec(counts: &mut Vec<(String, i64)>, vs: &Vec<Vec<char>>, i: Ghost<int>)
    requires
        chars_views(vs@).no_duplicates(),
        0 <= i@ < MAX_ENTRIES,
        counts_within(phase_views(old(counts)@), i@, seq![]),
    ensures
        phase_views(final(counts)@) == tally_in(phase_views(old(counts)@), chars_views(vs@)),
        counts_within(phase_views(final(counts)@), i@ + 1, seq![]),
{
    let ghost start = phase_views(counts@);
    let ghost vv = chars_views(vs@);
    let mut j: usize = 0;
    assert(tally_in(start, vv.take(0)) == start);
    assert forall|k: int| 0 <= k < start.len() implies 1 <= #[trigger] start[k].1 <= i@ + if vv.take(0).contains(start[k].0) { 1int } else { 0 } by {
        assert(!(Seq::<Seq<char>>::empty()).contains(start[k].0));
        assert(vv.take(0) =~= Seq::<Seq<char>>::empty());
    }
    while j < vs.len()
        invariant
            vv == chars_views(vs@),
            vv.no_duplicates(),
            0 <= i@ < MAX_ENTRIES,
            j <= vs@.len(),
            phase_views(counts@) == tally_in(start, vv.take(j as int)),
            counts_within(phase_views(counts@), i@, vv.take(j as int)),
        decreases vs@.len() - j,
    {
        let ghost pv = phase_views(counts@);
        let ghost seen = vv.take(j as int);
        let ghost v = vv[j as int];
        assert(vv.take(j + 1).drop_last() =~= seen);
        assert(vv.take(j + 1).last() == v);
        assert(vs@[j as int]@ == v);
        assert(!seen.contains(v)) by {
            if seen.contains(v) {
                let x = choose|x: int| 0 <= x < seen.len() && seen[x] == v;
                assert(vv[x] == vv[j as int]);
            }
        }
        assert(keys_of(pv) =~= counts@.map_values(|x: (String, i64)| x.0@));
        let (q, found) = key_position(&counts, &vs[j]);
        if found {
            assert(pv[q as int].1 <= i@);
            let (n, c) = counts.remove(q);
            counts.insert(q, (n, c + 1));
        } else {
            counts.insert(q, (string_of(&vs[j]), 1));
        }
        assert(phase_views(counts@) =~= add_phase(pv, v, 1));
        let ghost now = phase_views(counts@);
        let ghost seen2 = vv.take(j + 1);
        assert forall|k: int| 0 <= k < now.len() implies 1 <= #[trigger] now[k].1 <= i@ + if seen2.contains(now[k].0) { 1int } else { 0 } by {
            assert forall|x: Seq<char>| x != v implies seen2.contains(x) == seen.contains(x) by {
                if seen2.contains(x) {
                    let y = choose|y: int| 0 <= y < seen2.len() && seen2[y] == x;
                    assert(y < seen.len());
                    assert(seen[y] == x);
                }
                if seen.contains(x) {
                    let y = choose|y: int| 0 <= y < seen.len() && seen[y] == x;
                    assert(seen2[y] == x);
                }
            }
            assert(seen2[seen.len() as int] == v);
            if found {
                if k != q {
                    assert(now[k] == pv[k]);
                }
            } else {
                if k < q {
                    assert(now[k] == pv[k]);
                } else if k > q {
                    assert(now[k] == pv[k - 1]);
                }
            }
        }
        j += 1;
    }
    assert(vv.take(vs@.len() as int) =~= vv);
    let ghost fin = phase_views(counts@);
    assert forall|k: int| 0 <= k < fin.len() implies 1 <= #[trigger] fin[k].1 <= (i@ + 1) + if Seq::<Seq<char>>::empty().contains(fin[k].0) { 1int } else { 0 } by {}
}

/// Distinct values in the scope's entries with their match counts, most used first
/// and ties broken by name, so the order is stable. An entry with no project
/// offers no Projects row, and a tag repeated within one entry is one match.
pub fn pane_values(entries: &Vec<&TimeEntry>, pane: Pane) -> (r: Vec<(String, usize)>)
    requires
        entries@.len() <= MAX_ENTRIES,
    ensures
        value_views(r@) == pane_list(derefs(entries@), pane),
{
    let ghost es = derefs(entries@);
    let mut counts: Vec<(String, i64)> = Vec::new();
    let mut i: usize = 0;
    assert(es.take(0) =~= Seq::<TimeEntry>::empty());
    assert(phase_views(counts@) =~= Seq::<(Seq<char>, int)>::empty());
    while i < entries.len()
        invariant
            es == derefs(entries@),
            entries@.len() <= MAX_ENTRIES,
            i <= entries@.len(),
            phase_views(counts@) == tally(es.take(i as int), pane),
            counts_within(phase_views(counts@), i as int, seq![]),
        decreases entries@.len() - i,
    {
        assert(es.take(i + 1).drop_last() =~= es.take(i as int));
        assert(es.take(i + 1).last() == *entries@[i as int]);
        let vs = offered_exec(entries[i], pane);
        proof {
            if pane == Pane::Tags {
                lemma_tags_offered_distinct(views(entries@[i as int].tags@));
            }
            assert(chars_views(vs@) == offered(*entries@[i as int], pane));
        }
        tally_exec(&mut counts, &vs, Ghost(i as int));
        i += 1;
    }
    assert(es.take(entries@.len() as int) =~= es);
    let ghost pv = phase_views(counts@);
    let mut tagged: Vec<(Vec<char>, i64, usize)> = Vec::new();
    let mut k: usize = 0;
    while k < counts.len()
        invariant
            pv == phase_views(counts@),
            counts_within(pv, entries@.len() as int, seq![]),
            entries@.len() <= MAX_ENTRIES,
            k <= counts@.len(),
            rank_views(tagged@) == indexed_phases(pv).take(k as int),
        decreases counts@.len() - k,
    {
        let name = chars_of(counts[k].0.as_str());
        let ghost before = rank_views(tagged@);
        tagged.push((name, counts[k].1, k));
        assert(rank_views(tagged@) =~= before.push((pv[k as int].0, pv[k as int].1, k as int)));
        assert(indexed_phases(pv).take(k + 1) =~= indexed_phases(pv).take(k as int).push(indexed_phases(pv)[k as int]));
        k += 1;
    }
    assert(indexed_phases(pv).take(counts@.len() as int) =~= indexed_phases(pv));
    let order = rank_exec(tagged);
    let ghost ov = rank_views(order@);
    proof {
        crate::report::lemma_ranked_positions(indexed_phases(pv));
    }
    let mut out: Vec<(String, usize)> = Vec::new();
    let mut n: usize = 0;
    while n < order.len()
        invariant
            ov == rank_views(order@),
            ov == ranked(indexed_phases(pv)),
            ov.len() == indexed_phases(pv).len(),
            forall|q: int| 0 <= q < ov.len() ==> exists|p: int| 0 <= p < indexed_phases(pv).len() && #[trigger] ov[q] == indexed_phases(pv)[p],
            counts_within(pv, entries@.len() as int, seq![]),
            entries@.len() <= MAX_ENTRIES,
            n <= order@.len(),
            value_views(out@) == ov.take(n as int).map_values(|x: (Seq<char>, int, int)| (x.0, x.1)),
        decreases order@.len() - n,
    {
        let ghost before = value_views(out@);
        proof {
            let p = choose|p: int| 0 <= p < indexed_phases(pv).len() && ov[n as int] == indexed_phases(pv)[p];
            assert(ov[n as int].1 == pv[p].1);
            assert(1 <= pv[p].1 <= entries@.len());
        }
        let count = order[n].1;
        out.push((string_of(&order[n].0), count as usize));
        assert(value_views(out@) =~= before.push((ov[n as int].0, ov[n as int].1)));
        assert(ov.take(n + 1).map_values(|x: (Seq<char>, int, int)| (x.0, x.1))
            =~= ov.take(n as int).map_values(|x: (Seq<char>, int, int)| (x.0, x.1)).push((ov[n as int].0, ov[n as int].1)));
        n += 1;
    }
    assert(ov.take(order@.len() as int) =~= ov);
    out
}

// --- the surface's focus, cursors and selections ----------------------------------------

/// Most value rows a pane shows before it starts scrolling.
pub const MAX_VISIBLE_VALUES: usize = 6;

/// The pane surface's state: which panes are open, where focus rests, each
/// pane's cursor and selection, and the entries table's cursor, which a change
/// of filter sends back to the top.
pub struct PaneSurface {
    pub show_projects: bool,
    pub show_tags: bool,
    pub focus: Focus,
    pub project_cursor: usize,
    pub tag_cursor: usize,
    pub selected_projects: Vec<String>,
    pub selected_tags: Vec<String>,
    pub table_selected: Option<usize>,
}

pub open spec fn shown(s: PaneSurface, pane: Pane) -> bool {
    match pane {
        Pane::Projects => s.show_projects,
        Pane::Tags => s.show_tags,
    }
}

/// The open panes, left to right: Projects then Tags.
pub open spec fn open_panes(s: PaneSurface) -> Seq<Pane> {
    (if s.show_projects { seq![Pane::Projects] } else { seq![] }) + (if s.show_tags { seq![Pane::Tags] } else { seq![] })
}

/// The focus ring: the table, then each open pane, left to right.
pub open spec fn ring(s: PaneSurface) -> Seq<Focus> {
    seq![Focus::Table] + open_panes(s).map_values(|p: Pane| Focus::Pane(p))
}

/// Where the focus sits on the ring; a focus off the ring reads as the table.
pub open spec fn ring_position(s: PaneSurface) -> int {
    if ring(s).contains(s.focus) {
        choose|i: int| 0 <= i < ring(s).len() && ring(s)[i] == s.focus
    } else {
        0
    }
}

/// The focus `delta` steps round the ring.
pub open spec fn shifted(s: PaneSurface, delta: int) -> Focus {
    ring(s)[(ring_position(s) + delta) % (ring(s).len() as int)]
}

pub open spec fn cursor_of(s: PaneSurface, pane: Pane) -> usize {
    match pane {
        Pane::Projects => s.project_cursor,
        Pane::Tags => s.tag_cursor,
    }
}

/// A cursor clamped to a list of `len` values; 0 for an empty list.
pub open spec fn clamped(cursor: int, len: int) -> int {
    let last = if len > 0 { len - 1 } else { 0 };
    if cursor < last { cursor } else { last }
}

pub open spec fn selection_of(s: PaneSurface, pane: Pane) -> Seq<Seq<char>> {
    match pane {
        Pane::Projects => views(s.selected_projects@),
        Pane::Tags => views(s.selected_tags@),
    }
}

proof fn lemma_ring_distinct(s: PaneSurface)
    ensures
        ring(s).no_duplicates(),
        1 <= ring(s).len() <= 3,
{
    let r = ring(s);
    assert forall|i: int, j: int| 0 <= i < j < r.len() implies r[i] != r[j] by {
        if s.show_projects && s.show_tags {
            assert(r =~= seq![Focus::Table, Focus::Pane(Pane::Projects), Focus::Pane(Pane::Tags)]);
        } else if s.show_projects {
            assert(r =~= seq![Focus::Table, Focus::Pane(Pane::Projects)]);
        } else if s.show_tags {
            assert(r =~= seq![Focus::Table, Focus::Pane(Pane::Tags)]);
        } else {
            assert(r =~= seq![Focus::Table]);
        }
    }
}

impl PaneSurface {
    pub fn pane_is_visible(&self, pane: Pane) -> (r: bool)
        ensures
            r == shown(*self, pane),
    {
        match pane {
            Pane::Projects => self.show_projects,
            Pane::Tags => self.show_tags,
        }
    }

    /// The open panes, left to right: Projects then Tags.
    pub fn visible_panes(&self) -> (r: Vec<Pane>)
        ensures
            r@ == open_panes(*self),
    {
        let mut out: Vec<Pane> = Vec::new();
        if self.show_projects {
            out.push(Pane::Projects);
        }
        if self.show_tags {
            out.push(Pane::Tags);
        }
        assert(out@ =~= open_panes(*self));
        out
    }

    /// The pane that has focus, if it is open.
    pub fn focused_pane(&self) -> (r: Option<Pane>)
        ensures
            r == (match self.focus {
                Focus::Pane(p) => if shown(*self, p) { Some(p) } else { None },
                Focus::Table => None,
            }),
    {
        match self.focus {
            Focus::Pane(p) => if self.pane_is_visible(p) { Some(p) } else { None },
            Focus::Table => None,
        }
    }

    /// Show or hide a pane. Hiding the focused one hands focus back to the table,
    /// so `j`/`k` never move a cursor that is no longer on screen.
    pub fn toggle_pane(&mut self, pane: Pane)
        ensures
            shown(*final(self), pane) == !shown(*old(self), pane),
            shown(*final(self), if pane == Pane::Projects { Pane::Tags } else { Pane::Projects })
                == shown(*old(self), if pane == Pane::Projects { Pane::Tags } else { Pane::Projects }),
            final(self).focus == (if !shown(*final(self), pane) && old(self).focus == Focus::Pane(pane) {
                Focus::Table
            } else {
                old(self).focus
            }),
            final(self).project_cursor == old(self).project_cursor,
            final(self).tag_cursor == old(self).tag_cursor,
            final(self).selected_projects@ == old(self).selected_projects@,
            final(self).selected_tags@ == old(self).selected_tags@,
            final(self).table_selected == old(self).table_selected,
    {
        match pane {
            Pane::Projects => self.show_projects = !self.show_projects,
            Pane::Tags => self.show_tags = !self.show_tags,
        }
        if !self.pane_is_visible(pane) && self.focus == Focus::Pane(pane) {
            self.focus = Focus::Table;
        }
    }

    /// Walk the focus ring, the table followed by the open panes left to right,
    /// by `delta` steps, wrapping. A focus pointing at a pane that is not on the
    /// ring (a pane hidden while focused) reads as the table.
    fn shift_focus(&mut self, delta: i8)
        requires
            -1 <= delta <= 1,
        ensures
            final(self).focus == shifted(*old(self), delta as int),
            final(self).show_projects == old(self).show_projects,
            final(self).show_tags == old(self).show_tags,
            final(self).project_cursor == old(self).project_cursor,
            final(self).tag_cursor == old(self).tag_cursor,
            final(self).selected_projects@ == old(self).selected_projects@,
            final(self).selected_tags@ == old(self).selected_tags@,
            final(self).table_selected == old(self).table_selected,
    {
        let ghost r = ring(*self);
        proof {
            lemma_ring_distinct(*self);
        }
        let mut order: Vec<Focus> = Vec::new();
        order.push(Focus::Table);
        let panes = self.visible_panes();
        let mut i: usize = 0;
        while i < panes.len()
            invariant
                panes@ == open_panes(*self),
                i <= panes@.len(),
                order@ == seq![Focus::Table] + panes@.take(i as int).map_values(|p: Pane| Focus::Pane(p)),
            decreases panes@.len() - i,
        {
            let ghost before = order@;
            order.push(Focus::Pane(panes[i]));
            assert(panes@.take(i + 1).map_values(|p: Pane| Focus::Pane(p))
                =~= panes@.take(i as int).map_values(|p: Pane| Focus::Pane(p)).push(Focus::Pane(panes@[i as int])));
            assert(order@ =~= seq![Focus::Table] + panes@.take(i + 1).map_values(|p: Pane| Focus::Pane(p)));
            i += 1;
        }
        assert(panes@.take(panes@.len() as int) =~= panes@);
        assert(order@ =~= r);
        let mut current: usize = 0;
        let mut k: usize = 0;
        let mut found = false;
        while k < order.len()
            invariant
                order@ == r,
                r.no_duplicates(),
                1 <= r.len() <= 3,
                k <= order@.len(),
                found ==> current < r.len() && r[current as int] == self.focus,
                !found ==> current == 0 && forall|j: int| 0 <= j < k ==> r[j] != self.focus,
            decreases order@.len() - k,
        {
            if !found && order[k] == self.focus {
                current = k;
                found = true;
            }
            k += 1;
        }
        proof {
            if found {
                let c = choose|c: int| 0 <= c < r.len() && r[c] == self.focus;
                assert(r.contains(self.focus));
                assert(c == current);
            } else {
                assert(!r.contains(self.focus));
            }
        }
        let len = order.len();
        let next = if delta < 0 {
            (current + len - 1) % len
        } else if delta > 0 {
            (current + 1) % len
        } else {
            current
        };
        proof {
            let pos = current as int;
            let n = len as int;
            if delta < 0 {
                vstd::arithmetic::div_mod::lemma_mod_multiples_vanish(1, pos - 1, n);
                assert(n * 1 + (pos - 1) == pos + n - 1);
            } else if delta == 0 {
                vstd::arithmetic::div_mod::lemma_small_mod(pos as nat, n as nat);
            }
            assert(next == (pos + delta) % n);
        }
        self.focus = order[next];
    }
}

impl PaneSurface {
    /// `Tab`: entries table, then each open pane left to right, then back.
    pub fn cycle_focus(&mut self)
        ensures
            final(self).focus == shifted(*old(self), 1),
            final(self).show_projects == old(self).show_projects,
            final(self).show_tags == old(self).show_tags,
            final(self).project_cursor == old(self).project_cursor,
            final(self).tag_cursor == old(self).tag_cursor,
            final(self).selected_projects@ == old(self).selected_projects@,
            final(self).selected_tags@ == old(self).selected_tags@,
            final(self).table_selected == old(self).table_selected,
    {
        self.shift_focus(1);
    }

    /// `Shift-Tab`: the inverse of `cycle_focus`.
    pub fn cycle_focus_back(&mut self)
        ensures
            final(self).focus == shifted(*old(self), -1),
            final(self).show_projects == old(self).show_projects,
            final(self).show_tags == old(self).show_tags,
            final(self).project_cursor == old(self).project_cursor,
            final(self).tag_cursor == old(self).tag_cursor,
            final(self).selected_projects@ == old(self).selected_projects@,
            final(self).selected_tags@ == old(self).selected_tags@,
            final(self).table_selected == old(self).table_selected,
    {
        self.shift_focus(-1);
    }

    /// A pane's cursor, clamped to the values the scope's entries offer it now: a
    /// cursor left past the end by a change of scope reads as the last value.
    pub fn pane_cursor(&self, entries: &Vec<&TimeEntry>, pane: Pane) -> (r: usize)
        requires
            entries@.len() <= MAX_ENTRIES,
        ensures
            r == clamped(cursor_of(*self, pane) as int, pane_list(derefs(entries@), pane).len() as int),
    {
        let cursor = match pane {
            Pane::Projects => self.project_cursor,
            Pane::Tags => self.tag_cursor,
        };
        let len = pane_values(entries, pane).len();
        let last = if len > 0 { len - 1 } else { 0 };
        if cursor < last { cursor } else { last }
    }

    /// `position/total` for a pane whose values do not all fit in `visible_rows`,
    /// or `None` when they do: a list that scrolls says there is more, and where
    /// the cursor is.
    pub fn pane_scroll_indicator(&self, entries: &Vec<&TimeEntry>, pane: Pane, visible_rows: usize) -> (r: Option<String>)
        requires
            entries@.len() <= MAX_ENTRIES,
        ensures
            ({
                let total = pane_list(derefs(entries@), pane).len() as int;
                match r {
                    Some(text) => total > visible_rows && text@ == crate::text::decimal(
                        (clamped(cursor_of(*self, pane) as int, total) + 1) as nat,
                    ) + "/"@ + crate::text::decimal(total as nat),
                    None => total <= visible_rows,
                }
            }),
    {
        let total = pane_values(entries, pane).len();
        if total <= visible_rows {
            return None;
        }
        let cursor = self.pane_cursor(entries, pane);
        let mut out: Vec<char> = Vec::new();
        crate::text::push_u64(&mut out, cursor as u64 + 1);
        crate::text::push_str(&mut out, "/");
        crate::text::push_u64(&mut out, total as u64);
        Some(string_of(&out))
    }

    /// The values selected in a pane: what it contributes to the filter.
    pub fn pane_selection(&self, pane: Pane) -> (r: &Vec<String>)
        ensures
            views(r@) == selection_of(*self, pane),
    {
        match pane {
            Pane::Projects => &self.selected_projects,
            Pane::Tags => &self.selected_tags,
        }
    }

    /// Whether a value a pane offers is in that pane's selection, matched exactly.
    pub fn pane_value_is_selected(&self, pane: Pane, value: &str) -> (r: bool)
        ensures
            r == selection_of(*self, pane).contains(value@),
    {
        let selection = self.pane_selection(pane);
        let v = chars_of(value);
        let mut i: usize = 0;
        while i < selection.len()
            invariant
                views(selection@) == selection_of(*self, pane),
                v@ == value@,
                i <= selection@.len(),
                forall|j: int| 0 <= j < i ==> views(selection@)[j] != value@,
            decreases selection@.len() - i,
        {
            let s = chars_of(selection[i].as_str());
            assert(views(selection@)[i as int] == selection@[i as int]@);
            if chars_eq(&s, &v) {
                assert(views(selection@)[i as int] == value@);
                return true;
            }
            i += 1;
        }
        false
    }
}

/// Where `v` first stands in `sel`, or `None`.
pub open spec fn first_index(sel: Seq<Seq<char>>, v: Seq<char>) -> Option<int>
    decreases sel.len(),
{
    if sel.len() == 0 {
        None
    } else if sel[0] == v {
        Some(0)
    } else {
        match first_index(sel.drop_first(), v) {
            Some(i) => Some(i + 1),
            None => None,
        }
    }
}

/// A selection with `v` toggled: its first occurrence taken out, or `v` added at the end.
pub open spec fn toggled(sel: Seq<Seq<char>>, v: Seq<char>) -> Seq<Seq<char>> {
    match first_index(sel, v) {
        Some(i) => sel.remove(i),
        None => sel.push(v),
    }
}

proof fn lemma_first_index_at(sel: Seq<Seq<char>>, v: Seq<char>, i: int)
    requires
        0 <= i < sel.len(),
        sel[i] == v,
        forall|j: int| 0 <= j < i ==> sel[j] != v,
    ensures
        first_index(sel, v) == Some(i),
    decreases i,
{
    if i > 0 {
        lemma_first_index_at(sel.drop_first(), v, i - 1);
    }
}

proof fn lemma_first_index_none(sel: Seq<Seq<char>>, v: Seq<char>)
    requires
        forall|j: int| 0 <= j < sel.len() ==> sel[j] != v,
    ensures
        first_index(sel, v) is None,
    decreases sel.len(),
{
    if sel.len() > 0 {
        lemma_first_index_none(sel.drop_first(), v);
    }
}

/// Toggle `v` in a selection.
fn toggle_in(sel: &mut Vec<String>, v: &Vec<char>)
    ensures
        views(final(sel)@) == toggled(views(old(sel)@), v@),
{
    let ghost before = views(sel@);
    let mut i: usize = 0;
    while i < sel.len()
        invariant
            before == views(sel@),
            sel@ == old(sel)@,
            i <= sel@.len(),
            forall|j: int| 0 <= j < i ==> before[j] != v@,
        decreases sel@.len() - i,
    {
        let s = chars_of(sel[i].as_str());
        assert(before[i as int] == sel@[i as int]@);
        if chars_eq(&s, v) {
            proof {
                lemma_first_index_at(before, v@, i as int);
            }
            sel.remove(i);
            assert(views(sel@) =~= before.remove(i as int));
            return;
        }
        i += 1;
    }
    proof {
        lemma_first_index_none(before, v@);
    }
    sel.push(string_of(v));
    assert(views(sel@) =~= before.push(v@));
}

/// A cursor `delta` steps on round a list of `len` values.
pub open spec fn wrapped(cursor: int, delta: int, len: int) -> int {
    (cursor + delta) % len
}

impl PaneSurface {
    /// `Enter` inside the focused pane: toggle the value under its cursor into or
    /// out of its selection, and send the table's cursor back to the top, as the
    /// row it was on is unlikely to be the same row. `false` when no pane has
    /// focus, so `Enter` falls through to the table; `true` with nothing changed
    /// when the pane offers nothing.
    pub fn toggle_pane_value(&mut self, entries: &Vec<&TimeEntry>) -> (r: bool)
        requires
            entries@.len() <= MAX_ENTRIES,
        ensures
            ({
                let s = *old(self);
                let t = *final(self);
                match s.focus {
                    Focus::Pane(pane) if shown(s, pane) => {
                        let vals = pane_list(derefs(entries@), pane);
                        let c = clamped(cursor_of(s, pane) as int, vals.len() as int);
                        &&& r
                        &&& t.show_projects == s.show_projects && t.show_tags == s.show_tags && t.focus == s.focus
                        &&& t.project_cursor == s.project_cursor && t.tag_cursor == s.tag_cursor
                        &&& if c < vals.len() {
                            &&& selection_of(t, pane) == toggled(selection_of(s, pane), vals[c].0)
                            &&& pane == Pane::Projects ==> views(t.selected_tags@) == views(s.selected_tags@)
                            &&& pane == Pane::Tags ==> views(t.selected_projects@) == views(s.selected_projects@)
                            &&& t.table_selected == Some(0usize)
                        } else {
                            &&& views(t.selected_projects@) == views(s.selected_projects@)
                            &&& views(t.selected_tags@) == views(s.selected_tags@)
                            &&& t.table_selected == s.table_selected
                        }
                    },
                    _ => !r && t == s,
                }
            }),
    {
        let pane = match self.focused_pane() {
            Some(p) => p,
            None => return false,
        };
        let cursor = self.pane_cursor(entries, pane);
        let values = pane_values(entries, pane);
        if cursor >= values.len() {
            return true;
        }
        let value = chars_of(values[cursor].0.as_str());
        assert(value@ == pane_list(derefs(entries@), pane)[cursor as int].0);
        match pane {
            Pane::Projects => toggle_in(&mut self.selected_projects, &value),
            Pane::Tags => toggle_in(&mut self.selected_tags, &value),
        }
        self.table_selected = Some(0);
        true
    }

    /// `j` / `k` inside the focused pane: its cursor one step on, wrapping round
    /// the values it offers. `false` when no pane has focus, so the table moves
    /// instead.
    fn move_pane_cursor(&mut self, entries: &Vec<&TimeEntry>, delta: i8) -> (r: bool)
        requires
            entries@.len() <= MAX_ENTRIES,
            delta == 1 || delta == -1,
        ensures
            ({
                let s = *old(self);
                let t = *final(self);
                match s.focus {
                    Focus::Pane(pane) if shown(s, pane) => {
                        let len = pane_list(derefs(entries@), pane).len() as int;
                        let next = if len == 0 {
                            cursor_of(s, pane) as int
                        } else {
                            wrapped(clamped(cursor_of(s, pane) as int, len), delta as int, len)
                        };
                        &&& r
                        &&& cursor_of(t, pane) == next
                        &&& cursor_of(t, if pane == Pane::Projects { Pane::Tags } else { Pane::Projects })
                            == cursor_of(s, if pane == Pane::Projects { Pane::Tags } else { Pane::Projects })
                        &&& t.show_projects == s.show_projects && t.show_tags == s.show_tags && t.focus == s.focus
                        &&& t.selected_projects@ == s.selected_projects@ && t.selected_tags@ == s.selected_tags@
                        &&& t.table_selected == s.table_selected
                    },
                    _ => !r && t == s,
                }
            }),
    {
        let pane = match self.focused_pane() {
            Some(p) => p,
            None => return false,
        };
        let len = pane_values(entries, pane).len();
        if len == 0 {
            return true;
        }
        let current = self.pane_cursor(entries, pane);
        let next = if delta < 0 {
            if current == 0 { len - 1 } else { current - 1 }
        } else {
            if current + 1 == len { 0 } else { current + 1 }
        };
        proof {
            let c = current as int;
            let n = len as int;
            if delta < 0 {
                if c == 0 {
                    vstd::arithmetic::div_mod::lemma_fundamental_div_mod_converse(-1, n, -1, n - 1);
                } else {
                    vstd::arithmetic::div_mod::lemma_fundamental_div_mod_converse(c - 1, n, 0, c - 1);
                }
            } else {
                if c + 1 == n {
                    vstd::arithmetic::div_mod::lemma_fundamental_div_mod_converse(c + 1, n, 1, 0);
                } else {
                    vstd::arithmetic::div_mod::lemma_fundamental_div_mod_converse(c + 1, n, 0, c + 1);
                }
            }
        }
        match pane {
            Pane::Projects => self.project_cursor = next,
            Pane::Tags => self.tag_cursor = next,
        }
        true
    }

    /// `j` inside the focused pane.
    pub fn pane_next(&mut self, entries: &Vec<&TimeEntry>) -> (r: bool)
        requires
            entries@.len() <= MAX_ENTRIES,
        ensures
            ({
                let s = *old(self);
                let t = *final(self);
                match s.focus {
                    Focus::Pane(pane) if shown(s, pane) => {
                        let len = pane_list(derefs(entries@), pane).len() as int;
                        &&& r
                        &&& cursor_of(t, pane) == if len == 0 {
                            cursor_of(s, pane) as int
                        } else {
                            wrapped(clamped(cursor_of(s, pane) as int, len), 1, len)
                        }
                        &&& t.focus == s.focus && t.table_selected == s.table_selected
                    },
                    _ => !r && t == s,
                }
            }),
    {
        self.move_pane_cursor(entries, 1)
    }

    /// `k` inside the focused pane.
    pub fn pane_previous(&mut self, entries: &Vec<&TimeEntry>) -> (r: bool)
        requires
            entries@.len() <= MAX_ENTRIES,
        ensures
            ({
                let s = *old(self);
                let t = *final(self);
                match s.focus {
                    Focus::Pane(pane) if shown(s, pane) => {
                        let len = pane_list(derefs(entries@), pane).len() as int;
                        &&& r
                        &&& cursor_of(t, pane) == if len == 0 {
                            cursor_of(s, pane) as int
                        } else {
                            wrapped(clamped(cursor_of(s, pane) as int, len), -1, len)
                        }
                        &&& t.focus == s.focus && t.table_selected == s.table_selected
                    },
                    _ => !r && t == s,
                }
            }),
    {
        self.move_pane_cursor(entries, -1)
    }

    /// The surface's height with its borders: nothing at all while both panes
    /// are hidden, else the longest open pane's values, one to six rows of them.
    pub fn pane_surface_height(&self, entries: &Vec<&TimeEntry>) -> (r: u16)
        requires
            entries@.len() <= MAX_ENTRIES,
        ensures
            r == if !self.show_projects && !self.show_tags {
                0
            } else {
                let p = if self.show_projects { pane_list(derefs(entries@), Pane::Projects).len() as int } else { 0 };
                let t = if self.show_tags { pane_list(derefs(entries@), Pane::Tags).len() as int } else { 0 };
                let longest = if p < t { t } else { p };
                2 + if longest < 1 { 1 } else if longest > 6 { 6 } else { longest }
            },
    {
        if !self.show_projects && !self.show_tags {
            return 0;
        }
        let p = if self.show_projects { pane_values(entries, Pane::Projects).len() } else { 0 };
        let t = if self.show_tags { pane_values(entries, Pane::Tags).len() } else { 0 };
        let longest = if p < t { t } else { p };
        let rows: u16 = if longest < 1 { 1 } else if longest > MAX_VISIBLE_VALUES { 6 } else { longest as u16 };
        2 + rows
    }
}

/// `Shift-Tab` undoes `Tab`: a step forward round the focus ring and a step
/// back come home to a focus on the ring; a focus off it (a pane hidden while
/// focused) reads as the table, so both directions recover to the same place.
pub proof fn lemma_back_undoes_tab(s: PaneSurface, t: PaneSurface)
    requires
        t.show_projects == s.show_projects,
        t.show_tags == s.show_tags,
        t.focus == shifted(s, 1),
    ensures
        shifted(t, -1) == if ring(s).contains(s.focus) { s.focus } else { Focus::Table },
{
    lemma_ring_distinct(s);
    let r = ring(s);
    assert(ring(t) == r);
    let n = r.len() as int;
    let p = ring_position(s);
    if r.contains(s.focus) {
        let c = choose|i: int| 0 <= i < n && r[i] == s.focus;
        assert(p == c);
    }
    assert(0 <= p < n);
    let q = (p + 1) % n;
    assert(0 <= q < n);
    assert(r.contains(t.focus)) by {
        assert(r[q] == t.focus);
    }
    let c2 = choose|i: int| 0 <= i < n && r[i] == t.focus;
    assert(c2 == q);
    assert(ring_position(t) == q);
    if p + 1 < n {
        vstd::arithmetic::div_mod::lemma_fundamental_div_mod_converse(p + 1, n, 0, p + 1);
        assert(q == p + 1);
        vstd::arithmetic::div_mod::lemma_fundamental_div_mod_converse(p, n, 0, p);
        assert((q - 1) % n == p);
    } else {
        vstd::arithmetic::div_mod::lemma_fundamental_div_mod_converse(p + 1, n, 1, 0);
        assert(q == 0);
        vstd::arithmetic::div_mod::lemma_fundamental_div_mod_converse(-1, n, -1, n - 1);
        assert((q - 1) % n == n - 1);
    }
}

} // verus!
