//! Rollups over the store: the `tt report` surface. Entries group on the
//! `project` **field**, then on their item (the first `<project>/<issue>` tag, or
//! the description when there is none), with seconds per phase under each item.
//! Every map here is a list of `(key, value)` pairs kept in ascending key order
//! with no key twice, which is the order the report walks and serialises.

use vstd::prelude::*;
use crate::agent::{is_phase, phase_names};
use crate::duration::hm_text;
use crate::marks::{epoch_ok, opt_string, push_spaces, spaces};
use crate::text::{
    chars_eq, chars_of, chars_order, int_text, lemma_seq_lt_total, push_all, push_str, push_u64, seq_lt,
    string_of, views,
};
use crate::clock::{day_name, day_text, MAX_DAY, MIN_DAY};
use crate::tracker::{
    by_start, day_bound, derefs, in_window, monday_of, sort_by_start, EntryView, IdleInterval, TimeData, TimeEntry,
};

verus! {

/// The bucket an entry with no `project` field lands in.
pub const NO_PROJECT: &'static str = "(no project)";

/// One item's totals.
#[derive(Debug)]
pub struct ItemNode {
    pub seconds: i64,
    /// Seconds per phase. Empty when no entry under this item carried a phase tag.
    pub phases: Vec<(String, i64)>,
    /// The first contributing entry's description.
    pub description: String,
    /// Whether any contributing entry is still running.
    pub active: bool,
}

/// One project's totals and its items.
#[derive(Debug)]
pub struct ProjectNode {
    pub seconds: i64,
    pub items: Vec<(String, ItemNode)>,
}

/// A whole rollup: the tree, the grand total, and the overlap count.
#[derive(Debug)]
pub struct Rollup {
    pub projects: Vec<(String, ProjectNode)>,
    pub total_seconds: i64,
    /// Overlapping *pairs*, not entries.
    pub overlaps: usize,
}

pub struct ItemView {
    pub seconds: int,
    pub phases: Seq<(Seq<char>, int)>,
    pub description: Seq<char>,
    pub active: bool,
}

pub struct ProjectView {
    pub seconds: int,
    pub items: Seq<(Seq<char>, ItemView)>,
}

pub struct RollupView {
    pub projects: Seq<(Seq<char>, ProjectView)>,
    pub total_seconds: int,
    pub overlaps: int,
}

pub open spec fn phase_views(p: Seq<(String, i64)>) -> Seq<(Seq<char>, int)> {
    p.map_values(|x: (String, i64)| (x.0@, x.1 as int))
}

impl View for ItemNode {
    type V = ItemView;

    open spec fn view(&self) -> ItemView {
        ItemView {
            seconds: self.seconds as int,
            phases: phase_views(self.phases@),
            description: self.description@,
            active: self.active,
        }
    }
}

pub open spec fn item_views(items: Seq<(String, ItemNode)>) -> Seq<(Seq<char>, ItemView)> {
    items.map_values(|x: (String, ItemNode)| (x.0@, x.1@))
}

impl View for ProjectNode {
    type V = ProjectView;

    open spec fn view(&self) -> ProjectView {
        ProjectView { seconds: self.seconds as int, items: item_views(self.items@) }
    }
}

pub open spec fn project_views(p: Seq<(String, ProjectNode)>) -> Seq<(Seq<char>, ProjectView)> {
    p.map_values(|x: (String, ProjectNode)| (x.0@, x.1@))
}

impl View for Rollup {
    type V = RollupView;

    open spec fn view(&self) -> RollupView {
        RollupView {
            projects: project_views(self.projects@),
            total_seconds: self.total_seconds as int,
            overlaps: self.overlaps as int,
        }
    }
}

impl Rollup {
    /// A rollup with nothing in it.
    pub fn empty() -> (r: Rollup)
        ensures
            r@.projects.len() == 0,
            r@.total_seconds == 0,
            r@.overlaps == 0,
    {
        Rollup { projects: Vec::new(), total_seconds: 0, overlaps: 0 }
    }

    /// Whether no project has any entry.
    pub fn is_empty(&self) -> (r: bool)
        ensures
            r == (self@.projects.len() == 0),
    {
        self.projects.len() == 0
    }
}

// --- classifying tags ------------------------------------------------------------

/// The item axis: the first tag holding a `/`.
pub open spec fn item_of(tags: Seq<Seq<char>>) -> Option<Seq<char>>
    decreases tags.len(),
{
    if tags.len() == 0 {
        None
    } else if tags[0].contains('/') {
        Some(tags[0])
    } else {
        item_of(tags.drop_first())
    }
}

/// The phase axis: the first tag without a `/` that is in the phase vocabulary.
pub open spec fn phase_tag_of(tags: Seq<Seq<char>>) -> Option<Seq<char>>
    decreases tags.len(),
{
    if tags.len() == 0 {
        None
    } else if !tags[0].contains('/') && phase_names().contains(tags[0]) {
        Some(tags[0])
    } else {
        phase_tag_of(tags.drop_first())
    }
}

/// Split an entry's tags into its item and phase axes. Stored tags carry no `#`.
/// The item is the first tag containing a `/`; the phase is the first tag in the
/// phase vocabulary; `agent` matches neither and is ignored.
pub fn classify(tags: &Vec<String>) -> (r: (Option<String>, Option<String>))
    ensures
        opt_string(r.0) == item_of(views(tags@)),
        opt_string(r.1) == phase_tag_of(views(tags@)),
{
    let ghost vs = views(tags@);
    let mut item: Option<String> = None;
    let mut phase: Option<String> = None;
    let mut i: usize = 0;
    assert(vs.skip(0) =~= vs);
    while i < tags.len()
        invariant
            vs == views(tags@),
            i <= tags.len(),
            item_of(vs) == match opt_string(item) {
                Some(x) => Some(x),
                None => item_of(vs.skip(i as int)),
            },
            phase_tag_of(vs) == match opt_string(phase) {
                Some(x) => Some(x),
                None => phase_tag_of(vs.skip(i as int)),
            },
        decreases tags.len() - i,
    {
        let ghost rest = vs.skip(i as int);
        assert(rest.drop_first() =~= vs.skip(i + 1));
        assert(rest[0] == tags@[i as int]@);
        let t = chars_of(tags[i].as_str());
        if crate::text::chars_contain(&t, '/') {
            if item.is_none() {
                item = Some(tags[i].clone());
            }
        } else if phase.is_none() && is_phase(&t) {
            phase = Some(tags[i].clone());
        }
        i += 1;
    }
    (item, phase)
}

// --- the rollup ------------------------------------------------------------------

/// How many leading keys sort strictly before `key`: where `key` sits, or would.
pub open spec fn key_pos(keys: Seq<Seq<char>>, key: Seq<char>) -> nat
    decreases keys.len(),
{
    if keys.len() == 0 {
        0
    } else if seq_lt(keys[0], key) {
        1 + key_pos(keys.drop_first(), key)
    } else {
        0
    }
}

proof fn lemma_key_pos_le(keys: Seq<Seq<char>>, key: Seq<char>)
    ensures
        key_pos(keys, key) <= keys.len(),
    decreases keys.len(),
{
    if keys.len() > 0 {
        lemma_key_pos_le(keys.drop_first(), key);
    }
}

pub open spec fn keys_of<V>(list: Seq<(Seq<char>, V)>) -> Seq<Seq<char>> {
    list.map_values(|p: (Seq<char>, V)| p.0)
}

/// Whether `key` is at `k`.
pub open spec fn found_at<V>(list: Seq<(Seq<char>, V)>, key: Seq<char>, k: int) -> bool {
    0 <= k < list.len() && list[k].0 == key
}

/// `secs` more under phase `name`.
pub open spec fn add_phase(phases: Seq<(Seq<char>, int)>, name: Seq<char>, secs: int) -> Seq<(Seq<char>, int)> {
    let k = key_pos(keys_of(phases), name) as int;
    if found_at(phases, name, k) {
        phases.update(k, (name, phases[k].1 + secs))
    } else {
        phases.insert(k, (name, secs))
    }
}

pub open spec fn fresh_item() -> ItemView {
    ItemView { seconds: 0, phases: seq![], description: seq![], active: false }
}

/// An item after one more entry: its seconds added, its phase's seconds too, its
/// description kept unless still empty, and running if the entry runs.
pub open spec fn item_after(item: ItemView, e: EntryView, secs: int) -> ItemView {
    ItemView {
        seconds: item.seconds + secs,
        phases: match phase_tag_of(e.tags) {
            Some(p) => add_phase(item.phases, p, secs),
            None => item.phases,
        },
        description: if item.description.len() == 0 {
            e.description
        } else {
            item.description
        },
        active: item.active || e.end_time is None,
    }
}

pub open spec fn items_after(items: Seq<(Seq<char>, ItemView)>, key: Seq<char>, e: EntryView, secs: int) -> Seq<(Seq<char>, ItemView)> {
    let k = key_pos(keys_of(items), key) as int;
    if found_at(items, key, k) {
        items.update(k, (key, item_after(items[k].1, e, secs)))
    } else {
        items.insert(k, (key, item_after(fresh_item(), e, secs)))
    }
}

pub open spec fn project_after(node: ProjectView, key: Seq<char>, e: EntryView, secs: int) -> ProjectView {
    ProjectView { seconds: node.seconds + secs, items: items_after(node.items, key, e, secs) }
}

pub open spec fn fresh_project() -> ProjectView {
    ProjectView { seconds: 0, items: seq![] }
}

pub open spec fn projects_after(
    projects: Seq<(Seq<char>, ProjectView)>,
    name: Seq<char>,
    key: Seq<char>,
    e: EntryView,
    secs: int,
) -> Seq<(Seq<char>, ProjectView)> {
    let k = key_pos(keys_of(projects), name) as int;
    if found_at(projects, name, k) {
        projects.update(k, (name, project_after(projects[k].1, key, e, secs)))
    } else {
        projects.insert(k, (name, project_after(fresh_project(), key, e, secs)))
    }
}

/// An entry's billable seconds, a running one measured to `now`. Never negative:
/// an entry whose end precedes its start is corrupt.
pub open spec fn entry_seconds(e: EntryView, now: int) -> int {
    let end = match e.end_time {
        Some(t) => t as int,
        None => now,
    };
    if end - e.start_time > 0 {
        end - e.start_time
    } else {
        0
    }
}

/// The project bucket an entry lands in.
pub open spec fn project_key(e: EntryView) -> Seq<char> {
    match e.project {
        Some(p) => p,
        None => NO_PROJECT@,
    }
}

/// The item key: the item tag, else the description.
pub open spec fn item_key(e: EntryView) -> Seq<char> {
    match item_of(e.tags) {
        Some(i) => i,
        None => e.description,
    }
}

/// The project tree after entries, in order.
pub open spec fn rolled(entries: Seq<EntryView>, now: int) -> Seq<(Seq<char>, ProjectView)>
    decreases entries.len(),
{
    if entries.len() == 0 {
        seq![]
    } else {
        let e = entries.last();
        projects_after(rolled(entries.drop_last(), now), project_key(e), item_key(e), e, entry_seconds(e, now))
    }
}

/// The grand total of the entries' seconds.
pub open spec fn total_of(entries: Seq<EntryView>, now: int) -> int
    decreases entries.len(),
{
    if entries.len() == 0 {
        0
    } else {
        total_of(entries.drop_last(), now) + entry_seconds(entries.last(), now)
    }
}

pub open spec fn ref_views(entries: Seq<&TimeEntry>) -> Seq<EntryView> {
    entries.map_values(|e: &TimeEntry| e@)
}

/// Every entry's span is one chrono can hold.
pub open spec fn entries_ok(entries: Seq<EntryView>) -> bool {
    forall|i: int|
        0 <= i < entries.len() ==> epoch_ok((#[trigger] entries[i]).start_time as int) && (match entries[i].end_time {
            Some(t) => epoch_ok(t as int),
            None => true,
        })
}

pub(crate) fn key_position<T>(list: &Vec<(String, T)>, key: &Vec<char>) -> (r: (usize, bool))
    ensures
        r.0 == key_pos(list@.map_values(|p: (String, T)| p.0@), key@),
        r.0 <= list@.len(),
        r.1 == (r.0 < list@.len() && list@[r.0 as int].0@ == key@),
{
    let ghost keys = list@.map_values(|p: (String, T)| p.0@);
    let mut i: usize = 0;
    assert(keys.skip(0) =~= keys);
    while i < list.len()
        invariant
            keys == list@.map_values(|p: (String, T)| p.0@),
            i <= list.len(),
            key_pos(keys, key@) == i + key_pos(keys.skip(i as int), key@),
        decreases list.len() - i,
    {
        let ghost rest = keys.skip(i as int);
        assert(rest.drop_first() =~= keys.skip(i + 1));
        assert(rest[0] == list@[i as int].0@);
        let k = chars_of(list[i].0.as_str());
        if chars_order(&k, key) >= 0 {
            let found = chars_eq(&k, key);
            return (i, found);
        }
        i += 1;
    }
    (i, false)
}

pub open spec fn item_bounded(item: ItemView, t: int) -> bool {
    &&& 0 <= item.seconds <= t
    &&& forall|k: int| 0 <= k < item.phases.len() ==> 0 <= (#[trigger] item.phases[k]).1 <= t
}

pub open spec fn project_bounded(node: ProjectView, t: int) -> bool {
    &&& 0 <= node.seconds <= t
    &&& forall|j: int| 0 <= j < node.items.len() ==> item_bounded((#[trigger] node.items[j]).1, t)
}

/// Every total in the tree lies between zero and `t`.
pub open spec fn tree_bounded(projects: Seq<(Seq<char>, ProjectView)>, t: int) -> bool {
    forall|i: int| 0 <= i < projects.len() ==> project_bounded((#[trigger] projects[i]).1, t)
}

proof fn lemma_item_after_bounded(item: ItemView, e: EntryView, secs: int, t: int)
    requires
        item_bounded(item, t),
        secs >= 0,
    ensures
        item_bounded(item_after(item, e, secs), t + secs),
{
    let after = item_after(item, e, secs);
    match phase_tag_of(e.tags) {
        Some(p) => {
            let k = key_pos(keys_of(item.phases), p) as int;
            lemma_key_pos_le(keys_of(item.phases), p);
            assert(after.phases == add_phase(item.phases, p, secs));
            if found_at(item.phases, p, k) {
                assert(after.phases.len() == item.phases.len());
            } else {
                assert(after.phases.len() == item.phases.len() + 1);
            }
            assert forall|q: int| 0 <= q < after.phases.len() implies 0 <= (#[trigger] after.phases[q]).1 <= t + secs by {
                if found_at(item.phases, p, k) {
                    if q != k {
                        assert(after.phases[q] == item.phases[q]);
                    }
                } else {
                    if q < k {
                        assert(after.phases[q] == item.phases[q]);
                    } else if q > k {
                        assert(after.phases[q] == item.phases[q - 1]);
                    }
                }
            }
        },
        None => {},
    }
}

proof fn lemma_project_after_bounded(node: ProjectView, key: Seq<char>, e: EntryView, secs: int, t: int)
    requires
        project_bounded(node, t),
        secs >= 0,
    ensures
        project_bounded(project_after(node, key, e, secs), t + secs),
{
    let after = project_after(node, key, e, secs);
    let k = key_pos(keys_of(node.items), key) as int;
    lemma_key_pos_le(keys_of(node.items), key);
    assert(after.items == items_after(node.items, key, e, secs));
    if found_at(node.items, key, k) {
        assert(after.items.len() == node.items.len());
    } else {
        assert(after.items.len() == node.items.len() + 1);
    }
    assert forall|j: int| 0 <= j < after.items.len() implies item_bounded((#[trigger] after.items[j]).1, t + secs) by {
        if found_at(node.items, key, k) {
            if j == k {
                lemma_item_after_bounded(node.items[k].1, e, secs, t);
            } else {
                lemma_item_bounded_grow(node.items[j].1, t, t + secs);
            }
        } else {
            if j == k {
                lemma_item_after_bounded(fresh_item(), e, secs, t);
            } else if j < k {
                lemma_item_bounded_grow(node.items[j].1, t, t + secs);
            } else {
                assert(after.items[j] == node.items[j - 1]);
                lemma_item_bounded_grow(node.items[j - 1].1, t, t + secs);
            }
        }
    }
}

proof fn lemma_item_bounded_grow(item: ItemView, t: int, u: int)
    requires
        item_bounded(item, t),
        t <= u,
    ensures
        item_bounded(item, u),
{
}

proof fn lemma_project_bounded_grow(node: ProjectView, t: int, u: int)
    requires
        project_bounded(node, t),
        t <= u,
    ensures
        project_bounded(node, u),
{
    assert forall|j: int| 0 <= j < node.items.len() implies item_bounded((#[trigger] node.items[j]).1, u) by {
        lemma_item_bounded_grow(node.items[j].1, t, u);
    }
}

proof fn lemma_projects_after_bounded(
    projects: Seq<(Seq<char>, ProjectView)>,
    name: Seq<char>,
    key: Seq<char>,
    e: EntryView,
    secs: int,
    t: int,
)
    requires
        tree_bounded(projects, t),
        secs >= 0,
        t >= 0,
    ensures
        tree_bounded(projects_after(projects, name, key, e, secs), t + secs),
{
    let after = projects_after(projects, name, key, e, secs);
    let k = key_pos(keys_of(projects), name) as int;
    lemma_key_pos_le(keys_of(projects), name);
    if found_at(projects, name, k) {
        assert(after.len() == projects.len());
    } else {
        assert(after.len() == projects.len() + 1);
    }
    assert forall|i: int| 0 <= i < after.len() implies project_bounded((#[trigger] after[i]).1, t + secs) by {
        if found_at(projects, name, k) {
            if i == k {
                lemma_project_after_bounded(projects[k].1, key, e, secs, t);
            } else {
                lemma_project_bounded_grow(projects[i].1, t, t + secs);
            }
        } else {
            if i == k {
                lemma_project_after_bounded(fresh_project(), key, e, secs, t);
            } else if i < k {
                lemma_project_bounded_grow(projects[i].1, t, t + secs);
            } else {
                assert(after[i] == projects[i - 1]);
                lemma_project_bounded_grow(projects[i - 1].1, t, t + secs);
            }
        }
    }
}

proof fn lemma_total_prefix(entries: Seq<EntryView>, now: int, i: int)
    requires
        0 <= i <= entries.len(),
    ensures
        0 <= total_of(entries.subrange(0, i), now) <= total_of(entries, now),
    decreases entries.len() - i,
{
    if i < entries.len() {
        lemma_total_prefix(entries, now, i + 1);
        assert(entries.subrange(0, i + 1).drop_last() =~= entries.subrange(0, i));
        lemma_total_nonneg(entries.subrange(0, i), now);
    } else {
        assert(entries.subrange(0, i) =~= entries);
        lemma_total_nonneg(entries, now);
    }
}

proof fn lemma_total_nonneg(entries: Seq<EntryView>, now: int)
    ensures
        total_of(entries, now) >= 0,
    decreases entries.len(),
{
    if entries.len() > 0 {
        lemma_total_nonneg(entries.drop_last(), now);
    }
}

fn entry_secs(e: &TimeEntry, now: i64) -> (r: i64)
    requires
        epoch_ok(e.start_time as int),
        match e.end_time {
            Some(t) => epoch_ok(t as int),
            None => true,
        },
        epoch_ok(now as int),
    ensures
        r == entry_seconds(e@, now as int),
{
    let end = match e.end_time {
        Some(t) => t,
        None => now,
    };
    let d = end - e.start_time;
    if d > 0 {
        d
    } else {
        0
    }
}

fn add_to_item(it: &mut ItemNode, e: &TimeEntry, secs: i64, t: Ghost<int>)
    requires
        secs >= 0,
        t@ >= 0,
        t@ + secs <= i64::MAX,
        item_bounded(old(it)@, t@),
    ensures
        final(it)@ == item_after(old(it)@, e@, secs as int),
{
    let ghost before = it@;
    let (_, phase) = classify(&e.tags);
    if it.description.as_str().unicode_len() == 0 {
        it.description = e.description.clone();
    }
    it.seconds = it.seconds + secs;
    it.active = it.active || e.end_time.is_none();
    match phase {
        Some(p) => {
            let pc = chars_of(p.as_str());
            let ghost ph = phase_views(it.phases@);
            assert(keys_of(ph) =~= it.phases@.map_values(|x: (String, i64)| x.0@));
            let (q, f3) = key_position(&it.phases, &pc);
            assert(ph == before.phases);
            if f3 {
                assert(0 <= before.phases[q as int].1 <= t@);
                let (n, s) = it.phases.remove(q);
                it.phases.insert(q, (n, s + secs));
            } else {
                it.phases.insert(q, (p, secs));
            }
            assert(phase_views(it.phases@) =~= add_phase(ph, pc@, secs as int));
        },
        None => {},
    }
    assert(it@.phases == item_after(before, e@, secs as int).phases);
    assert(it@.description == item_after(before, e@, secs as int).description);
}

fn add_to_project(node: &mut ProjectNode, key: &Vec<char>, e: &TimeEntry, secs: i64, t: Ghost<int>)
    requires
        secs >= 0,
        t@ >= 0,
        t@ + secs <= i64::MAX,
        project_bounded(old(node)@, t@),
    ensures
        final(node)@ == project_after(old(node)@, key@, e@, secs as int),
{
    let ghost before = node@;
    node.seconds = node.seconds + secs;
    let ghost iv = item_views(node.items@);
    assert(keys_of(iv) =~= node.items@.map_values(|p: (String, ItemNode)| p.0@));
    let (j, f2) = key_position(&node.items, key);
    let mut it: ItemNode = if f2 {
        let (_, x) = node.items.remove(j);
        x
    } else {
        ItemNode { seconds: 0, phases: Vec::new(), description: String::new(), active: false }
    };
    let ghost it_before = it@;
    assert(f2 ==> it_before == iv[j as int].1);
    assert(!f2 ==> it_before.phases =~= fresh_item().phases && it_before.description
        =~= fresh_item().description);
    assert(item_bounded(it_before, t@)) by {
        if f2 {
            assert(item_bounded(before.items[j as int].1, t@));
        }
    }
    add_to_item(&mut it, e, secs, t);
    node.items.insert(j, (string_of(key), it));
    assert(item_views(node.items@) =~= items_after(iv, key@, e@, secs as int));
}

/// Add one entry's seconds to the tree.
fn add_entry_to(projects: &mut Vec<(String, ProjectNode)>, e: &TimeEntry, secs: i64, t: Ghost<int>)
    requires
        secs >= 0,
        t@ >= 0,
        t@ + secs <= i64::MAX,
        tree_bounded(project_views(old(projects)@), t@),
    ensures
        project_views(final(projects)@) == projects_after(
            project_views(old(projects)@),
            project_key(e@),
            item_key(e@),
            e@,
            secs as int,
        ),
{
    let ghost pv = project_views(projects@);
    let (item, _) = classify(&e.tags);
    let key: Vec<char> = match &item {
        Some(x) => chars_of(x.as_str()),
        None => chars_of(e.description.as_str()),
    };
    let pname: Vec<char> = match &e.project {
        Some(p) => chars_of(p.as_str()),
        None => chars_of(NO_PROJECT),
    };
    assert(key@ == item_key(e@));
    assert(pname@ == project_key(e@));
    assert(keys_of(pv) =~= projects@.map_values(|p: (String, ProjectNode)| p.0@));
    let (k, found) = key_position(&*projects, &pname);
    let mut node: ProjectNode = if found {
        let (_, n) = projects.remove(k);
        n
    } else {
        ProjectNode { seconds: 0, items: Vec::new() }
    };
    let ghost node_before = node@;
    assert(found ==> node_before == pv[k as int].1);
    assert(!found ==> node_before.items =~= fresh_project().items);
    assert(project_bounded(node_before, t@));
    add_to_project(&mut node, &key, e, secs, t);
    projects.insert(k, (string_of(&pname), node));
    assert(project_views(projects@) =~= projects_after(pv, pname@, key@, e@, secs as int));
}

// --- overlaps ----------------------------------------------------------------

/// An entry's span, a running one ending at `now`.
pub open spec fn span_of(e: EntryView, now: i64) -> IdleInterval {
    IdleInterval {
        start: e.start_time,
        end: match e.end_time {
            Some(t) => t,
            None => now,
        },
    }
}

pub open spec fn spans_of(entries: Seq<EntryView>, now: i64) -> Seq<IdleInterval> {
    entries.map_values(|e: EntryView| span_of(e, now))
}

/// How many spans from `j` on, in order, start before `end`: the walk stops at
/// the first that does not.
pub open spec fn run_after(ordered: Seq<IdleInterval>, j: int, end: i64) -> nat
    decreases ordered.len() - j,
{
    if j < 0 || j >= ordered.len() {
        0
    } else if ordered[j].start >= end {
        0
    } else {
        1 + run_after(ordered, j + 1, end)
    }
}

/// The overlapping pairs counted from `i` on: each span against the run of later
/// spans that start before it ends.
pub open spec fn pairs_from(ordered: Seq<IdleInterval>, i: int) -> nat
    decreases ordered.len() - i,
{
    if i < 0 || i >= ordered.len() {
        0
    } else {
        run_after(ordered, i + 1, ordered[i].end) + pairs_from(ordered, i + 1)
    }
}

/// The overlapping pairs among the entries' spans, ordered by start.
pub open spec fn overlap_pairs(entries: Seq<EntryView>, now: i64) -> nat {
    pairs_from(by_start(spans_of(entries, now)), 0)
}

proof fn lemma_run_after_le(ordered: Seq<IdleInterval>, j: int, end: i64)
    requires
        0 <= j,
    ensures
        run_after(ordered, j, end) <= if j < ordered.len() {
            ordered.len() - j
        } else {
            0
        },
    decreases ordered.len() - j,
{
    if j < ordered.len() {
        lemma_run_after_le(ordered, j + 1, end);
    }
}

proof fn lemma_pairs_from_le(ordered: Seq<IdleInterval>, i: int)
    requires
        0 <= i <= ordered.len(),
    ensures
        pairs_from(ordered, i) <= (ordered.len() - i) * ordered.len(),
    decreases ordered.len() - i,
{
    if i < ordered.len() {
        lemma_pairs_from_le(ordered, i + 1);
        lemma_run_after_le(ordered, i + 1, ordered[i].end);
        let n = ordered.len() as int;
        assert(n + (n - i - 1) * n == (n - i) * n) by (nonlinear_arith);
    }
}

/// How many of the spans from `j` on start before `end`, every one of them looked at.
pub open spec fn starting_before(spans: Seq<IdleInterval>, j: int, end: i64) -> nat
    decreases spans.len() - j,
{
    if j < 0 || j >= spans.len() {
        0
    } else {
        (if spans[j].start < end {
            1nat
        } else {
            0nat
        }) + starting_before(spans, j + 1, end)
    }
}

/// How many pairs `i < j`, with `i` from `from` on, have the later span start
/// strictly before the earlier one ends: a span that starts just as the other
/// ends makes no pair.
pub open spec fn crossing_pairs(spans: Seq<IdleInterval>, from: int) -> nat
    decreases spans.len() - from,
{
    if from < 0 || from >= spans.len() {
        0
    } else {
        starting_before(spans, from + 1, spans[from].end) + crossing_pairs(spans, from + 1)
    }
}

proof fn lemma_none_start_before(spans: Seq<IdleInterval>, j: int, end: i64)
    requires
        crate::tracker::start_ordered(spans),
        0 <= j < spans.len(),
        spans[j].start >= end,
    ensures
        starting_before(spans, j, end) == 0,
    decreases spans.len() - j,
{
    if j + 1 < spans.len() {
        assert(spans[j].start <= spans[j + 1].start);
        lemma_none_start_before(spans, j + 1, end);
    } else {
        assert(starting_before(spans, j + 1, end) == 0);
    }
}

proof fn lemma_run_counts_all(spans: Seq<IdleInterval>, j: int, end: i64)
    requires
        crate::tracker::start_ordered(spans),
        0 <= j,
    ensures
        run_after(spans, j, end) == starting_before(spans, j, end),
    decreases spans.len() - j,
{
    if j < spans.len() {
        if spans[j].start >= end {
            lemma_none_start_before(spans, j, end);
        } else {
            lemma_run_counts_all(spans, j + 1, end);
        }
    }
}

proof fn lemma_pairs_count_all(spans: Seq<IdleInterval>, i: int)
    requires
        crate::tracker::start_ordered(spans),
        0 <= i,
    ensures
        pairs_from(spans, i) == crossing_pairs(spans, i),
    decreases spans.len() - i,
{
    if i < spans.len() {
        lemma_run_counts_all(spans, i + 1, spans[i].end);
        lemma_pairs_count_all(spans, i + 1);
    }
}

/// The overlap count is the number of pairs of spans, taken in start order, in
/// which the later one starts strictly before the earlier one ends, a running
/// entry ending at `now`; spans that only touch, one ending as the next starts,
/// make no pair.
pub proof fn lemma_overlaps_are_crossing_pairs(entries: Seq<EntryView>, now: i64)
    ensures
        crate::tracker::start_ordered(by_start(spans_of(entries, now))),
        by_start(spans_of(entries, now)).len() == entries.len(),
        overlap_pairs(entries, now) == crossing_pairs(by_start(spans_of(entries, now)), 0),
{
    crate::tracker::lemma_by_start_ordered(spans_of(entries, now));
    lemma_pairs_count_all(by_start(spans_of(entries, now)), 0);
}

fn spans_exec(entries: &[&TimeEntry], now: i64) -> (r: Vec<IdleInterval>)
    ensures
        r@ == spans_of(ref_views(entries@), now),
{
    let mut out: Vec<IdleInterval> = Vec::new();
    let mut i: usize = 0;
    while i < entries.len()
        invariant
            i <= entries@.len(),
            out@ == spans_of(ref_views(entries@), now).subrange(0, i as int),
        decreases entries@.len() - i,
    {
        let e = entries[i];
        let end = match e.end_time {
            Some(t) => t,
            None => now,
        };
        out.push(IdleInterval { start: e.start_time, end });
        i += 1;
        assert(out@ =~= spans_of(ref_views(entries@), now).subrange(0, i as int));
    }
    assert(spans_of(ref_views(entries@), now).subrange(0, i as int) =~= spans_of(ref_views(entries@), now));
    out
}

/// Count overlapping *pairs* of spans, a running entry ending at `now`. The spans
/// are walked in start order and each is compared with the run of later ones
/// that start before it ends; the walk stops at the first that does not.
pub fn count_overlaps_at(entries: &[&TimeEntry], now: i64) -> (r: usize)
    requires
        entries@.len() * entries@.len() <= usize::MAX,
    ensures
        r == overlap_pairs(ref_views(entries@), now),
        r == crossing_pairs(by_start(spans_of(ref_views(entries@), now)), 0),
{
    proof {
        lemma_overlaps_are_crossing_pairs(ref_views(entries@), now);
    }
    let spans = spans_exec(entries, now);
    let ordered = sort_by_start(spans);
    let ghost o = ordered@;
    proof {
        crate::tracker::lemma_by_start_len(spans_of(ref_views(entries@), now));
        lemma_pairs_from_le(o, 0);
    }
    let n = ordered.len();
    let mut pairs: usize = 0;
    let mut i: usize = 0;
    while i < n
        invariant
            o == ordered@,
            n == o.len(),
            n * n <= usize::MAX,
            pairs_from(o, 0) <= n * n,
            i <= n,
            pairs + pairs_from(o, i as int) == pairs_from(o, 0),
        decreases n - i,
    {
        let end = ordered[i].end;
        let mut run: usize = 0;
        let mut j: usize = i + 1;
        proof {
            lemma_run_after_le(o, i + 1, end);
        }
        while j < n && ordered[j].start < end
            invariant
                o == ordered@,
                n == o.len(),
                i < n,
                i + 1 <= j <= n,
                run + run_after(o, j as int, end) == run_after(o, i + 1, end),
                pairs + pairs_from(o, i as int) == pairs_from(o, 0),
                pairs_from(o, 0) <= n * n,
                n * n <= usize::MAX,
                end == o[i as int].end,
            decreases n - j,
        {
            run += 1;
            j += 1;
        }
        pairs = pairs + run;
        i += 1;
    }
    pairs
}

/// Count overlapping pairs of spans, a running entry ending at the clock's
/// reading, which nothing here names.
pub fn count_overlaps(entries: &[&TimeEntry]) -> (r: usize)
    requires
        entries@.len() * entries@.len() <= usize::MAX,
    ensures
        exists|now: i64| r == overlap_pairs(ref_views(entries@), now),
{
    let now = crate::clock::now();
    count_overlaps_at(entries, now)
}

// --- building the rollup -----------------------------------------------------------

/// What a rollup needs of its entries: spans chrono can hold, a grand total that
/// fits, and a pair count that fits.
pub open spec fn rollup_fits(entries: Seq<EntryView>, now: i64) -> bool {
    &&& entries_ok(entries)
    &&& epoch_ok(now as int)
    &&& total_of(entries, now as int) <= i64::MAX
    &&& entries.len() * entries.len() <= usize::MAX
}

/// Build the rollup for a set of entries, a running one measured to `now`: each
/// entry's seconds go to the grand total, to its project (the field, or
/// [`NO_PROJECT`]), to its item (the item tag, else the description) and to its
/// phase under that item; an item keeps the first description it was given and
/// is running if any of its entries runs.
pub fn rollup_at(entries: &[&TimeEntry], now: i64) -> (r: Rollup)
    requires
        rollup_fits(ref_views(entries@), now),
    ensures
        r@.projects == rolled(ref_views(entries@), now as int),
        r@.total_seconds == total_of(ref_views(entries@), now as int),
        r@.overlaps == overlap_pairs(ref_views(entries@), now),
{
    let ghost ev = ref_views(entries@);
    let overlaps = count_overlaps_at(entries, now);
    let mut projects: Vec<(String, ProjectNode)> = Vec::new();
    let mut total: i64 = 0;
    let mut i: usize = 0;
    proof {
        lemma_total_nonneg(ev, now as int);
    }
    while i < entries.len()
        invariant
            ev == ref_views(entries@),
            rollup_fits(ev, now),
            i <= entries@.len(),
            total == total_of(ev.subrange(0, i as int), now as int),
            project_views(projects@) == rolled(ev.subrange(0, i as int), now as int),
            tree_bounded(project_views(projects@), total as int),
        decreases entries@.len() - i,
    {
        let e = entries[i];
        assert(e@ == ev[i as int]);
        assert(ev.subrange(0, i + 1).drop_last() =~= ev.subrange(0, i as int));
        let secs = entry_secs(e, now);
        proof {
            lemma_total_prefix(ev, now as int, i + 1);
            lemma_total_nonneg(ev.subrange(0, i as int), now as int);
        }
        add_entry_to(&mut projects, e, secs, Ghost(total as int));
        proof {
            lemma_projects_after_bounded(
                rolled(ev.subrange(0, i as int), now as int),
                project_key(e@),
                item_key(e@),
                e@,
                secs as int,
                total as int,
            );
        }
        total = total + secs;
        i += 1;
    }
    assert(ev.subrange(0, ev.len() as int) =~= ev);
    Rollup { projects, total_seconds: total, overlaps }
}

fn epoch_in(t: i64) -> (r: bool)
    ensures
        r == epoch_ok(t as int),
{
    -200_000_000_000_000 <= t && t <= 200_000_000_000_000
}

/// Whether [`rollup_at`] can run on these entries at `now`.
pub fn fits_exec(entries: &[&TimeEntry], now: i64) -> (r: bool)
    ensures
        r == rollup_fits(ref_views(entries@), now),
{
    let ghost ev = ref_views(entries@);
    if !epoch_in(now) {
        return false;
    }
    let n = entries.len();
    match n.checked_mul(n) {
        Some(_) => {},
        None => {
            return false;
        },
    }
    let mut total: i128 = 0;
    let mut i: usize = 0;
    while i < n
        invariant
            ev == ref_views(entries@),
            n == entries@.len(),
            epoch_ok(now as int),
            i <= n,
            forall|j: int| 0 <= j < i ==> epoch_ok((#[trigger] ev[j]).start_time as int) && (match ev[j].end_time {
                Some(t) => epoch_ok(t as int),
                None => true,
            }),
            total == total_of(ev.subrange(0, i as int), now as int),
            0 <= total <= i64::MAX,
        decreases n - i,
    {
        let e = entries[i];
        assert(e@ == ev[i as int]);
        assert(ev.subrange(0, i + 1).drop_last() =~= ev.subrange(0, i as int));
        if !epoch_in(e.start_time) {
            return false;
        }
        match e.end_time {
            Some(t) => {
                if !epoch_in(t) {
                    return false;
                }
            },
            None => {},
        }
        let secs = entry_secs(e, now);
        total = total + secs as i128;
        if total > i64::MAX as i128 {
            proof {
                lemma_total_prefix(ev, now as int, i + 1);
            }
            return false;
        }
        i += 1;
    }
    assert(ev.subrange(0, n as int) =~= ev);
    true
}

/// Build the rollup with running entries measured to the clock's reading, which
/// nothing here names beyond its range. `None` only where that reading leaves the
/// entries' seconds past what the rollup counts; never where every reading in the
/// clock's range fits.
pub fn rollup(entries: &[&TimeEntry]) -> (r: Option<Rollup>)
    ensures
        match r {
            Some(r) => exists|now: i64|
                0 <= now <= crate::clock::LAST_SECOND && rollup_fits(ref_views(entries@), now) && r@.projects == rolled(
                    ref_views(entries@),
                    now as int,
                ) && r@.total_seconds == total_of(ref_views(entries@), now as int) && r@.overlaps == overlap_pairs(
                    ref_views(entries@),
                    now,
                ),
            None => exists|now: i64| 0 <= now <= crate::clock::LAST_SECOND && !rollup_fits(ref_views(entries@), now),
        },
        (forall|t: i64| 0 <= t <= crate::clock::LAST_SECOND ==> rollup_fits(ref_views(entries@), t)) ==> r is Some,
{
    let now = crate::clock::now();
    if !fits_exec(entries, now) {
        return None;
    }
    Some(rollup_at(entries, now))
}

// --- the trees are keyed in order ------------------------------------------------------

/// Keys strictly ascending: each sorts before every later one, so none repeats.
pub open spec fn ascending(keys: Seq<Seq<char>>) -> bool {
    forall|i: int, j: int| 0 <= i < j < keys.len() ==> seq_lt(keys[i], keys[j])
}

proof fn lemma_key_pos_splits(keys: Seq<Seq<char>>, key: Seq<char>)
    requires
        ascending(keys),
    ensures
        key_pos(keys, key) <= keys.len(),
        forall|i: int| 0 <= i < key_pos(keys, key) ==> seq_lt(#[trigger] keys[i], key),
        forall|i: int| key_pos(keys, key) <= i < keys.len() ==> !seq_lt(#[trigger] keys[i], key),
    decreases keys.len(),
{
    if keys.len() > 0 {
        let rest = keys.drop_first();
        assert forall|i: int, j: int| 0 <= i < j < rest.len() implies seq_lt(rest[i], rest[j]) by {
            assert(rest[i] == keys[i + 1] && rest[j] == keys[j + 1]);
        }
        lemma_key_pos_splits(rest, key);
        if seq_lt(keys[0], key) {
            assert forall|i: int| 0 <= i < key_pos(keys, key) implies seq_lt(#[trigger] keys[i], key) by {
                if i > 0 {
                    assert(keys[i] == rest[i - 1]);
                }
            }
            assert forall|i: int| key_pos(keys, key) <= i < keys.len() implies !seq_lt(#[trigger] keys[i], key) by {
                assert(keys[i] == rest[i - 1]);
            }
        } else {
            assert forall|i: int| 0 <= i < keys.len() implies !seq_lt(#[trigger] keys[i], key) by {
                if i > 0 && seq_lt(keys[i], key) {
                    crate::text::lemma_seq_lt_transitive(keys[0], keys[i], key);
                }
            }
        }
    }
}

/// Putting a key where `key_pos` puts it, when it is not there yet, keeps the
/// keys strictly ascending.
pub(crate) proof fn lemma_insert_ascending(keys: Seq<Seq<char>>, key: Seq<char>)
    requires
        ascending(keys),
        !(key_pos(keys, key) < keys.len() && keys[key_pos(keys, key) as int] == key),
    ensures
        ascending(keys.insert(key_pos(keys, key) as int, key)),
{
    lemma_key_pos_splits(keys, key);
    let k = key_pos(keys, key) as int;
    let n = keys.insert(k, key);
    if k < keys.len() {
        crate::text::lemma_seq_lt_total(keys[k], key);
    }
    assert forall|i: int, j: int| 0 <= i < j < n.len() implies seq_lt(n[i], n[j]) by {
        if i < k && j < k {
        } else if i < k && j == k {
        } else if i < k {
            assert(n[j] == keys[j - 1]);
            crate::text::lemma_seq_lt_transitive(keys[i], key, keys[k]);
            if j - 1 > k {
                crate::text::lemma_seq_lt_transitive(keys[i], keys[k], keys[j - 1]);
            }
        } else if i == k {
            assert(n[j] == keys[j - 1]);
            if j - 1 > k {
                crate::text::lemma_seq_lt_transitive(key, keys[k], keys[j - 1]);
            }
        } else {
            assert(n[i] == keys[i - 1] && n[j] == keys[j - 1]);
        }
    }
}

/// The rollup's projects are keyed in strictly ascending order, each project once,
/// as an ordered map keeps them.
pub proof fn lemma_rollup_keys_ascend(entries: Seq<EntryView>, now: int)
    ensures
        ascending(keys_of(rolled(entries, now))),
    decreases entries.len(),
{
    if entries.len() > 0 {
        lemma_rollup_keys_ascend(entries.drop_last(), now);
        let before = rolled(entries.drop_last(), now);
        let e = entries.last();
        let name = project_key(e);
        let ks = keys_of(before);
        let k = key_pos(ks, name) as int;
        lemma_key_pos_le(ks, name);
        if found_at(before, name, k) {
            assert(keys_of(rolled(entries, now)) =~= ks);
        } else {
            lemma_insert_ascending(ks, name);
            assert(keys_of(rolled(entries, now)) =~= ks.insert(k, name));
        }
    }
}

// --- the human form ---------------------------------------------------------------

/// `(key, seconds, position)`: what the report ranks rows by.
pub open spec fn ranks_before(a: (Seq<char>, int, int), b: (Seq<char>, int, int)) -> bool {
    a.1 > b.1 || (a.1 == b.1 && seq_lt(a.0, b.0))
}

pub open spec fn rank_prefix(sorted: Seq<(Seq<char>, int, int)>, x: (Seq<char>, int, int)) -> nat
    decreases sorted.len(),
{
    if sorted.len() == 0 {
        0
    } else if !ranks_before(x, sorted[0]) {
        1 + rank_prefix(sorted.drop_first(), x)
    } else {
        0
    }
}

/// Descending seconds, the name breaking ties: a stable sort by that order.
pub open spec fn ranked(s: Seq<(Seq<char>, int, int)>) -> Seq<(Seq<char>, int, int)>
    decreases s.len(),
{
    if s.len() == 0 {
        seq![]
    } else {
        let sorted = ranked(s.drop_last());
        let k = rank_prefix(sorted, s.last()) as int;
        sorted.subrange(0, k) + seq![s.last()] + sorted.subrange(k, sorted.len() as int)
    }
}

/// The characters of the `n` first characters; all of a shorter text.
pub open spec fn truncated(s: Seq<char>, n: int) -> Seq<char> {
    if s.len() <= n {
        s
    } else {
        s.subrange(0, n)
    }
}

pub open spec fn pad_right(s: Seq<char>, w: int) -> Seq<char> {
    s + spaces(w - s.len())
}

pub open spec fn pad_left(s: Seq<char>, w: int) -> Seq<char> {
    spaces(w - s.len()) + s
}

pub open spec fn concat(parts: Seq<Seq<char>>) -> Seq<char>
    decreases parts.len(),
{
    if parts.len() == 0 {
        seq![]
    } else {
        concat(parts.drop_last()) + parts.last()
    }
}

pub open spec fn join_str(parts: Seq<Seq<char>>, sep: Seq<char>) -> Seq<char>
    decreases parts.len(),
{
    if parts.len() == 0 {
        seq![]
    } else if parts.len() == 1 {
        parts[0]
    } else {
        join_str(parts.drop_last(), sep) + sep + parts.last()
    }
}

/// Each phase with its position.
pub open spec fn indexed_phases(phases: Seq<(Seq<char>, int)>) -> Seq<(Seq<char>, int, int)> {
    Seq::new(phases.len(), |i: int| (phases[i].0, phases[i].1, i))
}

/// Ranked phases as `name 1h 0m`.
pub open spec fn phase_labels(order: Seq<(Seq<char>, int, int)>) -> Seq<Seq<char>> {
    order.map_values(|x: (Seq<char>, int, int)| x.0 + seq![' '] + hm_text(x.1))
}

/// The phases of an item, ranked, as `name 1h 0m`.
pub open spec fn phase_parts(phases: Seq<(Seq<char>, int)>) -> Seq<Seq<char>> {
    phase_labels(ranked(indexed_phases(phases)))
}

/// One item's lines: the row (starred while running), the description when it
/// says something the key does not, and the phase breakdown when there is one.
pub open spec fn item_block(key: Seq<char>, item: ItemView) -> Seq<char> {
    "  "@ + pad_right(truncated(key, 26), 26) + seq![' '] + pad_left(hm_text(item.seconds), 8) + (if item.active {
        " *"@
    } else {
        seq![]
    }) + seq!['\n'] + (if item.description != key && item.description.len() > 0 {
        "      "@ + truncated(item.description, 60) + seq!['\n']
    } else {
        seq![]
    }) + (if item.phases.len() > 0 {
        "      "@ + join_str(phase_parts(item.phases), " · "@) + seq!['\n']
    } else {
        seq![]
    })
}

/// Each item with its seconds and position.
pub open spec fn indexed_items(items: Seq<(Seq<char>, ItemView)>) -> Seq<(Seq<char>, int, int)> {
    Seq::new(items.len(), |i: int| (items[i].0, items[i].1.seconds, i))
}

/// The items' blocks in the given order.
pub open spec fn item_blocks(items: Seq<(Seq<char>, ItemView)>, order: Seq<(Seq<char>, int, int)>) -> Seq<Seq<char>> {
    order.map_values(|x: (Seq<char>, int, int)| item_block(items[x.2].0, items[x.2].1))
}

/// One project's lines: its row, its items ranked, and a blank line.
pub open spec fn project_block(name: Seq<char>, node: ProjectView) -> Seq<char> {
    pad_right(name, 28) + seq![' '] + pad_left(hm_text(node.seconds), 8) + seq!['\n'] + concat(
        item_blocks(node.items, ranked(indexed_items(node.items))),
    ) + seq!['\n']
}

/// Each project with its seconds and position.
pub open spec fn indexed_projects(p: Seq<(Seq<char>, ProjectView)>) -> Seq<(Seq<char>, int, int)> {
    Seq::new(p.len(), |i: int| (p[i].0, p[i].1.seconds, i))
}

pub open spec fn project_blocks(p: Seq<(Seq<char>, ProjectView)>, order: Seq<(Seq<char>, int, int)>) -> Seq<Seq<char>> {
    order.map_values(|x: (Seq<char>, int, int)| project_block(p[x.2].0, p[x.2].1))
}

/// The closing warning when spans overlap.
pub open spec fn overlap_note(overlaps: int, warning: Seq<char>) -> Seq<char> {
    if overlaps > 0 {
        warning + seq![' '] + int_text(overlaps) + " overlapping span(s) — retro `tt log` back-dates from now, so\n"@
            + "totals are right but the timeline is not. Log at each commit, not in batches.\n"@
    } else {
        seq![]
    }
}

/// The human rollup: a header with the label and the grand total, each project
/// ranked by its seconds with its items, and a warning when spans overlap; or
/// one line saying there is nothing for the label.
pub open spec fn render_spec(r: RollupView, label: Seq<char>, calendar: Seq<char>, warning: Seq<char>) -> Seq<char> {
    if r.projects.len() == 0 {
        "No entries for "@ + label + ".\n"@
    } else {
        calendar + seq![' '] + label + " — "@ + hm_text(r.total_seconds) + "\n\n"@ + concat(
            project_blocks(r.projects, ranked(indexed_projects(r.projects))),
        ) + overlap_note(r.overlaps, warning)
    }
}

pub open spec fn rank_views(v: Seq<(Vec<char>, i64, usize)>) -> Seq<(Seq<char>, int, int)> {
    v.map_values(|x: (Vec<char>, i64, usize)| (x.0@, x.1 as int, x.2 as int))
}

fn ranks_before_exec(a: &(Vec<char>, i64, usize), b: &(Vec<char>, i64, usize)) -> (r: bool)
    ensures
        r == ranks_before((a.0@, a.1 as int, a.2 as int), (b.0@, b.1 as int, b.2 as int)),
{
    if a.1 != b.1 {
        return a.1 > b.1;
    }
    chars_order(&a.0, &b.0) < 0
}

pub(crate) fn rank_exec(v: Vec<(Vec<char>, i64, usize)>) -> (r: Vec<(Vec<char>, i64, usize)>)
    ensures
        rank_views(r@) == ranked(rank_views(v@)),
{
    let mut sorted: Vec<(Vec<char>, i64, usize)> = Vec::new();
    let mut rest = v;
    let ghost all = rank_views(rest@);
    let mut i: usize = 0;
    let n = rest.len();
    while i < n
        invariant
            i <= n,
            n == all.len(),
            rest@.len() == n - i,
            rank_views(rest@) == all.subrange(i as int, n as int),
            rank_views(sorted@) == ranked(all.subrange(0, i as int)),
        decreases n - i,
    {
        assert(all.subrange(0, i + 1).drop_last() =~= all.subrange(0, i as int));
        let ghost rest_before = rest@;
        let x = rest.remove(0);
        assert(rank_views(rest_before)[0] == (x.0@, x.1 as int, x.2 as int));
        assert(rank_views(rest@) =~= all.subrange(i + 1, n as int)) by {
            assert(rank_views(rest@) =~= rank_views(rest_before).drop_first());
        }
        let ghost sv = rank_views(sorted@);
        let ghost xv = (x.0@, x.1 as int, x.2 as int);
        let mut k: usize = 0;
        assert(sv.subrange(0, sv.len() as int) =~= sv);
        while k < sorted.len() && !ranks_before_exec(&x, &sorted[k])
            invariant
                sv == rank_views(sorted@),
                xv == (x.0@, x.1 as int, x.2 as int),
                k <= sorted.len(),
                rank_prefix(sv, xv) == k + rank_prefix(sv.subrange(k as int, sv.len() as int), xv),
            decreases sorted.len() - k,
        {
            let ghost tail = sv.subrange(k as int, sv.len() as int);
            assert(tail.drop_first() =~= sv.subrange(k + 1, sv.len() as int));
            k += 1;
        }
        proof {
            let tail = sv.subrange(k as int, sv.len() as int);
            if k < sorted.len() {
                assert(tail[0] == sv[k as int]);
            }
            assert(rank_prefix(tail, xv) == 0);
        }
        sorted.insert(k, x);
        assert(rank_views(sorted@) =~= sv.subrange(0, k as int) + seq![all[i as int]] + sv.subrange(
            k as int,
            sv.len() as int,
        ));
        i += 1;
    }
    assert(all.subrange(0, n as int) =~= all);
    sorted
}

fn push_truncated(out: &mut Vec<char>, s: &Vec<char>, n: usize)
    ensures
        final(out)@ == old(out)@ + truncated(s@, n as int),
{
    let ghost start = out@;
    let m = if s.len() <= n {
        s.len()
    } else {
        n
    };
    let mut i: usize = 0;
    while i < m
        invariant
            m <= s.len(),
            i <= m,
            out@ == start + s@.subrange(0, i as int),
        decreases m - i,
    {
        out.push(s[i]);
        i += 1;
        assert(out@ =~= start + s@.subrange(0, i as int));
    }
    assert(truncated(s@, n as int) =~= s@.subrange(0, m as int));
}

fn push_padded_right(out: &mut Vec<char>, s: &Vec<char>, w: usize)
    ensures
        final(out)@ == old(out)@ + pad_right(s@, w as int),
{
    push_all(out, s);
    if s.len() < w {
        push_spaces(out, w - s.len());
    } else {
        assert(spaces(w - s@.len()) =~= Seq::<char>::empty());
    }
    assert(pad_right(s@, w as int) == s@ + spaces(w - s@.len()));
}

fn push_padded_left(out: &mut Vec<char>, s: &Vec<char>, w: usize)
    ensures
        final(out)@ == old(out)@ + pad_left(s@, w as int),
{
    if s.len() < w {
        push_spaces(out, w - s.len());
    } else {
        assert(spaces(w - s@.len()) =~= Seq::<char>::empty());
    }
    push_all(out, s);
}

fn hm_chars(seconds: i64) -> (r: Vec<char>)
    ensures
        r@ == hm_text(seconds as int),
{
    chars_of(crate::duration::format(seconds).as_str())
}

fn phase_line(phases: &Vec<(String, i64)>) -> (r: Vec<char>)
    ensures
        r@ == join_str(phase_parts(phase_views(phases@)), " · "@),
{
    let ghost pv = phase_views(phases@);
    let mut tagged: Vec<(Vec<char>, i64, usize)> = Vec::new();
    let mut i: usize = 0;
    while i < phases.len()
        invariant
            pv == phase_views(phases@),
            i <= phases.len(),
            rank_views(tagged@) == indexed_phases(pv).subrange(0, i as int),
            tagged@.len() == i,
        decreases phases.len() - i,
    {
        let ghost before = tagged@;
        let c = chars_of(phases[i].0.as_str());
        assert(pv[i as int] == (phases@[i as int].0@, phases@[i as int].1 as int));
        tagged.push((c, phases[i].1, i));
        assert(pv.len() == phases@.len());
        assert(indexed_phases(pv)[i as int] == (pv[i as int].0, pv[i as int].1, i as int));
        assert(tagged@[i as int] == (c, phases@[i as int].1, i));
        assert(rank_views(tagged@)[i as int] == (c@, phases@[i as int].1 as int, i as int));
        assert(rank_views(tagged@).len() == i + 1);
        assert forall|j: int| 0 <= j < i implies rank_views(tagged@)[j] == rank_views(before)[j] by {
            assert(tagged@[j] == before[j]);
        }
        assert(rank_views(tagged@) =~= indexed_phases(pv).subrange(0, i + 1));
        i += 1;
    }
    assert(indexed_phases(pv).subrange(0, pv.len() as int) =~= indexed_phases(pv));
    let order = rank_exec(tagged);
    let ghost ov = rank_views(order@);
    let ghost parts = phase_parts(pv);
    assert(ov == ranked(indexed_phases(pv)));
    let mut out: Vec<char> = Vec::new();
    let mut k: usize = 0;
    while k < order.len()
        invariant
            ov == rank_views(order@),
            ov.len() == order@.len(),
            parts == phase_labels(ov),
            parts.len() == order@.len(),
            k <= order.len(),
            out@ == join_str(parts.subrange(0, k as int), " · "@),
        decreases order.len() - k,
    {
        let ghost prev = parts.subrange(0, k as int);
        assert(parts.subrange(0, k + 1).drop_last() =~= prev);
        assert(parts.subrange(0, k + 1).last() == parts[k as int]);
        assert(ov[k as int] == (order@[k as int].0@, order@[k as int].1 as int, order@[k as int].2 as int));
        assert(parts[k as int] == order@[k as int].0@ + seq![' '] + hm_text(order@[k as int].1 as int));
        if k > 0 {
            push_str(&mut out, " · ");
        }
        push_all(&mut out, &order[k].0);
        out.push(' ');
        let h = hm_chars(order[k].1);
        push_all(&mut out, &h);
        proof {
            if k == 0 {
                assert(parts.subrange(0, 1) =~= seq![parts[0]]);
            }
        }
        assert(out@ =~= join_str(parts.subrange(0, k + 1), " · "@));
        k += 1;
    }
    assert(parts.subrange(0, parts.len() as int) =~= parts);
    out
}

fn item_block_exec(key: &String, item: &ItemNode) -> (r: Vec<char>)
    ensures
        r@ == item_block(key@, item@),
{
    let k = chars_of(key.as_str());
    let mut out: Vec<char> = Vec::new();
    push_str(&mut out, "  ");
    let mut cut: Vec<char> = Vec::new();
    push_truncated(&mut cut, &k, 26);
    assert(cut@ == truncated(k@, 26));
    push_padded_right(&mut out, &cut, 26);
    out.push(' ');
    let h = hm_chars(item.seconds);
    push_padded_left(&mut out, &h, 8);
    if item.active {
        push_str(&mut out, " *");
    }
    out.push('\n');
    let d = chars_of(item.description.as_str());
    if !chars_eq(&d, &k) && d.len() > 0 {
        push_str(&mut out, "      ");
        push_truncated(&mut out, &d, 60);
        out.push('\n');
    }
    if item.phases.len() > 0 {
        push_str(&mut out, "      ");
        let line = phase_line(&item.phases);
        push_all(&mut out, &line);
        out.push('\n');
    }
    assert(out@ =~= item_block(key@, item@));
    out
}

#[verifier::rlimit(40)]
#[verifier::spinoff_prover]
fn push_blocks_items(out: &mut Vec<char>, items: &Vec<(String, ItemNode)>)
    ensures
        final(out)@ == old(out)@ + concat(item_blocks(item_views(items@), ranked(indexed_items(item_views(items@))))),
{
    let ghost iv = item_views(items@);
    let mut tagged: Vec<(Vec<char>, i64, usize)> = Vec::new();
    let mut i: usize = 0;
    while i < items.len()
        invariant
            iv == item_views(items@),
            i <= items.len(),
            tagged@.len() == i,
            rank_views(tagged@) == indexed_items(iv).subrange(0, i as int),
        decreases items.len() - i,
    {
        let ghost before = tagged@;
        let c = chars_of(items[i].0.as_str());
        assert(iv[i as int] == (items@[i as int].0@, items@[i as int].1@));
        tagged.push((c, items[i].1.seconds, i));
        assert(indexed_items(iv)[i as int] == (iv[i as int].0, iv[i as int].1.seconds, i as int));
        assert(rank_views(tagged@)[i as int] == (items@[i as int].0@, items@[i as int].1.seconds as int, i as int));
        assert forall|j: int| 0 <= j < i implies rank_views(tagged@)[j] == rank_views(before)[j] by {
            assert(tagged@[j] == before[j]);
        }
        assert(rank_views(tagged@) =~= indexed_items(iv).subrange(0, i + 1));
        i += 1;
    }
    assert(indexed_items(iv).subrange(0, iv.len() as int) =~= indexed_items(iv));
    let order = rank_exec(tagged);
    let ghost ov = rank_views(order@);
    let ghost blocks = item_blocks(iv, ov);
    proof {
        lemma_ranked_positions(indexed_items(iv));
    }
    let ghost start = out@;
    let mut k: usize = 0;
    while k < order.len()
        invariant
            iv == item_views(items@),
            ov == rank_views(order@),
            ov.len() == order@.len(),
            ov == ranked(indexed_items(iv)),
            forall|q: int| 0 <= q < ov.len() ==> 0 <= (#[trigger] ov[q]).2 < iv.len(),
            blocks == item_blocks(iv, ov),
            blocks.len() == ov.len(),
            k <= order.len(),
            out@ == start + concat(blocks.subrange(0, k as int)),
        decreases order.len() - k,
    {
        assert(blocks.subrange(0, k + 1).drop_last() =~= blocks.subrange(0, k as int));
        assert(ov[k as int] == (order@[k as int].0@, order@[k as int].1 as int, order@[k as int].2 as int));
        let idx = order[k].2;
        assert(blocks[k as int] == item_block(iv[idx as int].0, iv[idx as int].1));
        let b = item_block_exec(&items[idx].0, &items[idx].1);
        push_all(out, &b);
        assert(out@ =~= start + concat(blocks.subrange(0, k + 1)));
        k += 1;
    }
    assert(blocks.subrange(0, blocks.len() as int) =~= blocks);
}

/// Every position in a ranked list comes from the list: `ranked` only reorders.
pub(crate) proof fn lemma_ranked_positions(s: Seq<(Seq<char>, int, int)>)
    ensures
        ranked(s).len() == s.len(),
        forall|q: int| 0 <= q < ranked(s).len() ==> exists|p: int| 0 <= p < s.len() && #[trigger] ranked(s)[q] == s[p],
    decreases s.len(),
{
    if s.len() > 0 {
        let rest = s.drop_last();
        lemma_ranked_positions(rest);
        lemma_rank_prefix_le(ranked(rest), s.last());
        let sorted = ranked(rest);
        let k = rank_prefix(sorted, s.last()) as int;
        let r = ranked(s);
        assert(r == sorted.subrange(0, k) + seq![s.last()] + sorted.subrange(k, sorted.len() as int));
        assert forall|q: int| 0 <= q < r.len() implies exists|p: int| 0 <= p < s.len() && #[trigger] r[q] == s[p] by {
            if q < k {
                assert(r[q] == sorted[q]);
                let p = choose|p: int| 0 <= p < rest.len() && sorted[q] == rest[p];
                assert(rest[p] == s[p]);
            } else if q == k {
                assert(r[q] == s[s.len() - 1]);
            } else {
                assert(r[q] == sorted[q - 1]);
                let p = choose|p: int| 0 <= p < rest.len() && sorted[q - 1] == rest[p];
                assert(rest[p] == s[p]);
            }
        }
    }
}

proof fn lemma_rank_prefix_le(sorted: Seq<(Seq<char>, int, int)>, x: (Seq<char>, int, int))
    ensures
        rank_prefix(sorted, x) <= sorted.len(),
    decreases sorted.len(),
{
    if sorted.len() > 0 {
        lemma_rank_prefix_le(sorted.drop_first(), x);
    }
}

/// Nothing ranks before a row ahead of it: seconds never rise down the list, and
/// among equal seconds the names ascend.
pub open spec fn rank_ordered(s: Seq<(Seq<char>, int, int)>) -> bool {
    forall|a: int, b: int| 0 <= a < b < s.len() ==> !ranks_before(#[trigger] s[b], #[trigger] s[a])
}

proof fn lemma_ranks_before_asymmetric(a: (Seq<char>, int, int), b: (Seq<char>, int, int))
    ensures
        !(ranks_before(a, b) && ranks_before(b, a)),
{
    crate::text::lemma_seq_lt_total(a.0, b.0);
}

proof fn lemma_ranks_before_through(a: (Seq<char>, int, int), b: (Seq<char>, int, int), c: (Seq<char>, int, int))
    requires
        ranks_before(a, b),
        !ranks_before(c, b),
    ensures
        ranks_before(a, c),
{
    crate::text::lemma_seq_lt_total(b.0, c.0);
    if a.1 == b.1 && b.1 == c.1 && seq_lt(b.0, c.0) {
        crate::text::lemma_seq_lt_transitive(a.0, b.0, c.0);
    }
}

proof fn lemma_rank_prefix_splits(sorted: Seq<(Seq<char>, int, int)>, x: (Seq<char>, int, int))
    requires
        rank_ordered(sorted),
    ensures
        rank_prefix(sorted, x) <= sorted.len(),
        forall|i: int| 0 <= i < rank_prefix(sorted, x) ==> !ranks_before(x, #[trigger] sorted[i]),
        forall|i: int| rank_prefix(sorted, x) <= i < sorted.len() ==> ranks_before(x, #[trigger] sorted[i]),
    decreases sorted.len(),
{
    if sorted.len() > 0 {
        let rest = sorted.drop_first();
        assert forall|a: int, b: int| 0 <= a < b < rest.len() implies !ranks_before(#[trigger] rest[b], #[trigger] rest[a]) by {
            assert(rest[a] == sorted[a + 1] && rest[b] == sorted[b + 1]);
        }
        lemma_rank_prefix_splits(rest, x);
        if !ranks_before(x, sorted[0]) {
            assert forall|i: int| 0 <= i < rank_prefix(sorted, x) implies !ranks_before(x, #[trigger] sorted[i]) by {
                if i > 0 {
                    assert(sorted[i] == rest[i - 1]);
                }
            }
            assert forall|i: int| rank_prefix(sorted, x) <= i < sorted.len() implies ranks_before(x, #[trigger] sorted[i]) by {
                assert(sorted[i] == rest[i - 1]);
            }
        } else {
            assert forall|i: int| 0 <= i < sorted.len() implies ranks_before(x, #[trigger] sorted[i]) by {
                if i > 0 {
                    assert(!ranks_before(sorted[i], sorted[0]));
                    lemma_ranks_before_through(x, sorted[0], sorted[i]);
                }
            }
        }
    }
}

proof fn lemma_ranked_ordered(s: Seq<(Seq<char>, int, int)>)
    ensures
        rank_ordered(ranked(s)),
    decreases s.len(),
{
    if s.len() > 0 {
        let rest = s.drop_last();
        let x = s.last();
        lemma_ranked_ordered(rest);
        let sorted = ranked(rest);
        lemma_rank_prefix_splits(sorted, x);
        let k = rank_prefix(sorted, x) as int;
        let out = ranked(s);
        assert(out =~= sorted.insert(k, x));
        assert forall|a: int, b: int| 0 <= a < b < out.len() implies !ranks_before(#[trigger] out[b], #[trigger] out[a]) by {
            if b < k {
                assert(out[a] == sorted[a] && out[b] == sorted[b]);
            } else if b == k {
                assert(out[a] == sorted[a]);
            } else if a < k {
                assert(out[a] == sorted[a] && out[b] == sorted[b - 1]);
            } else if a == k {
                assert(out[b] == sorted[b - 1]);
                lemma_ranks_before_asymmetric(x, sorted[b - 1]);
            } else {
                assert(out[a] == sorted[a - 1] && out[b] == sorted[b - 1]);
            }
        }
    }
}

proof fn lemma_ranked_distinct(s: Seq<(Seq<char>, int, int)>)
    requires
        s.no_duplicates(),
    ensures
        ranked(s).no_duplicates(),
    decreases s.len(),
{
    if s.len() > 0 {
        let rest = s.drop_last();
        let x = s.last();
        assert(rest.no_duplicates()) by {
            assert forall|a: int, b: int| 0 <= a < rest.len() && 0 <= b < rest.len() && a != b implies rest[a] != rest[b] by {
                assert(rest[a] == s[a] && rest[b] == s[b]);
            }
        }
        lemma_ranked_distinct(rest);
        lemma_ranked_positions(rest);
        let sorted = ranked(rest);
        lemma_rank_prefix_le(sorted, x);
        let k = rank_prefix(sorted, x) as int;
        let out = ranked(s);
        assert(out =~= sorted.insert(k, x));
        assert forall|q: int| 0 <= q < sorted.len() implies sorted[q] != x by {
            let p = choose|p: int| 0 <= p < rest.len() && #[trigger] sorted[q] == rest[p];
            assert(rest[p] == s[p]);
            assert(s[p] != s[s.len() - 1]);
        }
        assert forall|a: int, b: int| 0 <= a < out.len() && 0 <= b < out.len() && a != b implies out[a] != out[b] by {
            let sa = if a < k { a } else { a - 1 };
            let sb = if b < k { b } else { b - 1 };
            if a != k && b != k {
                assert(out[a] == sorted[sa] && out[b] == sorted[sb]);
            } else if a == k {
                assert(out[b] == sorted[sb]);
            } else {
                assert(out[a] == sorted[sa]);
            }
        }
    }
}

/// `order` lists each of the project's items once, seconds never rising down the
/// list and names ascending among equal seconds.
pub open spec fn items_by_time(node: ProjectView, order: Seq<int>) -> bool {
    &&& order.len() == node.items.len()
    &&& forall|a: int| 0 <= a < order.len() ==> 0 <= #[trigger] order[a] < node.items.len()
    &&& forall|a: int, b: int| 0 <= a < b < order.len() ==> #[trigger] order[a] != #[trigger] order[b]
    &&& forall|a: int, b: int|
        0 <= a < b < order.len() ==> {
            let x = node.items[#[trigger] order[a]];
            let y = node.items[#[trigger] order[b]];
            x.1.seconds > y.1.seconds || (x.1.seconds == y.1.seconds && !seq_lt(y.0, x.0))
        }
}

/// Within a project's block the item rows come in falling order of their seconds,
/// names ascending among equals: the block is the project's row, then each item's
/// block once, in such an order, then a blank line.
pub proof fn lemma_items_print_by_time(name: Seq<char>, node: ProjectView)
    ensures
        exists|order: Seq<int>|
            #[trigger] items_by_time(node, order) && project_block(name, node) == pad_right(name, 28) + seq![' ']
                + pad_left(hm_text(node.seconds), 8) + seq!['\n'] + concat(
                order.map_values(|k: int| item_block(node.items[k].0, node.items[k].1)),
            ) + seq!['\n'],
{
    let items = node.items;
    let ix = indexed_items(items);
    assert(ix.no_duplicates()) by {
        assert forall|a: int, b: int| 0 <= a < ix.len() && 0 <= b < ix.len() && a != b implies ix[a] != ix[b] by {
            assert(ix[a].2 == a && ix[b].2 == b);
        }
    }
    let r = ranked(ix);
    lemma_ranked_positions(ix);
    lemma_ranked_ordered(ix);
    lemma_ranked_distinct(ix);
    let order = r.map_values(|x: (Seq<char>, int, int)| x.2);
    assert forall|a: int| 0 <= a < r.len() implies r[a] == ix[order[a]] && 0 <= order[a] < items.len() by {
        let p = choose|p: int| 0 <= p < ix.len() && #[trigger] r[a] == ix[p];
        assert(ix[p].2 == p);
    }
    assert forall|a: int, b: int| 0 <= a < b < order.len() implies #[trigger] order[a] != #[trigger] order[b] by {
        assert(r[a] == ix[order[a]] && r[b] == ix[order[b]]);
    }
    assert forall|a: int, b: int| 0 <= a < b < order.len() implies {
        let x = items[#[trigger] order[a]];
        let y = items[#[trigger] order[b]];
        x.1.seconds > y.1.seconds || (x.1.seconds == y.1.seconds && !seq_lt(y.0, x.0))
    } by {
        assert(r[a] == ix[order[a]] && r[b] == ix[order[b]]);
        assert(!ranks_before(r[b], r[a]));
    }
    assert(item_blocks(items, r) =~= order.map_values(|k: int| item_block(items[k].0, items[k].1))) by {
        assert forall|a: int| 0 <= a < r.len() implies item_blocks(items, r)[a] == order.map_values(
            |k: int| item_block(items[k].0, items[k].1),
        )[a] by {
            assert(r[a].2 == order[a]);
        }
    }
    assert(items_by_time(node, order));
}

/// `order` lists each project once, seconds never rising down the list and names
/// ascending among equal seconds.
pub open spec fn projects_by_time(p: Seq<(Seq<char>, ProjectView)>, order: Seq<int>) -> bool {
    &&& order.len() == p.len()
    &&& forall|a: int| 0 <= a < order.len() ==> 0 <= #[trigger] order[a] < p.len()
    &&& forall|a: int, b: int| 0 <= a < b < order.len() ==> #[trigger] order[a] != #[trigger] order[b]
    &&& forall|a: int, b: int|
        0 <= a < b < order.len() ==> {
            let x = p[#[trigger] order[a]];
            let y = p[#[trigger] order[b]];
            x.1.seconds > y.1.seconds || (x.1.seconds == y.1.seconds && !seq_lt(y.0, x.0))
        }
}

/// The report lists its projects in falling order of their seconds, names
/// ascending among equals, each project's block once, under the header and above
/// the overlap note.
pub proof fn lemma_projects_print_by_time(r: RollupView, label: Seq<char>, calendar: Seq<char>, warning: Seq<char>)
    requires
        r.projects.len() > 0,
    ensures
        exists|order: Seq<int>|
            #[trigger] projects_by_time(r.projects, order) && render_spec(r, label, calendar, warning) == calendar
                + seq![' '] + label + " — "@ + hm_text(r.total_seconds) + "\n\n"@ + concat(
                order.map_values(|k: int| project_block(r.projects[k].0, r.projects[k].1)),
            ) + overlap_note(r.overlaps, warning),
{
    let p = r.projects;
    let ix = indexed_projects(p);
    assert(ix.no_duplicates()) by {
        assert forall|a: int, b: int| 0 <= a < ix.len() && 0 <= b < ix.len() && a != b implies ix[a] != ix[b] by {
            assert(ix[a].2 == a && ix[b].2 == b);
        }
    }
    let rk = ranked(ix);
    lemma_ranked_positions(ix);
    lemma_ranked_ordered(ix);
    lemma_ranked_distinct(ix);
    let order = rk.map_values(|x: (Seq<char>, int, int)| x.2);
    assert forall|a: int| 0 <= a < rk.len() implies rk[a] == ix[order[a]] && 0 <= order[a] < p.len() by {
        let q = choose|q: int| 0 <= q < ix.len() && #[trigger] rk[a] == ix[q];
        assert(ix[q].2 == q);
    }
    assert forall|a: int, b: int| 0 <= a < b < order.len() implies #[trigger] order[a] != #[trigger] order[b] by {
        assert(rk[a] == ix[order[a]] && rk[b] == ix[order[b]]);
    }
    assert forall|a: int, b: int| 0 <= a < b < order.len() implies {
        let x = p[#[trigger] order[a]];
        let y = p[#[trigger] order[b]];
        x.1.seconds > y.1.seconds || (x.1.seconds == y.1.seconds && !seq_lt(y.0, x.0))
    } by {
        assert(rk[a] == ix[order[a]] && rk[b] == ix[order[b]]);
        assert(!ranks_before(rk[b], rk[a]));
    }
    assert(project_blocks(p, rk) =~= order.map_values(|k: int| project_block(p[k].0, p[k].1))) by {
        assert forall|a: int| 0 <= a < rk.len() implies project_blocks(p, rk)[a] == order.map_values(
            |k: int| project_block(p[k].0, p[k].1),
        )[a] by {
            assert(rk[a].2 == order[a]);
        }
    }
    assert(projects_by_time(p, order));
}

/// `order` lists each phase once, seconds never rising down the list and names
/// ascending among equal seconds.
pub open spec fn phases_by_time(phases: Seq<(Seq<char>, int)>, order: Seq<int>) -> bool {
    &&& order.len() == phases.len()
    &&& forall|a: int| 0 <= a < order.len() ==> 0 <= #[trigger] order[a] < phases.len()
    &&& forall|a: int, b: int| 0 <= a < b < order.len() ==> #[trigger] order[a] != #[trigger] order[b]
    &&& forall|a: int, b: int|
        0 <= a < b < order.len() ==> {
            let x = phases[#[trigger] order[a]];
            let y = phases[#[trigger] order[b]];
            x.1 > y.1 || (x.1 == y.1 && !seq_lt(y.0, x.0))
        }
}

/// An item's phase breakdown names each phase once, as `name 1h 0m`, in falling
/// order of its seconds, names ascending among equals.
pub proof fn lemma_phases_print_by_time(phases: Seq<(Seq<char>, int)>)
    ensures
        exists|order: Seq<int>|
            #[trigger] phases_by_time(phases, order) && phase_parts(phases) == order.map_values(
                |k: int| phases[k].0 + seq![' '] + hm_text(phases[k].1),
            ),
{
    let ix = indexed_phases(phases);
    assert(ix.no_duplicates()) by {
        assert forall|a: int, b: int| 0 <= a < ix.len() && 0 <= b < ix.len() && a != b implies ix[a] != ix[b] by {
            assert(ix[a].2 == a && ix[b].2 == b);
        }
    }
    let rk = ranked(ix);
    lemma_ranked_positions(ix);
    lemma_ranked_ordered(ix);
    lemma_ranked_distinct(ix);
    let order = rk.map_values(|x: (Seq<char>, int, int)| x.2);
    assert forall|a: int| 0 <= a < rk.len() implies rk[a] == ix[order[a]] && 0 <= order[a] < phases.len() by {
        let q = choose|q: int| 0 <= q < ix.len() && #[trigger] rk[a] == ix[q];
        assert(ix[q].2 == q);
    }
    assert forall|a: int, b: int| 0 <= a < b < order.len() implies #[trigger] order[a] != #[trigger] order[b] by {
        assert(rk[a] == ix[order[a]] && rk[b] == ix[order[b]]);
    }
    assert forall|a: int, b: int| 0 <= a < b < order.len() implies {
        let x = phases[#[trigger] order[a]];
        let y = phases[#[trigger] order[b]];
        x.1 > y.1 || (x.1 == y.1 && !seq_lt(y.0, x.0))
    } by {
        assert(rk[a] == ix[order[a]] && rk[b] == ix[order[b]]);
        assert(!ranks_before(rk[b], rk[a]));
    }
    assert(phase_parts(phases) =~= order.map_values(|k: int| phases[k].0 + seq![' '] + hm_text(phases[k].1))) by {
        assert forall|a: int| 0 <= a < rk.len() implies phase_parts(phases)[a] == order.map_values(
            |k: int| phases[k].0 + seq![' '] + hm_text(phases[k].1),
        )[a] by {
            assert(rk[a] == ix[order[a]]);
        }
    }
    assert(phases_by_time(phases, order));
}

fn project_block_exec(name: &String, node: &ProjectNode) -> (r: Vec<char>)
    ensures
        r@ == project_block(name@, node@),
{
    let n = chars_of(name.as_str());
    let mut out: Vec<char> = Vec::new();
    push_padded_right(&mut out, &n, 28);
    out.push(' ');
    let h = hm_chars(node.seconds);
    push_padded_left(&mut out, &h, 8);
    out.push('\n');
    push_blocks_items(&mut out, &node.items);
    out.push('\n');
    assert(out@ =~= project_block(name@, node@));
    out
}

#[verifier::rlimit(40)]
#[verifier::spinoff_prover]
fn push_blocks_projects(out: &mut Vec<char>, projects: &Vec<(String, ProjectNode)>)
    ensures
        final(out)@ == old(out)@ + concat(
            project_blocks(project_views(projects@), ranked(indexed_projects(project_views(projects@)))),
        ),
{
    let ghost pv = project_views(projects@);
    let mut tagged: Vec<(Vec<char>, i64, usize)> = Vec::new();
    let mut i: usize = 0;
    while i < projects.len()
        invariant
            pv == project_views(projects@),
            i <= projects.len(),
            tagged@.len() == i,
            rank_views(tagged@) == indexed_projects(pv).subrange(0, i as int),
        decreases projects.len() - i,
    {
        let ghost before = tagged@;
        let c = chars_of(projects[i].0.as_str());
        assert(pv[i as int] == (projects@[i as int].0@, projects@[i as int].1@));
        tagged.push((c, projects[i].1.seconds, i));
        assert(indexed_projects(pv)[i as int] == (pv[i as int].0, pv[i as int].1.seconds, i as int));
        assert(rank_views(tagged@)[i as int] == (projects@[i as int].0@, projects@[i as int].1.seconds as int, i as int));
        assert forall|j: int| 0 <= j < i implies rank_views(tagged@)[j] == rank_views(before)[j] by {
            assert(tagged@[j] == before[j]);
        }
        assert(rank_views(tagged@) =~= indexed_projects(pv).subrange(0, i + 1));
        i += 1;
    }
    assert(indexed_projects(pv).subrange(0, pv.len() as int) =~= indexed_projects(pv));
    let order = rank_exec(tagged);
    let ghost ov = rank_views(order@);
    let ghost blocks = project_blocks(pv, ov);
    proof {
        lemma_ranked_positions(indexed_projects(pv));
    }
    let ghost start = out@;
    let mut k: usize = 0;
    while k < order.len()
        invariant
            pv == project_views(projects@),
            ov == rank_views(order@),
            ov.len() == order@.len(),
            ov == ranked(indexed_projects(pv)),
            forall|q: int| 0 <= q < ov.len() ==> 0 <= (#[trigger] ov[q]).2 < pv.len(),
            blocks == project_blocks(pv, ov),
            blocks.len() == ov.len(),
            k <= order.len(),
            out@ == start + concat(blocks.subrange(0, k as int)),
        decreases order.len() - k,
    {
        assert(blocks.subrange(0, k + 1).drop_last() =~= blocks.subrange(0, k as int));
        assert(ov[k as int] == (order@[k as int].0@, order@[k as int].1 as int, order@[k as int].2 as int));
        let idx = order[k].2;
        assert(blocks[k as int] == project_block(pv[idx as int].0, pv[idx as int].1));
        let b = project_block_exec(&projects[idx].0, &projects[idx].1);
        push_all(out, &b);
        assert(out@ =~= start + concat(blocks.subrange(0, k + 1)));
        k += 1;
    }
    assert(blocks.subrange(0, blocks.len() as int) =~= blocks);
}

/// The human rollup: a header with the label and the grand total; each project
/// ranked by seconds (the name breaking ties) with its items ranked the same way,
/// an item's description when it differs from its key and its phases ranked;
/// then a warning when spans overlap. An empty rollup is one line saying so.
/// Keys and descriptions are cut by characters, never bytes. The two glyphs the
/// header and the warning open with are the caller's.
pub fn render(rollup: &Rollup, label: &str, calendar: &str, warning: &str) -> (r: String)
    ensures
        r@ == render_spec(rollup@, label@, calendar@, warning@),
{
    let mut out: Vec<char> = Vec::new();
    if rollup.is_empty() {
        push_str(&mut out, "No entries for ");
        push_str(&mut out, label);
        push_str(&mut out, ".\n");
        return string_of(&out);
    }
    push_str(&mut out, calendar);
    out.push(' ');
    push_str(&mut out, label);
    push_str(&mut out, " — ");
    let h = hm_chars(rollup.total_seconds);
    push_all(&mut out, &h);
    push_str(&mut out, "\n\n");
    push_blocks_projects(&mut out, &rollup.projects);
    if rollup.overlaps > 0 {
        push_str(&mut out, warning);
        out.push(' ');
        push_u64(&mut out, rollup.overlaps as u64);
        push_str(&mut out, " overlapping span(s) — retro `tt log` back-dates from now, so\n");
        push_str(&mut out, "totals are right but the timeline is not. Log at each commit, not in batches.\n");
    }
    assert(out@ =~= render_spec(rollup@, label@, calendar@, warning@));
    string_of(&out)
}

// --- the JSON payload -------------------------------------------------------------

/// The `--json` payload: the rollup's tree with integer seconds, keyed by the
/// `project` field, plus the label the report was asked for.
#[derive(Debug)]
pub struct JsonReport {
    pub label: String,
    pub total_seconds: i64,
    pub overlaps: usize,
    pub projects: Vec<(String, JsonProject)>,
}

#[derive(Debug)]
pub struct JsonProject {
    pub seconds: i64,
    pub items: Vec<(String, JsonItem)>,
}

#[derive(Debug)]
pub struct JsonItem {
    pub seconds: i64,
    pub phases: Vec<(String, i64)>,
    pub description: String,
    pub active: bool,
}

impl View for JsonItem {
    type V = ItemView;

    open spec fn view(&self) -> ItemView {
        ItemView {
            seconds: self.seconds as int,
            phases: phase_views(self.phases@),
            description: self.description@,
            active: self.active,
        }
    }
}

impl View for JsonProject {
    type V = ProjectView;

    open spec fn view(&self) -> ProjectView {
        ProjectView {
            seconds: self.seconds as int,
            items: json_item_views(self.items@),
        }
    }
}

pub open spec fn json_item_views(p: Seq<(String, JsonItem)>) -> Seq<(Seq<char>, ItemView)> {
    p.map_values(|x: (String, JsonItem)| (x.0@, x.1@))
}

pub open spec fn json_project_views(p: Seq<(String, JsonProject)>) -> Seq<(Seq<char>, ProjectView)> {
    p.map_values(|x: (String, JsonProject)| (x.0@, x.1@))
}

fn copy_phases(p: &Vec<(String, i64)>) -> (r: Vec<(String, i64)>)
    ensures
        phase_views(r@) == phase_views(p@),
{
    let mut out: Vec<(String, i64)> = Vec::new();
    let mut i: usize = 0;
    while i < p.len()
        invariant
            i <= p.len(),
            out@.len() == i,
            phase_views(out@) == phase_views(p@).subrange(0, i as int),
        decreases p.len() - i,
    {
        let ghost before = out@;
        out.push((p[i].0.clone(), p[i].1));
        assert forall|j: int| 0 <= j < i implies phase_views(out@)[j] == phase_views(before)[j] by {
            assert(out@[j] == before[j]);
        }
        assert(phase_views(out@) =~= phase_views(p@).subrange(0, i + 1));
        i += 1;
    }
    assert(phase_views(p@).subrange(0, p@.len() as int) =~= phase_views(p@));
    out
}

fn json_items(items: &Vec<(String, ItemNode)>) -> (r: Vec<(String, JsonItem)>)
    ensures
        json_item_views(r@) == item_views(items@),
{
    let mut out: Vec<(String, JsonItem)> = Vec::new();
    let mut i: usize = 0;
    while i < items.len()
        invariant
            i <= items.len(),
            out@.len() == i,
            json_item_views(out@) == item_views(items@).subrange(0, i as int),
        decreases items.len() - i,
    {
        let ghost before = out@;
        let it = &items[i].1;
        let j = JsonItem {
            seconds: it.seconds,
            phases: copy_phases(&it.phases),
            description: it.description.clone(),
            active: it.active,
        };
        out.push((items[i].0.clone(), j));
        assert forall|q: int| 0 <= q < i implies json_item_views(out@)[q] == json_item_views(before)[q] by {
            assert(out@[q] == before[q]);
        }
        assert(json_item_views(out@) =~= item_views(items@).subrange(0, i + 1));
        i += 1;
    }
    assert(item_views(items@).subrange(0, items@.len() as int) =~= item_views(items@));
    out
}

/// The `--json` payload for a rollup: the same tree, totals and overlap count,
/// with the label added.
pub fn to_json(rollup: &Rollup, label: &str) -> (r: JsonReport)
    ensures
        r.label@ == label@,
        r.total_seconds == rollup.total_seconds,
        r.overlaps == rollup.overlaps,
        json_project_views(r.projects@) == rollup@.projects,
{
    let mut projects: Vec<(String, JsonProject)> = Vec::new();
    let mut i: usize = 0;
    while i < rollup.projects.len()
        invariant
            i <= rollup.projects.len(),
            projects@.len() == i,
            json_project_views(projects@) == project_views(rollup.projects@).subrange(0, i as int),
        decreases rollup.projects.len() - i,
    {
        let ghost before = projects@;
        let node = &rollup.projects[i].1;
        let p = JsonProject { seconds: node.seconds, items: json_items(&node.items) };
        projects.push((rollup.projects[i].0.clone(), p));
        assert forall|q: int| 0 <= q < i implies json_project_views(projects@)[q] == json_project_views(before)[q] by {
            assert(projects@[q] == before[q]);
        }
        assert(json_project_views(projects@) =~= project_views(rollup.projects@).subrange(0, i + 1));
        i += 1;
    }
    assert(project_views(rollup.projects@).subrange(0, rollup.projects@.len() as int) =~= project_views(
        rollup.projects@,
    ));
    JsonReport {
        label: String::from_str(label),
        total_seconds: rollup.total_seconds,
        overlaps: rollup.overlaps,
        projects,
    }
}

// --- the period a report covers ---------------------------------------------------------

/// What period a report covers, and what to call it. Days count from 1970-01-01.
#[derive(Debug)]
pub struct Scope {
    /// Inclusive lower bound; `None` means unbounded (`--all`).
    pub from: Option<i32>,
    /// Inclusive upper bound; `None` means "up to the end of the data".
    pub until: Option<i32>,
    pub label: String,
}

/// The lower bound a set of scope flags gives: none for `--all`, the week's Monday
/// for `--week`, the `--since` day, else today.
pub open spec fn scope_from(today: int, all: bool, week: bool, since: Option<i32>) -> Option<int> {
    if all {
        None
    } else if week {
        Some(monday_of(today))
    } else if since is Some {
        Some(since->0 as int)
    } else {
        Some(today)
    }
}

/// The upper bound: `--until` when given, which only ever narrows; else today for
/// the default day and none otherwise. A week has no upper bound.
pub open spec fn scope_until(today: int, all: bool, week: bool, since: Option<i32>, until: Option<i32>) -> Option<int> {
    if until is Some {
        Some(until->0 as int)
    } else if all || week || since is Some {
        None
    } else {
        Some(today)
    }
}

/// `--until` bounds every report it is given to: whatever scope the other flags
/// pick, the upper bound is that day, and the lower bound is the flags' own.
/// Without it, only the default day has an upper bound.
pub proof fn lemma_until_bounds_every_scope(today: int, all: bool, week: bool, since: Option<i32>, until: i32)
    ensures
        scope_until(today, all, week, since, Some(until)) == Some(until as int),
        scope_until(today, all, week, since, None) == if !all && !week && since is None {
            Some(today)
        } else {
            None
        },
{
}

/// The label, with ` — #<project>` after it when the report is narrowed to one.
pub open spec fn scope_label(today: int, all: bool, week: bool, since: Option<i32>, project: Option<Seq<char>>) -> Seq<char> {
    let base = if all {
        "All entries"@
    } else if week {
        "Week of "@ + day_name(monday_of(today))
    } else if since is Some {
        "Since "@ + day_name(since->0 as int)
    } else {
        "Today, "@ + day_name(today)
    };
    match project {
        Some(p) => base + " — #"@ + p,
        None => base,
    }
}

/// Resolve the scope flags into bounds and a label. `--week` has a lower bound
/// only, so a week report takes in anything dated after today too.
pub fn resolve_scope(
    today: i32,
    all: bool,
    week: bool,
    since: Option<i32>,
    until: Option<i32>,
    project: Option<&str>,
) -> (r: Scope)
    requires
        MIN_DAY <= today <= MAX_DAY,
        since matches Some(d) ==> MIN_DAY <= d <= MAX_DAY,
        !all && week ==> monday_of(today as int) >= MIN_DAY,
    ensures
        day_bound(r.from) == scope_from(today as int, all, week, since),
        day_bound(r.until) == scope_until(today as int, all, week, since, until),
        until matches Some(u) ==> r.until == Some(u),
        r.label@ == scope_label(today as int, all, week, since, opt_str(project)),
{
    let mut label: Vec<char> = Vec::new();
    let (from, to) = if all {
        push_str(&mut label, "All entries");
        (None, None)
    } else if week {
        let start = TimeData::week_start(today);
        push_str(&mut label, "Week of ");
        push_str(&mut label, day_text(start).as_str());
        (Some(start), None)
    } else if let Some(since) = since {
        push_str(&mut label, "Since ");
        push_str(&mut label, day_text(since).as_str());
        (Some(since), None)
    } else {
        push_str(&mut label, "Today, ");
        push_str(&mut label, day_text(today).as_str());
        (Some(today), Some(today))
    };
    let to = match until {
        Some(u) => Some(u),
        None => to,
    };
    if let Some(p) = project {
        push_str(&mut label, " — #");
        push_str(&mut label, p);
    }
    Scope { from, until: to, label: string_of(&label) }
}

pub open spec fn opt_str(o: Option<&str>) -> Option<Seq<char>> {
    match o {
        Some(s) => Some(s@),
        None => None,
    }
}

/// Whether an entry's `project` field is the wanted one, when one is wanted.
pub open spec fn project_matches(e: TimeEntry, project: Option<Seq<char>>) -> bool {
    match project {
        Some(w) => e.project matches Some(p) && p@ == w,
        None => true,
    }
}

/// The first `n` entries a scope selects: started within its bounds (`days`, index
/// for index) and matching the project filter on the **field**, in store order.
pub open spec fn selected(
    entries: Seq<TimeEntry>,
    days: Seq<Option<i32>>,
    from: Option<int>,
    until: Option<int>,
    project: Option<Seq<char>>,
    n: int,
) -> Seq<TimeEntry>
    decreases n,
{
    if n <= 0 || n > entries.len() || n > days.len() {
        seq![]
    } else if in_window(days[n - 1], from, until) && project_matches(entries[n - 1], project) {
        selected(entries, days, from, until, project, n - 1).push(entries[n - 1])
    } else {
        selected(entries, days, from, until, project, n - 1)
    }
}

/// The entries a scope selects, given the day each entry started on.
pub fn select_on<'a>(data: &'a TimeData, days: &Vec<Option<i32>>, scope: &Scope, project: Option<&str>) -> (r: Vec<&'a TimeEntry>)
    requires
        days@.len() == data.entries@.len(),
    ensures
        derefs(r@) == selected(
            data.entries@,
            days@,
            day_bound(scope.from),
            day_bound(scope.until),
            opt_str(project),
            data.entries@.len() as int,
        ),
{
    let wanted = match project {
        Some(p) => Some(chars_of(p)),
        None => None,
    };
    let mut out: Vec<&'a TimeEntry> = Vec::new();
    let mut i: usize = 0;
    while i < data.entries.len()
        invariant
            i <= data.entries.len(),
            days@.len() == data.entries@.len(),
            match wanted {
                Some(w) => project matches Some(p) && w@ == p@,
                None => project is None,
            },
            derefs(out@) == selected(
                data.entries@,
                days@,
                day_bound(scope.from),
                day_bound(scope.until),
                opt_str(project),
                i as int,
            ),
        decreases data.entries.len() - i,
    {
        let e = &data.entries[i];
        let dated = match days[i] {
            Some(d) => (match scope.from {
                Some(f) => d >= f,
                None => true,
            }) && (match scope.until {
                Some(u) => d <= u,
                None => true,
            }),
            None => scope.from.is_none() && scope.until.is_none(),
        };
        let named = match &wanted {
            Some(w) => match &e.project {
                Some(p) => chars_eq(&chars_of(p.as_str()), w),
                None => false,
            },
            None => true,
        };
        if dated && named {
            let ghost before = out@;
            out.push(e);
            assert(derefs(out@) =~= derefs(before).push(data.entries@[i as int]));
        }
        i += 1;
    }
    out
}

/// The entries a scope selects, dated by the machine's clock.
pub fn select<'a>(data: &'a TimeData, scope: &Scope, project: Option<&str>) -> (r: Vec<&'a TimeEntry>)
    ensures
        exists|days: Seq<Option<i32>>|
            crate::tracker::clock_days(data.entries@, days) && derefs(r@) == #[trigger] selected(
                data.entries@,
                days,
                day_bound(scope.from),
                day_bound(scope.until),
                opt_str(project),
                data.entries@.len() as int,
            ),
{
    let days = data.start_days();
    select_on(data, &days, scope, project)
}

// --- the rows add up ----------------------------------------------------------------------

/// The seconds of a list of projects, added up.
pub open spec fn projects_sum(ps: Seq<(Seq<char>, ProjectView)>) -> int
    decreases ps.len(),
{
    if ps.len() == 0 {
        0
    } else {
        projects_sum(ps.drop_last()) + ps.last().1.seconds
    }
}

/// The seconds of a list of items, added up.
pub open spec fn items_sum(items: Seq<(Seq<char>, ItemView)>) -> int
    decreases items.len(),
{
    if items.len() == 0 {
        0
    } else {
        items_sum(items.drop_last()) + items.last().1.seconds
    }
}

proof fn lemma_projects_sum_concat(a: Seq<(Seq<char>, ProjectView)>, b: Seq<(Seq<char>, ProjectView)>)
    ensures
        projects_sum(a + b) == projects_sum(a) + projects_sum(b),
    decreases b.len(),
{
    if b.len() == 0 {
        assert(a + b =~= a);
    } else {
        assert((a + b).drop_last() =~= a + b.drop_last());
        lemma_projects_sum_concat(a, b.drop_last());
    }
}

proof fn lemma_items_sum_concat(a: Seq<(Seq<char>, ItemView)>, b: Seq<(Seq<char>, ItemView)>)
    ensures
        items_sum(a + b) == items_sum(a) + items_sum(b),
    decreases b.len(),
{
    if b.len() == 0 {
        assert(a + b =~= a);
    } else {
        assert((a + b).drop_last() =~= a + b.drop_last());
        lemma_items_sum_concat(a, b.drop_last());
    }
}

proof fn lemma_items_sum_one(x: (Seq<char>, ItemView))
    ensures
        items_sum(seq![x]) == x.1.seconds,
{
    assert(seq![x].drop_last() =~= Seq::<(Seq<char>, ItemView)>::empty());
    assert(items_sum(Seq::<(Seq<char>, ItemView)>::empty()) == 0);
}

proof fn lemma_projects_sum_one(x: (Seq<char>, ProjectView))
    ensures
        projects_sum(seq![x]) == x.1.seconds,
{
    assert(seq![x].drop_last() =~= Seq::<(Seq<char>, ProjectView)>::empty());
    assert(projects_sum(Seq::<(Seq<char>, ProjectView)>::empty()) == 0);
}

proof fn lemma_items_after_sum(items: Seq<(Seq<char>, ItemView)>, key: Seq<char>, e: EntryView, secs: int)
    ensures
        items_sum(items_after(items, key, e, secs)) == items_sum(items) + secs,
{
    let k = key_pos(keys_of(items), key) as int;
    lemma_key_pos_le(keys_of(items), key);
    let x = if found_at(items, key, k) {
        (key, item_after(items[k].1, e, secs))
    } else {
        (key, item_after(fresh_item(), e, secs))
    };
    lemma_items_sum_one(x);
    if found_at(items, key, k) {
        assert(items =~= items.subrange(0, k) + seq![items[k]] + items.subrange(k + 1, items.len() as int));
        assert(items_after(items, key, e, secs) =~= items.subrange(0, k) + seq![x] + items.subrange(k + 1, items.len() as int));
        lemma_items_sum_concat(items.subrange(0, k) + seq![items[k]], items.subrange(k + 1, items.len() as int));
        lemma_items_sum_concat(items.subrange(0, k), seq![items[k]]);
        lemma_items_sum_concat(items.subrange(0, k) + seq![x], items.subrange(k + 1, items.len() as int));
        lemma_items_sum_concat(items.subrange(0, k), seq![x]);
        lemma_items_sum_one(items[k]);
    } else {
        assert(items =~= items.subrange(0, k) + items.subrange(k, items.len() as int));
        assert(items_after(items, key, e, secs) =~= items.subrange(0, k) + seq![x] + items.subrange(k, items.len() as int));
        lemma_items_sum_concat(items.subrange(0, k), items.subrange(k, items.len() as int));
        lemma_items_sum_concat(items.subrange(0, k) + seq![x], items.subrange(k, items.len() as int));
        lemma_items_sum_concat(items.subrange(0, k), seq![x]);
    }
}

/// Whether every project's items add up to the project's seconds.
pub open spec fn items_add_up(ps: Seq<(Seq<char>, ProjectView)>) -> bool {
    forall|j: int| 0 <= j < ps.len() ==> items_sum((#[trigger] ps[j]).1.items) == ps[j].1.seconds
}

proof fn lemma_projects_after_sums(
    ps: Seq<(Seq<char>, ProjectView)>,
    name: Seq<char>,
    key: Seq<char>,
    e: EntryView,
    secs: int,
)
    requires
        items_add_up(ps),
    ensures
        projects_sum(projects_after(ps, name, key, e, secs)) == projects_sum(ps) + secs,
        items_add_up(projects_after(ps, name, key, e, secs)),
{
    let k = key_pos(keys_of(ps), name) as int;
    lemma_key_pos_le(keys_of(ps), name);
    let r = projects_after(ps, name, key, e, secs);
    if found_at(ps, name, k) {
        let x = (name, project_after(ps[k].1, key, e, secs));
        lemma_projects_sum_one(x);
        lemma_projects_sum_one(ps[k]);
        assert(ps =~= ps.subrange(0, k) + seq![ps[k]] + ps.subrange(k + 1, ps.len() as int));
        assert(r =~= ps.subrange(0, k) + seq![x] + ps.subrange(k + 1, ps.len() as int));
        lemma_projects_sum_concat(ps.subrange(0, k) + seq![ps[k]], ps.subrange(k + 1, ps.len() as int));
        lemma_projects_sum_concat(ps.subrange(0, k), seq![ps[k]]);
        lemma_projects_sum_concat(ps.subrange(0, k) + seq![x], ps.subrange(k + 1, ps.len() as int));
        lemma_projects_sum_concat(ps.subrange(0, k), seq![x]);
        lemma_items_after_sum(ps[k].1.items, key, e, secs);
        assert forall|j: int| 0 <= j < r.len() implies items_sum((#[trigger] r[j]).1.items) == r[j].1.seconds by {
            if j != k {
                assert(r[j] == ps[j]);
            }
        }
    } else {
        let x = (name, project_after(fresh_project(), key, e, secs));
        lemma_projects_sum_one(x);
        assert(ps =~= ps.subrange(0, k) + ps.subrange(k, ps.len() as int));
        assert(r =~= ps.subrange(0, k) + seq![x] + ps.subrange(k, ps.len() as int));
        lemma_projects_sum_concat(ps.subrange(0, k), ps.subrange(k, ps.len() as int));
        lemma_projects_sum_concat(ps.subrange(0, k) + seq![x], ps.subrange(k, ps.len() as int));
        lemma_projects_sum_concat(ps.subrange(0, k), seq![x]);
        lemma_items_after_sum(fresh_project().items, key, e, secs);
        assert(items_sum(fresh_project().items) == 0);
        assert forall|j: int| 0 <= j < r.len() implies items_sum((#[trigger] r[j]).1.items) == r[j].1.seconds by {
            if j < k {
                assert(r[j] == ps[j]);
            } else if j > k {
                assert(r[j] == ps[j - 1]);
            }
        }
    }
}

/// The rows of a report add up: the projects' seconds sum to the grand total, and
/// each project's items sum to the project's seconds.
pub proof fn lemma_rows_add_up(entries: Seq<EntryView>, now: int)
    ensures
        projects_sum(rolled(entries, now)) == total_of(entries, now),
        items_add_up(rolled(entries, now)),
    decreases entries.len(),
{
    if entries.len() > 0 {
        lemma_rows_add_up(entries.drop_last(), now);
        let e = entries.last();
        lemma_projects_after_sums(rolled(entries.drop_last(), now), project_key(e), item_key(e), e, entry_seconds(e, now));
    }
}

} // verus!
