//! The store: entries, the id counter and the schema version, with every edit the
//! commands make to it. Instants are unix seconds.

use vstd::prelude::*;
use crate::clock::clock_text;
use crate::entry_data::{copy_data, data_view, Json, JsonView};
use crate::marks::{join, opt_string};
use crate::text::{
    chars_eq, chars_of, chars_start_with, is_space, lemma_views_push, push_all, starts_with, string_of,
    trim, trim_chars, views, words, words_of,
};

verus! {

/// One silent stretch inside an entry, as unix seconds.
#[derive(Clone, Copy, Debug)]
pub struct IdleInterval {
    pub start: i64,
    pub end: i64,
}

impl IdleInterval {
    pub fn new(start: i64, end: i64) -> (r: IdleInterval)
        ensures
            r.start == start,
            r.end == end,
    {
        IdleInterval { start, end }
    }

    /// The interval's length in seconds.
    pub fn duration(&self) -> (r: i128)
        ensures
            r == self.end - self.start,
    {
        (self.end as i128) - (self.start as i128)
    }
}

#[derive(Debug)]
pub struct TimeEntry {
    pub id: u64,
    pub description: String,
    /// Project this entry belongs to, if known.
    pub project: Option<String>,
    pub tags: Vec<String>,
    pub start_time: i64,
    /// `None` while the entry runs.
    pub end_time: Option<i64>,
    /// Silent stretches inside this entry's span, as `tt log --idle` recorded them.
    pub idle: Vec<IdleInterval>,
    /// Free-form data; see [`crate::entry_data`].
    pub data: Option<Json>,
}

/// An entry as the contracts read it.
pub struct EntryView {
    pub id: u64,
    pub description: Seq<char>,
    pub project: Option<Seq<char>>,
    pub tags: Seq<Seq<char>>,
    pub start_time: i64,
    pub end_time: Option<i64>,
    pub idle: Seq<IdleInterval>,
    pub data: Option<JsonView>,
}

impl View for TimeEntry {
    type V = EntryView;

    open spec fn view(&self) -> EntryView {
        EntryView {
            id: self.id,
            description: self.description@,
            project: opt_string(self.project),
            tags: views(self.tags@),
            start_time: self.start_time,
            end_time: self.end_time,
            idle: self.idle@,
            data: data_view(self.data),
        }
    }
}

/// `str::to_lowercase`'s result: Unicode's full lowercase mapping.
pub uninterp spec fn lowercase(s: Seq<char>) -> Seq<char>;

/// `str::to_lowercase`: the Unicode lowercase mapping of every character. Claims
/// only that the result is the one `lowercase` names.
#[verifier::external_body]
pub fn to_lowercase(s: &str) -> (r: String)
    ensures
        r@ == lowercase(s@),
{
    s.to_lowercase()
}

/// Whether `tags` holds `tag`, compared case-insensitively.
pub open spec fn has_tag_in(tags: Seq<String>, tag: Seq<char>) -> bool {
    exists|i: int| 0 <= i < tags.len() && lowercase(#[trigger] tags[i]@) == lowercase(tag)
}

impl TimeEntry {
    pub fn is_active(&self) -> (r: bool)
        ensures
            r == self.end_time.is_none(),
    {
        self.end_time.is_none()
    }

    /// Whether the entry carries a tag, case-insensitively.
    pub fn has_tag(&self, tag: &str) -> (r: bool)
        ensures
            r == has_tag_in(self.tags@, tag@),
    {
        let wanted = chars_of(to_lowercase(tag).as_str());
        let mut i: usize = 0;
        while i < self.tags.len()
            invariant
                i <= self.tags.len(),
                wanted@ == lowercase(tag@),
                forall|j: int| 0 <= j < i ==> lowercase(#[trigger] self.tags@[j]@) != lowercase(tag@),
            decreases self.tags.len() - i,
        {
            let t = chars_of(to_lowercase(self.tags[i].as_str()).as_str());
            if chars_eq(&t, &wanted) {
                return true;
            }
            i += 1;
        }
        false
    }

    /// Whether the entry carries any of `tags`, case-insensitively.
    pub fn has_any_tag(&self, tags: &Vec<String>) -> (r: bool)
        ensures
            r == exists|i: int| 0 <= i < tags@.len() && has_tag_in(self.tags@, #[trigger] tags@[i]@),
    {
        let mut i: usize = 0;
        while i < tags.len()
            invariant
                i <= tags.len(),
                forall|j: int| 0 <= j < i ==> !has_tag_in(self.tags@, #[trigger] tags@[j]@),
            decreases tags.len() - i,
        {
            if self.has_tag(tags[i].as_str()) {
                return true;
            }
            i += 1;
        }
        false
    }

    /// Whether the entry's project is any of `projects`, trimmed and compared
    /// case-insensitively. An entry with no project, or a blank one, matches
    /// nothing: absence is not a value anyone can select.
    pub fn has_any_project(&self, projects: &Vec<String>) -> (r: bool)
        ensures
            r == match opt_string(self.project) {
                Some(p) => trim(p).len() > 0 && exists|i: int|
                    0 <= i < projects@.len() && lowercase(trim((#[trigger] projects@[i])@)) == lowercase(trim(p)),
                None => false,
            },
    {
        let own = match &self.project {
            Some(p) => trim_chars(&chars_of(p.as_str())),
            None => {
                return false;
            },
        };
        if own.len() == 0 {
            return false;
        }
        let own_lower = chars_of(to_lowercase(string_of(&own).as_str()).as_str());
        let mut i: usize = 0;
        while i < projects.len()
            invariant
                i <= projects.len(),
                self.project is Some,
                trim(self.project->0@).len() > 0,
                own_lower@ == lowercase(trim(self.project->0@)),
                forall|j: int| 0 <= j < i ==> lowercase(trim((#[trigger] projects@[j])@)) != lowercase(trim(self.project->0@)),
            decreases projects.len() - i,
        {
            let other = trim_chars(&chars_of(projects[i].as_str()));
            let other_lower = chars_of(to_lowercase(string_of(&other).as_str()).as_str());
            if chars_eq(&other_lower, &own_lower) {
                assert(lowercase(trim(projects@[i as int]@)) == lowercase(trim(self.project->0@)));
                return true;
            }
            i += 1;
        }
        false
    }

    /// The tags for display: each with its `#`, joined by single spaces.
    pub fn format_tags(&self) -> (r: String)
        ensures
            r@ == join(self.tags@.map_values(|t: String| seq!['#'] + t@), ' '),
    {
        let ghost shown = self.tags@.map_values(|t: String| seq!['#'] + t@);
        let mut out: Vec<char> = Vec::new();
        let mut i: usize = 0;
        while i < self.tags.len()
            invariant
                shown == self.tags@.map_values(|t: String| seq!['#'] + t@),
                i <= self.tags.len(),
                out@ == join(shown.subrange(0, i as int), ' '),
            decreases self.tags.len() - i,
        {
            proof {
                lemma_join_push(shown.subrange(0, i as int), shown[i as int]);
                assert(shown.subrange(0, i + 1) =~= shown.subrange(0, i as int).push(shown[i as int]));
            }
            if i > 0 {
                out.push(' ');
            }
            out.push('#');
            let t = chars_of(self.tags[i].as_str());
            push_all(&mut out, &t);
            i += 1;
        }
        assert(shown.subrange(0, shown.len() as int) =~= shown);
        string_of(&out)
    }

    /// The entry's length in seconds, a running entry measured to `now`.
    pub fn duration_at(&self, now: i64) -> (r: i128)
        ensures
            r == (match self.end_time {
                Some(end) => end as int,
                None => now as int,
            }) - self.start_time,
    {
        let end = match self.end_time {
            Some(end) => end,
            None => now,
        };
        (end as i128) - (self.start_time as i128)
    }

    /// The entry's length in seconds, a running entry measured to the clock.
    pub fn duration(&self) -> (r: i128)
        ensures
            self.end_time matches Some(end) ==> r == end - self.start_time,
    {
        self.duration_at(crate::clock::now())
    }
}

// --- tags ---------------------------------------------------------------------

/// A word that names a tag: `#` and at least one more character.
pub open spec fn is_tag_word(w: Seq<char>) -> bool {
    w.len() > 1 && w[0] == '#'
}

/// The tag names among the words, `#` dropped, in order.
pub open spec fn tag_names(ws: Seq<Seq<char>>) -> Seq<Seq<char>>
    decreases ws.len(),
{
    if ws.len() == 0 {
        seq![]
    } else {
        let rest = tag_names(ws.drop_last());
        if is_tag_word(ws.last()) {
            rest.push(ws.last().drop_first())
        } else {
            rest
        }
    }
}

/// The words that are not tags, in order.
pub open spec fn plain_words(ws: Seq<Seq<char>>) -> Seq<Seq<char>>
    decreases ws.len(),
{
    if ws.len() == 0 {
        seq![]
    } else {
        let rest = plain_words(ws.drop_last());
        if is_tag_word(ws.last()) {
            rest
        } else {
            rest.push(ws.last())
        }
    }
}

proof fn lemma_join_push(parts: Seq<Seq<char>>, w: Seq<char>)
    ensures
        join(parts.push(w), ' ') == if parts.len() == 0 {
            w
        } else {
            join(parts, ' ') + seq![' '] + w
        },
{
    assert(parts.push(w).drop_last() =~= parts);
}

/// Parse tags (words starting with `#`) from text: the other words joined by
/// single spaces, and the tag names without their `#`. A lone `#` is a word.
pub fn parse_tags(text: &str) -> (r: (String, Vec<String>))
    ensures
        r.0@ == join(plain_words(words(text@)), ' '),
        views(r.1@) == tag_names(words(text@)),
{
    let cs = chars_of(text);
    let ws = words_of(&cs);
    let ghost all = words(text@);
    let mut tags: Vec<String> = Vec::new();
    let mut clean: Vec<char> = Vec::new();
    let mut any = false;
    let mut i: usize = 0;
    while i < ws.len()
        invariant
            cs@ == text@,
            all == words(text@),
            ws@.len() == all.len(),
            forall|j: int| 0 <= j < ws@.len() ==> (#[trigger] ws@[j])@ == all[j],
            i <= ws.len(),
            views(tags@) == tag_names(all.subrange(0, i as int)),
            clean@ == join(plain_words(all.subrange(0, i as int)), ' '),
            any == (plain_words(all.subrange(0, i as int)).len() > 0),
        decreases ws.len() - i,
    {
        let ghost before = all.subrange(0, i as int);
        assert(all.subrange(0, i + 1).drop_last() =~= before);
        assert(all.subrange(0, i + 1).last() == all[i as int]);
        let w = &ws[i];
        if w.len() > 1 && w[0] == '#' {
            let mut name: Vec<char> = Vec::new();
            let mut k: usize = 1;
            while k < w.len()
                invariant
                    1 <= k <= w.len(),
                    name@ == w@.subrange(1, k as int),
                decreases w.len() - k,
            {
                name.push(w[k]);
                k += 1;
            }
            assert(name@ =~= w@.drop_first());
            let t = string_of(&name);
            proof {
                lemma_views_push(tags@, t);
            }
            tags.push(t);
        } else {
            proof {
                lemma_join_push(plain_words(before), all[i as int]);
            }
            if any {
                clean.push(' ');
            }
            push_all(&mut clean, w);
            any = true;
        }
        i += 1;
    }
    assert(all.subrange(0, all.len() as int) =~= all);
    (string_of(&clean), tags)
}

/// Whether some other tag than the `i`th starts with it and a `/`.
pub open spec fn has_child(tags: Seq<Seq<char>>, i: int) -> bool {
    exists|j: int| 0 <= j < tags.len() && j != i && starts_with(#[trigger] tags[j], tags[i].push('/'))
}

/// The first of the first `n` tags that has a child tag.
pub open spec fn first_parent(tags: Seq<Seq<char>>, n: int) -> Option<int>
    decreases n,
{
    if n <= 0 {
        None
    } else {
        match first_parent(tags, n - 1) {
            Some(i) => Some(i),
            None => if has_child(tags, n - 1) {
                Some(n - 1)
            } else {
                None
            },
        }
    }
}

/// The project inferred from tags: the first tag `X` some other tag extends as
/// `X/…`; failing that, the first tag; with no tags, none.
pub open spec fn inferred_project(tags: Seq<Seq<char>>) -> Option<Seq<char>> {
    match first_parent(tags, tags.len() as int) {
        Some(i) => Some(tags[i]),
        None => if tags.len() > 0 {
            Some(tags[0])
        } else {
            None
        },
    }
}

proof fn lemma_first_parent_range(tags: Seq<Seq<char>>, n: int)
    ensures
        match first_parent(tags, n) {
            Some(i) => 0 <= i < n && has_child(tags, i),
            None => true,
        },
    decreases n,
{
    if n > 0 {
        lemma_first_parent_range(tags, n - 1);
    }
}

proof fn lemma_first_parent_stable(tags: Seq<Seq<char>>, m: int, n: int)
    requires
        m <= n,
        first_parent(tags, m) is Some,
    ensures
        first_parent(tags, n) == first_parent(tags, m),
    decreases n - m,
{
    if n > m {
        lemma_first_parent_stable(tags, m, n - 1);
    }
}

proof fn lemma_first_parent_first(tags: Seq<Seq<char>>, n: int)
    ensures
        first_parent(tags, n) is None ==> forall|k: int| 0 <= k < n ==> !has_child(tags, k),
        first_parent(tags, n) matches Some(p) ==> forall|k: int| 0 <= k < p ==> !has_child(tags, k),
    decreases n,
{
    if n > 0 {
        lemma_first_parent_first(tags, n - 1);
        lemma_first_parent_range(tags, n - 1);
    }
}

/// The project a list of tags names: when some tag `X` has another tag anywhere
/// in the list, before or after it, that starts with `X/`, the project is the
/// first such `X` in list order; only when no tag has such a child is it the
/// first tag; no tags name none.
pub proof fn lemma_project_is_the_first_parent_tag(tags: Seq<Seq<char>>)
    ensures
        (exists|i: int, j: int|
            0 <= i < tags.len() && 0 <= j < tags.len() && j != i && #[trigger] starts_with(tags[j], tags[i].push('/')))
            ==> exists|p: int|
            0 <= p < tags.len() && inferred_project(tags) == Some(tags[p]) && (exists|q: int|
                0 <= q < tags.len() && q != p && #[trigger] starts_with(tags[q], tags[p].push('/'))) && (forall|k: int, q: int|
                0 <= k < p && 0 <= q < tags.len() && q != k ==> !#[trigger] starts_with(tags[q], tags[k].push('/'))),
        (forall|i: int, j: int|
            0 <= i < tags.len() && 0 <= j < tags.len() && j != i ==> !#[trigger] starts_with(tags[j], tags[i].push('/')))
            ==> inferred_project(tags) == if tags.len() > 0 {
            Some(tags[0])
        } else {
            None
        },
{
    let n = tags.len() as int;
    lemma_first_parent_range(tags, n);
    lemma_first_parent_first(tags, n);
    if exists|i: int, j: int|
        0 <= i < n && 0 <= j < n && j != i && #[trigger] starts_with(tags[j], tags[i].push('/')) {
        let (i, j) = choose|i: int, j: int|
            0 <= i < n && 0 <= j < n && j != i && #[trigger] starts_with(tags[j], tags[i].push('/'));
        assert(has_child(tags, i));
        match first_parent(tags, n) {
            Some(p) => {
                assert forall|k: int, q: int| 0 <= k < p && 0 <= q < n && q != k implies !#[trigger] starts_with(tags[q], tags[k].push('/')) by {
                    assert(!has_child(tags, k));
                }
                let q = choose|q: int| 0 <= q < n && q != p && #[trigger] starts_with(tags[q], tags[p].push('/'));
            },
            None => {
                assert(!has_child(tags, i));
            },
        }
    }
    if forall|i: int, j: int|
        0 <= i < n && 0 <= j < n && j != i ==> !#[trigger] starts_with(tags[j], tags[i].push('/')) {
        match first_parent(tags, n) {
            Some(p) => {
                let q = choose|q: int| 0 <= q < n && q != p && #[trigger] starts_with(tags[q], tags[p].push('/'));
                assert(!starts_with(tags[q], tags[p].push('/')));
            },
            None => {},
        }
    }
}

fn child_of(tags: &Vec<String>, i: usize) -> (r: bool)
    requires
        i < tags@.len(),
    ensures
        r == has_child(views(tags@), i as int),
{
    let mut prefix = chars_of(tags[i].as_str());
    prefix.push('/');
    let ghost vs = views(tags@);
    let mut j: usize = 0;
    while j < tags.len()
        invariant
            vs == views(tags@),
            i < tags@.len(),
            prefix@ == vs[i as int].push('/'),
            j <= tags.len(),
            forall|k: int| 0 <= k < j && k != i ==> !starts_with(#[trigger] vs[k], vs[i as int].push('/')),
        decreases tags.len() - j,
    {
        if j != i {
            let other = chars_of(tags[j].as_str());
            if chars_start_with(&other, &prefix) {
                assert(starts_with(vs[j as int], vs[i as int].push('/')));
                return true;
            }
        }
        j += 1;
    }
    false
}

/// Infer the project for an entry from its tags. `parse_tags` harvests `#…`
/// words from anywhere, so the first tag is not reliably the project: the project
/// is the tag `X` for which some other tag starts with `X/`; failing that, the
/// first tag; with no tags, `None`.
pub fn infer_project(tags: &Vec<String>) -> (r: Option<String>)
    ensures
        opt_string(r) == inferred_project(views(tags@)),
{
    let ghost vs = views(tags@);
    let mut i: usize = 0;
    while i < tags.len()
        invariant
            vs == views(tags@),
            i <= tags.len(),
            first_parent(vs, i as int) is None,
        decreases tags.len() - i,
    {
        if child_of(tags, i) {
            proof {
                lemma_first_parent_stable(vs, i + 1, vs.len() as int);
            }
            return Some(tags[i].clone());
        }
        i += 1;
    }
    if tags.len() > 0 {
        Some(tags[0].clone())
    } else {
        None
    }
}

// --- the store ----------------------------------------------------------------

#[derive(Debug)]
pub struct TimeData {
    pub entries: Vec<TimeEntry>,
    pub next_id: u64,
    /// Store schema version; legacy files read as 0 and are migrated to 1.
    pub schema_version: u32,
}

pub open spec fn entry_views(entries: Seq<TimeEntry>) -> Seq<EntryView> {
    entries.map_values(|e: TimeEntry| e@)
}

/// The index of the first entry with `id`.
pub open spec fn index_of(entries: Seq<TimeEntry>, id: u64) -> Option<int>
    decreases entries.len(),
{
    if entries.len() == 0 {
        None
    } else {
        match index_of(entries.drop_last(), id) {
            Some(k) => Some(k),
            None => if entries.last().id == id {
                Some(entries.len() - 1)
            } else {
                None
            },
        }
    }
}

proof fn lemma_index_of(entries: Seq<TimeEntry>, id: u64)
    ensures
        match index_of(entries, id) {
            Some(k) => 0 <= k < entries.len() && entries[k].id == id && forall|j: int|
                0 <= j < k ==> (#[trigger] entries[j]).id != id,
            None => forall|j: int| 0 <= j < entries.len() ==> (#[trigger] entries[j]).id != id,
        },
    decreases entries.len(),
{
    if entries.len() > 0 {
        let rest = entries.drop_last();
        lemma_index_of(rest, id);
        assert forall|j: int| 0 <= j < rest.len() implies rest[j] == entries[j] by {}
    }
}

pub(crate) fn find_index(entries: &Vec<TimeEntry>, id: u64) -> (r: Option<usize>)
    ensures
        match r {
            Some(k) => index_of(entries@, id) == Some(k as int) && k < entries@.len(),
            None => index_of(entries@, id) is None,
        },
{
    let mut i: usize = 0;
    while i < entries.len()
        invariant
            i <= entries.len(),
            index_of(entries@.subrange(0, i as int), id) is None,
        decreases entries.len() - i,
    {
        assert(entries@.subrange(0, i + 1).drop_last() =~= entries@.subrange(0, i as int));
        if entries[i].id == id {
            proof {
                lemma_index_prefix(entries@, id, i as int);
            }
            return Some(i);
        }
        i += 1;
    }
    assert(entries@.subrange(0, entries@.len() as int) =~= entries@);
    None
}

proof fn lemma_index_prefix(entries: Seq<TimeEntry>, id: u64, i: int)
    requires
        0 <= i < entries.len(),
        index_of(entries.subrange(0, i), id) is None,
        entries[i].id == id,
    ensures
        index_of(entries, id) == Some(i),
    decreases entries.len() - i,
{
    if i + 1 == entries.len() {
        assert(entries.drop_last() =~= entries.subrange(0, i));
    } else {
        assert(entries.drop_last().subrange(0, i) =~= entries.subrange(0, i));
        lemma_index_prefix(entries.drop_last(), id, i);
    }
}

/// The store as the contracts read it.
pub struct DataView {
    pub entries: Seq<EntryView>,
    pub next_id: u64,
    pub schema_version: u32,
}

impl View for TimeData {
    type V = DataView;

    open spec fn view(&self) -> DataView {
        DataView {
            entries: entry_views(self.entries@),
            next_id: self.next_id,
            schema_version: self.schema_version,
        }
    }
}

/// An entry with its project filled in from its tags when it has none.
pub open spec fn migrated_entry(e: EntryView) -> EntryView {
    if e.project is None {
        EntryView {
            id: e.id,
            description: e.description,
            project: inferred_project(e.tags),
            tags: e.tags,
            start_time: e.start_time,
            end_time: e.end_time,
            idle: e.idle,
            data: e.data,
        }
    } else {
        e
    }
}

/// The store after the one-time migration: a store at version 1 or above is left
/// alone; an older one has every missing project inferred and is stamped 1.
pub open spec fn migrated(d: DataView) -> DataView {
    if d.schema_version >= 1 {
        d
    } else {
        DataView {
            entries: d.entries.map_values(|e: EntryView| migrated_entry(e)),
            next_id: d.next_id,
            schema_version: 1,
        }
    }
}

/// Migrating twice is migrating once: the second run finds the store stamped and
/// changes nothing, whatever its tags say by then.
pub proof fn lemma_migrate_idempotent(d: DataView)
    ensures
        migrated(migrated(d)).entries == migrated(d).entries,
        migrated(migrated(d)).next_id == migrated(d).next_id,
        migrated(migrated(d)).schema_version == migrated(d).schema_version,
        migrated(d).schema_version >= 1,
{
}

/// An entry that already has a project keeps it through the migration; only
/// entries without one can change, and only in their project.
pub proof fn lemma_migrate_keeps_explicit_projects(d: DataView, j: int)
    requires
        0 <= j < d.entries.len(),
    ensures
        migrated(d).entries.len() == d.entries.len(),
        d.entries[j].project is Some ==> migrated(d).entries[j] == d.entries[j],
        migrated(d).entries[j].id == d.entries[j].id,
        migrated(d).entries[j].tags == d.entries[j].tags,
        migrated(d).entries[j].start_time == d.entries[j].start_time,
        migrated(d).entries[j].end_time == d.entries[j].end_time,
{
}

/// A copy of `e` with `project`, everything else kept.
fn with_project(e: &TimeEntry, project: Option<String>) -> (r: TimeEntry)
    ensures
        r@ == (EntryView { project: opt_string(project), ..e@ }),
{
    TimeEntry {
        id: e.id,
        description: e.description.clone(),
        project,
        tags: copy_strings(&e.tags),
        start_time: e.start_time,
        end_time: e.end_time,
        idle: e.idle.clone(),
        data: copy_data(&e.data),
    }
}

/// One-time migration: infer `project` for entries that lack one, then stamp the
/// schema version. A no-op once the store is at version 1 or above.
pub fn migrate(data: &mut TimeData)
    ensures
        final(data)@.entries == migrated(old(data)@).entries,
        final(data)@.next_id == migrated(old(data)@).next_id,
        final(data)@.schema_version == migrated(old(data)@).schema_version,
{
    if data.schema_version >= 1 {
        return;
    }
    let ghost before = data.entries@;
    let mut i: usize = 0;
    while i < data.entries.len()
        invariant
            data.schema_version == old(data).schema_version,
            data.next_id == old(data).next_id,
            before == old(data).entries@,
            data.entries@.len() == before.len(),
            i <= data.entries.len(),
            forall|j: int| 0 <= j < i ==> (#[trigger] data.entries@[j])@ == migrated_entry(before[j]@),
            forall|j: int| i <= j < before.len() ==> (#[trigger] data.entries@[j])@ == before[j]@,
        decreases data.entries.len() - i,
    {
        if data.entries[i].project.is_none() {
            let project = infer_project(&data.entries[i].tags);
            let e = with_project(&data.entries[i], project);
            data.entries.set(i, e);
        }
        i += 1;
    }
    data.schema_version = 1;
    assert(entry_views(data.entries@) =~= migrated(old(data)@).entries);
}

/// The index of the first running entry.
pub open spec fn first_active(entries: Seq<TimeEntry>) -> Option<int>
    decreases entries.len(),
{
    if entries.len() == 0 {
        None
    } else {
        match first_active(entries.drop_last()) {
            Some(k) => Some(k),
            None => if entries.last().end_time is None {
                Some(entries.len() - 1)
            } else {
                None
            },
        }
    }
}

pub(crate) proof fn lemma_first_active(entries: Seq<TimeEntry>)
    ensures
        match first_active(entries) {
            Some(k) => 0 <= k < entries.len() && entries[k].end_time is None && forall|j: int|
                0 <= j < k ==> (#[trigger] entries[j]).end_time is Some,
            None => forall|j: int| 0 <= j < entries.len() ==> (#[trigger] entries[j]).end_time is Some,
        },
    decreases entries.len(),
{
    if entries.len() > 0 {
        let rest = entries.drop_last();
        lemma_first_active(rest);
        assert forall|j: int| 0 <= j < rest.len() implies rest[j] == entries[j] by {}
    }
}

fn find_active(entries: &Vec<TimeEntry>) -> (r: Option<usize>)
    ensures
        match r {
            Some(k) => first_active(entries@) == Some(k as int) && k < entries@.len(),
            None => first_active(entries@) is None,
        },
{
    proof {
        lemma_first_active(entries@);
    }
    let mut i: usize = 0;
    while i < entries.len()
        invariant
            i <= entries.len(),
            forall|j: int| 0 <= j < i ==> (#[trigger] entries@[j]).end_time is Some,
            match first_active(entries@) {
                Some(k) => 0 <= k < entries@.len() && entries@[k].end_time is None && forall|j: int|
                    0 <= j < k ==> (#[trigger] entries@[j]).end_time is Some,
                None => forall|j: int| 0 <= j < entries@.len() ==> (#[trigger] entries@[j]).end_time is Some,
            },
        decreases entries.len() - i,
    {
        if entries[i].end_time.is_none() {
            return Some(i);
        }
        i += 1;
    }
    None
}

impl TimeData {
    /// The running entry: the first one without an end.
    pub fn active_entry(&self) -> (r: Option<&TimeEntry>)
        ensures
            match first_active(self.entries@) {
                Some(k) => r matches Some(e) && *e == self.entries@[k],
                None => r is None,
            },
    {
        match find_active(&self.entries) {
            Some(k) => Some(&self.entries[k]),
            None => None,
        }
    }

    /// Stop the running entry at `now`. Returns whether an entry was stopped.
    pub fn stop_active_at(&mut self, now: i64) -> (r: bool)
        ensures
            r == (first_active(old(self).entries@) is Some),
            final(self).next_id == old(self).next_id,
            final(self).schema_version == old(self).schema_version,
            final(self).entries@.len() == old(self).entries@.len(),
            match first_active(old(self).entries@) {
                Some(k) => {
                    &&& final(self).entries@[k]@ == (EntryView { end_time: Some(now), ..old(self).entries@[k]@ })
                    &&& forall|j: int| 0 <= j < old(self).entries@.len() && j != k ==> (#[trigger] final(self).entries@[j])@ == old(self).entries@[j]@
                },
                None => entry_views(final(self).entries@) == entry_views(old(self).entries@),
            },
    {
        match find_active(&self.entries) {
            Some(k) => {
                let e = &self.entries[k];
                let stopped = TimeEntry {
                    id: e.id,
                    description: e.description.clone(),
                    project: copy_opt(&e.project),
                    tags: copy_strings(&e.tags),
                    start_time: e.start_time,
                    end_time: Some(now),
                    idle: e.idle.clone(),
                    data: copy_data(&e.data),
                };
                self.entries.set(k, stopped);
                true
            },
            None => false,
        }
    }

    /// Stop the running entry now. Returns whether an entry was stopped; the
    /// stopped entry's end is the clock's reading, which nothing here names.
    pub fn stop_active(&mut self) -> (r: bool)
        ensures
            r == (first_active(old(self).entries@) is Some),
            final(self).next_id == old(self).next_id,
            final(self).schema_version == old(self).schema_version,
            final(self).entries@.len() == old(self).entries@.len(),
            match first_active(old(self).entries@) {
                Some(k) => {
                    &&& final(self).entries@[k]@.end_time is Some
                    &&& final(self).entries@[k]@ == (EntryView { end_time: final(self).entries@[k]@.end_time, ..old(self).entries@[k]@ })
                    &&& forall|j: int| 0 <= j < old(self).entries@.len() && j != k ==> (#[trigger] final(self).entries@[j])@ == old(self).entries@[j]@
                },
                None => entry_views(final(self).entries@) == entry_views(old(self).entries@),
            },
    {
        let now = crate::clock::now();
        self.stop_active_at(now)
    }

    /// Append a new entry under the next id and return it.
    pub fn add_entry(
        &mut self,
        description: String,
        project: Option<String>,
        tags: Vec<String>,
        start_time: i64,
        end_time: Option<i64>,
    ) -> (r: &TimeEntry)
        requires
            old(self).next_id < u64::MAX,
        ensures
            final(self).next_id == old(self).next_id + 1,
            final(self).schema_version == old(self).schema_version,
            final(self).entries@.len() == old(self).entries@.len() + 1,
            forall|j: int| 0 <= j < old(self).entries@.len() ==> (#[trigger] final(self).entries@[j]) == old(self).entries@[j],
            final(self).entries@.last() == *r,
            r@ == (EntryView {
                id: old(self).next_id,
                description: description@,
                project: opt_string(project),
                tags: views(tags@),
                start_time,
                end_time,
                idle: seq![],
                data: None,
            }),
    {
        let entry = TimeEntry {
            id: self.next_id,
            description,
            project,
            tags,
            start_time,
            end_time,
            idle: Vec::new(),
            data: None,
        };
        self.next_id = self.next_id + 1;
        self.entries.push(entry);
        let last = self.entries.len() - 1;
        &self.entries[last]
    }

    /// The entry with `id`: the first one carrying it.
    pub fn get_entry(&self, id: u64) -> (r: Option<&TimeEntry>)
        ensures
            match index_of(self.entries@, id) {
                Some(k) => r matches Some(e) && *e == self.entries@[k],
                None => r is None,
            },
    {
        match find_index(&self.entries, id) {
            Some(k) => Some(&self.entries[k]),
            None => None,
        }
    }

    /// Overwrite the description, project, tags and span of the entry with `id`,
    /// keeping its idle and data. Returns whether such an entry existed.
    pub fn update_entry(
        &mut self,
        id: u64,
        description: String,
        project: Option<String>,
        tags: Vec<String>,
        start_time: i64,
        end_time: Option<i64>,
    ) -> (r: bool)
        ensures
            r == (index_of(old(self).entries@, id) is Some),
            final(self).next_id == old(self).next_id,
            final(self).schema_version == old(self).schema_version,
            final(self).entries@.len() == old(self).entries@.len(),
            match index_of(old(self).entries@, id) {
                Some(k) => {
                    &&& final(self).entries@[k]@ == (EntryView {
                        description: description@,
                        project: opt_string(project),
                        tags: views(tags@),
                        start_time,
                        end_time,
                        ..old(self).entries@[k]@
                    })
                    &&& forall|j: int| 0 <= j < old(self).entries@.len() && j != k ==> (#[trigger] final(self).entries@[j])@ == old(self).entries@[j]@
                },
                None => entry_views(final(self).entries@) == entry_views(old(self).entries@),
            },
    {
        match find_index(&self.entries, id) {
            Some(k) => {
                let e = &self.entries[k];
                let updated = TimeEntry {
                    id: e.id,
                    description,
                    project,
                    tags,
                    start_time,
                    end_time,
                    idle: e.idle.clone(),
                    data: copy_data(&e.data),
                };
                proof {
                    lemma_index_of(self.entries@, id);
                }
                self.entries.set(k, updated);
                true
            },
            None => false,
        }
    }
}

// --- splitting an entry at its idle ---------------------------------------------

pub open spec fn clamp(x: i64, lo: i64, hi: i64) -> i64 {
    if x < lo {
        lo
    } else if x > hi {
        hi
    } else {
        x
    }
}

/// The idle intervals clamped to the span, empty ones dropped.
pub open spec fn clamped(idle: Seq<IdleInterval>, lo: i64, hi: i64) -> Seq<IdleInterval>
    decreases idle.len(),
{
    if idle.len() == 0 {
        seq![]
    } else {
        let rest = clamped(idle.drop_last(), lo, hi);
        let g = idle.last();
        let c = IdleInterval { start: clamp(g.start, lo, hi), end: clamp(g.end, lo, hi) };
        if c.end > c.start {
            rest.push(c)
        } else {
            rest
        }
    }
}

/// How many leading intervals start no later than `start`.
pub open spec fn earlier_prefix(sorted: Seq<IdleInterval>, start: i64) -> nat
    decreases sorted.len(),
{
    if sorted.len() == 0 {
        0
    } else if sorted[0].start <= start {
        1 + earlier_prefix(sorted.drop_first(), start)
    } else {
        0
    }
}

/// The intervals by start, equal starts keeping their order: a stable sort.
pub open spec fn by_start(s: Seq<IdleInterval>) -> Seq<IdleInterval>
    decreases s.len(),
{
    if s.len() == 0 {
        seq![]
    } else {
        let sorted = by_start(s.drop_last());
        let x = s.last();
        let k = earlier_prefix(sorted, x.start) as int;
        sorted.subrange(0, k) + seq![x] + sorted.subrange(k, sorted.len() as int)
    }
}

/// Sorted intervals merged wherever one starts before the previous hole ends.
pub open spec fn merged(sorted: Seq<IdleInterval>) -> Seq<IdleInterval>
    decreases sorted.len(),
{
    if sorted.len() == 0 {
        seq![]
    } else {
        let holes = merged(sorted.drop_last());
        let g = sorted.last();
        if holes.len() > 0 && g.start <= holes.last().end {
            let last = holes.last();
            holes.update(
                holes.len() - 1,
                IdleInterval {
                    start: last.start,
                    end: if g.end > last.end {
                        g.end
                    } else {
                        last.end
                    },
                },
            )
        } else {
            holes.push(g)
        }
    }
}

/// What is left of `cursor → end` between the holes, zero-length pieces dropped.
pub open spec fn complement(holes: Seq<IdleInterval>, cursor: i64, end: i64) -> Seq<(i64, i64)>
    decreases holes.len(),
{
    if holes.len() == 0 {
        if end > cursor {
            seq![(cursor, end)]
        } else {
            seq![]
        }
    } else {
        let h = holes[0];
        (if h.start > cursor {
            seq![(cursor, h.start)]
        } else {
            seq![]
        }) + complement(holes.drop_first(), h.end, end)
    }
}

/// The holes an entry's idle cuts out of its span.
pub open spec fn holes_of(idle: Seq<IdleInterval>, start: i64, end: i64) -> Seq<IdleInterval> {
    merged(by_start(clamped(idle, start, end)))
}

/// The pieces an entry's span splits into.
pub open spec fn pieces_of(idle: Seq<IdleInterval>, start: i64, end: i64) -> Seq<(i64, i64)> {
    complement(holes_of(idle, start, end), start, end)
}

/// The recorded intervals lying wholly inside one piece.
pub open spec fn inside(idle: Seq<IdleInterval>, from: i64, to: i64) -> Seq<IdleInterval>
    decreases idle.len(),
{
    if idle.len() == 0 {
        seq![]
    } else {
        let rest = inside(idle.drop_last(), from, to);
        let g = idle.last();
        if g.start >= from && g.end <= to {
            rest.push(g)
        } else {
            rest
        }
    }
}

/// One piece of a split entry: the template's identity over the piece's span,
/// carrying the recorded intervals that fall inside it.
pub open spec fn is_piece(e: EntryView, template: EntryView, id: u64, piece: (i64, i64)) -> bool {
    &&& e.id == id
    &&& e.description == template.description
    &&& e.project == template.project
    &&& e.tags == template.tags
    &&& e.start_time == piece.0
    &&& e.end_time == Some(piece.1)
    &&& e.idle == inside(template.idle, piece.0, piece.1)
    &&& e.data == template.data
}

/// Whether `split_at_idle` has anything to do for `id`: the entry exists, has
/// ended, and its idle leaves at least one hole and at least one piece.
pub open spec fn splits(entries: Seq<TimeEntry>, id: u64) -> bool {
    match index_of(entries, id) {
        Some(k) => match entries[k].end_time {
            Some(end) => holes_of(entries[k].idle@, entries[k].start_time, end).len() > 0
                && pieces_of(entries[k].idle@, entries[k].start_time, end).len() > 0,
            None => false,
        },
        None => false,
    }
}

/// What the machine and `Ord::clamp` need: an entry that does not end before it
/// starts, and room for a fresh id per piece.
pub open spec fn split_fits(data: TimeData, id: u64) -> bool {
    match index_of(data.entries@, id) {
        Some(k) => {
            &&& (match data.entries@[k].end_time {
                Some(end) => data.entries@[k].start_time <= end,
                None => true,
            })
            &&& data.next_id as int + data.entries@[k].idle@.len() + 1 <= u64::MAX
            &&& data.entries@.len() + data.entries@[k].idle@.len() + 1 <= usize::MAX
        },
        None => true,
    }
}

/// What `split_at_idle(id)` leaves behind, from the store before to the store
/// after and the ids it returns.
pub open spec fn split_done(before: TimeData, after: TimeData, id: u64, r: Seq<u64>) -> bool {
    &&& !splits(before.entries@, id) ==> {
        &&& r.len() == 0
        &&& entry_views(after.entries@) == entry_views(before.entries@)
        &&& after.next_id == before.next_id
        &&& after.schema_version == before.schema_version
    }
    &&& splits(before.entries@, id) ==> {
        let k = index_of(before.entries@, id)->0;
        let template = before.entries@[k];
        let pieces = pieces_of(template.idle@, template.start_time, template.end_time->0);
        let n = before.entries@.len();
        &&& after.entries@.len() == n + pieces.len() - 1
        &&& after.next_id == before.next_id + pieces.len() - 1
        &&& after.schema_version == before.schema_version
        &&& forall|j: int| 0 <= j < n && j != k ==> (#[trigger] after.entries@[j])@ == before.entries@[j]@
        &&& is_piece(after.entries@[k]@, template@, id, pieces[0])
        &&& forall|j: int|
            1 <= j < pieces.len() ==> is_piece(
                (#[trigger] after.entries@[n + j - 1])@,
                template@,
                (before.next_id + j - 1) as u64,
                pieces[j],
            )
        &&& r.len() == pieces.len()
        &&& r[0] == id
        &&& forall|j: int| 1 <= j < pieces.len() ==> #[trigger] r[j] == before.next_id + j - 1
    }
}

pub(crate) fn copy_strings(v: &Vec<String>) -> (r: Vec<String>)
    ensures
        views(r@) == views(v@),
{
    let mut out: Vec<String> = Vec::new();
    let mut i: usize = 0;
    while i < v.len()
        invariant
            i <= v.len(),
            views(out@) == views(v@.subrange(0, i as int)),
        decreases v.len() - i,
    {
        let s = v[i].clone();
        proof {
            lemma_views_push(out@, s);
            assert(v@.subrange(0, i + 1) =~= v@.subrange(0, i as int).push(v@[i as int]));
            lemma_views_push(v@.subrange(0, i as int), v@[i as int]);
        }
        out.push(s);
        i += 1;
    }
    assert(v@.subrange(0, v@.len() as int) =~= v@);
    out
}

pub(crate) fn copy_opt(o: &Option<String>) -> (r: Option<String>)
    ensures
        opt_string(r) == opt_string(*o),
{
    match o {
        Some(s) => Some(s.clone()),
        None => None,
    }
}

fn clamp_exec(x: i64, lo: i64, hi: i64) -> (r: i64)
    requires
        lo <= hi,
    ensures
        r == clamp(x, lo, hi),
{
    if x < lo {
        lo
    } else if x > hi {
        hi
    } else {
        x
    }
}

fn clamp_all(idle: &Vec<IdleInterval>, lo: i64, hi: i64) -> (r: Vec<IdleInterval>)
    requires
        lo <= hi,
    ensures
        r@ == clamped(idle@, lo, hi),
{
    let mut out: Vec<IdleInterval> = Vec::new();
    let mut i: usize = 0;
    while i < idle.len()
        invariant
            i <= idle.len(),
            lo <= hi,
            out@ == clamped(idle@.subrange(0, i as int), lo, hi),
        decreases idle.len() - i,
    {
        assert(idle@.subrange(0, i + 1).drop_last() =~= idle@.subrange(0, i as int));
        let g = idle[i];
        let c = IdleInterval { start: clamp_exec(g.start, lo, hi), end: clamp_exec(g.end, lo, hi) };
        if c.end > c.start {
            out.push(c);
        }
        i += 1;
    }
    assert(idle@.subrange(0, idle@.len() as int) =~= idle@);
    out
}

pub(crate) fn sort_by_start(gaps: Vec<IdleInterval>) -> (r: Vec<IdleInterval>)
    ensures
        r@ == by_start(gaps@),
{
    let mut sorted: Vec<IdleInterval> = Vec::new();
    let n = gaps.len();
    let mut i: usize = 0;
    while i < n
        invariant
            i <= n,
            n == gaps.len(),
            sorted@ == by_start(gaps@.subrange(0, i as int)),
        decreases n - i,
    {
        assert(gaps@.subrange(0, i + 1).drop_last() =~= gaps@.subrange(0, i as int));
        let x = gaps[i];
        let mut k: usize = 0;
        assert(sorted@.subrange(0, sorted@.len() as int) =~= sorted@);
        while k < sorted.len() && sorted[k].start <= x.start
            invariant
                k <= sorted.len(),
                earlier_prefix(sorted@, x.start) == k + earlier_prefix(
                    sorted@.subrange(k as int, sorted@.len() as int),
                    x.start,
                ),
            decreases sorted.len() - k,
        {
            let ghost tail = sorted@.subrange(k as int, sorted@.len() as int);
            assert(tail.drop_first() =~= sorted@.subrange(k + 1, sorted@.len() as int));
            k += 1;
        }
        proof {
            let tail = sorted@.subrange(k as int, sorted@.len() as int);
            if k < sorted.len() {
                assert(tail[0] == sorted@[k as int]);
            }
        }
        let ghost before = sorted@;
        sorted.insert(k, x);
        assert(sorted@ =~= before.subrange(0, k as int) + seq![x] + before.subrange(
            k as int,
            before.len() as int,
        ));
        i += 1;
    }
    assert(gaps@.subrange(0, n as int) =~= gaps@);
    sorted
}

fn merge_holes(sorted: &Vec<IdleInterval>) -> (r: Vec<IdleInterval>)
    ensures
        r@ == merged(sorted@),
{
    let mut holes: Vec<IdleInterval> = Vec::new();
    let mut i: usize = 0;
    while i < sorted.len()
        invariant
            i <= sorted.len(),
            holes@ == merged(sorted@.subrange(0, i as int)),
        decreases sorted.len() - i,
    {
        assert(sorted@.subrange(0, i + 1).drop_last() =~= sorted@.subrange(0, i as int));
        let g = sorted[i];
        let n = holes.len();
        if n > 0 && g.start <= holes[n - 1].end {
            let last = holes[n - 1];
            let end = if g.end > last.end {
                g.end
            } else {
                last.end
            };
            holes.set(n - 1, IdleInterval { start: last.start, end });
        } else {
            holes.push(g);
        }
        i += 1;
    }
    assert(sorted@.subrange(0, sorted@.len() as int) =~= sorted@);
    holes
}

fn complement_exec(holes: &Vec<IdleInterval>, start: i64, end: i64) -> (r: Vec<(i64, i64)>)
    ensures
        r@ == complement(holes@, start, end),
{
    let mut pieces: Vec<(i64, i64)> = Vec::new();
    let mut cursor = start;
    let mut i: usize = 0;
    assert(holes@.skip(0) =~= holes@);
    while i < holes.len()
        invariant
            i <= holes.len(),
            pieces@ + complement(holes@.skip(i as int), cursor, end) == complement(holes@, start, end),
        decreases holes.len() - i,
    {
        let h = holes[i];
        let ghost rest = holes@.skip(i as int);
        assert(rest.drop_first() =~= holes@.skip(i + 1));
        assert(rest[0] == h);
        let ghost before = pieces@;
        if h.start > cursor {
            pieces.push((cursor, h.start));
            assert(pieces@ + complement(holes@.skip(i + 1), h.end, end) =~= before + (seq![(cursor, h.start)] + complement(holes@.skip(i + 1), h.end, end)));
        } else {
            assert(before + complement(holes@.skip(i + 1), h.end, end) =~= before + (seq![] + complement(holes@.skip(i + 1), h.end, end)));
        }
        cursor = h.end;
        i += 1;
    }
    assert(holes@.skip(i as int) =~= Seq::<IdleInterval>::empty());
    if end > cursor {
        pieces.push((cursor, end));
    } else {
        assert(pieces@ + seq![] =~= pieces@);
    }
    pieces
}

fn inside_exec(idle: &Vec<IdleInterval>, from: i64, to: i64) -> (r: Vec<IdleInterval>)
    ensures
        r@ == inside(idle@, from, to),
{
    let mut out: Vec<IdleInterval> = Vec::new();
    let mut i: usize = 0;
    while i < idle.len()
        invariant
            i <= idle.len(),
            out@ == inside(idle@.subrange(0, i as int), from, to),
        decreases idle.len() - i,
    {
        assert(idle@.subrange(0, i + 1).drop_last() =~= idle@.subrange(0, i as int));
        let g = idle[i];
        if g.start >= from && g.end <= to {
            out.push(g);
        }
        i += 1;
    }
    assert(idle@.subrange(0, idle@.len() as int) =~= idle@);
    out
}

proof fn lemma_clamped_len(idle: Seq<IdleInterval>, lo: i64, hi: i64)
    ensures
        clamped(idle, lo, hi).len() <= idle.len(),
    decreases idle.len(),
{
    if idle.len() > 0 {
        lemma_clamped_len(idle.drop_last(), lo, hi);
    }
}

/// No interval starts before the one ahead of it.
pub open spec fn start_ordered(s: Seq<IdleInterval>) -> bool {
    forall|i: int, j: int| 0 <= i < j < s.len() ==> s[i].start <= s[j].start
}

proof fn lemma_earlier_prefix_splits(sorted: Seq<IdleInterval>, start: i64)
    requires
        start_ordered(sorted),
    ensures
        earlier_prefix(sorted, start) <= sorted.len(),
        forall|i: int| 0 <= i < earlier_prefix(sorted, start) ==> (#[trigger] sorted[i]).start <= start,
        forall|i: int| earlier_prefix(sorted, start) <= i < sorted.len() ==> (#[trigger] sorted[i]).start > start,
    decreases sorted.len(),
{
    if sorted.len() > 0 {
        let rest = sorted.drop_first();
        assert forall|i: int, j: int| 0 <= i < j < rest.len() implies rest[i].start <= rest[j].start by {
            assert(rest[i] == sorted[i + 1] && rest[j] == sorted[j + 1]);
        }
        lemma_earlier_prefix_splits(rest, start);
        if sorted[0].start <= start {
            assert forall|i: int| 0 <= i < earlier_prefix(sorted, start) implies (#[trigger] sorted[i]).start <= start by {
                if i > 0 {
                    assert(sorted[i] == rest[i - 1]);
                }
            }
            assert forall|i: int| earlier_prefix(sorted, start) <= i < sorted.len() implies (#[trigger] sorted[i]).start > start by {
                assert(sorted[i] == rest[i - 1]);
            }
        } else {
            assert forall|i: int| 0 <= i < sorted.len() implies (#[trigger] sorted[i]).start > start by {
                assert(sorted[0].start <= sorted[i].start);
            }
        }
    }
}

/// Sorting by start leaves the intervals in start order.
pub proof fn lemma_by_start_ordered(s: Seq<IdleInterval>)
    ensures
        start_ordered(by_start(s)),
        by_start(s).len() == s.len(),
    decreases s.len(),
{
    lemma_by_start_len(s);
    if s.len() > 0 {
        let rest = s.drop_last();
        let x = s.last();
        lemma_by_start_ordered(rest);
        let sorted = by_start(rest);
        lemma_earlier_prefix_splits(sorted, x.start);
        let k = earlier_prefix(sorted, x.start) as int;
        let out = by_start(s);
        assert(out =~= sorted.insert(k, x));
        assert forall|i: int, j: int| 0 <= i < j < out.len() implies out[i].start <= out[j].start by {
            if j < k {
                assert(out[i] == sorted[i] && out[j] == sorted[j]);
            } else if j == k {
                assert(out[i] == sorted[i]);
            } else if i < k {
                assert(out[i] == sorted[i] && out[j] == sorted[j - 1]);
            } else if i == k {
                assert(out[j] == sorted[j - 1]);
            } else {
                assert(out[i] == sorted[i - 1] && out[j] == sorted[j - 1]);
            }
        }
    }
}

pub(crate) proof fn lemma_by_start_len(s: Seq<IdleInterval>)
    ensures
        by_start(s).len() == s.len(),
    decreases s.len(),
{
    if s.len() > 0 {
        lemma_by_start_len(s.drop_last());
        lemma_earlier_prefix_le(by_start(s.drop_last()), s.last().start);
    }
}

proof fn lemma_earlier_prefix_le(s: Seq<IdleInterval>, start: i64)
    ensures
        earlier_prefix(s, start) <= s.len(),
    decreases s.len(),
{
    if s.len() > 0 {
        lemma_earlier_prefix_le(s.drop_first(), start);
    }
}

proof fn lemma_merged_len(s: Seq<IdleInterval>)
    ensures
        merged(s).len() <= s.len(),
    decreases s.len(),
{
    if s.len() > 0 {
        lemma_merged_len(s.drop_last());
    }
}

proof fn lemma_complement_len(holes: Seq<IdleInterval>, cursor: i64, end: i64)
    ensures
        complement(holes, cursor, end).len() <= holes.len() + 1,
    decreases holes.len(),
{
    if holes.len() > 0 {
        lemma_complement_len(holes.drop_first(), holes[0].end, end);
    }
}

/// The seconds a list of `(from, to)` spans covers, counted span by span.
pub open spec fn spans_total(spans: Seq<(i64, i64)>) -> int
    decreases spans.len(),
{
    if spans.len() == 0 {
        0
    } else {
        (spans[0].1 - spans[0].0) + spans_total(spans.drop_first())
    }
}

/// The seconds a list of holes covers, counted hole by hole.
pub open spec fn holes_total(holes: Seq<IdleInterval>) -> int
    decreases holes.len(),
{
    if holes.len() == 0 {
        0
    } else {
        (holes[0].end - holes[0].start) + holes_total(holes.drop_first())
    }
}

/// A stretch that is not empty and lies within `lo → hi`.
pub open spec fn within(g: IdleInterval, lo: i64, hi: i64) -> bool {
    lo <= g.start && g.start < g.end && g.end <= hi
}

/// Holes that each lie within `lo → hi`, in order and apart: no two share a second.
pub open spec fn laid_out(holes: Seq<IdleInterval>, lo: i64, hi: i64) -> bool {
    &&& forall|i: int| 0 <= i < holes.len() ==> within(#[trigger] holes[i], lo, hi)
    &&& forall|i: int, j: int| 0 <= i < j < holes.len() ==> (#[trigger] holes[i]).end < (#[trigger] holes[j]).start
}

pub proof fn lemma_spans_total_concat(a: Seq<(i64, i64)>, b: Seq<(i64, i64)>)
    ensures
        spans_total(a + b) == spans_total(a) + spans_total(b),
    decreases a.len(),
{
    if a.len() > 0 {
        assert((a + b).drop_first() =~= a.drop_first() + b);
        lemma_spans_total_concat(a.drop_first(), b);
    } else {
        assert(a + b =~= b);
    }
}

proof fn lemma_clamped_within(idle: Seq<IdleInterval>, lo: i64, hi: i64)
    requires
        lo <= hi,
    ensures
        forall|i: int| 0 <= i < clamped(idle, lo, hi).len() ==> within(#[trigger] clamped(idle, lo, hi)[i], lo, hi),
    decreases idle.len(),
{
    if idle.len() > 0 {
        let rest = clamped(idle.drop_last(), lo, hi);
        lemma_clamped_within(idle.drop_last(), lo, hi);
        let g = idle.last();
        let c = IdleInterval { start: clamp(g.start, lo, hi), end: clamp(g.end, lo, hi) };
        if c.end > c.start {
            assert forall|i: int| 0 <= i < rest.push(c).len() implies within(#[trigger] rest.push(c)[i], lo, hi) by {
                if i < rest.len() {
                    assert(rest.push(c)[i] == rest[i]);
                }
            }
        }
    }
}

proof fn lemma_by_start_within(s: Seq<IdleInterval>, lo: i64, hi: i64)
    requires
        forall|i: int| 0 <= i < s.len() ==> within(#[trigger] s[i], lo, hi),
    ensures
        forall|i: int| 0 <= i < by_start(s).len() ==> within(#[trigger] by_start(s)[i], lo, hi),
    decreases s.len(),
{
    if s.len() > 0 {
        let init = s.drop_last();
        assert forall|i: int| 0 <= i < init.len() implies within(#[trigger] init[i], lo, hi) by {
            assert(init[i] == s[i]);
        }
        lemma_by_start_within(init, lo, hi);
        let sorted = by_start(init);
        let x = s.last();
        assert(within(x, lo, hi)) by {
            assert(x == s[s.len() - 1]);
        }
        let k = earlier_prefix(sorted, x.start) as int;
        lemma_earlier_prefix_le(sorted, x.start);
        let r = sorted.subrange(0, k) + seq![x] + sorted.subrange(k, sorted.len() as int);
        assert forall|i: int| 0 <= i < r.len() implies within(#[trigger] r[i], lo, hi) by {
            if i < k {
                assert(r[i] == sorted[i]);
            } else if i == k {
                assert(r[i] == x);
            } else {
                assert(r[i] == sorted[i - 1]);
            }
        }
    }
}

proof fn lemma_merged_laid_out(s: Seq<IdleInterval>, lo: i64, hi: i64)
    requires
        forall|i: int| 0 <= i < s.len() ==> within(#[trigger] s[i], lo, hi),
    ensures
        laid_out(merged(s), lo, hi),
    decreases s.len(),
{
    if s.len() > 0 {
        let init = s.drop_last();
        assert forall|i: int| 0 <= i < init.len() implies within(#[trigger] init[i], lo, hi) by {
            assert(init[i] == s[i]);
        }
        lemma_merged_laid_out(init, lo, hi);
        let holes = merged(init);
        let g = s.last();
        assert(within(g, lo, hi)) by {
            assert(g == s[s.len() - 1]);
        }
        if holes.len() > 0 && g.start <= holes.last().end {
            let last = holes.last();
            let grown = IdleInterval { start: last.start, end: if g.end > last.end { g.end } else { last.end } };
            let r = holes.update(holes.len() - 1, grown);
            assert(within(last, lo, hi)) by {
                assert(last == holes[holes.len() - 1]);
            }
            assert forall|i: int| 0 <= i < r.len() implies within(#[trigger] r[i], lo, hi) by {
                if i < holes.len() - 1 {
                    assert(r[i] == holes[i]);
                }
            }
            assert forall|i: int, j: int| 0 <= i < j < r.len() implies (#[trigger] r[i]).end < (#[trigger] r[j]).start by {
                assert(r[i] == holes[i]);
                if j < holes.len() - 1 {
                    assert(r[j] == holes[j]);
                } else {
                    assert(holes[i].end < holes[j].start);
                }
            }
        } else {
            let r = holes.push(g);
            assert forall|i: int| 0 <= i < r.len() implies within(#[trigger] r[i], lo, hi) by {
                if i < holes.len() {
                    assert(r[i] == holes[i]);
                }
            }
            assert forall|i: int, j: int| 0 <= i < j < r.len() implies (#[trigger] r[i]).end < (#[trigger] r[j]).start by {
                assert(r[i] == holes[i]);
                if j < holes.len() {
                    assert(r[j] == holes[j]);
                } else {
                    let last = holes.last();
                    assert(last == holes[holes.len() - 1]);
                    if i < holes.len() - 1 {
                        assert(holes[i].end < holes[holes.len() - 1].start);
                        assert(within(holes[holes.len() - 1], lo, hi));
                    }
                }
            }
        }
    }
}

proof fn lemma_complement_total(holes: Seq<IdleInterval>, cursor: i64, end: i64)
    requires
        cursor <= end,
        laid_out(holes, cursor, end),
    ensures
        spans_total(complement(holes, cursor, end)) == (end - cursor) - holes_total(holes),
    decreases holes.len(),
{
    if holes.len() == 0 {
        if end > cursor {
            assert(spans_total(seq![(cursor, end)]) == end - cursor) by {
                assert(seq![(cursor, end)].drop_first() =~= Seq::<(i64, i64)>::empty());
                assert(spans_total(Seq::<(i64, i64)>::empty()) == 0);
            }
        }
    } else {
        let h = holes[0];
        let rest = holes.drop_first();
        assert(within(h, cursor, end));
        assert forall|i: int| 0 <= i < rest.len() implies within(#[trigger] rest[i], h.end, end) by {
            assert(rest[i] == holes[i + 1]);
            assert(within(holes[i + 1], cursor, end));
            assert(holes[0].end < holes[i + 1].start);
        }
        assert forall|i: int, j: int| 0 <= i < j < rest.len() implies (#[trigger] rest[i]).end < (#[trigger] rest[j]).start by {
            assert(rest[i] == holes[i + 1]);
            assert(rest[j] == holes[j + 1]);
            assert(holes[i + 1].end < holes[j + 1].start);
        }
        lemma_complement_total(rest, h.end, end);
        let head: Seq<(i64, i64)> = if h.start > cursor { seq![(cursor, h.start)] } else { seq![] };
        lemma_spans_total_concat(head, complement(rest, h.end, end));
        if h.start > cursor {
            assert(spans_total(head) == h.start - cursor) by {
                assert(head.drop_first() =~= Seq::<(i64, i64)>::empty());
                assert(spans_total(Seq::<(i64, i64)>::empty()) == 0);
            }
        }
    }
}

pub proof fn lemma_holes_total_nonneg(holes: Seq<IdleInterval>, lo: i64, hi: i64)
    requires
        laid_out(holes, lo, hi),
    ensures
        holes_total(holes) >= 0,
    decreases holes.len(),
{
    if holes.len() > 0 {
        let rest = holes.drop_first();
        assert(within(holes[0], lo, hi));
        assert forall|i: int| 0 <= i < rest.len() implies within(#[trigger] rest[i], lo, hi) by {
            assert(rest[i] == holes[i + 1]);
        }
        assert forall|i: int, j: int| 0 <= i < j < rest.len() implies (#[trigger] rest[i]).end < (#[trigger] rest[j]).start by {
            assert(rest[i] == holes[i + 1]);
            assert(rest[j] == holes[j + 1]);
        }
        lemma_holes_total_nonneg(rest, lo, hi);
    }
}

/// Every piece a complement leaves runs forward.
pub proof fn lemma_complement_ordered(holes: Seq<IdleInterval>, cursor: i64, end: i64)
    ensures
        forall|i: int| 0 <= i < complement(holes, cursor, end).len() ==> (#[trigger] complement(holes, cursor, end)[i]).0 < complement(holes, cursor, end)[i].1,
    decreases holes.len(),
{
    if holes.len() > 0 {
        let h = holes[0];
        lemma_complement_ordered(holes.drop_first(), h.end, end);
        let rest = complement(holes.drop_first(), h.end, end);
        let head: Seq<(i64, i64)> = if h.start > cursor { seq![(cursor, h.start)] } else { seq![] };
        let all = head + rest;
        assert forall|i: int| 0 <= i < all.len() implies (#[trigger] all[i]).0 < all[i].1 by {
            if i >= head.len() {
                assert(all[i] == rest[i - head.len()]);
            }
        }
    }
}

/// Trimming takes each hole out of the span exactly once: the holes an entry's idle
/// cuts are disjoint and lie inside its span, and the pieces left cover the span
/// less the holes, second for second.
pub proof fn lemma_pieces_cover_span_less_holes(idle: Seq<IdleInterval>, start: i64, end: i64)
    requires
        start <= end,
    ensures
        laid_out(holes_of(idle, start, end), start, end),
        spans_total(pieces_of(idle, start, end)) == (end - start) - holes_total(holes_of(idle, start, end)),
{
    lemma_clamped_within(idle, start, end);
    lemma_by_start_within(clamped(idle, start, end), start, end);
    lemma_merged_laid_out(by_start(clamped(idle, start, end)), start, end);
    lemma_complement_total(holes_of(idle, start, end), start, end);
}

impl TimeData {
    /// Split the entry with `id` on **every** idle interval it carries, so the
    /// silent stretches drop out of the timeline. The first piece keeps the id in
    /// place; later pieces take fresh ids from `next_id` and are appended. Pieces
    /// inherit description, project, tags and data, and keep only the intervals
    /// falling wholly inside them. Zero-length pieces are dropped; an unknown or
    /// running entry, one with no idle inside its span, or one whose idle covers
    /// it whole, is left untouched and no id comes back.
    pub fn split_at_idle(&mut self, id: u64) -> (r: Vec<u64>)
        requires
            split_fits(*old(self), id),
        ensures
            split_done(*old(self), *final(self), id, r@),
    {
        let k = match find_index(&self.entries, id) {
            Some(k) => k,
            None => {
                return Vec::new();
            },
        };
        proof {
            lemma_index_of(self.entries@, id);
        }
        let span_end = match self.entries[k].end_time {
            Some(end) => end,
            None => {
                return Vec::new();
            },
        };
        let span_start = self.entries[k].start_time;
        let gaps = clamp_all(&self.entries[k].idle, span_start, span_end);
        let sorted = sort_by_start(gaps);
        let holes = merge_holes(&sorted);
        if holes.len() == 0 {
            return Vec::new();
        }
        let pieces = complement_exec(&holes, span_start, span_end);
        if pieces.len() == 0 {
            return Vec::new();
        }
        proof {
            let idle = self.entries@[k as int].idle@;
            lemma_clamped_len(idle, span_start, span_end);
            lemma_by_start_len(clamped(idle, span_start, span_end));
            lemma_merged_len(by_start(clamped(idle, span_start, span_end)));
            lemma_complement_len(holes@, span_start, span_end);
        }
        let ghost old_entries = self.entries@;
        let ghost template = self.entries@[k as int];
        let ghost first_id = self.next_id;
        let ghost schema = self.schema_version;
        let description = self.entries[k].description.clone();
        let project = copy_opt(&self.entries[k].project);
        let tags = copy_strings(&self.entries[k].tags);
        let data = copy_data(&self.entries[k].data);
        let idle = self.entries[k].idle.clone();
        assert(idle@ == template.idle@);
        let mut ids: Vec<u64> = Vec::new();
        let first = TimeEntry {
            id,
            description: description.clone(),
            project: copy_opt(&project),
            tags: copy_strings(&tags),
            start_time: pieces[0].0,
            end_time: Some(pieces[0].1),
            idle: inside_exec(&idle, pieces[0].0, pieces[0].1),
            data: copy_data(&data),
        };
        self.entries.set(k, first);
        ids.push(id);
        let mut i: usize = 1;
        while i < pieces.len()
            invariant
                1 <= i <= pieces.len(),
                pieces@.len() <= old_entries[k as int].idle@.len() + 1,
                first_id as int + old_entries[k as int].idle@.len() + 1 <= u64::MAX,
                old_entries.len() + old_entries[k as int].idle@.len() + 1 <= usize::MAX,
                template == old_entries[k as int],
                k < old_entries.len(),
                self.entries@.len() == old_entries.len() + i - 1,
                self.next_id == first_id + i - 1,
                self.schema_version == schema,
                forall|j: int| 0 <= j < old_entries.len() && j != k ==> (#[trigger] self.entries@[j])@ == old_entries[j]@,
                is_piece(self.entries@[k as int]@, template@, id, pieces@[0]),
                forall|j: int| 1 <= j < i ==> is_piece(
                    (#[trigger] self.entries@[old_entries.len() + j - 1])@,
                    template@,
                    (first_id + j - 1) as u64,
                    pieces@[j],
                ),
                description@ == template.description@,
                opt_string(project) == opt_string(template.project),
                views(tags@) == views(template.tags@),
                data_view(data) == data_view(template.data),
                idle@ == template.idle@,
                ids@.len() == i,
                ids@[0] == id,
                forall|j: int| 1 <= j < i ==> #[trigger] ids@[j] == first_id + j - 1,
            decreases pieces.len() - i,
        {
            let new_id = self.next_id;
            self.next_id = self.next_id + 1;
            self.entries.push(
                TimeEntry {
                    id: new_id,
                    description: description.clone(),
                    project: copy_opt(&project),
                    tags: copy_strings(&tags),
                    start_time: pieces[i].0,
                    end_time: Some(pieces[i].1),
                    idle: inside_exec(&idle, pieces[i].0, pieces[i].1),
                    data: copy_data(&data),
                },
            );
            ids.push(new_id);
            i += 1;
        }
        ids
    }
}

// --- calendar days ----------------------------------------------------------------

/// Whether a start day lies within `from ..= until`, an absent bound leaving
/// that side open; an entry with no day reading lies only in a window open on
/// both sides.
pub open spec fn in_window(day: Option<i32>, from: Option<int>, until: Option<int>) -> bool {
    &&& (from matches Some(f) ==> day matches Some(d) && d >= f)
    &&& (until matches Some(u) ==> day matches Some(d) && d <= u)
}

/// The first `n` entries whose start day (`days`, index for index) lies in the
/// window, in store order.
pub open spec fn dated(entries: Seq<TimeEntry>, days: Seq<Option<i32>>, from: Option<int>, until: Option<int>, n: int) -> Seq<TimeEntry>
    decreases n,
{
    if n <= 0 || n > entries.len() || n > days.len() {
        seq![]
    } else if in_window(days[n - 1], from, until) {
        dated(entries, days, from, until, n - 1).push(entries[n - 1])
    } else {
        dated(entries, days, from, until, n - 1)
    }
}

/// The entries that started on `day`, none when there is no day.
pub open spec fn on_day(entries: Seq<TimeEntry>, days: Seq<Option<i32>>, day: Option<i32>) -> Seq<TimeEntry> {
    match day {
        Some(d) => dated(entries, days, Some(d as int), Some(d as int), entries.len() as int),
        None => seq![],
    }
}

pub open spec fn day_bound(d: Option<i32>) -> Option<int> {
    match d {
        Some(x) => Some(x as int),
        None => None,
    }
}

/// The seconds the first `n` entries run, each running one measured to `now`.
pub open spec fn seconds_at(entries: Seq<TimeEntry>, now: int, n: int) -> int
    decreases n,
{
    if n <= 0 || n > entries.len() {
        0
    } else {
        seconds_at(entries, now, n - 1) + ((match entries[n - 1].end_time {
            Some(end) => end as int,
            None => now,
        }) - entries[n - 1].start_time)
    }
}

/// The seconds the entries that started within `from ..= until` run, each running
/// one measured to `now`.
pub open spec fn seconds_within(entries: Seq<TimeEntry>, days: Seq<Option<i32>>, from: Option<int>, until: Option<int>, now: int) -> int {
    let on = dated(entries, days, from, until, entries.len() as int);
    seconds_at(on, now, on.len() as int)
}

/// The seconds the entries that started on `day` run, each running one measured to `now`.
pub open spec fn seconds_on_day(entries: Seq<TimeEntry>, days: Seq<Option<i32>>, day: Option<i32>, now: int) -> int {
    let on = on_day(entries, days, day);
    seconds_at(on, now, on.len() as int)
}

/// Days the machine's clock can give the entries' starts, entry for entry: a day
/// exactly where chrono can read the start, and then within a day of its UTC day
/// (a zone's offset is under a day either way).
pub open spec fn clock_days(entries: Seq<TimeEntry>, days: Seq<Option<i32>>) -> bool {
    &&& days.len() == entries.len()
    &&& forall|i: int| 0 <= i < entries.len() ==> (#[trigger] days[i] is Some) == crate::clock::readable(entries[i].start_time as int)
    &&& forall|i: int| 0 <= i < entries.len() ==> (#[trigger] days[i] matches Some(d)
        ==> entries[i].start_time as int / 86400 - 1 <= d <= entries[i].start_time as int / 86400 + 1)
}

/// A day the clock can name for the reading `now`: one exactly where chrono can
/// read it, within a day of its UTC day.
pub open spec fn clock_today(now: int, today: Option<i32>) -> bool {
    &&& 0 <= now <= crate::clock::LAST_SECOND
    &&& (today is Some) == crate::clock::readable(now)
    &&& today matches Some(d) ==> now / 86400 - 1 <= d <= now / 86400 + 1
}

/// Whether `total` is the seconds logged on `day` for some reading of the clock:
/// which day each entry started on, and what time it is now.
pub open spec fn spent_on(entries: Seq<TimeEntry>, day: int, total: int) -> bool {
    exists|days: Seq<Option<i32>>, now: i64|
        clock_days(entries, days) && 0 <= now <= crate::clock::LAST_SECOND && total == #[trigger] seconds_within(
            entries,
            days,
            Some(day),
            Some(day),
            now as int,
        )
}

/// The Monday of the week holding `day`: day 0, 1970-01-01, was a Thursday.
pub open spec fn monday_of(day: int) -> int {
    day - (day + 3) % 7
}

/// The week of a day starts on the Monday at or before it, less than a week
/// back: a day a whole number of weeks from Monday 1970-01-05.
pub proof fn lemma_weeks_start_on_monday(day: int)
    ensures
        monday_of(day) <= day < monday_of(day) + 7,
        (monday_of(day) - 4) % 7 == 0,
        monday_of(day + 7) == monday_of(day) + 7,
{
    let r = (day + 3) % 7;
    vstd::arithmetic::div_mod::lemma_fundamental_div_mod(day + 3, 7);
    vstd::arithmetic::div_mod::lemma_mod_add_multiples_vanish(day + 3, 7);
    assert(monday_of(day) - 4 == 7 * ((day + 3) / 7) - 7);
    assert((7 * ((day + 3) / 7 - 1)) % 7 == 0) by {
        vstd::arithmetic::div_mod::lemma_mod_multiples_basic((day + 3) / 7 - 1, 7);
    }
    assert(7 * ((day + 3) / 7) - 7 == 7 * ((day + 3) / 7 - 1));
}

/// References to entries, read as the entries themselves.
pub open spec fn derefs(v: Seq<&TimeEntry>) -> Seq<TimeEntry> {
    v.map_values(|e: &TimeEntry| *e)
}

/// The most entries a total is taken over: four billion, far past any store a
/// machine holds, so that their seconds add up within `i128`.
pub const MAX_ENTRIES: usize = 0xFFFF_FFFF;

impl TimeData {
    /// The Monday of the week holding `day`.
    pub fn week_start(day: i32) -> (r: i32)
        requires
            monday_of(day as int) >= crate::clock::MIN_DAY,
        ensures
            r == monday_of(day as int),
            r <= day < r + 7,
    {
        // Shifted by whole weeks to a non-negative count, so `%` reads as in the spec.
        let shifted: i64 = day as i64 + 3 + 7 * 14_000_000;
        let back = shifted % 7;
        proof {
            vstd::arithmetic::div_mod::lemma_mod_multiples_vanish(14_000_000, day + 3, 7);
            assert(shifted == 7 * 14_000_000 + (day + 3));
        }
        (day as i64 - back) as i32
    }

    /// The day each entry started on, index for index, as the machine's clock reads it.
    pub fn start_days(&self) -> (r: Vec<Option<i32>>)
        ensures
            clock_days(self.entries@, r@),
    {
        let mut out: Vec<Option<i32>> = Vec::new();
        let mut i: usize = 0;
        while i < self.entries.len()
            invariant
                i <= self.entries.len(),
                out@.len() == i,
                clock_days(self.entries@.take(i as int), out@),
            decreases self.entries.len() - i,
        {
            out.push(crate::clock::local_day(self.entries[i].start_time));
            proof {
                let es = self.entries@.take(i + 1);
                assert forall|j: int| 0 <= j < i + 1 implies es[j] == self.entries@[j] by {}
            }
            i += 1;
        }
        assert(self.entries@.take(self.entries@.len() as int) =~= self.entries@);
        out
    }

    /// The entries whose start day (`days`, index for index) lies within
    /// `from ..= until`, in store order.
    pub fn entries_within(&self, days: &Vec<Option<i32>>, from: Option<i32>, until: Option<i32>) -> (r: Vec<&TimeEntry>)
        requires
            days@.len() == self.entries@.len(),
        ensures
            derefs(r@) == dated(self.entries@, days@, day_bound(from), day_bound(until), self.entries@.len() as int),
    {
        let mut out: Vec<&TimeEntry> = Vec::new();
        let mut i: usize = 0;
        while i < self.entries.len()
            invariant
                i <= self.entries.len(),
                days@.len() == self.entries@.len(),
                derefs(out@) == dated(self.entries@, days@, day_bound(from), day_bound(until), i as int),
            decreases self.entries.len() - i,
        {
            let keep = match days[i] {
                Some(d) => (match from {
                    Some(f) => d >= f,
                    None => true,
                }) && (match until {
                    Some(u) => d <= u,
                    None => true,
                }),
                None => from.is_none() && until.is_none(),
            };
            if keep {
                let ghost before = out@;
                out.push(&self.entries[i]);
                assert(derefs(out@) =~= derefs(before).push(self.entries@[i as int]));
            }
            i += 1;
        }
        out
    }

    /// The entries that started on `date`.
    pub fn entries_for_date(&self, date: i32) -> (r: Vec<&TimeEntry>)
        ensures
            exists|days: Seq<Option<i32>>|
                clock_days(self.entries@, days) && derefs(r@) == #[trigger] dated(
                    self.entries@,
                    days,
                    Some(date as int),
                    Some(date as int),
                    self.entries@.len() as int,
                ),
    {
        let days = self.start_days();
        self.entries_within(&days, Some(date), Some(date))
    }

    /// The entries that started in the week from `week_start`, Monday to Sunday.
    pub fn entries_for_week(&self, week_start: i32) -> (r: Vec<&TimeEntry>)
        requires
            week_start <= i32::MAX - 6,
        ensures
            exists|days: Seq<Option<i32>>|
                clock_days(self.entries@, days) && derefs(r@) == #[trigger] dated(
                    self.entries@,
                    days,
                    Some(week_start as int),
                    Some(week_start + 6),
                    self.entries@.len() as int,
                ),
    {
        let days = self.start_days();
        self.entries_within(&days, Some(week_start), Some(week_start + 6))
    }

    /// The entries that started today, by the machine's clock; none when the clock
    /// names no day.
    pub fn today_entries(&self) -> (r: Vec<&TimeEntry>)
        ensures
            exists|days: Seq<Option<i32>>, today: Option<i32>, n: i64|
                #![trigger on_day(self.entries@, days, today), clock_today(n as int, today)]
                clock_days(self.entries@, days) && clock_today(n as int, today) && derefs(r@) == on_day(
                    self.entries@,
                    days,
                    today,
                ),
    {
        let days = self.start_days();
        let n = crate::clock::now();
        match crate::clock::local_day(n) {
            Some(today) => {
                let r = self.entries_within(&days, Some(today), Some(today));
                assert(derefs(r@) == on_day(self.entries@, days@, Some(today)));
                assert(clock_today(n as int, Some(today)));
                r
            },
            None => {
                assert(derefs(Seq::<&TimeEntry>::empty()) =~= Seq::<TimeEntry>::empty());
                assert(derefs(Seq::<&TimeEntry>::empty()) == on_day(self.entries@, days@, None));
                assert(clock_today(n as int, None));
                Vec::new()
            },
        }
    }
}

/// The seconds a list of entries runs, each running one measured to `now`.
pub fn total_at(entries: &Vec<&TimeEntry>, now: i64) -> (r: i128)
    requires
        entries@.len() <= MAX_ENTRIES,
    ensures
        r == seconds_at(derefs(entries@), now as int, entries@.len() as int),
{
    let mut total: i128 = 0;
    let mut i: usize = 0;
    while i < entries.len()
        invariant
            i <= entries.len(),
            entries@.len() <= MAX_ENTRIES,
            total == seconds_at(derefs(entries@), now as int, i as int),
            -0x2_0000_0000_0000_0000 * i <= total <= 0x2_0000_0000_0000_0000 * i,
        decreases entries.len() - i,
    {
        let d = entries[i].duration_at(now);
        assert(derefs(entries@)[i as int] == *entries@[i as int]);
        total = total + d;
        i += 1;
    }
    total
}

proof fn lemma_dated_len(entries: Seq<TimeEntry>, days: Seq<Option<i32>>, from: Option<int>, until: Option<int>, n: int)
    ensures
        dated(entries, days, from, until, n).len() <= if n < 0 { 0 } else { n },
    decreases n,
{
    if n > 0 {
        lemma_dated_len(entries, days, from, until, n - 1);
    }
}

impl TimeData {
    /// The seconds logged on `date`, a running entry measured to the clock.
    pub fn total_for_date(&self, date: i32) -> (r: i128)
        requires
            self.entries@.len() <= MAX_ENTRIES,
        ensures
            spent_on(self.entries@, date as int, r as int),
    {
        let days = self.start_days();
        let on = self.entries_within(&days, Some(date), Some(date));
        proof {
            lemma_dated_len(self.entries@, days@, Some(date as int), Some(date as int), self.entries@.len() as int);
        }
        let now = crate::clock::now();
        let r = total_at(&on, now);
        assert(r == seconds_within(self.entries@, days@, Some(date as int), Some(date as int), now as int));
        r
    }

    /// The seconds logged today, a running entry measured to the clock.
    pub fn today_total(&self) -> (r: i128)
        requires
            self.entries@.len() <= MAX_ENTRIES,
        ensures
            exists|days: Seq<Option<i32>>, today: Option<i32>, n: i64, now: i64|
                #![trigger seconds_on_day(self.entries@, days, today, now as int), clock_today(n as int, today)]
                clock_days(self.entries@, days) && clock_today(n as int, today) && 0 <= now <= crate::clock::LAST_SECOND
                    && r == seconds_on_day(self.entries@, days, today, now as int),
    {
        let on = self.today_entries();
        let ghost w = choose|days: Seq<Option<i32>>, today: Option<i32>, n: i64|
            #![trigger on_day(self.entries@, days, today), clock_today(n as int, today)]
            clock_days(self.entries@, days) && clock_today(n as int, today) && derefs(on@) == on_day(
                self.entries@,
                days,
                today,
            );
        proof {
            lemma_dated_len(self.entries@, w.0, day_bound(w.1), day_bound(w.1), self.entries@.len() as int);
        }
        let now = crate::clock::now();
        let r = total_at(&on, now);
        assert(r == seconds_on_day(self.entries@, w.0, w.1, now as int));
        assert(clock_days(self.entries@, w.0) && clock_today(w.2 as int, w.1));
        r
    }

    /// The seconds logged in the week from `week_start`, Monday to Sunday.
    pub fn total_for_week(&self, week_start: i32) -> (r: i128)
        requires
            week_start <= i32::MAX - 6,
            self.entries@.len() <= MAX_ENTRIES,
        ensures
            exists|days: Seq<Option<i32>>, now: i64|
                clock_days(self.entries@, days) && 0 <= now <= crate::clock::LAST_SECOND && r == #[trigger] seconds_within(
                    self.entries@,
                    days,
                    Some(week_start as int),
                    Some(week_start + 6),
                    now as int,
                ),
    {
        let days = self.start_days();
        let on = self.entries_within(&days, Some(week_start), Some(week_start + 6));
        proof {
            lemma_dated_len(self.entries@, days@, Some(week_start as int), Some(week_start + 6), self.entries@.len() as int);
        }
        let now = crate::clock::now();
        let r = total_at(&on, now);
        assert(r == seconds_within(self.entries@, days@, Some(week_start as int), Some(week_start + 6), now as int));
        r
    }

    /// Each day of the week from `week_start` with the seconds logged on it, Monday first.
    pub fn daily_breakdown(&self, week_start: i32) -> (r: Vec<(i32, i128)>)
        requires
            week_start <= i32::MAX - 6,
            self.entries@.len() <= MAX_ENTRIES,
        ensures
            r@.len() == 7,
            forall|i: int| 0 <= i < 7 ==> (#[trigger] r@[i]).0 == week_start + i,
            forall|i: int| 0 <= i < 7 ==> spent_on(self.entries@, week_start + i, (#[trigger] r@[i]).1 as int),
    {
        let mut out: Vec<(i32, i128)> = Vec::new();
        let mut i: i32 = 0;
        while i < 7
            invariant
                0 <= i <= 7,
                week_start <= i32::MAX - 6,
                self.entries@.len() <= MAX_ENTRIES,
                out@.len() == i,
                forall|j: int| 0 <= j < i ==> (#[trigger] out@[j]).0 == week_start + j,
                forall|j: int| 0 <= j < i ==> spent_on(self.entries@, week_start + j, (#[trigger] out@[j]).1 as int),
            decreases 7 - i,
        {
            let date = week_start + i;
            let total = self.total_for_date(date);
            out.push((date, total));
            i += 1;
        }
        out
    }
}

// --- an entry as the screen shows it ---------------------------------------------------

/// The text a date reading shows: a calendar day as chrono writes it, or
/// `????-??-??` when the clock names no day chrono can write.
pub open spec fn date_shape(t: Seq<char>) -> bool {
    (exists|day: int| crate::clock::MIN_DAY <= day <= crate::clock::MAX_DAY && t == #[trigger] crate::clock::day_name(day))
        || t == "????-??-??"@
}

/// How an instant's local date is written: the date of a day within one of its
/// UTC day where chrono can read the instant, else `????-??-??`.
pub open spec fn date_of(epoch: int, t: Seq<char>) -> bool {
    if crate::clock::readable(epoch) {
        exists|day: int| epoch / 86400 - 1 <= day <= epoch / 86400 + 1 && crate::clock::MIN_DAY <= day <= crate::clock::MAX_DAY
            && t == #[trigger] crate::clock::day_name(day)
    } else {
        t == "????-??-??"@
    }
}

fn date_or_unknown(epoch: i64) -> (r: String)
    ensures
        date_shape(r@),
        date_of(epoch as int, r@),
{
    match crate::clock::local_day(epoch) {
        Some(day) => if crate::clock::MIN_DAY <= day && day <= crate::clock::MAX_DAY {
            crate::clock::day_text(day)
        } else {
            String::from_str("????-??-??")
        },
        None => String::from_str("????-??-??"),
    }
}

/// A count of seconds as `i64`, pinned to its bounds.
pub open spec fn pinned(x: int) -> int {
    if x > i64::MAX {
        i64::MAX as int
    } else if x < i64::MIN {
        i64::MIN as int
    } else {
        x
    }
}

fn pin(x: i128) -> (r: i64)
    ensures
        r == pinned(x as int),
{
    if x > i64::MAX as i128 {
        i64::MAX
    } else if x < i64::MIN as i128 {
        i64::MIN
    } else {
        x as i64
    }
}

/// An entry's length in seconds, a running one measured to `now`.
pub open spec fn length_at(e: TimeEntry, now: int) -> int {
    (match e.end_time {
        Some(end) => end as int,
        None => now,
    }) - e.start_time
}

/// The end-time column while an entry runs.
pub open spec fn running_mark() -> Seq<char> {
    "—"@
}

/// What `/` searches in an entry, before lower-casing: the id, the description,
/// the project, the tags, and the date, times and length as the table shows them.
pub open spec fn haystack_of(
    e: TimeEntry,
    date: Seq<char>,
    start: Seq<char>,
    end: Seq<char>,
    length: Seq<char>,
) -> Seq<char> {
    join(
        seq![
            crate::text::decimal(e.id as nat),
            e.description@,
            project_text(e),
            join(e.tags@.map_values(|t: String| seq!['#'] + t@), ' '),
            date,
            start,
            end,
            length,
        ],
        ' ',
    )
}

/// The project as text, empty when there is none.
pub open spec fn project_text(e: TimeEntry) -> Seq<char> {
    match e.project {
        Some(p) => p@,
        None => seq![],
    }
}

/// Whether `needle` appears anywhere in `hay`.
pub open spec fn contains_text(hay: Seq<char>, needle: Seq<char>) -> bool {
    exists|i: int| 0 <= i && i + needle.len() <= hay.len() && #[trigger] hay.subrange(i, i + needle.len()) == needle
}

/// Whether `needle` appears anywhere in `hay`.
pub fn text_contains(hay: &str, needle: &str) -> (r: bool)
    ensures
        r == contains_text(hay@, needle@),
{
    let h = chars_of(hay);
    let n = chars_of(needle);
    if n.len() > h.len() {
        return false;
    }
    let mut i: usize = 0;
    while i <= h.len() - n.len()
        invariant
            h@ == hay@,
            n@ == needle@,
            n.len() <= h.len(),
            i <= h.len() - n.len() + 1,
            forall|k: int| 0 <= k < i ==> #[trigger] hay@.subrange(k, k + needle@.len()) != needle@,
        decreases h.len() - i,
    {
        let mut j: usize = 0;
        let mut same = true;
        while j < n.len()
            invariant
                h@ == hay@,
                n@ == needle@,
                i + n.len() <= h.len(),
                j <= n.len(),
                same == forall|q: int| 0 <= q < j ==> h@[i + q] == n@[q],
            decreases n.len() - j,
        {
            if h[i + j] != n[j] {
                same = false;
            }
            j += 1;
        }
        if same {
            assert(hay@.subrange(i as int, i + needle@.len()) =~= needle@);
            return true;
        } else {
            assert(hay@.subrange(i as int, i + needle@.len()) != needle@) by {
                let q = choose|q: int| 0 <= q < n.len() && h@[i + q] != n@[q];
                assert(hay@.subrange(i as int, i + needle@.len())[q] == h@[i + q]);
            }
        }
        i += 1;
    }
    false
}

impl TimeEntry {
    /// The length column: the house format, a running entry measured to the clock.
    pub fn format_duration(&self) -> (r: String)
        ensures
            exists|now: i64| r@ == crate::duration::hm_text(pinned(#[trigger] length_at(*self, now as int))),
    {
        let now = crate::clock::now();
        let r = crate::duration::format(pin(self.duration_at(now)));
        assert(r@ == crate::duration::hm_text(pinned(length_at(*self, now as int))));
        r
    }

    /// The date column, the day the entry started by the wall clock.
    pub fn format_date(&self) -> (r: String)
        ensures
            date_shape(r@),
            date_of(self.start_time as int, r@),
    {
        date_or_unknown(self.start_time)
    }

    /// The start column: `HH:MM` by the wall clock.
    pub fn format_start_time(&self) -> (r: String)
        ensures
            clock_text(self.start_time as int, r@),
    {
        crate::clock::clock_or_unknown(self.start_time)
    }

    /// The end column: a clock time, or an em dash while the entry runs.
    pub fn format_end_time(&self) -> (r: String)
        ensures
            self.end_time is None ==> r@ == running_mark(),
            self.end_time matches Some(e) ==> clock_text(e as int, r@),
    {
        match self.end_time {
            Some(end) => crate::clock::clock_or_unknown(end),
            None => String::from_str("—"),
        }
    }

    /// Everything a row or the detail view can show, lower-cased and joined with
    /// spaces: what `/` searches, built from the same columns the table prints.
    pub fn search_haystack(&self) -> (r: String)
        ensures
            exists|date: Seq<char>, start: Seq<char>, end: Seq<char>, length: Seq<char>|
                date_shape(date) && clock_text(self.start_time as int, start) && (self.end_time is None ==> end == running_mark())
                    && (self.end_time matches Some(e) ==> clock_text(e as int, end)) && r@ == lowercase(
                    #[trigger] haystack_of(*self, date, start, end, length),
                ),
    {
        let mut id_text: Vec<char> = Vec::new();
        crate::text::push_u64(&mut id_text, self.id);
        assert(id_text@ =~= crate::text::decimal(self.id as nat));
        let desc = chars_of(self.description.as_str());
        let proj = match &self.project {
            Some(p) => chars_of(p.as_str()),
            None => Vec::new(),
        };
        assert(proj@ =~= project_text(*self));
        let tags = chars_of(self.format_tags().as_str());
        let date = self.format_date();
        let start = self.format_start_time();
        let end = self.format_end_time();
        let length = self.format_duration();
        let date_c = chars_of(date.as_str());
        let start_c = chars_of(start.as_str());
        let end_c = chars_of(end.as_str());
        let length_c = chars_of(length.as_str());
        let ghost parts = seq![id_text@, desc@, proj@, tags@, date@, start@, end@, length@];
        let mut out: Vec<char> = Vec::new();
        push_all(&mut out, &id_text);
        assert(out@ =~= join(parts.subrange(0, 1), ' '));
        out.push(' ');
        push_all(&mut out, &desc);
        assert(parts.subrange(0, 2).drop_last() =~= parts.subrange(0, 1));
        assert(out@ =~= join(parts.subrange(0, 2), ' '));
        out.push(' ');
        push_all(&mut out, &proj);
        assert(parts.subrange(0, 3).drop_last() =~= parts.subrange(0, 2));
        assert(out@ =~= join(parts.subrange(0, 3), ' '));
        out.push(' ');
        push_all(&mut out, &tags);
        assert(parts.subrange(0, 4).drop_last() =~= parts.subrange(0, 3));
        assert(out@ =~= join(parts.subrange(0, 4), ' '));
        out.push(' ');
        push_all(&mut out, &date_c);
        assert(parts.subrange(0, 5).drop_last() =~= parts.subrange(0, 4));
        assert(out@ =~= join(parts.subrange(0, 5), ' '));
        out.push(' ');
        push_all(&mut out, &start_c);
        assert(parts.subrange(0, 6).drop_last() =~= parts.subrange(0, 5));
        assert(out@ =~= join(parts.subrange(0, 6), ' '));
        out.push(' ');
        push_all(&mut out, &end_c);
        assert(parts.subrange(0, 7).drop_last() =~= parts.subrange(0, 6));
        assert(out@ =~= join(parts.subrange(0, 7), ' '));
        out.push(' ');
        push_all(&mut out, &length_c);
        assert(parts.drop_last() =~= parts.subrange(0, 7));
        assert(out@ =~= join(parts, ' '));
        assert(haystack_of(*self, date@, start@, end@, length@) == join(parts, ' '));
        to_lowercase(string_of(&out).as_str())
    }

    /// Whether `needle_lower` (already lower-cased) appears anywhere in the entry.
    pub fn matches_search(&self, needle_lower: &str) -> (r: bool)
        ensures
            exists|date: Seq<char>, start: Seq<char>, end: Seq<char>, length: Seq<char>|
                date_shape(date) && clock_text(self.start_time as int, start) && (self.end_time is None ==> end == running_mark())
                    && (self.end_time matches Some(e) ==> clock_text(e as int, end)) && r == contains_text(
                    lowercase(#[trigger] haystack_of(*self, date, start, end, length)),
                    needle_lower@,
                ),
    {
        let hay = self.search_haystack();
        text_contains(hay.as_str(), needle_lower)
    }
}

impl IdleInterval {
    /// `09:50 – 10:20 (0h 30m)`, as the detail view lists an interval: clock times
    /// by the wall clock, and the interval's length in the house format.
    pub fn format_span(&self) -> (r: String)
        ensures
            exists|from: Seq<char>, to: Seq<char>|
                clock_text(self.start as int, from) && clock_text(self.end as int, to) && r@ == from + " – "@ + to + " ("@
                    + #[trigger] crate::duration::hm_text(pinned(self.end - self.start)) + ")"@,
    {
        let from = crate::clock::clock_or_unknown(self.start);
        let to = crate::clock::clock_or_unknown(self.end);
        let mut out: Vec<char> = Vec::new();
        push_all(&mut out, &chars_of(from.as_str()));
        crate::text::push_str(&mut out, " – ");
        push_all(&mut out, &chars_of(to.as_str()));
        crate::text::push_str(&mut out, " (");
        push_all(&mut out, &chars_of(crate::duration::format(pin(self.duration())).as_str()));
        crate::text::push_str(&mut out, ")");
        string_of(&out)
    }
}

/// The last `n` entries of a store, newest first: what `tt list` shows.
pub open spec fn newest(entries: Seq<TimeEntry>, n: int) -> Seq<TimeEntry> {
    let k = if n < entries.len() { n } else { entries.len() as int };
    Seq::new(k as nat, |i: int| entries[entries.len() - 1 - i])
}

impl TimeData {
    /// The most recent `limit` entries across all days, newest first.
    pub fn recent(&self, limit: usize) -> (r: Vec<&TimeEntry>)
        ensures
            derefs(r@) == newest(self.entries@, limit as int),
    {
        let mut out: Vec<&TimeEntry> = Vec::new();
        let n = self.entries.len();
        let mut i: usize = 0;
        while i < limit && i < n
            invariant
                n == self.entries@.len(),
                i <= n,
                i <= limit,
                derefs(out@) == newest(self.entries@, i as int),
            decreases n - i,
        {
            let ghost before = out@;
            out.push(&self.entries[n - 1 - i]);
            assert(derefs(out@) =~= derefs(before).push(self.entries@[n - 1 - i]));
            assert(newest(self.entries@, i + 1) =~= newest(self.entries@, i as int).push(self.entries@[n - 1 - i]));
            i += 1;
        }
        assert(newest(self.entries@, limit as int) =~= newest(self.entries@, i as int));
        out
    }
}

} // verus!
