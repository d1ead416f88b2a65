//! The command line's own rules: which agent subcommands reach the store, how an
//! `--idle` value reads, how a listing shows a project and tags, and the store
//! transactions `start`, `stop` and `log` make. Argument parsing and printing
//! belong to the binary.

use vstd::prelude::*;
use crate::entry_data::{data_view, Json};
use crate::marks::{join, opt_string};
use crate::text::{
    chars_eq, chars_of, lemma_views_push, parse_i64, parsed_i64, push_all, push_str, string_of, trim,
    trim_chars, views, words,
};
use crate::tracker::{
    entry_views, find_index, first_active, holes_of, index_of, lemma_complement_ordered, lemma_holes_total_nonneg,
    lemma_pieces_cover_span_less_holes, lemma_spans_total_concat, parse_tags, pieces_of, plain_words,
    spans_total, split_done, split_fits, splits, tag_names, EntryView, IdleInterval, TimeData, TimeEntry,
};

verus! {

/// The agent layer's commands.
#[derive(Debug)]
pub enum AgentCommands {
    /// Open a mark for a phase, keeping the start of one already open.
    Begin { project: String, issue: String, phase: String, agent: Option<String> },
    /// Record one heartbeat for an open phase.
    Touch { project: String, issue: String, phase: String, agent: Option<String> },
    /// Drop a phase's mark and heartbeats without logging anything.
    Cancel { project: String, issue: String, phase: String, agent: Option<String> },
    /// List every open mark, or one project's.
    List { project: Option<String> },
    /// Log one finished piece of work, with no mark involved.
    Item {
        project: String,
        issue: String,
        phase: String,
        summary: Option<String>,
        minutes: Option<String>,
        data: Option<Json>,
    },
    /// Close a marked phase and log it.
    End {
        project: String,
        issue: String,
        phase: String,
        summary: Option<String>,
        minutes: Option<String>,
        full: bool,
        trim: bool,
        agent: Option<String>,
        session: Option<String>,
        data: Option<Json>,
    },
    /// Cover one unaccounted row with an entry spanning it exactly.
    Resolve { session: String, start: i64, issue: String, phase: String, summary: String },
    /// Record that a stretch of one session's clock time was not work.
    Dismiss { session: String, project: String, span: IdleInterval, reason: Option<String> },
    /// The activity hooks.
    Activity(ActivityCommands),
    /// Reconcile activity against marks and entries.
    Audit { auto_log: bool, json: bool, project: Option<String> },
}

/// The hooks that keep the activity ledger.
#[derive(Debug)]
pub enum ActivityCommands {
    Begin { session_id: String, project: Option<String> },
    End { session_id: String, project: Option<String> },
    Subagent { session_id: String, project: Option<String> },
    Prompt { project: Option<String> },
    Check { session_id: String, auto_log: bool },
}

/// Whether a subcommand creates or reads a `tt` entry under the store's lock.
pub open spec fn store_command(c: AgentCommands) -> bool {
    match c {
        AgentCommands::Item { .. } | AgentCommands::End { .. } | AgentCommands::Resolve { .. } => true,
        AgentCommands::Audit { auto_log, .. } => auto_log,
        AgentCommands::Activity(ActivityCommands::Check { auto_log, .. }) => auto_log,
        _ => false,
    }
}

/// The subcommands that only read or write marks.
pub open spec fn mark_only(c: AgentCommands) -> bool {
    c is Begin || c is Touch || c is Cancel || c is List
}

/// The mark-only subcommands never touch the store: none of them is dispatched
/// behind its lock, so none creates, locks, reads or writes it.
pub proof fn lemma_mark_only_commands_leave_the_store(c: AgentCommands)
    requires
        mark_only(c),
    ensures
        !store_command(c),
{
}

impl AgentCommands {
    /// Whether this subcommand creates or reads a `tt` entry under the store's
    /// lock. The ones that do not are dispatched ahead of the migrate preamble, so
    /// a heartbeat never takes the lock; the ones that do must dispatch after it.
    /// A plain audit reads no lock; an auto-logging one writes.
    pub fn touches_store(&self) -> (r: bool)
        ensures
            r == store_command(*self),
    {
        match self {
            AgentCommands::Begin { .. } | AgentCommands::Touch { .. } | AgentCommands::Cancel { .. }
            | AgentCommands::List { .. } | AgentCommands::Dismiss { .. } => false,
            AgentCommands::Item { .. } | AgentCommands::End { .. } | AgentCommands::Resolve { .. } => true,
            AgentCommands::Audit { auto_log, .. } => *auto_log,
            AgentCommands::Activity(command) => match command {
                ActivityCommands::Check { auto_log, .. } => *auto_log,
                _ => false,
            },
        }
    }
}

// --- `--idle` ----------------------------------------------------------------

/// Where the first `-` of a value is.
pub open spec fn dash_pos(s: Seq<char>) -> Option<int>
    decreases s.len(),
{
    if s.len() == 0 {
        None
    } else {
        match dash_pos(s.drop_last()) {
            Some(i) => Some(i),
            None => if s.last() == '-' {
                Some(s.len() - 1)
            } else {
                None
            },
        }
    }
}

/// The two halves of an `--idle` value around its first `-`, untrimmed.
pub open spec fn idle_halves(value: Seq<char>) -> Option<(Seq<char>, Seq<char>)> {
    match dash_pos(value) {
        Some(i) => Some((value.subrange(0, i), value.subrange(i + 1, value.len() as int))),
        None => None,
    }
}

/// What the syntax of an `--idle` value gives: the two epochs, or the message
/// for the first thing wrong with it.
pub open spec fn idle_syntax(value: Seq<char>) -> Result<(i64, i64), Seq<char>> {
    match idle_halves(value) {
        None => Err("expected <start>-<end> epoch seconds, got `"@ + value + "`"@),
        Some((a, b)) => match parsed_i64(trim(a)) {
            None => Err("start is not epoch seconds: `"@ + a + "`"@),
            Some(s) => match parsed_i64(trim(b)) {
                None => Err("end is not epoch seconds: `"@ + b + "`"@),
                Some(e) => Ok((s, e)),
            },
        },
    }
}

fn find_dash(s: &Vec<char>) -> (r: Option<usize>)
    ensures
        match r {
            Some(i) => dash_pos(s@) == Some(i as int) && i < s@.len(),
            None => dash_pos(s@) is None,
        },
{
    let mut i: usize = 0;
    while i < s.len()
        invariant
            i <= s.len(),
            dash_pos(s@.subrange(0, i as int)) is None,
        decreases s.len() - i,
    {
        assert(s@.subrange(0, i + 1).drop_last() =~= s@.subrange(0, i as int));
        if s[i] == '-' {
            proof {
                lemma_dash_pos_prefix(s@, i as int);
            }
            return Some(i);
        }
        i += 1;
    }
    assert(s@.subrange(0, s@.len() as int) =~= s@);
    None
}

proof fn lemma_dash_pos_prefix(s: Seq<char>, i: int)
    requires
        0 <= i < s.len(),
        dash_pos(s.subrange(0, i)) is None,
        s[i] == '-',
    ensures
        dash_pos(s) == Some(i),
    decreases s.len() - i,
{
    if i + 1 == s.len() {
        assert(s.drop_last() =~= s.subrange(0, i));
    } else {
        assert(s.drop_last().subrange(0, i) =~= s.subrange(0, i));
        lemma_dash_pos_prefix(s.drop_last(), i);
    }
}

fn sub_chars(s: &Vec<char>, from: usize, to: usize) -> (r: Vec<char>)
    requires
        from <= to <= s.len(),
    ensures
        r@ == s@.subrange(from as int, to as int),
{
    let mut out: Vec<char> = Vec::new();
    let mut i = from;
    while i < to
        invariant
            from <= i <= to,
            to <= s.len(),
            out@ == s@.subrange(from as int, i as int),
        decreases to - i,
    {
        out.push(s[i]);
        i += 1;
        assert(out@ =~= s@.subrange(from as int, i as int));
    }
    out
}

fn quoted(prefix: &str, raw: &Vec<char>) -> (r: String)
    ensures
        r@ == prefix@ + raw@ + "`"@,
{
    let mut out = chars_of(prefix);
    push_all(&mut out, raw);
    push_str(&mut out, "`");
    string_of(&out)
}

/// The syntax half of reading an `--idle` value: `<start>-<end>`, split at the
/// first `-`, each side trimmed and read as a signed integer.
pub fn idle_fields(value: &str) -> (r: Result<(i64, i64), String>)
    ensures
        match r {
            Ok(p) => idle_syntax(value@) == Ok::<(i64, i64), Seq<char>>(p),
            Err(m) => idle_syntax(value@) == Err::<(i64, i64), Seq<char>>(m@),
        },
{
    let cs = chars_of(value);
    let n = cs.len();
    let d = match find_dash(&cs) {
        Some(d) => d,
        None => {
            let m = quoted("expected <start>-<end> epoch seconds, got `", &cs);
            return Err(m);
        },
    };
    let a = sub_chars(&cs, 0, d);
    let b = sub_chars(&cs, d + 1, n);
    let s = match parse_i64(&trim_chars(&a)) {
        Some(s) => s,
        None => {
            return Err(quoted("start is not epoch seconds: `", &a));
        },
    };
    let e = match parse_i64(&trim_chars(&b)) {
        Some(e) => e,
        None => {
            return Err(quoted("end is not epoch seconds: `", &b));
        },
    };
    Ok((s, e))
}

/// What an `--idle` value reads as, given whether each epoch is an instant on
/// this machine's clock: the interval, or the message for the first thing wrong.
pub open spec fn idle_result(value: Seq<char>, start_ok: bool, end_ok: bool) -> Result<(i64, i64), Seq<char>> {
    match idle_syntax(value) {
        Err(m) => Err(m),
        Ok((s, e)) => {
            let (a, b) = idle_halves(value)->0;
            if !start_ok {
                Err("start is not a valid timestamp: `"@ + a + "`"@)
            } else if !end_ok {
                Err("end is not a valid timestamp: `"@ + b + "`"@)
            } else if e < s {
                Err("idle interval ends before it starts: `"@ + value + "`"@)
            } else {
                Ok((s, e))
            }
        },
    }
}

/// An `--idle` value checked against whether each epoch is an instant here.
pub fn check_idle(value: &str, start_ok: bool, end_ok: bool) -> (r: Result<IdleInterval, String>)
    ensures
        match r {
            Ok(iv) => idle_result(value@, start_ok, end_ok) == Ok::<(i64, i64), Seq<char>>((iv.start, iv.end)),
            Err(m) => idle_result(value@, start_ok, end_ok) == Err::<(i64, i64), Seq<char>>(m@),
        },
{
    let (s, e) = match idle_fields(value) {
        Ok(p) => p,
        Err(m) => {
            return Err(m);
        },
    };
    let cs = chars_of(value);
    let n = cs.len();
    let d = match find_dash(&cs) {
        Some(d) => d,
        None => {
            return Err(String::new());
        },
    };
    if !start_ok {
        let a = sub_chars(&cs, 0, d);
        return Err(quoted("start is not a valid timestamp: `", &a));
    }
    if !end_ok {
        let b = sub_chars(&cs, d + 1, n);
        return Err(quoted("end is not a valid timestamp: `", &b));
    }
    if e < s {
        return Err(quoted("idle interval ends before it starts: `", &cs));
    }
    Ok(IdleInterval::new(s, e))
}

/// What an `--idle` value reads as: its bounds checked as instants chrono can hold.
pub open spec fn idle_read(value: Seq<char>) -> Result<(i64, i64), Seq<char>> {
    match idle_syntax(value) {
        Ok((s, e)) => idle_result(value, crate::clock::in_range(s as int), crate::clock::in_range(e as int)),
        Err(m) => Err(m),
    }
}

/// Parse one `--idle` value: `<start>-<end>` in epoch seconds. A malformed value
/// is an error, never a silently dropped interval, and so is a bound chrono holds
/// no instant for.
pub fn parse_idle(value: &str) -> (r: Result<IdleInterval, String>)
    ensures
        match r {
            Ok(iv) => idle_read(value@) == Ok::<(i64, i64), Seq<char>>((iv.start, iv.end)),
            Err(m) => idle_read(value@) == Err::<(i64, i64), Seq<char>>(m@),
        },
{
    let (s, e) = match idle_fields(value) {
        Ok(p) => p,
        Err(m) => {
            return Err(m);
        },
    };
    let start_ok = crate::clock::local_instant(s);
    let end_ok = crate::clock::local_instant(e);
    let r = check_idle(value, start_ok, end_ok);
    assert(match r {
        Ok(iv) => idle_result(value@, start_ok, end_ok) == Ok::<(i64, i64), Seq<char>>((iv.start, iv.end)),
        Err(m) => idle_result(value@, start_ok, end_ok) == Err::<(i64, i64), Seq<char>>(m@),
    });
    r
}

// --- listing -----------------------------------------------------------------

/// A project for a single-line listing: ` (demo)`, or nothing when unset.
pub fn project_display(project: Option<&String>) -> (r: String)
    ensures
        r@ == match project {
            Some(p) => " ("@ + p@ + ")"@,
            None => seq![],
        },
{
    match project {
        Some(p) => {
            let mut out: Vec<char> = Vec::new();
            push_str(&mut out, " (");
            push_str(&mut out, p.as_str());
            push_str(&mut out, ")");
            string_of(&out)
        },
        None => String::new(),
    }
}

/// The tags for a one-line confirmation: ` [#a #b]`, or nothing without tags.
pub open spec fn tags_display_of(tags: Seq<Seq<char>>) -> Seq<char> {
    if tags.len() == 0 {
        seq![]
    } else {
        " ["@ + join(tags.map_values(|t: Seq<char>| seq!['#'] + t), ' ') + "]"@
    }
}

pub fn tags_display(tags: &Vec<String>) -> (r: String)
    ensures
        r@ == tags_display_of(views(tags@)),
{
    if tags.len() == 0 {
        return String::new();
    }
    let ghost shown = views(tags@).map_values(|t: Seq<char>| seq!['#'] + t);
    let mut out: Vec<char> = Vec::new();
    push_str(&mut out, " [");
    let ghost mark = out@;
    let mut i: usize = 0;
    while i < tags.len()
        invariant
            shown == views(tags@).map_values(|t: Seq<char>| seq!['#'] + t),
            i <= tags.len(),
            out@ == mark + join(shown.subrange(0, i as int), ' '),
        decreases tags.len() - i,
    {
        proof {
            assert(shown.subrange(0, i + 1).drop_last() =~= shown.subrange(0, i as int));
        }
        if i > 0 {
            out.push(' ');
        }
        out.push('#');
        let t = chars_of(tags[i].as_str());
        push_all(&mut out, &t);
        proof {
            if i == 0 {
                assert(shown.subrange(0, 1) =~= seq![shown[0]]);
            }
        }
        assert(out@ =~= mark + join(shown.subrange(0, i + 1), ' '));
        i += 1;
    }
    assert(shown.subrange(0, shown.len() as int) =~= shown);
    push_str(&mut out, "]");
    string_of(&out)
}

// --- store transactions --------------------------------------------------------

/// The tags of a logged entry: its own, then each extra one it does not already
/// carry, in order.
pub open spec fn distinct_tags(tags: Seq<Seq<char>>) -> Seq<Seq<char>>
    decreases tags.len(),
{
    if tags.len() == 0 {
        seq![]
    } else {
        let so_far = distinct_tags(tags.drop_last());
        if so_far.contains(tags.last()) {
            so_far
        } else {
            so_far.push(tags.last())
        }
    }
}

/// The description's tags and the `--tags` ones combined, in order of first
/// appearance, each once: duplicates are removed.
pub open spec fn merged_tags(tags: Seq<Seq<char>>, extra: Seq<Seq<char>>) -> Seq<Seq<char>> {
    distinct_tags(tags + extra)
}

/// Combining the description's tags with the `--tags` ones removes duplicates:
/// every tag of either list is kept, exactly once, and nothing else is added.
pub proof fn lemma_merged_tags_once(tags: Seq<Seq<char>>, extra: Seq<Seq<char>>)
    ensures
        forall|i: int, j: int|
            0 <= i < j < merged_tags(tags, extra).len() ==> #[trigger] merged_tags(tags, extra)[i] != #[trigger] merged_tags(tags, extra)[j],
        forall|t: Seq<char>| #[trigger] merged_tags(tags, extra).contains(t) <==> (tags + extra).contains(t),
{
    lemma_distinct_tags(tags + extra);
}

proof fn lemma_distinct_tags(s: Seq<Seq<char>>)
    ensures
        forall|i: int, j: int| 0 <= i < j < distinct_tags(s).len() ==> #[trigger] distinct_tags(s)[i] != #[trigger] distinct_tags(s)[j],
        forall|t: Seq<char>| #[trigger] distinct_tags(s).contains(t) <==> s.contains(t),
    decreases s.len(),
{
    if s.len() > 0 {
        let init = s.drop_last();
        lemma_distinct_tags(init);
        let so_far = distinct_tags(init);
        let x = s.last();
        assert forall|t: Seq<char>| s.contains(t) <==> init.contains(t) || t == x by {
            if s.contains(t) {
                let k = choose|k: int| 0 <= k < s.len() && s[k] == t;
                if k < s.len() - 1 {
                    assert(init[k] == t);
                }
            }
            if init.contains(t) {
                let k = choose|k: int| 0 <= k < init.len() && init[k] == t;
                assert(s[k] == t);
            }
            if t == x {
                assert(s[s.len() - 1] == t);
            }
        }
        if !so_far.contains(x) {
            let r = so_far.push(x);
            assert forall|t: Seq<char>| r.contains(t) <==> so_far.contains(t) || t == x by {
                if r.contains(t) {
                    let k = choose|k: int| 0 <= k < r.len() && r[k] == t;
                    if k < so_far.len() {
                        assert(so_far[k] == t);
                    }
                }
                if so_far.contains(t) {
                    let k = choose|k: int| 0 <= k < so_far.len() && so_far[k] == t;
                    assert(r[k] == t);
                }
                if t == x {
                    assert(r[r.len() - 1] == t);
                }
            }
            assert forall|i: int, j: int| 0 <= i < j < r.len() implies #[trigger] r[i] != #[trigger] r[j] by {
                if j == r.len() - 1 {
                    assert(r[i] == so_far[i]);
                    if r[i] == x {
                        assert(so_far.contains(x));
                    }
                } else {
                    assert(r[i] == so_far[i]);
                    assert(r[j] == so_far[j]);
                }
            }
        }
    }
}

fn contains_text(v: &Vec<String>, s: &String) -> (r: bool)
    ensures
        r == views(v@).contains(s@),
{
    let t = chars_of(s.as_str());
    let mut i: usize = 0;
    while i < v.len()
        invariant
            t@ == s@,
            i <= v.len(),
            forall|j: int| 0 <= j < i ==> views(v@)[j] != s@,
        decreases v.len() - i,
    {
        if chars_eq(&chars_of(v[i].as_str()), &t) {
            assert(views(v@)[i as int] == s@);
            return true;
        }
        i += 1;
    }
    false
}

fn add_distinct(out: &mut Vec<String>, t: String)
    ensures
        views(final(out)@) == if views(old(out)@).contains(t@) {
            views(old(out)@)
        } else {
            views(old(out)@).push(t@)
        },
{
    if !contains_text(out, &t) {
        proof {
            lemma_views_push(out@, t);
        }
        out.push(t);
    }
}

fn merge_tags(tags: Vec<String>, extra: Vec<String>) -> (r: Vec<String>)
    ensures
        views(r@) == merged_tags(views(tags@), views(extra@)),
{
    let ghost all = views(tags@) + views(extra@);
    let mut out: Vec<String> = Vec::new();
    let mut i: usize = 0;
    while i < tags.len()
        invariant
            i <= tags.len(),
            all == views(tags@) + views(extra@),
            views(out@) == distinct_tags(all.subrange(0, i as int)),
        decreases tags.len() - i,
    {
        assert(all.subrange(0, i + 1).drop_last() =~= all.subrange(0, i as int));
        assert(all.subrange(0, i + 1).last() == tags@[i as int]@);
        add_distinct(&mut out, tags[i].clone());
        i += 1;
    }
    let mut j: usize = 0;
    while j < extra.len()
        invariant
            j <= extra.len(),
            all == views(tags@) + views(extra@),
            views(out@) == distinct_tags(all.subrange(0, tags@.len() + j)),
        decreases extra.len() - j,
    {
        assert(all.subrange(0, tags@.len() + j + 1).drop_last() =~= all.subrange(0, tags@.len() + j));
        assert(all.subrange(0, tags@.len() + j + 1).last() == extra@[j as int]@);
        add_distinct(&mut out, extra[j].clone());
        j += 1;
    }
    assert(all.subrange(0, all.len() as int) =~= all);
    out
}

/// At most one entry is running: only one task can be active at a time.
pub open spec fn one_running(entries: Seq<TimeEntry>) -> bool {
    forall|i: int, j: int|
        0 <= i < j < entries.len() ==> !((#[trigger] entries[i]).end_time is None && (#[trigger] entries[j]).end_time is None)
}

/// `tt start`: begin a new running entry at `now` from the description's words,
/// unless one is already running, in which case nothing is written and that
/// entry's description and start come back.
pub fn start(data: &mut TimeData, description: &Vec<String>, project: Option<String>, now: i64) -> (r: Option<(String, i64)>)
    requires
        old(data).next_id < u64::MAX,
    ensures
        match first_active(old(data).entries@) {
            Some(k) => {
                &&& r matches Some((d, s))
                &&& d@ == old(data).entries@[k].description@
                &&& s == old(data).entries@[k].start_time
                &&& entry_views(final(data).entries@) == entry_views(old(data).entries@)
                &&& final(data).next_id == old(data).next_id
                &&& final(data).schema_version == old(data).schema_version
            },
            None => {
                let text = join(views(description@), ' ');
                &&& r is None
                &&& final(data).entries@.len() == old(data).entries@.len() + 1
                &&& forall|j: int| 0 <= j < old(data).entries@.len() ==> (#[trigger] final(data).entries@[j]) == old(data).entries@[j]
                &&& final(data).entries@.last()@ == (EntryView {
                    id: old(data).next_id,
                    description: join(plain_words(words(text)), ' '),
                    project: opt_string(project),
                    tags: tag_names(words(text)),
                    start_time: now,
                    end_time: None,
                    idle: seq![],
                    data: None,
                })
                &&& final(data).next_id == old(data).next_id + 1
                &&& final(data).schema_version == old(data).schema_version
            },
        },
        one_running(old(data).entries@) ==> one_running(final(data).entries@),
{
    proof {
        crate::tracker::lemma_first_active(data.entries@);
    }
    match data.active_entry() {
        Some(active) => {
            return Some((active.description.clone(), active.start_time));
        },
        None => {},
    }
    let mut raw: Vec<char> = Vec::new();
    let mut i: usize = 0;
    while i < description.len()
        invariant
            i <= description.len(),
            raw@ == join(views(description@).subrange(0, i as int), ' '),
        decreases description.len() - i,
    {
        proof {
            assert(views(description@).subrange(0, i + 1).drop_last() =~= views(description@).subrange(0, i as int));
            if i == 0 {
                assert(views(description@).subrange(0, 1) =~= seq![description@[0]@]);
            }
        }
        if i > 0 {
            raw.push(' ');
        }
        let w = chars_of(description[i].as_str());
        push_all(&mut raw, &w);
        assert(raw@ =~= join(views(description@).subrange(0, i + 1), ' '));
        i += 1;
    }
    assert(views(description@).subrange(0, description@.len() as int) =~= views(description@));
    let text = string_of(&raw);
    let (desc, tags) = parse_tags(text.as_str());
    data.add_entry(desc, project, tags, now, None);
    None
}

/// `tt stop`: end the running entry at `now`, giving back its description and
/// its length in seconds; nothing when none runs.
pub fn stop(data: &mut TimeData, now: i64) -> (r: Option<(String, i128)>)
    ensures
        match first_active(old(data).entries@) {
            Some(k) => {
                &&& r matches Some((d, secs))
                &&& d@ == old(data).entries@[k].description@
                &&& secs == now - old(data).entries@[k].start_time
                &&& final(data).entries@.len() == old(data).entries@.len()
                &&& final(data).entries@[k]@ == (EntryView { end_time: Some(now), ..old(data).entries@[k]@ })
                &&& forall|j: int| 0 <= j < old(data).entries@.len() && j != k ==> (#[trigger] final(data).entries@[j])@ == old(data).entries@[j]@
            },
            None => r is None && entry_views(final(data).entries@) == entry_views(old(data).entries@),
        },
        final(data).next_id == old(data).next_id,
        final(data).schema_version == old(data).schema_version,
        one_running(old(data).entries@) ==> forall|j: int|
            0 <= j < final(data).entries@.len() ==> (#[trigger] final(data).entries@[j]).end_time is Some,
{
    proof {
        crate::tracker::lemma_first_active(data.entries@);
    }
    let info = match data.active_entry() {
        Some(e) => Some((e.description.clone(), e.duration_at(now))),
        None => None,
    };
    let ghost before = data.entries@;
    data.stop_active_at(now);
    proof {
        if one_running(before) {
            assert forall|j: int| 0 <= j < data.entries@.len() implies (#[trigger] data.entries@[j]).end_time is Some by {
                match first_active(before) {
                    Some(k) => {
                        if j != k {
                            assert(data.entries@[j]@ == before[j]@);
                            if before[j].end_time is None {
                                if j < k {
                                } else {
                                    assert(!(before[k].end_time is None && before[j].end_time is None));
                                }
                            }
                        } else {
                            assert(data.entries@[k]@.end_time == Some(now));
                        }
                    },
                    None => {
                        assert(entry_views(data.entries@)[j] == entry_views(before)[j]);
                    },
                }
            }
        }
    }
    info
}

/// What a trim right after a `tt log` needs: the entry the split finds under the
/// new id (an older one carrying it, or else the new one) must not end before it
/// starts, and there must be room for a fresh id and an entry per piece.
pub open spec fn log_trim_fits(data: TimeData, idle_len: int) -> bool {
    match index_of(data.entries@, data.next_id) {
        Some(k) => {
            &&& (match data.entries@[k].end_time {
                Some(e) => data.entries@[k].start_time <= e,
                None => true,
            })
            &&& data.next_id as int + data.entries@[k].idle@.len() + 2 <= u64::MAX
            &&& data.entries@.len() + data.entries@[k].idle@.len() + 2 <= usize::MAX
        },
        None => {
            &&& data.next_id as int + idle_len + 2 <= u64::MAX
            &&& data.entries@.len() + idle_len + 2 <= usize::MAX
        },
    }
}

/// Whether a trim right after a `tt log` has what it needs; see [`log_trim_fits`].
pub fn log_trim_ok(data: &TimeData, idle_len: usize) -> (r: bool)
    ensures
        r == log_trim_fits(*data, idle_len as int),
{
    let id = data.next_id;
    let mut i: usize = 0;
    while i < data.entries.len()
        invariant
            i <= data.entries.len(),
            id == data.next_id,
            index_of(data.entries@.subrange(0, i as int), id) is None,
        decreases data.entries.len() - i,
    {
        assert(data.entries@.subrange(0, i + 1).drop_last() =~= data.entries@.subrange(0, i as int));
        if data.entries[i].id == id {
            proof {
                lemma_index_of_at(data.entries@, id, i as int);
            }
            let e = &data.entries[i];
            let span_ok = match e.end_time {
                Some(end) => e.start_time <= end,
                None => true,
            };
            let n = e.idle.len();
            return span_ok && (id as u128) + (n as u128) + 2 <= u64::MAX as u128 && (data.entries.len() as u128) + (n as u128) + 2 <= usize::MAX as u128;
        }
        i += 1;
    }
    assert(data.entries@.subrange(0, data.entries@.len() as int) =~= data.entries@);
    (id as u128) + (idle_len as u128) + 2 <= u64::MAX as u128 && (data.entries.len() as u128) + (idle_len as u128) + 2 <= usize::MAX as u128
}

proof fn lemma_index_of_at(entries: Seq<TimeEntry>, id: u64, i: int)
    requires
        0 <= i < entries.len(),
        index_of(entries.subrange(0, i), id) is None,
        entries[i].id == id,
    ensures
        index_of(entries, id) == Some(i),
    decreases entries.len() - i,
{
    if i + 1 == entries.len() {
        assert(entries.drop_last() =~= entries.subrange(0, i));
    } else {
        assert(entries.drop_last().subrange(0, i) =~= entries.subrange(0, i));
        lemma_index_of_at(entries.drop_last(), id, i);
    }
}

proof fn lemma_index_of_range(entries: Seq<TimeEntry>, id: u64)
    ensures
        match index_of(entries, id) {
            Some(k) => 0 <= k < entries.len() && entries[k].id == id,
            None => true,
        },
    decreases entries.len(),
{
    if entries.len() > 0 {
        lemma_index_of_range(entries.drop_last(), id);
    }
}

/// What `tt log` writes before any trim: one entry from `start` to `end` with the
/// description's tags (extra ones appended when missing) and the idle stretches.
pub open spec fn logged_entry(
    id: u64,
    description: Seq<char>,
    extra: Seq<Seq<char>>,
    project: Option<Seq<char>>,
    idle: Seq<IdleInterval>,
    start: i64,
    end: i64,
) -> EntryView {
    EntryView {
        id,
        description: join(plain_words(words(description)), ' '),
        project,
        tags: merged_tags(tag_names(words(description)), extra),
        start_time: start,
        end_time: Some(end),
        idle,
        data: None,
    }
}

/// The seconds one `tt log` leaves in the store: the pieces of the entry a trim
/// split, or the whole span when nothing was split.
pub open spec fn stored_seconds(mid: TimeData, id: u64, trim: bool, start: i64, end: i64) -> int {
    if trim && splits(mid.entries@, id) {
        let t = mid.entries@[index_of(mid.entries@, id)->0];
        spans_total(pieces_of(t.idle@, t.start_time, t.end_time->0))
    } else {
        end - start
    }
}

/// `tt log`: record a finished entry from `start` to `end` carrying its idle
/// stretches, and with `trim` split it at them in the same transaction. The id it
/// took comes back, with the description and tags it was logged with and the
/// seconds the store now holds for it, which the confirmation reports.
pub fn log_in(
    data: &mut TimeData,
    description: &str,
    extra_tags: Vec<String>,
    project: Option<String>,
    idle: Vec<IdleInterval>,
    trim: bool,
    start: i64,
    end: i64,
    entry_data: Option<Json>,
) -> (r: (u64, String, Vec<String>, i128))
    requires
        old(data).next_id < u64::MAX,
        start <= end,
        trim ==> log_trim_fits(*old(data), idle@.len() as int),
    ensures
        r.0 == old(data).next_id,
        r.1@ == join(plain_words(words(description@)), ' '),
        views(r.2@) == merged_tags(tag_names(words(description@)), views(extra_tags@)),
        exists|mid: TimeData| {
            &&& #[trigger] mid.entries@.len() == old(data).entries@.len() + 1
            &&& forall|j: int| 0 <= j < old(data).entries@.len() ==> (#[trigger] mid.entries@[j])@ == old(data).entries@[j]@
            &&& mid.entries@.last()@ == (EntryView {
                data: data_view(entry_data),
                ..logged_entry(
                    old(data).next_id,
                    description@,
                    views(extra_tags@),
                    opt_string(project),
                    idle@,
                    start,
                    end,
                )
            })
            &&& mid.next_id == old(data).next_id + 1
            &&& mid.schema_version == old(data).schema_version
            &&& (!trim ==> entry_views(final(data).entries@) == entry_views(mid.entries@) && final(data).next_id
                == mid.next_id && final(data).schema_version == mid.schema_version)
            &&& (trim ==> exists|ids: Seq<u64>| split_done(mid, *final(data), old(data).next_id, ids))
            &&& r.3 == stored_seconds(mid, old(data).next_id, trim, start, end)
        },
{
    let (desc, tags) = parse_tags(description);
    let tags = merge_tags(tags, extra_tags);
    let desc_out = desc.clone();
    let tags_out = crate::tracker::copy_strings(&tags);
    let id = data.next_id;
    let ghost before = *data;
    data.add_entry(desc, project, tags, start, Some(end));
    let last = data.entries.len() - 1;
    let e = &data.entries[last];
    let with_idle = TimeEntry {
        id: e.id,
        description: e.description.clone(),
        project: crate::tracker::copy_opt(&e.project),
        tags: crate::tracker::copy_strings(&e.tags),
        start_time: e.start_time,
        end_time: e.end_time,
        idle,
        data: entry_data,
    };
    data.entries.set(last, with_idle);
    let ghost mid = *data;
    let mut stored: i128 = (end as i128) - (start as i128);
    assert(mid.entries@.last()@ == (EntryView {
        data: data_view(entry_data),
        ..logged_entry(id, description@, views(extra_tags@), opt_string(project), idle@, start, end)
    }));
    if trim {
        proof {
            assert(mid.entries@ =~= before.entries@.push(mid.entries@.last()));
            assert(mid.entries@.drop_last() =~= before.entries@);
            match index_of(before.entries@, id) {
                Some(k) => {
                    lemma_index_of_range(before.entries@, id);
                    assert(mid.entries@[k] == before.entries@[k]);
                },
                None => {},
            }
        }
        let found = find_index(&data.entries, id);
        let n = data.entries.len();
        let ids = data.split_at_idle(id);
        assert(split_done(mid, *data, id, ids@));
        if ids.len() > 0 {
            if let Some(k) = found {
                let ghost t = mid.entries@[k as int];
                let ghost pieces = pieces_of(t.idle@, t.start_time, t.end_time->0);
                proof {
                    lemma_pieces_cover_span_less_holes(t.idle@, t.start_time, t.end_time->0);
                    lemma_holes_total_nonneg(holes_of(t.idle@, t.start_time, t.end_time->0), t.start_time, t.end_time->0);
                    lemma_complement_ordered(holes_of(t.idle@, t.start_time, t.end_time->0), t.start_time, t.end_time->0);
                    assert forall|j: int| 1 <= j < pieces.len() implies (#[trigger] data.entries@[n + j - 1]).start_time == pieces[j].0
                        && data.entries@[n + j - 1].end_time == Some(pieces[j].1) by {
                        assert(ids@[j] == mid.next_id + j - 1);
                    }
                }
                stored = split_seconds(data, k, n, ids.len(), Ghost(pieces));
            }
        }
    }
    (id, desc_out, tags_out, stored)
}

/// The seconds the pieces of a split hold, read back from the store: the first in
/// place at `k`, the rest appended after the `n` entries the store had.
fn split_seconds(data: &TimeData, k: usize, n: usize, count: usize, Ghost(pieces): Ghost<Seq<(i64, i64)>>) -> (r: i128)
    requires
        k < n,
        count == pieces.len(),
        1 <= pieces.len(),
        n + pieces.len() - 1 <= data.entries@.len(),
        data.entries@[k as int].start_time == pieces[0].0,
        data.entries@[k as int].end_time == Some(pieces[0].1),
        forall|j: int|
            1 <= j < pieces.len() ==> (#[trigger] data.entries@[n + j - 1]).start_time == pieces[j].0
                && data.entries@[n + j - 1].end_time == Some(pieces[j].1),
        forall|j: int| 0 <= j < pieces.len() ==> (#[trigger] pieces[j]).0 <= pieces[j].1,
        spans_total(pieces) <= u64::MAX,
    ensures
        r == spans_total(pieces),
{
    let mut total: i128 = match data.entries[k].end_time {
        Some(e) => (e as i128) - (data.entries[k].start_time as i128),
        None => 0,
    };
    proof {
        assert(pieces.subrange(0, 1).drop_first() =~= Seq::<(i64, i64)>::empty());
        assert(spans_total(Seq::<(i64, i64)>::empty()) == 0);
        lemma_spans_total_split(pieces, 1);
        lemma_spans_total_nonneg(pieces.subrange(1, pieces.len() as int));
    }
    let len = data.entries.len();
    let mut j: usize = 1;
    while j < count
        invariant
            len == data.entries@.len(),
            1 <= j <= pieces.len(),
            k < n,
            count == pieces.len(),
            n + pieces.len() - 1 <= data.entries@.len(),
            forall|i: int|
                1 <= i < pieces.len() ==> (#[trigger] data.entries@[n + i - 1]).start_time == pieces[i].0
                    && data.entries@[n + i - 1].end_time == Some(pieces[i].1),
            forall|i: int| 0 <= i < pieces.len() ==> (#[trigger] pieces[i]).0 <= pieces[i].1,
            spans_total(pieces) <= u64::MAX,
            total == spans_total(pieces.subrange(0, j as int)),
            0 <= total <= spans_total(pieces),
        decreases pieces.len() - j,
    {
        let e = &data.entries[n + (j - 1)];
        let piece: i128 = match e.end_time {
            Some(end) => (end as i128) - (e.start_time as i128),
            None => 0,
        };
        proof {
            assert(data.entries@[n + j - 1].start_time == pieces[j as int].0);
            let p = seq![pieces[j as int]];
            assert(p.drop_first() =~= Seq::<(i64, i64)>::empty());
            assert(spans_total(Seq::<(i64, i64)>::empty()) == 0);
            assert(pieces.subrange(0, j + 1) =~= pieces.subrange(0, j as int) + p);
            lemma_spans_total_concat(pieces.subrange(0, j as int), p);
            lemma_spans_total_split(pieces, j + 1);
            assert(forall|i: int| 0 <= i < pieces.subrange(j + 1, pieces.len() as int).len() ==>
                #[trigger] pieces.subrange(j + 1, pieces.len() as int)[i] == pieces[j + 1 + i]);
            lemma_spans_total_nonneg(pieces.subrange(j + 1, pieces.len() as int));
        }
        total = total + piece;
        j += 1;
    }
    assert(pieces.subrange(0, pieces.len() as int) =~= pieces);
    total
}

proof fn lemma_spans_total_split(s: Seq<(i64, i64)>, j: int)
    requires
        0 <= j <= s.len(),
    ensures
        spans_total(s) == spans_total(s.subrange(0, j)) + spans_total(s.subrange(j, s.len() as int)),
{
    assert(s =~= s.subrange(0, j) + s.subrange(j, s.len() as int));
    lemma_spans_total_concat(s.subrange(0, j), s.subrange(j, s.len() as int));
}

proof fn lemma_spans_total_nonneg(s: Seq<(i64, i64)>)
    requires
        forall|i: int| 0 <= i < s.len() ==> (#[trigger] s[i]).0 <= s[i].1,
    ensures
        spans_total(s) >= 0,
    decreases s.len(),
{
    if s.len() > 0 {
        assert forall|i: int| 0 <= i < s.drop_first().len() implies (#[trigger] s.drop_first()[i]).0 <= s.drop_first()[i].1 by {
            assert(s.drop_first()[i] == s[i + 1]);
        }
        lemma_spans_total_nonneg(s.drop_first());
    }
}

} // verus!
