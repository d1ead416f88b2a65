//! The agent layer's open phase marks: one file per phase at
//! `<mark dir>/<project>.<issue>.<phase>[.<agent>]` holding a unix-seconds start,
//! heartbeats in `beats/<key>`, an unfinished close in `closing/<key>`. Each
//! segment is sanitised on its own, so a key holds exactly the dots that join it.
//!
//! Everything here is the files' *meaning*: key building and reading back, beat
//! lines, what a phase measures, and when a mark stops vouching. The reads and
//! writes themselves belong to the binary.

use vstd::prelude::*;
use crate::clock::{clock_or_unknown, clock_text, in_range, representable};
use crate::text::{
    all_digits, chars_eq, chars_eq_ignore_ascii_case, chars_of, chars_order, digit_char, eq_ignore_ascii_case,
    int_text, is_digit, lemma_views_push, lines, lines_of, parse_i64, parsed_i64, push_all, push_i64,
    push_str, sanitise, sanitise_chars, seq_lt, split_chars, split_on, string_of, trim, trim_chars, views,
    words, words_of,
};

verus! {

/// One open phase mark; `start` is unix seconds.
#[derive(Clone, Debug)]
pub struct Mark {
    pub project: String,
    /// `None` when the mark was made with the no-issue sentinel `-`.
    pub issue: Option<String>,
    pub phase: String,
    /// `None` for a mark with no `--agent` label.
    pub agent: Option<String>,
    pub start: i64,
}

/// The segments that address one mark. `issue` carries the `-` sentinel literally;
/// `agent` is the optional fourth key segment.
#[derive(Clone, Copy, Debug)]
pub struct MarkRef<'a> {
    pub project: &'a str,
    pub issue: &'a str,
    pub phase: &'a str,
    pub agent: Option<&'a str>,
}

pub open spec fn opt_str(o: Option<&str>) -> Option<Seq<char>> {
    match o {
        Some(s) => Some(s@),
        None => None,
    }
}

pub open spec fn opt_string(o: Option<String>) -> Option<Seq<char>> {
    match o {
        Some(s) => Some(s@),
        None => None,
    }
}

pub open spec fn dash() -> Seq<char> {
    seq!['-']
}

/// The file name of a mark: each segment sanitised, joined with `.`.
pub open spec fn key_of(
    project: Seq<char>,
    issue: Seq<char>,
    phase: Seq<char>,
    agent: Option<Seq<char>>,
) -> Seq<char> {
    let base = sanitise(project) + seq!['.'] + sanitise(issue) + seq!['.'] + sanitise(phase);
    match agent {
        Some(a) => base + seq!['.'] + sanitise(a),
        None => base,
    }
}

/// The segments a mark is addressed by: its issue, or the `-` sentinel.
pub open spec fn mark_segments(mark: Mark) -> (Seq<char>, Seq<char>, Seq<char>, Option<Seq<char>>) {
    (
        mark.project@,
        match mark.issue {
            Some(i) => i@,
            None => dash(),
        },
        mark.phase@,
        opt_string(mark.agent),
    )
}

/// An issue segment read back: the `-` sentinel is no issue.
pub open spec fn issue_of(raw: Seq<char>) -> Option<Seq<char>> {
    if raw == dash() {
        None
    } else {
        Some(raw)
    }
}

pub open spec fn join(parts: Seq<Seq<char>>, sep: char) -> Seq<char>
    decreases parts.len(),
{
    if parts.len() == 0 {
        seq![]
    } else if parts.len() == 1 {
        parts[0]
    } else {
        join(parts.drop_last(), sep) + seq![sep] + parts.last()
    }
}

/// A mark file name split back into `(project, issue, phase, agent)`. Three or
/// four segments are a key; two are an issue-less `<project>.<phase>`; more
/// fall back to the first and the last dot; none make the whole name the project.
pub open spec fn split_spec(name: Seq<char>) -> (
    Seq<char>,
    Option<Seq<char>>,
    Seq<char>,
    Option<Seq<char>>,
) {
    let seg = split_on(name, '.');
    if seg.len() == 2 {
        (seg[0], None, seg[1], None)
    } else if seg.len() == 3 {
        (seg[0], issue_of(seg[1]), seg[2], None)
    } else if seg.len() == 4 {
        (seg[0], issue_of(seg[1]), seg[2], Some(seg[3]))
    } else if seg.len() >= 5 {
        (seg[0], issue_of(join(seg.subrange(1, seg.len() - 1), '.')), seg.last(), None)
    } else {
        (name, None, seq![], None)
    }
}

impl MarkRef<'_> {
    /// The `<project> <issue> <phase> [--agent <label>]` words that address this
    /// mark on a `tt agent` command line.
    pub fn args(&self) -> (r: String)
        ensures
            r@ == args_of(self.project@, self.issue@, self.phase@, opt_str(self.agent)),
    {
        let mut out: Vec<char> = Vec::new();
        push_str(&mut out, self.project);
        out.push(' ');
        push_str(&mut out, self.issue);
        out.push(' ');
        push_str(&mut out, self.phase);
        match self.agent {
            Some(agent) => {
                push_str(&mut out, " --agent ");
                push_str(&mut out, agent);
            },
            None => {},
        }
        string_of(&out)
    }
}

pub open spec fn args_of(
    project: Seq<char>,
    issue: Seq<char>,
    phase: Seq<char>,
    agent: Option<Seq<char>>,
) -> Seq<char> {
    let base = project + seq![' '] + issue + seq![' '] + phase;
    match agent {
        Some(a) => base + " --agent "@ + a,
        None => base,
    }
}

/// The sanitised file name for one mark: `<project>.<issue>.<phase>`, plus
/// `.<agent>` when labelled, with the `-` sentinel written literally.
pub fn mark_key(mark: MarkRef) -> (r: String)
    ensures
        r@ == key_of(mark.project@, mark.issue@, mark.phase@, opt_str(mark.agent)),
{
    let out = key_chars(mark);
    string_of(&out)
}

fn key_chars(mark: MarkRef) -> (r: Vec<char>)
    ensures
        r@ == key_of(mark.project@, mark.issue@, mark.phase@, opt_str(mark.agent)),
{
    let mut out = sanitise_chars(&chars_of(mark.project));
    out.push('.');
    push_all(&mut out, &sanitise_chars(&chars_of(mark.issue)));
    out.push('.');
    push_all(&mut out, &sanitise_chars(&chars_of(mark.phase)));
    match mark.agent {
        Some(agent) => {
            out.push('.');
            push_all(&mut out, &sanitise_chars(&chars_of(agent)));
        },
        None => {},
    }
    out
}

/// Where a mark file lives inside `dir`.
pub fn mark_path(dir: &str, key: &str) -> (r: String)
    ensures
        r@ == dir@ + seq!['/'] + key@,
{
    let mut out = chars_of(dir);
    out.push('/');
    push_str(&mut out, key);
    string_of(&out)
}

/// The heartbeat file for `key` inside `dir`: a `beats/` **subdirectory**, never
/// a `<mark>.<suffix>` sibling.
pub fn beats_path(dir: &str, key: &str) -> (r: String)
    ensures
        r@ == dir@ + "/beats/"@ + key@,
{
    let mut out = chars_of(dir);
    push_str(&mut out, "/beats/");
    push_str(&mut out, key);
    string_of(&out)
}

/// The in-progress-close sentinel for `key` inside `dir`: a `closing/`
/// **subdirectory** entry, so the mark listing's file-type filter skips it.
pub fn closing_path(dir: &str, key: &str) -> (r: String)
    ensures
        r@ == dir@ + "/closing/"@ + key@,
{
    let mut out = chars_of(dir);
    push_str(&mut out, "/closing/");
    push_str(&mut out, key);
    string_of(&out)
}

/// The files one mark is kept in, in the order `cancel` removes them: its beats,
/// the mark itself, its closing sentinel.
pub open spec fn cancel_paths(dir: Seq<char>, mark: MarkRef) -> Seq<Seq<char>> {
    let key = key_of(mark.project@, mark.issue@, mark.phase@, opt_str(mark.agent));
    seq![dir + "/beats/"@ + key, dir + seq!['/'] + key, dir + "/closing/"@ + key]
}

/// `cancel` names three different files, and the sentinel it removes is the one
/// the close writes and `is_closing_in` looks for: once `cancel` has removed its
/// three paths, the mark, its beats and its sentinel are all gone, and a second
/// `cancel` names the same three again.
pub proof fn lemma_cancel_names_three_files(dir: Seq<char>, mark: MarkRef)
    ensures
        cancel_paths(dir, mark).len() == 3,
        cancel_paths(dir, mark)[0] != cancel_paths(dir, mark)[1],
        cancel_paths(dir, mark)[0] != cancel_paths(dir, mark)[2],
        cancel_paths(dir, mark)[1] != cancel_paths(dir, mark)[2],
{
    reveal_strlit("/beats/");
    reveal_strlit("/closing/");
    let key = key_of(mark.project@, mark.issue@, mark.phase@, opt_str(mark.agent));
    let p = cancel_paths(dir, mark);
    assert(p[0].len() == dir.len() + 7 + key.len());
    assert(p[1].len() == dir.len() + 1 + key.len());
    assert(p[2].len() == dir.len() + 9 + key.len());
}

/// The paths `cancel` removes, in the order it removes them: **beats first**, or a
/// failure part-way leaves beats a later phase would read back as its own; then
/// the mark; then the close sentinel.
pub fn cancel_in(dir: &str, mark: MarkRef) -> (r: Vec<String>)
    ensures
        r@.len() == 3,
        r@[0]@ == dir@ + "/beats/"@ + key_of(mark.project@, mark.issue@, mark.phase@, opt_str(mark.agent)),
        r@[1]@ == dir@ + seq!['/'] + key_of(mark.project@, mark.issue@, mark.phase@, opt_str(mark.agent)),
        r@[2]@ == dir@ + "/closing/"@ + key_of(mark.project@, mark.issue@, mark.phase@, opt_str(mark.agent)),
{
    let key = mark_key(mark);
    let mut out: Vec<String> = Vec::new();
    out.push(beats_path(dir, key.as_str()));
    out.push(mark_path(dir, key.as_str()));
    out.push(closing_path(dir, key.as_str()));
    out
}

/// Where to look for an unfinished close of one phase.
pub fn is_closing_in(dir: &str, mark: MarkRef) -> (r: String)
    ensures
        r@ == dir@ + "/closing/"@ + key_of(mark.project@, mark.issue@, mark.phase@, opt_str(mark.agent)),
        r@ == cancel_paths(dir@, mark)[2],
{
    let key = mark_key(mark);
    closing_path(dir, key.as_str())
}

fn opt_of(v: Vec<char>) -> (r: Option<String>)
    ensures
        opt_string(r) == issue_of(v@),
{
    if v.len() == 1 && v[0] == '-' {
        assert(v@ =~= dash());
        None
    } else {
        proof {
            if v@ == dash() {
                assert(v@.len() == 1);
            }
        }
        Some(string_of(&v))
    }
}

fn join_chars(parts: &Vec<Vec<char>>, from: usize, to: usize, sep: char) -> (r: Vec<char>)
    requires
        1 <= from < to <= parts.len(),
    ensures
        r@ == join(parts@.subrange(from as int, to as int).map_values(|p: Vec<char>| p@), sep),
{
    let mut out: Vec<char> = Vec::new();
    push_all(&mut out, &parts[from]);
    let mut i = from + 1;
    assert(parts@.subrange(from as int, from + 1).map_values(|p: Vec<char>| p@) =~= seq![
        parts@[from as int]@,
    ]);
    while i < to
        invariant
            from < i <= to,
            to <= parts.len(),
            out@ == join(parts@.subrange(from as int, i as int).map_values(|p: Vec<char>| p@), sep),
        decreases to - i,
    {
        out.push(sep);
        push_all(&mut out, &parts[i]);
        let ghost prev = parts@.subrange(from as int, i as int).map_values(|p: Vec<char>| p@);
        let ghost next = parts@.subrange(from as int, i + 1).map_values(|p: Vec<char>| p@);
        assert(next.drop_last() =~= prev);
        assert(next.last() == parts@[i as int]@);
        i += 1;
    }
    out
}

/// Split a mark file name back into its segments.
pub fn split_key(name: &str) -> (r: (String, Option<String>, String, Option<String>))
    ensures
        (r.0@, opt_string(r.1), r.2@, opt_string(r.3)) == split_spec(name@),
{
    let cs = chars_of(name);
    let seg = split_chars(&cs, '.');
    let ghost spec_seg = split_on(name@, '.');
    let n = seg.len();
    if n == 2 {
        (string_of(&seg[0]), None, string_of(&seg[1]), None)
    } else if n == 3 {
        (string_of(&seg[0]), opt_of(seg[1].clone()), string_of(&seg[2]), None)
    } else if n == 4 {
        (string_of(&seg[0]), opt_of(seg[1].clone()), string_of(&seg[2]), Some(string_of(&seg[3])))
    } else if n >= 5 {
        let mid = join_chars(&seg, 1, n - 1, '.');
        assert(seg@.subrange(1, n - 1).map_values(|p: Vec<char>| p@) =~= spec_seg.subrange(
            1,
            spec_seg.len() - 1,
        ));
        (string_of(&seg[0]), opt_of(mid), string_of(&seg[n - 1]), None)
    } else {
        (String::from_str(name), None, String::new(), None)
    }
}

impl Mark {
    /// The segments that address this mark, with the `-` sentinel for a missing issue.
    pub fn as_key(&self) -> (r: MarkRef<'_>)
        ensures
            (r.project@, r.issue@, r.phase@, opt_str(r.agent)) == mark_segments(*self),
    {
        let issue: &str = match &self.issue {
            Some(i) => i.as_str(),
            None => "-",
        };
        proof {
            if self.issue.is_none() {
                reveal_strlit("-");
                assert(issue@ =~= dash());
            }
        }
        let agent: Option<&str> = match &self.agent {
            Some(a) => Some(a.as_str()),
            None => None,
        };
        MarkRef { project: self.project.as_str(), issue, phase: self.phase.as_str(), agent }
    }

    /// `project/issue phase:agent`, dropping the `/issue` for the `-` sentinel and
    /// the `:agent` for an unlabelled mark; a mark with no phase is its subject alone.
    pub fn label(&self) -> (r: String)
        ensures
            r@ == label_of(*self),
    {
        let mut out = chars_of(self.project.as_str());
        match &self.issue {
            Some(issue) => {
                out.push('/');
                push_str(&mut out, issue.as_str());
            },
            None => {},
        }
        if self.phase.as_str().unicode_len() == 0 {
            return string_of(&out);
        }
        out.push(' ');
        push_str(&mut out, self.phase.as_str());
        match &self.agent {
            Some(agent) => {
                out.push(':');
                push_str(&mut out, agent.as_str());
            },
            None => {},
        }
        string_of(&out)
    }
}

pub open spec fn subject_of(mark: Mark) -> Seq<char> {
    match mark.issue {
        Some(issue) => mark.project@ + seq!['/'] + issue@,
        None => mark.project@,
    }
}

pub open spec fn label_of(mark: Mark) -> Seq<char> {
    if mark.phase@.len() == 0 {
        subject_of(mark)
    } else {
        match mark.agent {
            Some(agent) => subject_of(mark) + seq![' '] + mark.phase@ + seq![':'] + agent@,
            None => subject_of(mark) + seq![' '] + mark.phase@,
        }
    }
}

/// Whether a command can address this mark: its segments survive [`mark_key`] and
/// [`split_key`] unchanged, or `end` and `cancel` build a key naming no file.
pub open spec fn closable_spec(mark: Mark) -> bool {
    let (p, i, ph, a) = mark_segments(mark);
    split_spec(key_of(p, i, ph, a)) == (mark.project@, opt_string(mark.issue), mark.phase@, opt_string(
        mark.agent,
    ))
}

fn opt_eq(a: &Option<String>, b: &Option<String>) -> (r: bool)
    ensures
        r == (opt_string(*a) == opt_string(*b)),
{
    match (a, b) {
        (Some(x), Some(y)) => {
            let r = chars_eq(&chars_of(x.as_str()), &chars_of(y.as_str()));
            r
        },
        (None, None) => true,
        _ => false,
    }
}

pub fn closable(mark: &Mark) -> (r: bool)
    ensures
        r == closable_spec(*mark),
{
    let key = mark_key(mark.as_key());
    let (p, i, ph, a) = split_key(key.as_str());
    chars_eq(&chars_of(p.as_str()), &chars_of(mark.project.as_str())) && opt_eq(&i, &mark.issue)
        && chars_eq(&chars_of(ph.as_str()), &chars_of(mark.phase.as_str())) && opt_eq(
        &a,
        &mark.agent,
    )
}

pub open spec fn raw_name_of(mark: Mark) -> Seq<char> {
    let (p, i, ph, a) = mark_segments(mark);
    match a {
        Some(agent) => p + seq!['.'] + i + seq!['.'] + ph + seq!['.'] + agent,
        None => p + seq!['.'] + i + seq!['.'] + ph,
    }
}

pub open spec fn remove_by_hand_of(mark: Mark) -> Seq<char> {
    let (p, i, ph, a) = mark_segments(mark);
    raw_name_of(mark) + " cannot be closed — log it with tt agent item "@ + p + seq![' '] + i
        + seq![' '] + ph + " \"<summary>\" <minutes> and remove the file by hand"@
}

/// The one line offered for a mark [`closable`] rejects: what to log and which
/// file to delete, carrying the project token as every mark line does.
pub fn remove_by_hand(mark: &Mark) -> (r: String)
    ensures
        r@ == remove_by_hand_of(*mark),
{
    let key = mark.as_key();
    let mut out = chars_of(key.project);
    out.push('.');
    push_str(&mut out, key.issue);
    out.push('.');
    push_str(&mut out, key.phase);
    match key.agent {
        Some(agent) => {
            out.push('.');
            push_str(&mut out, agent);
        },
        None => {},
    }
    push_str(&mut out, " cannot be closed — log it with tt agent item ");
    push_str(&mut out, key.project);
    out.push(' ');
    push_str(&mut out, key.issue);
    out.push(' ');
    push_str(&mut out, key.phase);
    push_str(&mut out, " \"<summary>\" <minutes> and remove the file by hand");
    string_of(&out)
}

/// The notes for the marks no command can close, in listing order.
pub open spec fn unclosable_notes(marks: Seq<Mark>) -> Seq<Seq<char>>
    decreases marks.len(),
{
    if marks.len() == 0 {
        seq![]
    } else if !closable_spec(marks.last()) {
        unclosable_notes(marks.drop_last()).push(remove_by_hand_of(marks.last()))
    } else {
        unclosable_notes(marks.drop_last())
    }
}

/// Every mark no command can close, as its own note, in order.
pub fn unclosable_in(marks: &Vec<Mark>) -> (r: Vec<String>)
    ensures
        views(r@) == unclosable_notes(marks@),
{
    let mut out: Vec<String> = Vec::new();
    let mut i: usize = 0;
    while i < marks.len()
        invariant
            i <= marks.len(),
            views(out@) == unclosable_notes(marks@.subrange(0, i as int)),
        decreases marks.len() - i,
    {
        assert(marks@.subrange(0, i + 1).drop_last() =~= marks@.subrange(0, i as int));
        if !closable(&marks[i]) {
            let note = remove_by_hand(&marks[i]);
            proof {
                lemma_views_push(out@, note);
            }
            out.push(note);
        }
        i += 1;
    }
    assert(marks@.subrange(0, marks@.len() as int) =~= marks@);
    out
}

// --- projects ----------------------------------------------------------------

/// Whether two project names name the same project: whole sanitised segments,
/// compared case-insensitively. Sanitisation is not injective, so `my proj` and a
/// real `my_proj` cannot be told apart here.
pub open spec fn same_project_spec(a: Seq<char>, b: Seq<char>) -> bool {
    eq_ignore_ascii_case(sanitise(a), sanitise(b))
}

pub fn same_project(a: &str, b: &str) -> (r: bool)
    ensures
        r == same_project_spec(a@, b@),
{
    chars_eq_ignore_ascii_case(&sanitise_chars(&chars_of(a)), &sanitise_chars(&chars_of(b)))
}

/// Whether `project` owns `mark`.
pub fn owned_by(mark: &Mark, project: &str) -> (r: bool)
    ensures
        r == same_project_spec(mark.project@, project@),
{
    same_project(mark.project.as_str(), project)
}

pub open spec fn key_of_mark(m: Mark) -> Seq<char> {
    let (p, i, ph, a) = mark_segments(m);
    key_of(p, i, ph, a)
}

/// The keys of the marks `project` owns, in listing order.
pub open spec fn owned_keys(marks: Seq<Mark>, project: Seq<char>) -> Seq<Seq<char>>
    decreases marks.len(),
{
    if marks.len() == 0 {
        seq![]
    } else if same_project_spec(marks.last().project@, project) {
        owned_keys(marks.drop_last(), project).push(key_of_mark(marks.last()))
    } else {
        owned_keys(marks.drop_last(), project)
    }
}

/// The keys of the open marks `project` owns, in listing order.
pub fn owned_mark_keys(marks: &Vec<Mark>, project: &str) -> (r: Vec<String>)
    ensures
        views(r@) == owned_keys(marks@, project@),
{
    let mut out: Vec<String> = Vec::new();
    let mut i: usize = 0;
    while i < marks.len()
        invariant
            i <= marks.len(),
            views(out@) == owned_keys(marks@.subrange(0, i as int), project@),
        decreases marks.len() - i,
    {
        assert(marks@.subrange(0, i + 1).drop_last() =~= marks@.subrange(0, i as int));
        if owned_by(&marks[i], project) {
            let key = mark_key(marks[i].as_key());
            proof {
                lemma_views_push(out@, key);
            }
            out.push(key);
        }
        i += 1;
    }
    assert(marks@.subrange(0, marks@.len() as int) =~= marks@);
    out
}

/// What a hook's beat for `project` writes, given the open marks: for every mark
/// the project owns, in listing order, its beats file under `dir` and one line
/// `<now> hook`, tagged and never bare. No mark file is named, and no other beats
/// file.
pub fn touch_project_in(dir: &str, marks: &Vec<Mark>, project: &str, now: i64) -> (r: Vec<(String, String)>)
    ensures
        r@.len() == owned_keys(marks@, project@).len(),
        forall|k: int| 0 <= k < r@.len() ==> (#[trigger] r@[k]).0@ == dir@ + "/beats/"@ + owned_keys(marks@, project@)[k]
            && r@[k].1@ == beat_line_of(now as int, Some("hook"@)),
{
    let keys = owned_mark_keys(marks, project);
    let mut out: Vec<(String, String)> = Vec::new();
    let mut i: usize = 0;
    while i < keys.len()
        invariant
            views(keys@) == owned_keys(marks@, project@),
            i <= keys@.len(),
            out@.len() == i,
            forall|k: int| 0 <= k < i ==> (#[trigger] out@[k]).0@ == dir@ + "/beats/"@ + owned_keys(marks@, project@)[k]
                && out@[k].1@ == beat_line_of(now as int, Some("hook"@)),
        decreases keys@.len() - i,
    {
        assert(views(keys@)[i as int] == keys@[i as int]@);
        let path = beats_path(dir, keys[i].as_str());
        let line = beat_line(now, Some("hook"));
        out.push((path, line));
        i += 1;
    }
    out
}

// --- what `end` measures --------------------------------------------------

/// Every stretch of silence longer than `threshold` whole minutes, as the walk
/// over `start, beats…, end` finds it from `prev` on. A beat that does not advance
/// the sequence, or sits at or past `end`, is skipped without advancing `prev`.
pub open spec fn gaps_from(prev: int, end: int, beats: Seq<i64>, threshold: int) -> Seq<(i64, i64)>
    decreases beats.len(),
{
    if beats.len() == 0 {
        if end > prev && (end - prev) / 60 > threshold {
            seq![(prev as i64, end as i64)]
        } else {
            seq![]
        }
    } else {
        let beat = beats[0] as int;
        if beat <= prev || beat >= end {
            gaps_from(prev, end, beats.drop_first(), threshold)
        } else if (beat - prev) / 60 > threshold {
            seq![(prev as i64, beat as i64)] + gaps_from(beat, end, beats.drop_first(), threshold)
        } else {
            gaps_from(beat, end, beats.drop_first(), threshold)
        }
    }
}

/// Beats that never go back in time.
pub open spec fn beats_ascend(beats: Seq<i64>) -> bool {
    forall|i: int, j: int| 0 <= i < j < beats.len() ==> beats[i] <= beats[j]
}

/// Each silence reported over ascending beats lies inside `prev .. end`, runs
/// longer than the threshold in whole minutes, holds no beat strictly inside it,
/// and comes after the one before it.
pub proof fn lemma_gaps_are_long_silences(prev: int, end: int, beats: Seq<i64>, threshold: int)
    requires
        beats_ascend(beats),
        i64::MIN <= prev <= i64::MAX,
        i64::MIN <= end <= i64::MAX,
    ensures
        forall|g: int|
            0 <= g < gaps_from(prev, end, beats, threshold).len() ==> {
                let gap = #[trigger] gaps_from(prev, end, beats, threshold)[g];
                &&& prev <= gap.0 < gap.1 <= end
                &&& (gap.1 - gap.0) / 60 > threshold
                &&& forall|k: int| 0 <= k < beats.len() ==> !(gap.0 < #[trigger] beats[k] < gap.1)
            },
        forall|g: int, h: int|
            0 <= g < h < gaps_from(prev, end, beats, threshold).len() ==> #[trigger] gaps_from(prev, end, beats, threshold)[g].1
                <= #[trigger] gaps_from(prev, end, beats, threshold)[h].0,
    decreases beats.len(),
{
    let gs = gaps_from(prev, end, beats, threshold);
    if beats.len() > 0 {
        let rest = beats.drop_first();
        let beat = beats[0] as int;
        assert forall|i: int, j: int| 0 <= i < j < rest.len() implies rest[i] <= rest[j] by {
            assert(rest[i] == beats[i + 1] && rest[j] == beats[j + 1]);
        }
        assert forall|k: int| 0 <= k < rest.len() implies beat <= #[trigger] rest[k] by {
            assert(rest[k] == beats[k + 1]);
        }
        if beat <= prev || beat >= end {
            lemma_gaps_are_long_silences(prev, end, rest, threshold);
            let tail = gaps_from(prev, end, rest, threshold);
            assert(gs == tail);
            assert forall|g: int| 0 <= g < gs.len() implies forall|k: int| 0 <= k < beats.len() ==> !((#[trigger] gs[g]).0 < #[trigger] beats[k] < gs[g].1) by {
                assert forall|k: int| 0 <= k < beats.len() implies !(gs[g].0 < #[trigger] beats[k] < gs[g].1) by {
                    if k > 0 {
                        assert(beats[k] == rest[k - 1]);
                    }
                }
            }
        } else {
            lemma_gaps_are_long_silences(beat, end, rest, threshold);
            let tail = gaps_from(beat, end, rest, threshold);
            let head: Seq<(i64, i64)> = if (beat - prev) / 60 > threshold {
                seq![(prev as i64, beat as i64)]
            } else {
                seq![]
            };
            assert(gs == head + tail);
            assert forall|g: int| 0 <= g < gs.len() implies {
                let gap = #[trigger] gs[g];
                &&& prev <= gap.0 < gap.1 <= end
                &&& (gap.1 - gap.0) / 60 > threshold
                &&& forall|k: int| 0 <= k < beats.len() ==> !(gap.0 < #[trigger] beats[k] < gap.1)
            } by {
                if g < head.len() {
                    assert(gs[g] == (prev as i64, beat as i64));
                    assert forall|k: int| 0 <= k < beats.len() implies !(gs[g].0 < #[trigger] beats[k] < gs[g].1) by {
                        if k > 0 {
                            assert(beats[k] == rest[k - 1]);
                        }
                    }
                } else {
                    assert(gs[g] == tail[g - head.len()]);
                    assert forall|k: int| 0 <= k < beats.len() implies !(gs[g].0 < #[trigger] beats[k] < gs[g].1) by {
                        if k > 0 {
                            assert(beats[k] == rest[k - 1]);
                        }
                    }
                }
            }
            assert forall|g: int, h: int| 0 <= g < h < gs.len() implies #[trigger] gs[g].1 <= #[trigger] gs[h].0 by {
                if g < head.len() {
                    assert(gs[h] == tail[h - head.len()]);
                } else {
                    assert(gs[g] == tail[g - head.len()] && gs[h] == tail[h - head.len()]);
                }
            }
        }
    }
}

/// Every stretch of silence longer than `threshold_minutes`, as chronological
/// `(from, to)` epoch pairs. The sequence judged is `start, beats…, end`, so a
/// phase with no beats is one stretch across its whole span. The test is
/// **integer-floor minutes, strictly greater**.
pub fn gaps_over(start: i64, end: i64, beats: &[i64], threshold_minutes: i64) -> (r: Vec<(i64, i64)>)
    ensures
        r@ == gaps_from(start as int, end as int, beats@, threshold_minutes as int),
{
    let mut gaps: Vec<(i64, i64)> = Vec::new();
    let mut prev = start;
    let mut i: usize = 0;
    assert(beats@.skip(0) =~= beats@);
    while i < beats.len()
        invariant
            i <= beats.len(),
            gaps@ + gaps_from(prev as int, end as int, beats@.skip(i as int), threshold_minutes as int)
                == gaps_from(start as int, end as int, beats@, threshold_minutes as int),
        decreases beats.len() - i,
    {
        let beat = beats[i];
        let ghost rest = beats@.skip(i as int);
        assert(rest.drop_first() =~= beats@.skip(i + 1));
        assert(rest[0] == beat);
        if beat <= prev || beat >= end {
        } else {
            if ((beat as i128) - (prev as i128)) / 60 > threshold_minutes as i128 {
                let ghost before = gaps@;
                gaps.push((prev, beat));
                assert(gaps@ + gaps_from(beat as int, end as int, beats@.skip(i + 1), threshold_minutes as int)
                    =~= before + (seq![(prev, beat)] + gaps_from(beat as int, end as int, beats@.skip(i + 1), threshold_minutes as int)));
            }
            prev = beat;
        }
        i += 1;
    }
    assert(beats@.skip(i as int) =~= Seq::<i64>::empty());
    if end > prev && ((end as i128) - (prev as i128)) / 60 > threshold_minutes as i128 {
        gaps.push((prev, end));
    } else {
        assert(gaps@ + seq![] =~= gaps@);
    }
    gaps
}

// --- leases ------------------------------------------------------------------

/// The pair of silences `tt agent end` and the audit judge by, in minutes. `gap`
/// bounds a silence around a bare beat; `unvouched` is the whole-span grace for a
/// phase the model never vouched for.
#[derive(Clone, Copy, Debug)]
pub struct Thresholds {
    pub gap: i64,
    pub unvouched: i64,
}

/// The largest threshold, in minutes, that `chrono::TimeDelta::minutes` accepts.
pub open spec fn max_threshold() -> int {
    153_722_867_280_912
}

/// A bound past every instant chrono can represent.
pub open spec fn max_epoch() -> int {
    200_000_000_000_000
}

pub open spec fn thresholds_ok(t: Thresholds) -> bool {
    -max_threshold() <= t.gap <= max_threshold() && -max_threshold() <= t.unvouched
        <= max_threshold()
}

pub open spec fn epoch_ok(t: int) -> bool {
    -max_epoch() <= t <= max_epoch()
}

/// One open mark plus the instant it was last seen.
#[derive(Clone, Debug)]
pub struct Lease {
    pub mark: Mark,
    /// The beats file's **last** line's timestamp whatever tag follows it.
    pub last_seen: Option<i64>,
    /// Whether the file holds any bare line: an automatic beat is presence, not work.
    pub vouched: bool,
}

/// The **first** instant a lease no longer vouches: `last_seen + gap`, or
/// `mark.start + unvouched` when it never beat, plus the one minute the
/// floor-minutes-and-strictly-greater rule adds.
pub open spec fn expiry(lease: Lease, t: Thresholds) -> int {
    match lease.last_seen {
        Some(seen) => seen + (t.gap + 1) * 60,
        None => lease.mark.start + (t.unvouched + 1) * 60,
    }
}

proof fn lemma_minutes_over(x: int, m: int)
    ensures
        x / 60 > m <==> x >= (m + 1) * 60,
{
    vstd::arithmetic::div_mod::lemma_fundamental_div_mod(x, 60);
    let q = x / 60;
    assert(x / 60 > m <==> x >= (m + 1) * 60) by (nonlinear_arith)
        requires
            x == 60 * q + x % 60,
            0 <= x % 60 < 60,
            q == x / 60,
    ;
}

/// A lease has run out exactly when the silence since its last sign of life, in
/// whole minutes, is more than its allowance: the gap after its last beat, or,
/// for a mark that never beat, the unvouched allowance after its start.
pub proof fn lemma_expiry_is_whole_minutes_over(lease: Lease, t: Thresholds, now: int)
    ensures
        now >= expiry(lease, t) <==> match lease.last_seen {
            Some(seen) => (now - seen) / 60 > t.gap,
            None => (now - lease.mark.start) / 60 > t.unvouched,
        },
{
    match lease.last_seen {
        Some(seen) => lemma_minutes_over(now - seen, t.gap as int),
        None => lemma_minutes_over(now - lease.mark.start, t.unvouched as int),
    }
}

pub open spec fn lease_ok(lease: Lease) -> bool {
    epoch_ok(lease.mark.start as int) && match lease.last_seen {
        Some(seen) => epoch_ok(seen as int),
        None => true,
    }
}

impl Lease {
    pub fn expires_at(&self, thresholds: Thresholds) -> (r: i64)
        requires
            thresholds_ok(thresholds),
            lease_ok(*self),
        ensures
            r == expiry(*self, thresholds),
    {
        match self.last_seen {
            Some(seen) => seen + (thresholds.gap + 1) * 60,
            None => self.mark.start + (thresholds.unvouched + 1) * 60,
        }
    }

    /// Whether the lease has run out by `now`: the one boundary the coverage bound
    /// and the `[stale]` marker share.
    pub fn is_expired_at(&self, now: i64, thresholds: Thresholds) -> (r: bool)
        requires
            thresholds_ok(thresholds),
            lease_ok(*self),
        ensures
            r == (now >= expiry(*self, thresholds)),
    {
        now >= self.expires_at(thresholds)
    }

    /// The `tt agent end` line that logs this mark's work and clears it, or
    /// [`remove_by_hand`]'s note for a mark no command can address. `--trim` only
    /// for a phase the model vouched for.
    pub fn close_command(&self) -> (r: String)
        ensures
            r@ == close_command_of(*self),
    {
        if !closable(&self.mark) {
            return remove_by_hand(&self.mark);
        }
        let key = self.mark.as_key();
        let mut out: Vec<char> = Vec::new();
        push_str(&mut out, "tt agent end ");
        let args = key.args();
        push_str(&mut out, args.as_str());
        push_str(&mut out, " \"<summary>\" ");
        if self.vouched {
            push_str(&mut out, "--trim");
        } else {
            push_str(&mut out, "<minutes>");
        }
        string_of(&out)
    }
}

pub open spec fn close_command_of(lease: Lease) -> Seq<char> {
    if !closable_spec(lease.mark) {
        remove_by_hand_of(lease.mark)
    } else {
        let (p, i, ph, a) = mark_segments(lease.mark);
        "tt agent end "@ + args_of(p, i, ph, a) + " \"<summary>\" "@ + (if lease.vouched {
            "--trim"@
        } else {
            "<minutes>"@
        })
    }
}

/// The chronological, separated, inside-the-span shape of a gap list.
pub open spec fn gaps_well_formed(g: Seq<(i64, i64)>, lo: int, hi: int, threshold: int) -> bool {
    &&& forall|k: int|
        0 <= k < g.len() ==> lo <= (#[trigger] g[k]).0 < g[k].1 <= hi && (g[k].1 - g[k].0) / 60
            > threshold
    &&& forall|j: int, k: int| 0 <= j < k < g.len() ==> (#[trigger] g[j]).1 <= (#[trigger] g[k]).0
}

/// Every gap `gaps_over` reports lies inside the judged span, is longer than the
/// threshold in whole minutes, and the gaps come back in chronological order
/// without overlapping.
pub proof fn lemma_gaps_well_formed(start: i64, end: i64, beats: Seq<i64>, threshold: i64)
    ensures
        gaps_well_formed(gaps_from(start as int, end as int, beats, threshold as int), start as int, end as int, threshold as int),
{
    lemma_gaps_from_well_formed(start as int, end as int, beats, threshold as int);
}

proof fn lemma_gaps_from_well_formed(prev: int, end: int, beats: Seq<i64>, threshold: int)
    requires
        i64::MIN <= prev <= i64::MAX,
        i64::MIN <= end <= i64::MAX,
    ensures
        gaps_well_formed(gaps_from(prev, end, beats, threshold), prev, end, threshold),
    decreases beats.len(),
{
    if beats.len() > 0 {
        let beat = beats[0] as int;
        let rest = beats.drop_first();
        if beat <= prev || beat >= end {
            lemma_gaps_from_well_formed(prev, end, rest, threshold);
        } else {
            lemma_gaps_from_well_formed(beat, end, rest, threshold);
            let tail = gaps_from(beat, end, rest, threshold);
            if (beat - prev) / 60 > threshold {
                let g = seq![(prev as i64, beat as i64)] + tail;
                assert forall|j: int, k: int| 0 <= j < k < g.len() implies (#[trigger] g[j]).1 <= (
                #[trigger] g[k]).0 by {
                    if j > 0 {
                        assert(g[j] == tail[j - 1]);
                    }
                    assert(g[k] == tail[k - 1]);
                }
                assert forall|k: int| 0 <= k < g.len() implies prev <= (#[trigger] g[k]).0 < g[k].1
                    <= end && (g[k].1 - g[k].0) / 60 > threshold by {
                    if k > 0 {
                        assert(g[k] == tail[k - 1]);
                    }
                }
            }
        }
    }
}


// --- beats -------------------------------------------------------------------

/// What [`touch_in`] did: recorded a heartbeat, or refused for want of a mark.
#[derive(Clone, Copy, Debug, PartialEq, Eq, Structural)]
pub enum Touch {
    Recorded,
    /// No mark file for this phase, so no beats file is written either.
    NoMark,
}

/// What `begin` found: a mark it created at a start, one already open (with the
/// start its file holds, if readable), or an unfinished close that refuses it.
#[derive(Debug, PartialEq, Eq, Structural)]
pub enum Begin {
    Created(i64),
    AlreadyOpen(Option<i64>),
    Closing,
}

/// What `begin` writes once no close stands in the way: the mark file, created
/// only if absent, holding `<now>`, and the beats file a part-way cancel may have
/// left, to clear after the create.
pub struct BeginWrite {
    pub mark: String,
    pub line: String,
    pub stale_beats: String,
}

/// `begin`'s first decision: with the phase's closing sentinel present it opens
/// nothing (`None`, to report `Begin::Closing`); otherwise what to create.
pub fn begin_in(dir: &str, mark: MarkRef, closing: bool, now: i64) -> (r: Option<BeginWrite>)
    ensures
        closing ==> r is None,
        !closing ==> (r matches Some(w) && w.mark@ == cancel_paths(dir@, mark)[1] && w.stale_beats@ == cancel_paths(dir@, mark)[0]
            && w.line@ == int_text(now as int) + seq!['\n']),
{
    if closing {
        return None;
    }
    let key = mark_key(mark);
    let mut line: Vec<char> = Vec::new();
    push_i64(&mut line, now);
    line.push('\n');
    Some(BeginWrite { mark: mark_path(dir, key.as_str()), line: string_of(&line), stale_beats: beats_path(dir, key.as_str()) })
}

/// What `begin` reports: a mark it created starts `now`; one already there keeps
/// the start its file holds, never rewritten; a closing sentinel refuses.
pub fn begin_outcome(closing: bool, created: bool, existing: &str, now: i64) -> (r: Begin)
    ensures
        r == if closing {
            Begin::Closing
        } else if created {
            Begin::Created(now)
        } else {
            Begin::AlreadyOpen(start_spec(existing@))
        },
{
    if closing {
        Begin::Closing
    } else if created {
        Begin::Created(now)
    } else {
        Begin::AlreadyOpen(start_of(existing))
    }
}

/// One line of a beats file: `<epoch>` bare, or `<epoch> <tag>`.
pub open spec fn beat_line_of(now: int, tag: Option<Seq<char>>) -> Seq<char> {
    match tag {
        Some(t) => int_text(now) + seq![' '] + t + seq!['\n'],
        None => int_text(now) + seq!['\n'],
    }
}

/// The one writer of a beat line: bare for a `touch`, tagged for an automatic
/// beat. Only a bare line anchors what `end` bills.
pub fn beat_line(now: i64, tag: Option<&str>) -> (r: String)
    ensures
        r@ == beat_line_of(now as int, opt_str(tag)),
{
    let mut out: Vec<char> = Vec::new();
    push_i64(&mut out, now);
    match tag {
        Some(t) => {
            out.push(' ');
            push_str(&mut out, t);
        },
        None => {},
    }
    out.push('\n');
    string_of(&out)
}

/// One heartbeat for a phase that is already marked: the beats file to append to
/// and the bare line to append. A phase nobody began (`marked` false) records
/// nothing at all.
pub fn touch_in(dir: &str, mark: MarkRef, marked: bool, now: i64) -> (r: (Touch, Option<(String, String)>))
    ensures
        marked ==> r.0 == Touch::Recorded,
        marked ==> (r.1 matches Some((path, line)) && path@ == dir@ + "/beats/"@ + key_of(
            mark.project@,
            mark.issue@,
            mark.phase@,
            opt_str(mark.agent),
        ) && line@ == beat_line_of(now as int, None)),
        !marked ==> r.0 == Touch::NoMark && r.1 is None,
{
    if !marked {
        return (Touch::NoMark, None);
    }
    let key = mark_key(mark);
    (Touch::Recorded, Some((beats_path(dir, key.as_str()), beat_line(now, None))))
}

/// A line's leading whitespace-delimited field read as a bare timestamp.
pub open spec fn beat_of_spec(line: Seq<char>) -> Option<i64> {
    let ws = words(line);
    if ws.len() > 0 && all_digits(ws[0]) {
        parsed_i64(ws[0])
    } else {
        None
    }
}

fn all_digit_chars(s: &Vec<char>) -> (r: bool)
    ensures
        r == all_digits(s@),
{
    if s.len() == 0 {
        return false;
    }
    let mut i: usize = 0;
    while i < s.len()
        invariant
            i <= s.len(),
            forall|j: int| 0 <= j < i ==> is_digit(#[trigger] s@[j]),
        decreases s.len() - i,
    {
        if !digit_char(s[i]) {
            return false;
        }
        i += 1;
    }
    true
}

/// A line's leading whitespace-delimited field as a bare timestamp, or `None`.
pub fn beat_of(line: &Vec<char>) -> (r: Option<i64>)
    ensures
        r == beat_of_spec(line@),
{
    let ws = words_of(line);
    if ws.len() == 0 {
        return None;
    }
    if !all_digit_chars(&ws[0]) {
        return None;
    }
    parse_i64(&ws[0])
}

/// The bare beats among the lines, in file order: whole lines of digits that
/// fit an `i64`. A tagged beat is presence, not work.
pub open spec fn bare_beats_of(ls: Seq<Seq<char>>) -> Seq<i64>
    decreases ls.len(),
{
    if ls.len() == 0 {
        seq![]
    } else {
        let rest = bare_beats_of(ls.drop_last());
        let l = ls.last();
        if all_digits(l) && parsed_i64(l) is Some {
            rest.push(parsed_i64(l)->0)
        } else {
            rest
        }
    }
}

/// One marked phase as `end` needs it read back, all in unix seconds.
#[derive(Debug)]
pub struct Phase {
    pub started: i64,
    /// Every **bare** heartbeat, **in file order**; a hook-beaten phase reads back
    /// as a beat-less one. Never sorted or deduplicated: [`gaps_over`] judges that.
    pub beats: Vec<i64>,
}

/// A marked phase read back from its start and its beats file's text; no beats
/// file reads as an empty one.
pub fn phase_of(started: i64, beats_body: &str) -> (r: Phase)
    ensures
        r.started == started,
        r.beats@ == bare_beats_of(lines(beats_body@)),
{
    let cs = chars_of(beats_body);
    let ls = lines_of(&cs);
    let ghost all = lines(beats_body@);
    let mut beats: Vec<i64> = Vec::new();
    let mut i: usize = 0;
    while i < ls.len()
        invariant
            cs@ == beats_body@,
            all == lines(beats_body@),
            ls@.len() == all.len(),
            forall|j: int| 0 <= j < ls@.len() ==> (#[trigger] ls@[j])@ == all[j],
            i <= ls.len(),
            beats@ == bare_beats_of(all.subrange(0, i as int)),
        decreases ls.len() - i,
    {
        assert(all.subrange(0, i + 1).drop_last() =~= all.subrange(0, i as int));
        if all_digit_chars(&ls[i]) {
            match parse_i64(&ls[i]) {
                Some(v) => beats.push(v),
                None => {},
            }
        }
        i += 1;
    }
    assert(all.subrange(0, all.len() as int) =~= all);
    Phase { started, beats }
}

/// The instant a mark file holds: its trimmed text parsed as a signed integer
/// that chrono can place.
pub open spec fn start_spec(contents: Seq<char>) -> Option<i64> {
    match parsed_i64(trim(contents)) {
        Some(s) => if in_range(s as int) {
            Some(s)
        } else {
            None
        },
        None => None,
    }
}

/// The instant a mark file holds, or `None`: the one place its body is read.
pub fn start_of(contents: &str) -> (r: Option<i64>)
    ensures
        r == start_spec(contents@),
        r matches Some(s) ==> epoch_ok(s as int),
{
    let t = trim_chars(&chars_of(contents));
    match parse_i64(&t) {
        Some(s) => if representable(s) {
            Some(s)
        } else {
            None
        },
        None => None,
    }
}

/// Whether any line of a beats file is bare.
pub open spec fn vouched_spec(ls: Seq<Seq<char>>) -> bool {
    exists|i: int| 0 <= i < ls.len() && all_digits(#[trigger] ls[i])
}

/// The last line's timestamp whatever tag follows it, when chrono can place it.
pub open spec fn last_seen_spec(ls: Seq<Seq<char>>) -> Option<i64> {
    if ls.len() == 0 {
        None
    } else {
        match beat_of_spec(ls.last()) {
            Some(t) => if in_range(t as int) {
                Some(t)
            } else {
                None
            },
            None => None,
        }
    }
}

/// One mark paired with what its beats file says: the **last** line's timestamp
/// (never the largest beat) and whether any line is bare.
pub fn lease_of(mark: Mark, beats_body: &str) -> (r: Lease)
    ensures
        r.mark == mark,
        r.last_seen == last_seen_spec(lines(beats_body@)),
        r.last_seen matches Some(t) ==> epoch_ok(t as int),
        r.vouched == vouched_spec(lines(beats_body@)),
{
    let cs = chars_of(beats_body);
    let ls = lines_of(&cs);
    let ghost all = lines(beats_body@);
    let last_seen = if ls.len() == 0 {
        None
    } else {
        match beat_of(&ls[ls.len() - 1]) {
            Some(t) => if representable(t) {
                Some(t)
            } else {
                None
            },
            None => None,
        }
    };
    let mut vouched = false;
    let mut i: usize = 0;
    while i < ls.len()
        invariant
            ls@.len() == all.len(),
            forall|j: int| 0 <= j < ls@.len() ==> (#[trigger] ls@[j])@ == all[j],
            i <= ls.len(),
            vouched == exists|j: int| 0 <= j < i && all_digits(#[trigger] all[j]),
        decreases ls.len() - i,
    {
        if all_digit_chars(&ls[i]) {
            vouched = true;
        }
        assert(all[i as int] == ls@[i as int]@);
        i += 1;
    }
    Lease { mark, last_seen, vouched }
}

/// A mark as the contracts read it.
pub struct MarkView {
    pub project: Seq<char>,
    pub issue: Option<Seq<char>>,
    pub phase: Seq<char>,
    pub agent: Option<Seq<char>>,
    pub start: i64,
}

impl View for Mark {
    type V = MarkView;

    open spec fn view(&self) -> MarkView {
        MarkView {
            project: self.project@,
            issue: opt_string(self.issue),
            phase: self.phase@,
            agent: opt_string(self.agent),
            start: self.start,
        }
    }
}

pub open spec fn mark_views(marks: Seq<Mark>) -> Seq<MarkView> {
    marks.map_values(|m: Mark| m@)
}

pub open spec fn opt_lt(a: Option<Seq<char>>, b: Option<Seq<char>>) -> bool {
    match (a, b) {
        (None, Some(_)) => true,
        (Some(x), Some(y)) => seq_lt(x, y),
        _ => false,
    }
}

/// Whether `a` lists before `b`: newer first, then by project, issue, phase and
/// label, a missing issue or label before any present one.
pub open spec fn lists_before(a: MarkView, b: MarkView) -> bool {
    if a.start != b.start {
        a.start > b.start
    } else if a.project != b.project {
        seq_lt(a.project, b.project)
    } else if a.issue != b.issue {
        opt_lt(a.issue, b.issue)
    } else if a.phase != b.phase {
        seq_lt(a.phase, b.phase)
    } else {
        opt_lt(a.agent, b.agent)
    }
}

/// How many leading marks `m` does not list before.
pub open spec fn listed_prefix(sorted: Seq<MarkView>, m: MarkView) -> nat
    decreases sorted.len(),
{
    if sorted.len() == 0 {
        0
    } else if !lists_before(m, sorted[0]) {
        1 + listed_prefix(sorted.drop_first(), m)
    } else {
        0
    }
}

/// The marks in listing order, equal ones keeping their order: a stable sort.
pub open spec fn listing_order(marks: Seq<MarkView>) -> Seq<MarkView>
    decreases marks.len(),
{
    if marks.len() == 0 {
        seq![]
    } else {
        let sorted = listing_order(marks.drop_last());
        let k = listed_prefix(sorted, marks.last()) as int;
        sorted.subrange(0, k) + seq![marks.last()] + sorted.subrange(k, sorted.len() as int)
    }
}

fn opt_before(a: &Option<String>, b: &Option<String>) -> (r: bool)
    ensures
        r == opt_lt(opt_string(*a), opt_string(*b)),
{
    match (a, b) {
        (None, Some(_)) => true,
        (Some(x), Some(y)) => chars_order(&chars_of(x.as_str()), &chars_of(y.as_str())) < 0,
        _ => false,
    }
}

fn mark_lists_before(a: &Mark, b: &Mark) -> (r: bool)
    ensures
        r == lists_before(a@, b@),
{
    if a.start != b.start {
        return a.start > b.start;
    }
    let ap = chars_of(a.project.as_str());
    let bp = chars_of(b.project.as_str());
    let o = chars_order(&ap, &bp);
    proof {
        crate::text::lemma_seq_lt_total(ap@, bp@);
    }
    if o != 0 {
        return o < 0;
    }
    if !opt_eq(&a.issue, &b.issue) {
        return opt_before(&a.issue, &b.issue);
    }
    let aph = chars_of(a.phase.as_str());
    let bph = chars_of(b.phase.as_str());
    let o = chars_order(&aph, &bph);
    proof {
        crate::text::lemma_seq_lt_total(aph@, bph@);
    }
    if o != 0 {
        return o < 0;
    }
    opt_before(&a.agent, &b.agent)
}

/// The marks sorted for listing: newest first, ties by name.
pub fn sort_for_listing(marks: Vec<Mark>) -> (r: Vec<Mark>)
    ensures
        mark_views(r@) == listing_order(mark_views(marks@)),
        (forall|i: int| 0 <= i < marks@.len() ==> epoch_ok((#[trigger] marks@[i]).start as int)) ==> (forall|i: int|
            0 <= i < r@.len() ==> epoch_ok((#[trigger] r@[i]).start as int)),
{
    let ghost all_ok = forall|i: int| 0 <= i < marks@.len() ==> epoch_ok((#[trigger] marks@[i]).start as int);
    let mut sorted: Vec<Mark> = Vec::new();
    let mut rest = marks;
    let ghost all = mark_views(rest@);
    let mut i: usize = 0;
    let n = rest.len();
    while i < n
        invariant
            i <= n,
            n == all.len(),
            rest@.len() == n - i,
            mark_views(rest@) == all.subrange(i as int, n as int),
            mark_views(sorted@) == listing_order(all.subrange(0, i as int)),
            all_ok ==> forall|j: int| 0 <= j < rest@.len() ==> epoch_ok((#[trigger] rest@[j]).start as int),
            all_ok ==> forall|j: int| 0 <= j < sorted@.len() ==> epoch_ok((#[trigger] sorted@[j]).start as int),
        decreases n - i,
    {
        assert(all.subrange(0, i + 1).drop_last() =~= all.subrange(0, i as int));
        let ghost rest_before = rest@;
        let m = rest.remove(0);
        assert(mark_views(rest_before)[0] == m@);
        assert(m@ == all[i as int]);
        assert(mark_views(rest@) =~= all.subrange(i + 1, n as int)) by {
            assert(mark_views(rest@) =~= mark_views(rest_before).drop_first());
        }
        let ghost sv = mark_views(sorted@);
        let mut k: usize = 0;
        assert(sv.subrange(0, sv.len() as int) =~= sv);
        while k < sorted.len() && !mark_lists_before(&m, &sorted[k])
            invariant
                sv == mark_views(sorted@),
                k <= sorted.len(),
                listed_prefix(sv, m@) == k + listed_prefix(sv.subrange(k as int, sv.len() as int), m@),
            decreases sorted.len() - k,
        {
            let ghost tail = sv.subrange(k as int, sv.len() as int);
            assert(tail.drop_first() =~= sv.subrange(k + 1, sv.len() as int));
            assert(tail[0] == sorted@[k as int]@);
            k += 1;
        }
        proof {
            let tail = sv.subrange(k as int, sv.len() as int);
            if k < sorted.len() {
                assert(tail[0] == sorted@[k as int]@);
            }
            assert(listed_prefix(tail, m@) == 0);
        }
        let ghost before = sorted@;
        sorted.insert(k, m);
        proof {
            if all_ok {
                assert(epoch_ok(m.start as int));
                assert forall|j: int| 0 <= j < sorted@.len() implies epoch_ok((#[trigger] sorted@[j]).start as int) by {
                    if j < k {
                        assert(sorted@[j] == before[j]);
                    } else if j > k {
                        assert(sorted@[j] == before[j - 1]);
                    }
                }
                assert forall|j: int| 0 <= j < rest@.len() implies epoch_ok((#[trigger] rest@[j]).start as int) by {
                    assert(rest@[j] == rest_before[j + 1]);
                }
            }
        }
        assert(mark_views(sorted@) =~= sv.subrange(0, k as int) + seq![all[i as int]] + sv.subrange(
            k as int,
            sv.len() as int,
        ));
        i += 1;
    }
    assert(all.subrange(0, n as int) =~= all);
    sorted
}

/// The marks a directory listing holds, from `(file name, contents)` pairs in
/// directory order: a file whose contents are no timestamp is skipped, never fatal.
pub open spec fn marks_of(files: Seq<(Seq<char>, Seq<char>)>) -> Seq<MarkView>
    decreases files.len(),
{
    if files.len() == 0 {
        seq![]
    } else {
        let rest = marks_of(files.drop_last());
        let (name, contents) = files.last();
        match start_spec(contents) {
            Some(start) => {
                let (p, i, ph, a) = split_spec(name);
                rest.push(MarkView { project: p, issue: i, phase: ph, agent: a, start })
            },
            None => rest,
        }
    }
}

pub open spec fn file_views(files: Seq<(String, String)>) -> Seq<(Seq<char>, Seq<char>)> {
    files.map_values(|f: (String, String)| (f.0@, f.1@))
}

/// Every open mark among a directory's files, newest first, ties by name; the
/// directory's own order never shows.
pub fn marks_from(files: &Vec<(String, String)>) -> (r: Vec<Mark>)
    ensures
        mark_views(r@) == listing_order(marks_of(file_views(files@))),
        forall|i: int| 0 <= i < r@.len() ==> epoch_ok((#[trigger] r@[i]).start as int),
{
    let ghost fv = file_views(files@);
    let mut found: Vec<Mark> = Vec::new();
    let mut i: usize = 0;
    while i < files.len()
        invariant
            fv == file_views(files@),
            i <= files.len(),
            mark_views(found@) == marks_of(fv.subrange(0, i as int)),
            forall|j: int| 0 <= j < found@.len() ==> epoch_ok((#[trigger] found@[j]).start as int),
        decreases files.len() - i,
    {
        assert(fv.subrange(0, i + 1).drop_last() =~= fv.subrange(0, i as int));
        match start_of(files[i].1.as_str()) {
            Some(start) => {
                let (project, issue, phase, agent) = split_key(files[i].0.as_str());
                let m = Mark { project, issue, phase, agent, start };
                let ghost before = found@;
                found.push(m);
                assert(mark_views(found@) =~= mark_views(before).push(m@));
            },
            None => {},
        }
        i += 1;
    }
    assert(fv.subrange(0, fv.len() as int) =~= fv);
    sort_for_listing(found)
}


// --- listing -----------------------------------------------------------------

/// Minutes a mark has been open at `now`, truncated; a start in the future is 0.
pub open spec fn open_minutes(start: int, now: int) -> int {
    let m = crate::duration::quot(now - start, 60);
    if m > 0 {
        m
    } else {
        0
    }
}

/// How long a mark has been open, as `2m` or `2h 6m`.
pub open spec fn elapsed_text(start: int, now: int) -> Seq<char> {
    let m = open_minutes(start, now);
    if m / 60 == 0 {
        int_text(m) + seq!['m']
    } else {
        int_text(m / 60) + "h "@ + int_text(m % 60) + seq!['m']
    }
}

/// The house format of a mark's age, a start in the future reading `0h 0m`.
pub open spec fn age_text(start: int, now: int) -> Seq<char> {
    crate::duration::hm_text(if now - start > 0 {
        now - start
    } else {
        0
    })
}

impl Mark {
    /// How long this mark has been open at `now`, as `2m` or `2h 6m`; never negative.
    pub fn elapsed_at(&self, now: i64) -> (r: String)
        requires
            epoch_ok(self.start as int),
            epoch_ok(now as int),
        ensures
            r@ == elapsed_text(self.start as int, now as int),
    {
        let d = now - self.start;
        let m0 = d / 60;
        let minutes = if m0 > 0 {
            m0
        } else {
            0
        };
        let mut out: Vec<char> = Vec::new();
        if minutes / 60 == 0 {
            push_i64(&mut out, minutes);
            out.push('m');
        } else {
            push_i64(&mut out, minutes / 60);
            push_str(&mut out, "h ");
            push_i64(&mut out, minutes % 60);
            out.push('m');
            proof {
                reveal_strlit("h ");
            }
        }
        string_of(&out)
    }

    /// How long this mark has been open by the clock, as `2m` or `2h 6m`; never
    /// negative. A reading of the clock past the representable range counts as
    /// that range's end.
    pub fn elapsed(&self) -> (r: String)
        requires
            epoch_ok(self.start as int),
        ensures
            exists|now: i64| epoch_ok(now as int) && r@ == #[trigger] elapsed_text(self.start as int, now as int),
    {
        let reading = crate::clock::now();
        let now = if reading > 200_000_000_000_000 {
            200_000_000_000_000
        } else if reading < -200_000_000_000_000 {
            -200_000_000_000_000
        } else {
            reading
        };
        self.elapsed_at(now)
    }

    /// How long this mark has been open at `now` in the house `{h}h {m}m` format,
    /// clamped so a start in the future prints `0h 0m`.
    pub fn age_at(&self, now: i64) -> (r: String)
        requires
            epoch_ok(self.start as int),
            epoch_ok(now as int),
        ensures
            r@ == age_text(self.start as int, now as int),
    {
        let d = now - self.start;
        crate::duration::format(if d > 0 {
            d
        } else {
            0
        })
    }

    /// The clock time the mark was made, `HH:MM` on this machine; `??:??` for a
    /// start chrono cannot place.
    pub fn started_at(&self) -> (r: String)
        ensures
            clock_text(self.start as int, r@),
            r@.len() == 5,
    {
        clock_or_unknown(self.start)
    }
}

impl Lease {
    /// The mark's last heartbeat as local `HH:MM`, or `never` when it has none.
    pub fn last_seen_at(&self) -> (r: String)
        ensures
            self.last_seen is None ==> r@ == "never"@,
            self.last_seen matches Some(seen) ==> clock_text(seen as int, r@) && r@.len() == 5,
    {
        match self.last_seen {
            Some(seen) => clock_or_unknown(seen),
            None => String::from_str("never"),
        }
    }
}

/// Narrowest label column `tt agent list` uses.
pub const LABEL_WIDTH: usize = 18;

/// The label column: the widest label, never narrower than [`LABEL_WIDTH`].
pub open spec fn label_width(leases: Seq<Lease>) -> int
    decreases leases.len(),
{
    if leases.len() == 0 {
        LABEL_WIDTH as int
    } else {
        let w = label_width(leases.drop_last());
        let n = label_of(leases.last().mark).len() as int;
        if n > w {
            n
        } else {
            w
        }
    }
}

pub(crate) proof fn lemma_label_width(leases: Seq<Lease>, j: int)
    requires
        0 <= j < leases.len(),
    ensures
        label_width(leases) >= label_of(leases[j].mark).len(),
        label_width(leases) >= LABEL_WIDTH,
    decreases leases.len(),
{
    if j < leases.len() - 1 {
        lemma_label_width(leases.drop_last(), j);
    } else if leases.len() > 1 {
        lemma_label_width(leases.drop_last(), 0);
    }
}

proof fn lemma_rows_spec_prefix(
    leases: Seq<Lease>,
    n: int,
    width: int,
    now: int,
    t: Thresholds,
    c1: Seq<(Seq<char>, Seq<char>)>,
    c2: Seq<(Seq<char>, Seq<char>)>,
)
    requires
        forall|j: int| 0 <= j < n ==> c1[j] == c2[j],
    ensures
        rows_spec(leases, n, width, now, t, c1) == rows_spec(leases, n, width, now, t, c2),
    decreases n,
{
    if n > 0 {
        lemma_rows_spec_prefix(leases, n - 1, width, now, t, c1, c2);
    }
}

pub open spec fn spaces(n: int) -> Seq<char> {
    Seq::new(if n > 0 {
        n as nat
    } else {
        0
    }, |i: int| ' ')
}

/// One listing row given the two clock readings it shows.
pub open spec fn row_text(lease: Lease, width: int, now: int, t: Thresholds, since: Seq<char>, seen: Seq<char>) -> Seq<char> {
    let label = label_of(lease.mark);
    label + spaces(width - label.len()) + " - since "@ + since + " ("@ + age_text(lease.mark.start as int, now)
        + ") last seen "@ + seen + (if now >= expiry(lease, t) {
        " [stale]"@
    } else {
        seq![]
    })
}

/// The listing for leases `0..n`: each row, and after a stale one its close line.
pub open spec fn rows_spec(
    leases: Seq<Lease>,
    n: int,
    width: int,
    now: int,
    t: Thresholds,
    clocks: Seq<(Seq<char>, Seq<char>)>,
) -> Seq<Seq<char>>
    decreases n,
{
    if n <= 0 {
        seq![]
    } else {
        let rest = rows_spec(leases, n - 1, width, now, t, clocks);
        let lease = leases[n - 1];
        let row = row_text(lease, width, now, t, clocks[n - 1].0, clocks[n - 1].1);
        if now >= expiry(lease, t) {
            rest.push(row).push("  "@ + close_command_of(lease))
        } else {
            rest.push(row)
        }
    }
}

/// What a clock reading shown for `lease` can be: the wall-clock time of its start
/// and of its last beat, `??:??` where chrono cannot place one, and the word
/// `never` for a mark that never beat.
pub open spec fn clocks_fit(leases: Seq<Lease>, clocks: Seq<(Seq<char>, Seq<char>)>) -> bool {
    &&& clocks.len() == leases.len()
    &&& forall|i: int| 0 <= i < leases.len() ==> clock_text(leases[i].mark.start as int, (#[trigger] clocks[i]).0) && (match leases[i].last_seen {
        Some(seen) => clock_text(seen as int, clocks[i].1),
        None => clocks[i].1 == "never"@,
    })
}

pub(crate) fn push_spaces(out: &mut Vec<char>, n: usize)
    ensures
        final(out)@ == old(out)@ + spaces(n as int),
{
    let ghost start = out@;
    let mut i: usize = 0;
    while i < n
        invariant
            i <= n,
            out@ == start + spaces(i as int),
        decreases n - i,
    {
        out.push(' ');
        i += 1;
        assert(out@ =~= start + spaces(i as int));
    }
}

/// The rows `tt agent list` prints, without its indent: one label column wide
/// enough for every label, then since when and for how long the mark has been
/// open and when it was last seen. An expired row is marked `[stale]` and
/// followed by its close command. The clock readings depend on the machine's
/// time zone; the contract says which rows come out with which text around them.
pub fn rows_at(leases: &Vec<Lease>, now: i64, thresholds: Thresholds) -> (r: Vec<String>)
    requires
        thresholds_ok(thresholds),
        epoch_ok(now as int),
        forall|i: int| 0 <= i < leases@.len() ==> lease_ok(#[trigger] leases@[i]),
    ensures
        exists|clocks: Seq<(Seq<char>, Seq<char>)>|
            clocks_fit(leases@, clocks) && views(r@) == #[trigger] rows_spec(
                leases@,
                leases@.len() as int,
                label_width(leases@),
                now as int,
                thresholds,
                clocks,
            ),
{
    let mut width: usize = LABEL_WIDTH;
    let mut labels: Vec<Vec<char>> = Vec::new();
    let mut i: usize = 0;
    while i < leases.len()
        invariant
            i <= leases.len(),
            width == label_width(leases@.subrange(0, i as int)),
            labels@.len() == i,
            forall|j: int| 0 <= j < i ==> (#[trigger] labels@[j])@ == label_of(leases@[j].mark),
        decreases leases.len() - i,
    {
        assert(leases@.subrange(0, i + 1).drop_last() =~= leases@.subrange(0, i as int));
        let label = chars_of(leases[i].mark.label().as_str());
        if label.len() > width {
            width = label.len();
        }
        labels.push(label);
        i += 1;
    }
    assert(leases@.subrange(0, leases@.len() as int) =~= leases@);
    let mut rows: Vec<String> = Vec::new();
    let ghost mut clocks: Seq<(Seq<char>, Seq<char>)> = seq![];
    let mut i: usize = 0;
    while i < leases.len()
        invariant
            i <= leases.len(),
            thresholds_ok(thresholds),
            epoch_ok(now as int),
            forall|j: int| 0 <= j < leases@.len() ==> lease_ok(#[trigger] leases@[j]),
            width == label_width(leases@),
            labels@.len() == leases@.len(),
            forall|j: int| 0 <= j < leases@.len() ==> (#[trigger] labels@[j])@ == label_of(leases@[j].mark),
            clocks.len() == i,
            clocks_fit(leases@.subrange(0, i as int), clocks),
            views(rows@) == rows_spec(leases@, i as int, width as int, now as int, thresholds, clocks),
        decreases leases.len() - i,
    {
        let lease = &leases[i];
        let label = &labels[i];
        proof {
            lemma_label_width(leases@, i as int);
        }
        let since = lease.mark.started_at();
        let seen = lease.last_seen_at();
        let age = lease.mark.age_at(now);
        let stale = lease.is_expired_at(now, thresholds);
        let mut row: Vec<char> = label.clone();
        assert(row@ == label@);
        push_spaces(&mut row, width - label.len());
        push_str(&mut row, " - since ");
        push_str(&mut row, since.as_str());
        push_str(&mut row, " (");
        push_str(&mut row, age.as_str());
        push_str(&mut row, ") last seen ");
        push_str(&mut row, seen.as_str());
        if stale {
            push_str(&mut row, " [stale]");
        }
        let ghost old_clocks = clocks;
        proof {
            clocks = clocks.push((since@, seen@));
            lemma_rows_spec_prefix(leases@, i as int, width as int, now as int, thresholds, old_clocks, clocks);
            assert(clocks_fit(leases@.subrange(0, i + 1), clocks)) by {
                assert forall|j: int| 0 <= j < i + 1 implies clock_text(leases@.subrange(0, i + 1)[j].mark.start as int, (#[trigger] clocks[j]).0) && (match leases@.subrange(0, i + 1)[j].last_seen {
                    Some(seen) => clock_text(seen as int, clocks[j].1),
                    None => clocks[j].1 == "never"@,
                }) by {
                    if j < i {
                        assert(leases@.subrange(0, i + 1)[j] == leases@.subrange(0, i as int)[j]);
                    }
                }
            }
            assert(row@ =~= row_text(leases@[i as int], width as int, now as int, thresholds, since@, seen@));
        }
        let text = string_of(&row);
        proof {
            lemma_views_push(rows@, text);
        }
        rows.push(text);
        if stale {
            let mut close: Vec<char> = Vec::new();
            push_str(&mut close, "  ");
            push_str(&mut close, lease.close_command().as_str());
            let line = string_of(&close);
            proof {
                lemma_views_push(rows@, line);
            }
            rows.push(line);
        }
        proof {
            assert(clocks[i as int] == (since@, seen@));
        }
        i += 1;
    }
    assert(leases@.subrange(0, leases@.len() as int) =~= leases@);
    rows
}

/// The marks' directory: the override when set and non-empty, else `marks`
/// inside the cache directory.
pub fn resolve_mark_dir(value: Option<String>, cache: Option<String>) -> (r: Option<String>)
    ensures
        opt_string(r) == crate::paths::env_or_spec(opt_string(value), crate::paths::inside_spec(opt_string(cache), "marks"@)),
{
    crate::paths::resolve_dir(value, cache, "marks")
}

// --- a key reads back as the mark it names ----------------------------------------------

proof fn lemma_sanitised_has_no_dot(s: Seq<char>)
    ensures
        forall|i: int| 0 <= i < sanitise(s).len() ==> #[trigger] sanitise(s)[i] != '.',
{
    assert forall|i: int| 0 <= i < sanitise(s).len() implies #[trigger] sanitise(s)[i] != '.' by {
        assert(sanitise(s)[i] == crate::text::key_char(s[i]));
    }
}

/// A mark's file name reads back as the segments that named it, each sanitised:
/// every segment is free of dots once sanitised, so the key holds exactly one dot
/// between segments and the project is the first segment by construction.
pub proof fn lemma_key_reads_back(project: Seq<char>, issue: Seq<char>, phase: Seq<char>, agent: Option<Seq<char>>)
    ensures
        split_on(key_of(project, issue, phase, agent), '.') == match agent {
            Some(a) => seq![sanitise(project), sanitise(issue), sanitise(phase), sanitise(a)],
            None => seq![sanitise(project), sanitise(issue), sanitise(phase)],
        },
        split_spec(key_of(project, issue, phase, agent)) == (
            sanitise(project),
            issue_of(sanitise(issue)),
            sanitise(phase),
            match agent {
                Some(a) => Some(sanitise(a)),
                None => None,
            },
        ),
{
    lemma_sanitised_has_no_dot(project);
    lemma_sanitised_has_no_dot(issue);
    lemma_sanitised_has_no_dot(phase);
    let three = seq![sanitise(project), sanitise(issue), sanitise(phase)];
    assert(three.drop_last() =~= seq![sanitise(project), sanitise(issue)]);
    assert(seq![sanitise(project), sanitise(issue)].drop_last() =~= seq![sanitise(project)]);
    assert(join(seq![sanitise(project)], '.') == sanitise(project));
    assert(join(seq![sanitise(project), sanitise(issue)], '.') == sanitise(project) + seq!['.'] + sanitise(issue));
    assert(join(three, '.') =~= sanitise(project) + seq!['.'] + sanitise(issue) + seq!['.'] + sanitise(phase));
    match agent {
        Some(a) => {
            lemma_sanitised_has_no_dot(a);
            let four = three.push(sanitise(a));
            assert(four.drop_last() =~= three);
            assert(join(four, '.') =~= key_of(project, issue, phase, agent));
            assert forall|k: int, i: int| 0 <= k < four.len() && 0 <= i < four[k].len() implies #[trigger] four[k][i] != '.' by {
                if k == 3 {
                    assert(four[k] == sanitise(a));
                } else {
                    assert(four[k] == three[k]);
                }
            }
            crate::text::lemma_split_join(four, '.');
        },
        None => {
            assert(join(three, '.') =~= key_of(project, issue, phase, agent));
            assert forall|k: int, i: int| 0 <= k < three.len() && 0 <= i < three[k].len() implies #[trigger] three[k][i] != '.' by {}
            crate::text::lemma_split_join(three, '.');
        },
    }
}

/// The instant a lease's silence is measured from, and the threshold it is held to.
pub open spec fn silence_of(lease: Lease, t: Thresholds) -> (int, int) {
    match lease.last_seen {
        Some(seen) => (seen as int, t.gap as int),
        None => (lease.mark.start as int, t.unvouched as int),
    }
}

/// A lease runs out exactly when the silence since its last sign of life is one
/// `tt agent end` would flag: the same integer-floor minutes, strictly greater,
/// so the `[stale]` marker and the close line never disagree about a mark.
pub proof fn lemma_expiry_is_a_flagged_silence(lease: Lease, t: Thresholds, now: i64)
    requires
        t.gap >= 0,
        t.unvouched >= 0,
    ensures
        (now >= expiry(lease, t)) <==> gaps_from(silence_of(lease, t).0, now as int, seq![], silence_of(lease, t).1).len() > 0,
{
    let (from, thr) = silence_of(lease, t);
    let d = now - from;
    assert(expiry(lease, t) == from + (thr + 1) * 60);
    if d > 0 {
        assert((d >= (thr + 1) * 60) <==> (d / 60 > thr)) by (nonlinear_arith)
            requires
                d > 0,
                thr >= 0,
        ;
    }
}

} // verus!
