//! The dismissal ledger: one record per stretch of one session's clock time that
//! was **not** work. A dismissal is scoped to one session: project-scoped, it
//! would erase a concurrent agent's row for the same minutes.
//!
//! A record is a small text file, `field=value` per line; its name joins the
//! sanitised project, the sanitised session and the span.

use vstd::prelude::*;
use crate::marks::opt_string;
use crate::paths::{env_or_spec, inside_spec, resolve_dir};
use crate::text::{
    chars_eq, chars_of, decimal, int_text, lemma_decimal_reads_back, lemma_int_text_reads_back, lemma_lines_read_back,
    lines, lines_of, one_line, parse_i64, parsed_i64, push_all, push_i64, push_str, sanitise, sanitise_chars,
    string_of, terminated,
};

verus! {

/// One dismissed stretch of one session's clock time, in unix seconds.
#[derive(Debug)]
pub struct Dismissal {
    pub project: String,
    pub session_id: String,
    pub start: i64,
    pub end: i64,
    pub reason: Option<String>,
}

pub struct DismissalView {
    pub project: Seq<char>,
    pub session_id: Seq<char>,
    pub start: i64,
    pub end: i64,
    pub reason: Option<Seq<char>>,
}

impl View for Dismissal {
    type V = DismissalView;

    open spec fn view(&self) -> DismissalView {
        DismissalView {
            project: self.project@,
            session_id: self.session_id@,
            start: self.start,
            end: self.end,
            reason: opt_string(self.reason),
        }
    }
}

/// The ledger's directory: the override when set and non-empty, else
/// `dismissed` inside the cache directory.
pub fn resolve_dismissed_dir(value: Option<String>, cache: Option<String>) -> (r: Option<String>)
    ensures
        opt_string(r) == env_or_spec(opt_string(value), inside_spec(opt_string(cache), "dismissed"@)),
{
    resolve_dir(value, cache, "dismissed")
}

/// The file name one dismissal is written under: each segment sanitised on its
/// own, joined with `.`, then the span as `<start>-<end>`.
pub open spec fn key_of(d: DismissalView) -> Seq<char> {
    sanitise(d.project) + seq!['.'] + sanitise(d.session_id) + seq!['.'] + int_text(d.start as int) + seq!['-']
        + int_text(d.end as int)
}

/// The file name a dismissal is written under. The same session, span and project
/// always name the same file, which is what makes a second write a no-op.
pub fn dismissal_key(dismissal: &Dismissal) -> (r: String)
    ensures
        r@ == key_of(dismissal@),
{
    let mut out = sanitise_chars(&chars_of(dismissal.project.as_str()));
    out.push('.');
    let s = sanitise_chars(&chars_of(dismissal.session_id.as_str()));
    push_all(&mut out, &s);
    out.push('.');
    push_i64(&mut out, dismissal.start);
    out.push('-');
    push_i64(&mut out, dismissal.end);
    string_of(&out)
}

/// A record's text: `project=`, `session=`, `start=`, `end=` lines, then a
/// `reason=` line when there is a reason.
pub open spec fn body_of(d: DismissalView) -> Seq<char> {
    "project="@ + d.project + seq!['\n'] + "session="@ + d.session_id + seq!['\n'] + "start="@ + int_text(
        d.start as int,
    ) + seq!['\n'] + "end="@ + int_text(d.end as int) + seq!['\n'] + match d.reason {
        Some(r) => "reason="@ + r + seq!['\n'],
        None => seq![],
    }
}

/// The text a dismissal is recorded as.
pub fn body(dismissal: &Dismissal) -> (r: String)
    ensures
        r@ == body_of(dismissal@),
{
    let mut out: Vec<char> = Vec::new();
    push_str(&mut out, "project=");
    push_str(&mut out, dismissal.project.as_str());
    out.push('\n');
    push_str(&mut out, "session=");
    push_str(&mut out, dismissal.session_id.as_str());
    out.push('\n');
    push_str(&mut out, "start=");
    push_i64(&mut out, dismissal.start);
    out.push('\n');
    push_str(&mut out, "end=");
    push_i64(&mut out, dismissal.end);
    out.push('\n');
    match &dismissal.reason {
        Some(r) => {
            push_str(&mut out, "reason=");
            push_str(&mut out, r.as_str());
            out.push('\n');
        },
        None => {},
    }
    assert(out@ =~= body_of(dismissal@));
    string_of(&out)
}

/// Where the first `=` of a line is.
pub open spec fn eq_pos(line: Seq<char>) -> Option<int>
    decreases line.len(),
{
    if line.len() == 0 {
        None
    } else {
        match eq_pos(line.drop_last()) {
            Some(i) => Some(i),
            None => if line.last() == '=' {
                Some(line.len() - 1)
            } else {
                None
            },
        }
    }
}

/// The fields a record's lines set so far; a later line for a field wins, and a
/// number that does not parse clears its field.
pub struct Fields {
    pub project: Option<Seq<char>>,
    pub session: Option<Seq<char>>,
    pub start: Option<i64>,
    pub end: Option<i64>,
    pub reason: Option<Seq<char>>,
}

pub open spec fn no_fields() -> Fields {
    Fields { project: None, session: None, start: None, end: None, reason: None }
}

/// The fields after one more line.
pub open spec fn field_step(f: Fields, line: Seq<char>) -> Fields {
    match eq_pos(line) {
        None => f,
        Some(i) => {
            let name = line.subrange(0, i);
            let value = line.subrange(i + 1, line.len() as int);
            if name == "project"@ {
                Fields { project: Some(value), ..f }
            } else if name == "session"@ {
                Fields { session: Some(value), ..f }
            } else if name == "start"@ {
                Fields { start: parsed_i64(value), ..f }
            } else if name == "end"@ {
                Fields { end: parsed_i64(value), ..f }
            } else if name == "reason"@ {
                Fields { reason: Some(value), ..f }
            } else {
                f
            }
        },
    }
}

pub open spec fn fields_of(ls: Seq<Seq<char>>) -> Fields
    decreases ls.len(),
{
    if ls.len() == 0 {
        no_fields()
    } else {
        field_step(fields_of(ls.drop_last()), ls.last())
    }
}

/// What a record's text holds: a dismissal when project, session, start and end
/// were all given; none otherwise.
pub open spec fn parsed_dismissal(text: Seq<char>) -> Option<DismissalView> {
    let f = fields_of(lines(text));
    if f.project is Some && f.session is Some && f.start is Some && f.end is Some {
        Some(
            DismissalView {
                project: f.project->0,
                session_id: f.session->0,
                start: f.start->0,
                end: f.end->0,
                reason: f.reason,
            },
        )
    } else {
        None
    }
}

fn find_eq(line: &Vec<char>) -> (r: Option<usize>)
    ensures
        match r {
            Some(i) => eq_pos(line@) == Some(i as int) && i < line@.len(),
            None => eq_pos(line@) is None,
        },
{
    let mut i: usize = 0;
    while i < line.len()
        invariant
            i <= line.len(),
            eq_pos(line@.subrange(0, i as int)) is None,
        decreases line.len() - i,
    {
        assert(line@.subrange(0, i + 1).drop_last() =~= line@.subrange(0, i as int));
        if line[i] == '=' {
            proof {
                lemma_eq_pos_prefix(line@, i as int);
            }
            return Some(i);
        }
        i += 1;
    }
    assert(line@.subrange(0, line@.len() as int) =~= line@);
    None
}

proof fn lemma_eq_pos_prefix(s: Seq<char>, i: int)
    requires
        0 <= i < s.len(),
        eq_pos(s.subrange(0, i)) is None,
        s[i] == '=',
    ensures
        eq_pos(s) == Some(i),
    decreases s.len() - i,
{
    if i + 1 == s.len() {
        assert(s.drop_last() =~= s.subrange(0, i));
    } else {
        assert(s.drop_last().subrange(0, i) =~= s.subrange(0, i));
        lemma_eq_pos_prefix(s.drop_last(), i);
    }
}

fn slice_chars(s: &Vec<char>, from: usize, to: usize) -> (r: Vec<char>)
    requires
        from <= to <= s.len(),
    ensures
        r@ == s@.subrange(from as int, to as int),
{
    let mut out: Vec<char> = Vec::new();
    let mut i = from;
    while i < to
        invariant
            from <= i <= to,
            to <= s.len(),
            out@ == s@.subrange(from as int, i as int),
        decreases to - i,
    {
        out.push(s[i]);
        i += 1;
        assert(out@ =~= s@.subrange(from as int, i as int));
    }
    out
}

/// Read one record's text back: a dismissal when it gives project, session, start
/// and end; none when any is missing.
pub fn parse_dismissal(text: &str) -> (r: Option<Dismissal>)
    ensures
        match r {
            Some(d) => parsed_dismissal(text@) == Some(d@),
            None => parsed_dismissal(text@) is None,
        },
{
    let cs = chars_of(text);
    let ls = lines_of(&cs);
    let ghost all = lines(text@);
    let k_project = chars_of("project");
    let k_session = chars_of("session");
    let k_start = chars_of("start");
    let k_end = chars_of("end");
    let k_reason = chars_of("reason");
    let mut project: Option<Vec<char>> = None;
    let mut session: Option<Vec<char>> = None;
    let mut start: Option<i64> = None;
    let mut end: Option<i64> = None;
    let mut reason: Option<Vec<char>> = None;
    let mut i: usize = 0;
    while i < ls.len()
        invariant
            cs@ == text@,
            all == lines(text@),
            ls@.len() == all.len(),
            forall|j: int| 0 <= j < ls@.len() ==> (#[trigger] ls@[j])@ == all[j],
            k_project@ == "project"@,
            k_session@ == "session"@,
            k_start@ == "start"@,
            k_end@ == "end"@,
            k_reason@ == "reason"@,
            i <= ls.len(),
            ({
                let f = fields_of(all.subrange(0, i as int));
                &&& f.project == (match &project {
                    Some(v) => Some(v@),
                    None => None,
                })
                &&& f.session == (match &session {
                    Some(v) => Some(v@),
                    None => None,
                })
                &&& f.start == start
                &&& f.end == end
                &&& f.reason == (match &reason {
                    Some(v) => Some(v@),
                    None => None,
                })
            }),
        decreases ls.len() - i,
    {
        assert(all.subrange(0, i + 1).drop_last() =~= all.subrange(0, i as int));
        let line = &ls[i];
        let n = line.len();
        match find_eq(line) {
            Some(e) => {
                let name = slice_chars(line, 0, e);
                let value = slice_chars(line, e + 1, n);
                if chars_eq(&name, &k_project) {
                    project = Some(value);
                } else if chars_eq(&name, &k_session) {
                    session = Some(value);
                } else if chars_eq(&name, &k_start) {
                    start = parse_i64(&value);
                } else if chars_eq(&name, &k_end) {
                    end = parse_i64(&value);
                } else if chars_eq(&name, &k_reason) {
                    reason = Some(value);
                }
            },
            None => {},
        }
        i += 1;
    }
    assert(all.subrange(0, all.len() as int) =~= all);
    match (project, session, start, end) {
        (Some(p), Some(s), Some(a), Some(b)) => Some(
            Dismissal {
                project: string_of(&p),
                session_id: string_of(&s),
                start: a,
                end: b,
                reason: match reason {
                    Some(r) => Some(string_of(&r)),
                    None => None,
                },
            },
        ),
        _ => None,
    }
}

/// The dismissals among records, in the order given; a record missing any of
/// project, session, start and end is skipped.
pub open spec fn dismissals_of(texts: Seq<Seq<char>>) -> Seq<DismissalView>
    decreases texts.len(),
{
    if texts.len() == 0 {
        seq![]
    } else {
        let rest = dismissals_of(texts.drop_last());
        match parsed_dismissal(texts.last()) {
            Some(d) => rest.push(d),
            None => rest,
        }
    }
}

pub open spec fn dismissal_views(ds: Seq<Dismissal>) -> Seq<DismissalView> {
    ds.map_values(|d: Dismissal| d@)
}

/// Every dismissal among the ledger's records, read from their texts in the order
/// given; a record missing a required field is not a dismissal.
pub fn read_all(texts: &Vec<String>) -> (r: Vec<Dismissal>)
    ensures
        dismissal_views(r@) == dismissals_of(crate::text::views(texts@)),
{
    let ghost tv = crate::text::views(texts@);
    let mut out: Vec<Dismissal> = Vec::new();
    let mut i: usize = 0;
    while i < texts.len()
        invariant
            tv == crate::text::views(texts@),
            i <= texts.len(),
            dismissal_views(out@) == dismissals_of(tv.subrange(0, i as int)),
        decreases texts.len() - i,
    {
        assert(tv.subrange(0, i + 1).drop_last() =~= tv.subrange(0, i as int));
        match parse_dismissal(texts[i].as_str()) {
            Some(d) => {
                let ghost before = out@;
                out.push(d);
                assert(dismissal_views(out@) =~= dismissal_views(before).push(d@));
            },
            None => {},
        }
        i += 1;
    }
    assert(tv.subrange(0, tv.len() as int) =~= tv);
    out
}

// --- a record reads back as what was written -------------------------------------------

proof fn lemma_eq_pos_none(s: Seq<char>)
    requires
        forall|i: int| 0 <= i < s.len() ==> s[i] != '=',
    ensures
        eq_pos(s) is None,
    decreases s.len(),
{
    if s.len() > 0 {
        lemma_eq_pos_none(s.drop_last());
    }
}

/// A `name=value` line, split back at its first `=`.
proof fn lemma_field_line(name: Seq<char>, value: Seq<char>)
    requires
        forall|i: int| 0 <= i < name.len() ==> name[i] != '=',
    ensures
        eq_pos(name + seq!['='] + value) == Some(name.len() as int),
        (name + seq!['='] + value).subrange(0, name.len() as int) == name,
        (name + seq!['='] + value).subrange(name.len() as int + 1, (name + seq!['='] + value).len() as int) == value,
{
    let line = name + seq!['='] + value;
    assert(line.subrange(0, name.len() as int) =~= name);
    lemma_eq_pos_none(name);
    lemma_eq_pos_prefix(line, name.len() as int);
    assert(line.subrange(name.len() as int + 1, line.len() as int) =~= value);
}

proof fn lemma_int_text_one_line(n: i64)
    ensures
        one_line(int_text(n as int)),
        forall|i: int| 0 <= i < int_text(n as int).len() ==> int_text(n as int)[i] != '=',
{
    let k: nat = if n < 0 { (-(n as int)) as nat } else { n as nat };
    lemma_decimal_reads_back(k);
    let t = int_text(n as int);
    assert forall|i: int| 0 <= i < t.len() implies t[i] != '\n' && t[i] != '=' && t[i] != '\r' by {
        if n < 0 {
            if i > 0 {
                assert(t[i] == decimal(k)[i - 1]);
                assert(crate::text::is_digit(decimal(k)[i - 1]));
            }
        } else {
            assert(crate::text::is_digit(decimal(k)[i]));
        }
    }
}

/// Text a record can hold as a field's value: one line's worth.
pub open spec fn field_safe(s: Seq<char>) -> bool {
    one_line(s)
}

proof fn lemma_labelled_one_line(label: Seq<char>, value: Seq<char>)
    requires
        one_line(value),
        label.len() > 0,
        forall|i: int| 0 <= i < label.len() ==> label[i] != '\n' && label[i] != '=',
    ensures
        one_line(label + seq!['='] + value),
{
    let l = label + seq!['='] + value;
    assert forall|i: int| 0 <= i < l.len() implies l[i] != '\n' by {
        if i < label.len() {
            assert(l[i] == label[i]);
        } else if i > label.len() {
            assert(l[i] == value[i - label.len() - 1]);
        }
    }
    if value.len() > 0 {
        assert(l.last() == value.last());
    }
}

/// The lines a record is written as, before any reason.
pub open spec fn record_lines(d: DismissalView) -> Seq<Seq<char>> {
    seq![
        "project"@ + seq!['='] + d.project,
        "session"@ + seq!['='] + d.session_id,
        "start"@ + seq!['='] + int_text(d.start as int),
        "end"@ + seq!['='] + int_text(d.end as int),
    ]
}

/// Every line a record is written as, the reason's included.
pub open spec fn all_record_lines(d: DismissalView) -> Seq<Seq<char>> {
    match d.reason {
        Some(r) => record_lines(d).push("reason"@ + seq!['='] + r),
        None => record_lines(d),
    }
}

proof fn lemma_body_is_its_lines(d: DismissalView)
    ensures
        body_of(d) == terminated(all_record_lines(d)),
{
    reveal_strlit("project=");
    reveal_strlit("session=");
    reveal_strlit("start=");
    reveal_strlit("end=");
    reveal_strlit("reason=");
    reveal_strlit("project");
    reveal_strlit("session");
    reveal_strlit("start");
    reveal_strlit("end");
    reveal_strlit("reason");
    let ls = record_lines(d);
    let (l1, l2, l3, l4) = (ls[0], ls[1], ls[2], ls[3]);
    assert(terminated(Seq::<Seq<char>>::empty()) == Seq::<char>::empty());
    assert(seq![l1].drop_last() =~= Seq::<Seq<char>>::empty());
    assert(seq![l1, l2].drop_last() =~= seq![l1]);
    assert(seq![l1, l2, l3].drop_last() =~= seq![l1, l2]);
    assert(ls.drop_last() =~= seq![l1, l2, l3]);
    assert(ls =~= seq![l1, l2, l3, l4]);
    assert(terminated(seq![l1]) =~= l1 + seq!['\n']);
    assert(terminated(seq![l1, l2]) =~= terminated(seq![l1]) + l2 + seq!['\n']);
    assert(terminated(seq![l1, l2, l3]) =~= terminated(seq![l1, l2]) + l3 + seq!['\n']);
    assert(terminated(ls) =~= terminated(seq![l1, l2, l3]) + l4 + seq!['\n']);
    assert(terminated(ls) =~= l1 + seq!['\n'] + l2 + seq!['\n'] + l3 + seq!['\n'] + l4 + seq!['\n']);
    match d.reason {
        Some(r) => {
            let all = all_record_lines(d);
            assert(all.drop_last() =~= ls);
            assert(body_of(d) =~= terminated(all));
        },
        None => {
            assert(body_of(d) =~= terminated(ls));
        },
    }
}

proof fn lemma_record_lines_one_line(d: DismissalView)
    requires
        field_safe(d.project),
        field_safe(d.session_id),
        d.reason matches Some(r) ==> field_safe(r),
    ensures
        forall|k: int| 0 <= k < all_record_lines(d).len() ==> one_line(#[trigger] all_record_lines(d)[k]),
{
    reveal_strlit("project");
    reveal_strlit("session");
    reveal_strlit("start");
    reveal_strlit("end");
    reveal_strlit("reason");
    lemma_int_text_one_line(d.start);
    lemma_int_text_one_line(d.end);
    lemma_labelled_one_line("project"@, d.project);
    lemma_labelled_one_line("session"@, d.session_id);
    lemma_labelled_one_line("start"@, int_text(d.start as int));
    lemma_labelled_one_line("end"@, int_text(d.end as int));
    if let Some(r) = d.reason {
        lemma_labelled_one_line("reason"@, r);
    }
}

proof fn lemma_record_fields(d: DismissalView)
    ensures
        fields_of(record_lines(d)) == (Fields {
            project: Some(d.project),
            session: Some(d.session_id),
            start: Some(d.start),
            end: Some(d.end),
            reason: None,
        }),
{
    reveal_strlit("project");
    reveal_strlit("session");
    reveal_strlit("start");
    reveal_strlit("end");
    reveal_strlit("reason");
    let ls = record_lines(d);
    let st = int_text(d.start as int);
    let en = int_text(d.end as int);
    lemma_field_line("project"@, d.project);
    lemma_field_line("session"@, d.session_id);
    lemma_field_line("start"@, st);
    lemma_field_line("end"@, en);
    lemma_int_text_reads_back(d.start);
    lemma_int_text_reads_back(d.end);
    assert(fields_of(Seq::<Seq<char>>::empty()) == no_fields());
    assert(ls.subrange(0, 1).drop_last() =~= Seq::<Seq<char>>::empty());
    assert(ls.subrange(0, 2).drop_last() =~= ls.subrange(0, 1));
    assert(ls.subrange(0, 3).drop_last() =~= ls.subrange(0, 2));
    assert(ls.drop_last() =~= ls.subrange(0, 3));
    assert(ls.subrange(0, 1).last() == ls[0]);
    assert(ls.subrange(0, 2).last() == ls[1]);
    assert(ls.subrange(0, 3).last() == ls[2]);
    assert("session"@[0] != "project"@[0]);
    assert("start"@[0] != "project"@[0] && "start"@[1] != "session"@[1]);
    assert("end"@[0] != "project"@[0] && "end"@[0] != "session"@[0] && "end"@[0] != "start"@[0]);
    assert(fields_of(ls.subrange(0, 1)) == field_step(no_fields(), ls[0]));
    assert(fields_of(ls.subrange(0, 2)) == field_step(fields_of(ls.subrange(0, 1)), ls[1]));
    assert(fields_of(ls.subrange(0, 3)) == field_step(fields_of(ls.subrange(0, 2)), ls[2]));
    assert(fields_of(ls) == field_step(fields_of(ls.subrange(0, 3)), ls[3]));
}

/// A record written for a dismissal reads back as that dismissal, provided its
/// project, session and reason each fit on one line.
pub proof fn lemma_a_record_reads_back(d: DismissalView)
    requires
        field_safe(d.project),
        field_safe(d.session_id),
        d.reason matches Some(r) ==> field_safe(r),
    ensures
        parsed_dismissal(body_of(d)) == Some(d),
{
    lemma_body_is_its_lines(d);
    lemma_record_lines_one_line(d);
    lemma_lines_read_back(all_record_lines(d));
    lemma_record_fields(d);
    if let Some(r) = d.reason {
        reveal_strlit("reason");
        reveal_strlit("project");
        reveal_strlit("session");
        reveal_strlit("start");
        reveal_strlit("end");
        let all = all_record_lines(d);
        assert(all.drop_last() =~= record_lines(d));
        lemma_field_line("reason"@, r);
        assert("reason"@[0] != "project"@[0] && "reason"@[0] != "session"@[0] && "reason"@[0] != "start"@[0] && "reason"@[0] != "end"@[0]);
    }
}

} // verus!
