//! Reconciles the hook-only activity ledger against marks and logged entries.
//!
//! An activity window counts as accounted for once every part of it falls inside
//! a same-project mark's lease or a same-project `#agent`- or `#auto`-tagged entry
//! — both subtract, so they compose — or inside a dismissal of that session.
//! What is left is **unaccounted agent activity**. Reconciliation runs per
//! session, and an open session is measured to its own last evidence of life
//! plus the lease's grace, clamped to now.

use vstd::prelude::*;
use crate::clock::{clock_or_unknown, clock_text, in_range, representable};
use crate::duration::hm_text;
use crate::report::truncated;
use crate::dismissed::Dismissal;
use crate::entry_data::{agent_session, agent_session_of};
use crate::marks::{epoch_ok, thresholds_ok, expiry, gaps_from, gaps_over, same_project, same_project_spec, Lease, Thresholds};
use crate::marks::opt_string;
use crate::text::{chars_eq, chars_of, int_text, parse_i64, parsed_i64, push_str, push_u64, string_of};
use crate::tracker::{has_tag_in, TimeEntry};

verus! {

/// One activity session from the ledger; instants are unix seconds.
#[derive(Debug)]
pub struct Session {
    /// The sanitised key the session's file is named with.
    pub id: String,
    pub project: Option<String>,
    pub start: i64,
    /// `None` while no `Stop` has closed it.
    pub end: Option<i64>,
    pub subagents: usize,
    /// When each subagent dispatch happened.
    pub subagent_at: Vec<i64>,
}

/// One contiguous **active** stretch with no evidence it was tracked.
#[derive(Debug)]
pub struct Unaccounted {
    pub project: String,
    /// The activity session this stretch came from — with `start`, the address
    /// `tt agent resolve` and `tt agent dismiss` match a row on.
    pub session_id: String,
    pub start: i64,
    pub end: i64,
    pub subagents: usize,
    /// True only for the trailing row of a session bounded at its own last
    /// evidence of life, never for a session that closed with an `end=`.
    pub abandoned: bool,
}

/// `, 1 subagent dispatch`, `, 3 subagent dispatches`, or nothing for none.
pub open spec fn subagent_text(n: int) -> Seq<char> {
    if n == 0 {
        seq![]
    } else if n == 1 {
        ", 1 subagent dispatch"@
    } else {
        ", "@ + int_text(n) + " subagent dispatches"@
    }
}

/// A row as the CLI and the TUI print it, given the clock time it shows.
pub open spec fn describe_text(row: Unaccounted, since: Seq<char>) -> Seq<char> {
    row.project@ + " - since "@ + since + " ("@ + hm_text(row.end - row.start) + subagent_text(
        row.subagents as int,
    ) + ") session "@ + truncated(row.session_id@, 8) + (if row.abandoned {
        " [abandoned]"@
    } else {
        seq![]
    })
}

impl Unaccounted {
    /// The row as the CLI and the TUI both print it: project, the local clock time
    /// it started, its length, its subagent dispatches, the first eight characters
    /// of its session (a hint for the eye, never an address) and whether it was
    /// abandoned. The clock time depends on the machine's time zone.
    pub fn describe(&self) -> (r: String)
        requires
            epoch_ok(self.start as int),
            epoch_ok(self.end as int),
        ensures
            exists|since: Seq<char>| clock_text(self.start as int, since) && r@ == #[trigger] describe_text(*self, since),
    {
        let mut out = chars_of(self.project.as_str());
        push_str(&mut out, " - since ");
        let since = clock_or_unknown(self.start);
        push_str(&mut out, since.as_str());
        push_str(&mut out, " (");
        push_str(&mut out, crate::duration::format(self.end - self.start).as_str());
        if self.subagents == 1 {
            push_str(&mut out, ", 1 subagent dispatch");
        } else if self.subagents > 1 {
            push_str(&mut out, ", ");
            push_u64(&mut out, self.subagents as u64);
            push_str(&mut out, " subagent dispatches");
        }
        push_str(&mut out, ") session ");
        let id = chars_of(self.session_id.as_str());
        let mut i: usize = 0;
        let ghost mark = out@;
        while i < id.len() && i < 8
            invariant
                i <= id.len(),
                i <= 8,
                out@ == mark + id@.subrange(0, i as int),
            decreases id.len() - i,
        {
            out.push(id[i]);
            i += 1;
            assert(out@ =~= mark + id@.subrange(0, i as int));
        }
        assert(id@.subrange(0, i as int) =~= truncated(self.session_id@, 8));
        if self.abandoned {
            push_str(&mut out, " [abandoned]");
        }
        assert(out@ =~= describe_text(*self, since@));
        string_of(&out)
    }
}

/// A threshold in minutes: the environment's value when it parses as an
/// integer, else the configured one, else the default.
pub open spec fn resolved_minutes(env: Option<Seq<char>>, configured: Option<i64>, default: i64) -> i64 {
    match env {
        Some(v) => match parsed_i64(v) {
            Some(m) => m,
            None => match configured {
                Some(c) => c,
                None => default,
            },
        },
        None => match configured {
            Some(c) => c,
            None => default,
        },
    }
}

/// A threshold in minutes, from the environment's text, the config file's value
/// and the built-in default, in that order of precedence.
pub fn resolve_minutes(env: Option<String>, configured: Option<i64>, default: i64) -> (r: i64)
    ensures
        r == resolved_minutes(opt_string(env), configured, default),
{
    let parsed = match &env {
        Some(v) => parse_i64(&chars_of(v.as_str())),
        None => None,
    };
    match parsed {
        Some(m) => m,
        None => match configured {
            Some(c) => c,
            None => default,
        },
    }
}

/// How long an activity window may run with no covering mark or entry before it
/// counts as unaccounted, in minutes: `TT_MAX_UNVOUCHED_MINUTES`, else
/// `agent.max_unvouched_minutes`, else 120. The same grace `tt agent end`
/// judges an unvouched phase against.
pub fn max_unvouched_minutes(env: Option<String>, configured: Option<i64>) -> (r: i64)
    ensures
        r == resolved_minutes(opt_string(env), configured, 120),
{
    resolve_minutes(env, configured, 120)
}

/// How long a silence between heartbeats has to be to count as idle, in
/// minutes: `TT_MAX_GAP_MINUTES`, else `agent.max_gap_minutes`, else 45.
pub fn max_gap_minutes(env: Option<String>, configured: Option<i64>) -> (r: i64)
    ensures
        r == resolved_minutes(opt_string(env), configured, 45),
{
    resolve_minutes(env, configured, 45)
}

/// Whether the `Stop` hook auto-logs a session's own unaccounted window: only
/// when `agent.auto_log_on_stop` is set to true.
pub fn auto_log_on_stop_enabled(configured: Option<bool>) -> (r: bool)
    ensures
        r == (configured == Some(true)),
{
    match configured {
        Some(b) => b,
        None => false,
    }
}

/// How long a window must stay unaccounted before `--auto-log` writes an entry
/// for it: the environment's value when it parses, else the configured one; and
/// none at all unless it exceeds the unvouched grace, so a misconfiguration
/// fails toward "off".
pub open spec fn auto_log_after_spec(env: Option<Seq<char>>, configured: Option<i64>, unvouched: i64) -> Option<i64> {
    let chosen = match env {
        Some(v) => match parsed_i64(v) {
            Some(m) => Some(m),
            None => configured,
        },
        None => configured,
    };
    match chosen {
        Some(m) => if m > unvouched {
            Some(m)
        } else {
            None
        },
        None => None,
    }
}

pub fn auto_log_after_minutes(env: Option<String>, configured: Option<i64>, unvouched: i64) -> (r: Option<i64>)
    ensures
        r == auto_log_after_spec(opt_string(env), configured, unvouched),
{
    let parsed = match &env {
        Some(v) => parse_i64(&chars_of(v.as_str())),
        None => None,
    };
    let chosen = match parsed {
        Some(m) => Some(m),
        None => configured,
    };
    match chosen {
        Some(m) => if m > unvouched {
            Some(m)
        } else {
            None
        },
        None => None,
    }
}

/// The thresholds every judgement is made by, read once at an entry point and
/// passed down.
pub fn thresholds(
    gap_env: Option<String>,
    gap_configured: Option<i64>,
    unvouched_env: Option<String>,
    unvouched_configured: Option<i64>,
) -> (r: Thresholds)
    ensures
        r.gap == resolved_minutes(opt_string(gap_env), gap_configured, 45),
        r.unvouched == resolved_minutes(opt_string(unvouched_env), unvouched_configured, 120),
{
    Thresholds {
        gap: max_gap_minutes(gap_env, gap_configured),
        unvouched: max_unvouched_minutes(unvouched_env, unvouched_configured),
    }
}

/// Half-open interval overlap: touching endpoints do not count.
pub fn overlaps(a_start: i64, a_end: i64, b_start: i64, b_end: i64) -> (r: bool)
    ensures
        r == (a_start < b_end && b_start < a_end),
{
    a_start < b_end && b_start < a_end
}

/// `stretch` minus `cut`: the zero, one or two stretches that survive.
pub open spec fn subtract_spec(stretch: (i64, i64), cut: (i64, i64)) -> Seq<(i64, i64)> {
    if !(stretch.0 < cut.1 && cut.0 < stretch.1) {
        seq![stretch]
    } else {
        (if stretch.0 < cut.0 {
            seq![(stretch.0, cut.0)]
        } else {
            seq![]
        }) + (if cut.1 < stretch.1 {
            seq![(cut.1, stretch.1)]
        } else {
            seq![]
        })
    }
}

/// `stretch` minus `cut`, as the zero, one or two stretches that survive.
pub fn subtract(stretch: (i64, i64), cut: (i64, i64)) -> (r: Vec<(i64, i64)>)
    ensures
        r@ == subtract_spec(stretch, cut),
{
    let (start, end) = stretch;
    let (cut_start, cut_end) = cut;
    let mut kept: Vec<(i64, i64)> = Vec::new();
    if !overlaps(start, end, cut_start, cut_end) {
        kept.push(stretch);
        assert(kept@ =~= seq![stretch]);
        return kept;
    }
    if start < cut_start {
        kept.push((start, cut_start));
    }
    if cut_end < end {
        kept.push((cut_end, end));
    }
    assert(kept@ =~= subtract_spec(stretch, cut));
    kept
}

/// Every stretch minus one cut, in order.
pub open spec fn cut_all(stretches: Seq<(i64, i64)>, cut: (i64, i64)) -> Seq<(i64, i64)>
    decreases stretches.len(),
{
    if stretches.len() == 0 {
        seq![]
    } else {
        cut_all(stretches.drop_last(), cut) + subtract_spec(stretches.last(), cut)
    }
}

fn cut_every(stretches: &Vec<(i64, i64)>, cut: (i64, i64)) -> (r: Vec<(i64, i64)>)
    ensures
        r@ == cut_all(stretches@, cut),
{
    let mut out: Vec<(i64, i64)> = Vec::new();
    let mut i: usize = 0;
    while i < stretches.len()
        invariant
            i <= stretches.len(),
            out@ == cut_all(stretches@.subrange(0, i as int), cut),
        decreases stretches.len() - i,
    {
        let ghost prev = stretches@.subrange(0, i as int);
        assert(stretches@.subrange(0, i + 1).drop_last() =~= prev);
        let pieces = subtract(stretches[i], cut);
        let mut j: usize = 0;
        let ghost before = out@;
        while j < pieces.len()
            invariant
                j <= pieces.len(),
                out@ == before + pieces@.subrange(0, j as int),
            decreases pieces.len() - j,
        {
            out.push(pieces[j]);
            j += 1;
            assert(out@ =~= before + pieces@.subrange(0, j as int));
        }
        assert(pieces@.subrange(0, pieces@.len() as int) =~= pieces@);
        i += 1;
    }
    assert(stretches@.subrange(0, stretches@.len() as int) =~= stretches@);
    out
}

// --- leases ------------------------------------------------------------------

/// The stretch a lease covers: its mark's start up to its expiry or `now`,
/// whichever comes first; nothing when that is empty.
pub open spec fn lease_cut(lease: Lease, now: int, t: Thresholds) -> Option<(i64, i64)> {
    let from = lease.mark.start as int;
    let until = if expiry(lease, t) < now {
        expiry(lease, t)
    } else {
        now
    };
    if until <= from {
        None
    } else {
        Some((from as i64, until as i64))
    }
}

/// What is left of `remaining` after every same-project lease of `leases` has
/// subtracted its covered stretch, in order.
pub open spec fn marks_fold(
    remaining: Seq<(i64, i64)>,
    leases: Seq<Lease>,
    project: Seq<char>,
    now: int,
    t: Thresholds,
) -> Seq<(i64, i64)>
    decreases leases.len(),
{
    if leases.len() == 0 {
        remaining
    } else {
        let rest = marks_fold(remaining, leases.drop_last(), project, now, t);
        let lease = leases.last();
        if same_project_spec(lease.mark.project@, project) {
            match lease_cut(lease, now, t) {
                Some(cut) => cut_all(rest, cut),
                None => rest,
            }
        } else {
            rest
        }
    }
}

fn lease_cut_exec(lease: &Lease, now: i64, t: Thresholds) -> (r: Option<(i64, i64)>)
    ensures
        r == lease_cut(*lease, now as int, t),
{
    let expires: i128 = match lease.last_seen {
        Some(seen) => (seen as i128) + ((t.gap as i128) + 1) * 60,
        None => (lease.mark.start as i128) + ((t.unvouched as i128) + 1) * 60,
    };
    let until: i128 = if expires < now as i128 {
        expires
    } else {
        now as i128
    };
    let from = lease.mark.start;
    if until <= from as i128 {
        None
    } else {
        Some((from, until as i64))
    }
}

/// What is left of `start → end` after removing every same-project lease's
/// covered interval — `mark.start` up to `now` or its expiry. Subtraction, never
/// any-overlap.
pub fn uncovered_by_marks(
    project: &str,
    start: i64,
    end: i64,
    leases: &[Lease],
    now: i64,
    thresholds: Thresholds,
) -> (r: Vec<(i64, i64)>)
    ensures
        r@ == marks_fold(seq![(start, end)], leases@, project@, now as int, thresholds),
{
    let mut remaining: Vec<(i64, i64)> = Vec::new();
    remaining.push((start, end));
    let mut i: usize = 0;
    while i < leases.len()
        invariant
            i <= leases.len(),
            remaining@ == marks_fold(
                seq![(start, end)],
                leases@.subrange(0, i as int),
                project@,
                now as int,
                thresholds,
            ),
        decreases leases.len() - i,
    {
        assert(leases@.subrange(0, i + 1).drop_last() =~= leases@.subrange(0, i as int));
        if same_project(leases[i].mark.project.as_str(), project) {
            match lease_cut_exec(&leases[i], now, thresholds) {
                Some(cut) => {
                    remaining = cut_every(&remaining, cut);
                },
                None => {},
            }
        }
        i += 1;
    }
    assert(leases@.subrange(0, leases@.len() as int) =~= leases@);
    remaining
}

// --- entries -----------------------------------------------------------------

/// Whether an entry vouches for a session of `project`: tagged `#agent` or
/// `#auto`, naming that session or none, and of the same project.
pub open spec fn entry_covers(e: TimeEntry, project: Seq<char>, session: Seq<char>) -> bool {
    &&& (has_tag_in(e.tags@, "agent"@) || has_tag_in(e.tags@, "auto"@))
    &&& match agent_session_of(e.data) {
        Some(s) => s == session,
        None => true,
    }
    &&& match e.project {
        Some(p) => same_project_spec(p@, project),
        None => false,
    }
}

/// The stretch an entry covers: its span, a running one up to `now`.
pub open spec fn entry_cut(e: TimeEntry, now: int) -> Option<(i64, i64)> {
    let from = e.start_time as int;
    let until = match e.end_time {
        Some(t) => t as int,
        None => now,
    };
    if until <= from {
        None
    } else {
        Some((from as i64, until as i64))
    }
}

pub open spec fn entries_fold(
    remaining: Seq<(i64, i64)>,
    entries: Seq<TimeEntry>,
    project: Seq<char>,
    session: Seq<char>,
    now: int,
) -> Seq<(i64, i64)>
    decreases entries.len(),
{
    if entries.len() == 0 {
        remaining
    } else {
        let rest = entries_fold(remaining, entries.drop_last(), project, session, now);
        let e = entries.last();
        if entry_covers(e, project, session) {
            match entry_cut(e, now) {
                Some(cut) => cut_all(rest, cut),
                None => rest,
            }
        } else {
            rest
        }
    }
}

fn entry_covers_exec(e: &TimeEntry, project: &str, session: &str) -> (r: bool)
    ensures
        r == entry_covers(*e, project@, session@),
{
    if !(e.has_tag("agent") || e.has_tag("auto")) {
        return false;
    }
    let names_other = match agent_session(&e.data) {
        Some(its) => !chars_eq(&chars_of(its.as_str()), &chars_of(session)),
        None => false,
    };
    if names_other {
        return false;
    }
    match &e.project {
        Some(p) => same_project(p.as_str(), project),
        None => false,
    }
}

/// What is left of `stretches` after removing every covering entry's span; an
/// entry covers when tagged `#agent` or `#auto`, and one still open covers up to
/// `now`. An entry naming a session covers that session only.
pub fn uncovered_by_entries(
    project: &str,
    session: &str,
    stretches: Vec<(i64, i64)>,
    entries: &[TimeEntry],
    now: i64,
) -> (r: Vec<(i64, i64)>)
    ensures
        r@ == entries_fold(stretches@, entries@, project@, session@, now as int),
{
    let mut remaining = stretches;
    let mut i: usize = 0;
    while i < entries.len()
        invariant
            i <= entries.len(),
            remaining@ == entries_fold(
                stretches@,
                entries@.subrange(0, i as int),
                project@,
                session@,
                now as int,
            ),
        decreases entries.len() - i,
    {
        assert(entries@.subrange(0, i + 1).drop_last() =~= entries@.subrange(0, i as int));
        if entry_covers_exec(&entries[i], project, session) {
            let from = entries[i].start_time;
            let until = match entries[i].end_time {
                Some(t) => t,
                None => now,
            };
            if until > from {
                remaining = cut_every(&remaining, (from, until));
            }
        }
        i += 1;
    }
    assert(entries@.subrange(0, entries@.len() as int) =~= entries@);
    remaining
}

// --- dismissals ------------------------------------------------------------

/// The stretch a dismissal takes out of one session of `project`.
pub open spec fn dismissal_cut(d: Dismissal, project: Seq<char>, session: Seq<char>) -> Option<(i64, i64)> {
    if d.session_id@ == session && same_project_spec(d.project@, project) && d.end > d.start {
        Some((d.start, d.end))
    } else {
        None
    }
}

pub open spec fn dismissals_fold(
    remaining: Seq<(i64, i64)>,
    dismissals: Seq<Dismissal>,
    project: Seq<char>,
    session: Seq<char>,
) -> Seq<(i64, i64)>
    decreases dismissals.len(),
{
    if dismissals.len() == 0 {
        remaining
    } else {
        let rest = dismissals_fold(remaining, dismissals.drop_last(), project, session);
        match dismissal_cut(dismissals.last(), project, session) {
            Some(cut) => cut_all(rest, cut),
            None => rest,
        }
    }
}

/// What is left of `stretches` after removing every dismissal **of this
/// session** whose project matches.
pub fn uncovered_by_dismissals(
    project: &str,
    session: &str,
    stretches: Vec<(i64, i64)>,
    dismissals: &[Dismissal],
) -> (r: Vec<(i64, i64)>)
    ensures
        r@ == dismissals_fold(stretches@, dismissals@, project@, session@),
{
    let mut remaining = stretches;
    let session_chars = chars_of(session);
    let mut i: usize = 0;
    while i < dismissals.len()
        invariant
            i <= dismissals.len(),
            session_chars@ == session@,
            remaining@ == dismissals_fold(
                stretches@,
                dismissals@.subrange(0, i as int),
                project@,
                session@,
            ),
        decreases dismissals.len() - i,
    {
        assert(dismissals@.subrange(0, i + 1).drop_last() =~= dismissals@.subrange(0, i as int));
        let d = &dismissals[i];
        if chars_eq(&chars_of(d.session_id.as_str()), &session_chars) && same_project(
            d.project.as_str(),
            project,
        ) && d.end > d.start {
            remaining = cut_every(&remaining, (d.start, d.end));
        }
        i += 1;
    }
    assert(dismissals@.subrange(0, dismissals@.len() as int) =~= dismissals@);
    remaining
}

// --- where a session ends ------------------------------------------------------

/// A session whose instants chrono can hold.
pub open spec fn session_ok(s: Session) -> bool {
    &&& epoch_ok(s.start as int)
    &&& forall|i: int| 0 <= i < s.subagent_at@.len() ==> epoch_ok(#[trigger] s.subagent_at@[i] as int)
}

/// The lease's grace, in minutes: one past the gap threshold for a session with
/// dispatches, one past the unvouched one without.
pub open spec fn grace_minutes(lively: bool, t: Thresholds) -> int {
    (if lively {
        t.gap
    } else {
        t.unvouched
    }) + 1
}

pub open spec fn max_of(s: Seq<i64>, floor: int) -> int
    decreases s.len(),
{
    if s.len() == 0 {
        floor
    } else {
        let rest = max_of(s.drop_last(), floor);
        if s.last() > rest {
            s.last() as int
        } else {
            rest
        }
    }
}

/// Where a session is measured to, and the instant of its last evidence when the
/// grace has run out: its own `end=`; else the grace past its last dispatch (or
/// its start with none), clamped to `now`.
pub open spec fn session_end_spec(s: Session, now: int, t: Thresholds) -> (int, Option<int>) {
    match s.end {
        Some(e) => (e as int, None),
        None => {
            let last = max_of(s.subagent_at@, s.start as int);
            let bound = last + grace_minutes(s.subagent_at@.len() > 0, t) * 60;
            (
                if bound < now {
                    bound
                } else {
                    now
                },
                if bound <= now {
                    Some(last)
                } else {
                    None
                },
            )
        },
    }
}

/// Where a session is measured to: its own `end=`, else the lease's grace past its
/// last evidence of life — its last dispatch, or its start with none — clamped to
/// `now`. The second value is that evidence's instant, and `None` while the grace
/// still has time left.
pub fn session_end(session: &Session, now: i64, thresholds: Thresholds) -> (r: (i64, Option<i64>))
    requires
        thresholds_ok(thresholds),
        session_ok(*session),
    ensures
        r.0 == session_end_spec(*session, now as int, thresholds).0,
        match r.1 {
            Some(v) => session_end_spec(*session, now as int, thresholds).1 == Some(v as int),
            None => session_end_spec(*session, now as int, thresholds).1 is None,
        },
{
    if let Some(end) = session.end {
        return (end, None);
    }
    let mut last: i64 = session.start;
    let mut i: usize = 0;
    while i < session.subagent_at.len()
        invariant
            i <= session.subagent_at.len(),
            last == max_of(session.subagent_at@.subrange(0, i as int), session.start as int),
            epoch_ok(last as int),
            session_ok(*session),
        decreases session.subagent_at.len() - i,
    {
        assert(session.subagent_at@.subrange(0, i + 1).drop_last() =~= session.subagent_at@.subrange(
            0,
            i as int,
        ));
        if session.subagent_at[i] > last {
            last = session.subagent_at[i];
        }
        i += 1;
    }
    assert(session.subagent_at@.subrange(0, session.subagent_at@.len() as int)
        =~= session.subagent_at@);
    let allowed: i64 = if session.subagent_at.len() > 0 {
        thresholds.gap
    } else {
        thresholds.unvouched
    };
    let bound: i128 = (last as i128) + ((allowed as i128) + 1) * 60;
    let end = if bound < now as i128 {
        bound as i64
    } else {
        now
    };
    (end, if bound <= now as i128 {
        Some(last)
    } else {
        None
    })
}

// --- rows ----------------------------------------------------------------------

/// Every piece minus every hole, the holes in order.
pub open spec fn cut_holes(pieces: Seq<(i64, i64)>, holes: Seq<(i64, i64)>) -> Seq<(i64, i64)>
    decreases holes.len(),
{
    if holes.len() == 0 {
        pieces
    } else {
        cut_all(cut_holes(pieces, holes.drop_last()), holes.last())
    }
}

/// Each fragment cut at its idle holes: the silences between dispatches longer
/// than the gap threshold.
pub open spec fn active_spec(fragments: Seq<(i64, i64)>, at: Seq<i64>, gap: int) -> Seq<(i64, i64)>
    decreases fragments.len(),
{
    if fragments.len() == 0 {
        seq![]
    } else {
        let f = fragments.last();
        active_spec(fragments.drop_last(), at, gap) + cut_holes(
            seq![f],
            gaps_from(f.0 as int, f.1 as int, at, gap),
        )
    }
}

pub open spec fn count_in(at: Seq<i64>, from: int, to: int) -> nat
    decreases at.len(),
{
    if at.len() == 0 {
        0
    } else {
        count_in(at.drop_last(), from, to) + (if from <= at.last() < to {
            1nat
        } else {
            0nat
        })
    }
}

/// The row one active stretch of a session becomes, if it becomes one: a stretch
/// under a minute is a row nothing can cover, and an instant chrono cannot hold
/// is no row either.
pub open spec fn row_of(
    s: Session,
    project: String,
    stretch: (i64, i64),
    end: int,
    bounded_at: Option<int>,
) -> Option<Unaccounted> {
    let (from, to) = stretch;
    if to - from < 60 || !in_range(from as int) || !in_range(to as int) {
        None
    } else {
        Some(
            Unaccounted {
                project: project,
                session_id: s.id,
                start: from,
                end: to,
                subagents: if s.subagent_at@.len() == 0 {
                    s.subagents
                } else {
                    count_in(s.subagent_at@, from as int, to as int) as usize
                },
                abandoned: match bounded_at {
                    Some(last) => to == end || to == last,
                    None => false,
                },
            },
        )
    }
}

pub open spec fn rows_of(
    s: Session,
    project: String,
    stretches: Seq<(i64, i64)>,
    end: int,
    bounded_at: Option<int>,
) -> Seq<Unaccounted>
    decreases stretches.len(),
{
    if stretches.len() == 0 {
        seq![]
    } else {
        let rest = rows_of(s, project, stretches.drop_last(), end, bounded_at);
        match row_of(s, project, stretches.last(), end, bounded_at) {
            Some(row) => rest.push(row),
            None => rest,
        }
    }
}

/// Every unaccounted row of one session, in time order: nothing for a session
/// with no project, since it cannot be reconciled against anything.
pub open spec fn session_rows(
    s: Session,
    leases: Seq<Lease>,
    entries: Seq<TimeEntry>,
    dismissals: Seq<Dismissal>,
    now: int,
    t: Thresholds,
) -> Seq<Unaccounted> {
    match s.project {
        None => seq![],
        Some(project) => {
            let (end, bounded_at) = session_end_spec(s, now, t);
            let stretches = marks_fold(seq![(s.start, end as i64)], leases, project@, now, t);
            let covered = entries_fold(stretches, entries, project@, s.id@, now);
            let fragments = dismissals_fold(covered, dismissals, project@, s.id@);
            let active = if s.subagent_at@.len() == 0 {
                fragments
            } else {
                active_spec(fragments, s.subagent_at@, t.gap as int)
            };
            rows_of(s, project, active, end, bounded_at)
        },
    }
}

// --- one session's rows are its own ------------------------------------------------

/// The entries that may speak for `session`: all but those naming another session.
pub open spec fn own_entries(entries: Seq<TimeEntry>, session: Seq<char>) -> Seq<TimeEntry>
    decreases entries.len(),
{
    if entries.len() == 0 {
        seq![]
    } else {
        let rest = own_entries(entries.drop_last(), session);
        match agent_session_of(entries.last().data) {
            Some(x) => if x == session { rest.push(entries.last()) } else { rest },
            None => rest.push(entries.last()),
        }
    }
}

/// The dismissals of `session` alone.
pub open spec fn own_dismissals(dismissals: Seq<Dismissal>, session: Seq<char>) -> Seq<Dismissal>
    decreases dismissals.len(),
{
    if dismissals.len() == 0 {
        seq![]
    } else {
        let rest = own_dismissals(dismissals.drop_last(), session);
        if dismissals.last().session_id@ == session { rest.push(dismissals.last()) } else { rest }
    }
}

proof fn lemma_entries_fold_own(remaining: Seq<(i64, i64)>, entries: Seq<TimeEntry>, project: Seq<char>, session: Seq<char>, now: int)
    ensures
        entries_fold(remaining, entries, project, session, now)
            == entries_fold(remaining, own_entries(entries, session), project, session, now),
    decreases entries.len(),
{
    if entries.len() > 0 {
        lemma_entries_fold_own(remaining, entries.drop_last(), project, session, now);
        let own = own_entries(entries, session);
        let rest = own_entries(entries.drop_last(), session);
        if own != rest {
            assert(own.drop_last() =~= rest);
        }
    }
}

proof fn lemma_dismissals_fold_own(remaining: Seq<(i64, i64)>, dismissals: Seq<Dismissal>, project: Seq<char>, session: Seq<char>)
    ensures
        dismissals_fold(remaining, dismissals, project, session)
            == dismissals_fold(remaining, own_dismissals(dismissals, session), project, session),
    decreases dismissals.len(),
{
    if dismissals.len() > 0 {
        lemma_dismissals_fold_own(remaining, dismissals.drop_last(), project, session);
        let own = own_dismissals(dismissals, session);
        let rest = own_dismissals(dismissals.drop_last(), session);
        if own != rest {
            assert(own.drop_last() =~= rest);
        }
    }
}

/// Another session's dismissal, or an entry stamped with another session, never
/// clears a row of this one: a session's rows are the same with every entry naming
/// another session and every dismissal of another session taken away.
pub proof fn lemma_other_sessions_never_clear_a_row(
    s: Session,
    leases: Seq<Lease>,
    entries: Seq<TimeEntry>,
    dismissals: Seq<Dismissal>,
    now: int,
    t: Thresholds,
)
    ensures
        session_rows(s, leases, entries, dismissals, now, t) == session_rows(
            s,
            leases,
            own_entries(entries, s.id@),
            own_dismissals(dismissals, s.id@),
            now,
            t,
        ),
{
    if let Some(project) = s.project {
        let (end, bounded_at) = session_end_spec(s, now, t);
        let stretches = marks_fold(seq![(s.start, end as i64)], leases, project@, now, t);
        lemma_entries_fold_own(stretches, entries, project@, s.id@, now);
        let covered = entries_fold(stretches, entries, project@, s.id@, now);
        lemma_dismissals_fold_own(covered, dismissals, project@, s.id@);
    }
}


pub open spec fn all_rows(
    sessions: Seq<Session>,
    leases: Seq<Lease>,
    entries: Seq<TimeEntry>,
    dismissals: Seq<Dismissal>,
    now: int,
    t: Thresholds,
) -> Seq<Unaccounted>
    decreases sessions.len(),
{
    if sessions.len() == 0 {
        seq![]
    } else {
        all_rows(sessions.drop_last(), leases, entries, dismissals, now, t) + session_rows(
            sessions.last(),
            leases,
            entries,
            dismissals,
            now,
            t,
        )
    }
}

/// How many leading rows of a newest-first list start at or after `start`.
pub open spec fn newer_prefix(sorted: Seq<Unaccounted>, start: i64) -> nat
    decreases sorted.len(),
{
    if sorted.len() == 0 {
        0
    } else if sorted[0].start >= start {
        1 + newer_prefix(sorted.drop_first(), start)
    } else {
        0
    }
}

/// `row` placed after every row that starts at or after it.
pub open spec fn insert_newest_first(sorted: Seq<Unaccounted>, row: Unaccounted) -> Seq<Unaccounted> {
    let k = newer_prefix(sorted, row.start) as int;
    sorted.subrange(0, k) + seq![row] + sorted.subrange(k, sorted.len() as int)
}

/// The rows newest first, rows with one start keeping their order: what a stable
/// sort on the reversed start gives.
pub open spec fn newest_first(rows: Seq<Unaccounted>) -> Seq<Unaccounted>
    decreases rows.len(),
{
    if rows.len() == 0 {
        seq![]
    } else {
        insert_newest_first(newest_first(rows.drop_last()), rows.last())
    }
}

/// No row starts after the one before it.
pub open spec fn newest_ordered(rows: Seq<Unaccounted>) -> bool {
    forall|i: int, j: int| 0 <= i < j < rows.len() ==> rows[i].start >= rows[j].start
}

proof fn lemma_newer_prefix_splits(sorted: Seq<Unaccounted>, start: i64)
    requires
        newest_ordered(sorted),
    ensures
        newer_prefix(sorted, start) <= sorted.len(),
        forall|i: int| 0 <= i < newer_prefix(sorted, start) ==> (#[trigger] sorted[i]).start >= start,
        forall|i: int| newer_prefix(sorted, start) <= i < sorted.len() ==> (#[trigger] sorted[i]).start < start,
    decreases sorted.len(),
{
    if sorted.len() > 0 {
        let rest = sorted.drop_first();
        assert forall|i: int, j: int| 0 <= i < j < rest.len() implies rest[i].start >= rest[j].start by {
            assert(rest[i] == sorted[i + 1] && rest[j] == sorted[j + 1]);
        }
        lemma_newer_prefix_splits(rest, start);
        if sorted[0].start >= start {
            assert forall|i: int| 0 <= i < newer_prefix(sorted, start) implies (#[trigger] sorted[i]).start >= start by {
                if i > 0 {
                    assert(sorted[i] == rest[i - 1]);
                }
            }
            assert forall|i: int| newer_prefix(sorted, start) <= i < sorted.len() implies (#[trigger] sorted[i]).start < start by {
                assert(sorted[i] == rest[i - 1]);
            }
        } else {
            assert forall|i: int| 0 <= i < sorted.len() implies (#[trigger] sorted[i]).start < start by {
                assert(sorted[0].start >= sorted[i].start);
            }
        }
    }
}

/// The unaccounted rows come newest first, and the sort neither loses nor adds a
/// row: what comes out is a permutation of what the sessions found.
pub proof fn lemma_rows_come_newest_first(rows: Seq<Unaccounted>)
    ensures
        newest_ordered(newest_first(rows)),
        newest_first(rows).to_multiset() == rows.to_multiset(),
    decreases rows.len(),
{
    broadcast use vstd::seq_lib::to_multiset_build, vstd::seq_lib::to_multiset_insert;
    if rows.len() == 0 {
        assert(newest_first(rows) =~= rows);
    } else {
        let rest = rows.drop_last();
        let row = rows.last();
        lemma_rows_come_newest_first(rest);
        let sorted = newest_first(rest);
        lemma_newer_prefix_splits(sorted, row.start);
        let k = newer_prefix(sorted, row.start) as int;
        let out = newest_first(rows);
        assert(out =~= sorted.insert(k, row));
        assert forall|i: int, j: int| 0 <= i < j < out.len() implies out[i].start >= out[j].start by {
            if j < k {
                assert(out[i] == sorted[i] && out[j] == sorted[j]);
            } else if j == k {
                assert(out[i] == sorted[i]);
            } else if i < k {
                assert(out[i] == sorted[i] && out[j] == sorted[j - 1]);
            } else if i == k {
                assert(out[j] == sorted[j - 1]);
            } else {
                assert(out[i] == sorted[i - 1] && out[j] == sorted[j - 1]);
            }
        }
        assert(rows =~= rest.push(row));
    }
}

/// The rows of one session, in the order given.
pub open spec fn of_session(rows: Seq<Unaccounted>, id: Seq<char>) -> Seq<Unaccounted>
    decreases rows.len(),
{
    if rows.len() == 0 {
        seq![]
    } else {
        let rest = of_session(rows.drop_last(), id);
        if rows.last().session_id@ == id {
            rest.push(rows.last())
        } else {
            rest
        }
    }
}

proof fn lemma_of_session_add(a: Seq<Unaccounted>, b: Seq<Unaccounted>, id: Seq<char>)
    ensures
        of_session(a + b, id) == of_session(a, id) + of_session(b, id),
    decreases b.len(),
{
    if b.len() == 0 {
        assert(a + b =~= a);
        assert(of_session(a, id) + of_session(b, id) =~= of_session(a, id));
    } else {
        lemma_of_session_add(a, b.drop_last(), id);
        assert((a + b).drop_last() =~= a + b.drop_last());
        assert((a + b).last() == b.last());
        if b.last().session_id@ == id {
            assert(of_session(a, id) + of_session(b, id) =~= (of_session(a, id) + of_session(b.drop_last(), id)).push(b.last()));
        }
    }
}

proof fn lemma_of_session_bounds(a: Seq<Unaccounted>, id: Seq<char>, t: i64)
    ensures
        (forall|i: int| 0 <= i < a.len() ==> (#[trigger] a[i]).start >= t)
            ==> (forall|i: int| 0 <= i < of_session(a, id).len() ==> (#[trigger] of_session(a, id)[i]).start >= t),
        (forall|i: int| 0 <= i < a.len() ==> (#[trigger] a[i]).start < t)
            ==> (forall|i: int| 0 <= i < of_session(a, id).len() ==> (#[trigger] of_session(a, id)[i]).start < t),
    decreases a.len(),
{
    if a.len() > 0 {
        let rest = a.drop_last();
        lemma_of_session_bounds(rest, id, t);
        assert(forall|i: int| 0 <= i < rest.len() ==> rest[i] == a[i]);
        let r = of_session(a, id);
        let q = of_session(rest, id);
        if a.last().session_id@ == id {
            assert(forall|i: int| 0 <= i < q.len() ==> r[i] == q[i]);
            assert(r[q.len() as int] == a[a.len() - 1]);
        }
    }
}

proof fn lemma_newer_prefix_add(a: Seq<Unaccounted>, b: Seq<Unaccounted>, t: i64)
    requires
        forall|i: int| 0 <= i < a.len() ==> (#[trigger] a[i]).start >= t,
    ensures
        newer_prefix(a + b, t) == a.len() + newer_prefix(b, t),
    decreases a.len(),
{
    if a.len() > 0 {
        assert((a + b).drop_first() =~= a.drop_first() + b);
        assert((a + b)[0] == a[0]);
        assert forall|i: int| 0 <= i < a.drop_first().len() implies (#[trigger] a.drop_first()[i]).start >= t by {
            assert(a.drop_first()[i] == a[i + 1]);
        }
        lemma_newer_prefix_add(a.drop_first(), b, t);
    } else {
        assert(a + b =~= b);
    }
}

/// Sorting newest first and keeping one session's rows can be done in either
/// order: the sort is stable, and whether a row is kept depends on it alone.
proof fn lemma_of_session_newest_first(rows: Seq<Unaccounted>, id: Seq<char>)
    ensures
        of_session(newest_first(rows), id) == newest_first(of_session(rows, id)),
    decreases rows.len(),
{
    if rows.len() > 0 {
        let rest = rows.drop_last();
        let x = rows.last();
        lemma_of_session_newest_first(rest, id);
        lemma_rows_come_newest_first(rest);
        let sorted = newest_first(rest);
        lemma_newer_prefix_splits(sorted, x.start);
        let k = newer_prefix(sorted, x.start) as int;
        let front = sorted.subrange(0, k);
        let back = sorted.subrange(k, sorted.len() as int);
        assert(sorted =~= front + back);
        assert(newest_first(rows) == front + seq![x] + back);
        lemma_of_session_add(front + seq![x], back, id);
        lemma_of_session_add(front, seq![x], id);
        lemma_of_session_add(front, back, id);
        assert(seq![x].drop_last() =~= Seq::<Unaccounted>::empty());
        assert(seq![x].last() == x);
        assert(of_session(seq![x].drop_last(), id) == Seq::<Unaccounted>::empty());
        let p = of_session(front, id);
        let q = of_session(back, id);
        assert forall|i: int| 0 <= i < front.len() implies (#[trigger] front[i]).start >= x.start by {
            assert(front[i] == sorted[i]);
        }
        assert forall|i: int| 0 <= i < back.len() implies (#[trigger] back[i]).start < x.start by {
            assert(back[i] == sorted[i + k]);
        }
        lemma_of_session_bounds(front, id, x.start);
        lemma_of_session_bounds(back, id, x.start);
        if x.session_id@ == id {
            assert(of_session(seq![x], id) =~= seq![x]);
            lemma_newer_prefix_add(p, q, x.start);
            if q.len() > 0 {
                assert(q[0].start < x.start);
            }
            assert(newer_prefix(p + q, x.start) == p.len());
            assert((p + q).subrange(0, p.len() as int) =~= p);
            assert((p + q).subrange(p.len() as int, (p + q).len() as int) =~= q);
            assert(of_session(newest_first(rows), id) =~= p + seq![x] + q);
            let fr = of_session(rows, id);
            assert(fr == of_session(rest, id).push(x));
            assert(fr.drop_last() =~= of_session(rest, id));
            assert(fr.last() == x);
            assert(newest_first(fr) == insert_newest_first(newest_first(of_session(rest, id)), x));
            assert(of_session(sorted, id) == p + q);
            assert(insert_newest_first(p + q, x) =~= p + seq![x] + q);
        } else {
            assert(of_session(seq![x], id) =~= Seq::<Unaccounted>::empty());
            assert(of_session(newest_first(rows), id) =~= p + q);
            assert(of_session(rows, id) == of_session(rest, id));
            assert(of_session(sorted, id) == p + q);
        }
    }
}

proof fn lemma_rows_of_own(s: Session, project: String, stretches: Seq<(i64, i64)>, end: int, bounded_at: Option<int>)
    ensures
        forall|i: int|
            0 <= i < rows_of(s, project, stretches, end, bounded_at).len() ==> (#[trigger] rows_of(
                s,
                project,
                stretches,
                end,
                bounded_at,
            )[i]).session_id == s.id,
    decreases stretches.len(),
{
    if stretches.len() > 0 {
        lemma_rows_of_own(s, project, stretches.drop_last(), end, bounded_at);
        let rest = rows_of(s, project, stretches.drop_last(), end, bounded_at);
        let all = rows_of(s, project, stretches, end, bounded_at);
        match row_of(s, project, stretches.last(), end, bounded_at) {
            Some(row) => {
                assert(all == rest.push(row));
                assert forall|i: int| 0 <= i < all.len() implies (#[trigger] all[i]).session_id == s.id by {
                    if i < rest.len() {
                        assert(all[i] == rest[i]);
                    }
                }
            },
            None => {},
        }
    }
}

proof fn lemma_session_rows_own(s: Session, leases: Seq<Lease>, entries: Seq<TimeEntry>, dismissals: Seq<Dismissal>, now: int, t: Thresholds)
    ensures
        of_session(session_rows(s, leases, entries, dismissals, now, t), s.id@) == session_rows(
            s,
            leases,
            entries,
            dismissals,
            now,
            t,
        ),
        forall|id: Seq<char>| id != s.id@ ==> #[trigger] of_session(session_rows(s, leases, entries, dismissals, now, t), id).len() == 0,
{
    let rows = session_rows(s, leases, entries, dismissals, now, t);
    if let Some(project) = s.project {
        let (end, bounded_at) = session_end_spec(s, now, t);
        let stretches = marks_fold(seq![(s.start, end as i64)], leases, project@, now, t);
        let covered = entries_fold(stretches, entries, project@, s.id@, now);
        let fragments = dismissals_fold(covered, dismissals, project@, s.id@);
        let active = if s.subagent_at@.len() == 0 {
            fragments
        } else {
            active_spec(fragments, s.subagent_at@, t.gap as int)
        };
        lemma_rows_of_own(s, project, active, end, bounded_at);
    }
    lemma_of_session_all(rows, s.id@);
}

proof fn lemma_of_session_all(rows: Seq<Unaccounted>, id: Seq<char>)
    requires
        forall|i: int| 0 <= i < rows.len() ==> (#[trigger] rows[i]).session_id@ == id,
    ensures
        of_session(rows, id) == rows,
        forall|other: Seq<char>| other != id ==> #[trigger] of_session(rows, other).len() == 0,
    decreases rows.len(),
{
    if rows.len() > 0 {
        assert forall|i: int| 0 <= i < rows.drop_last().len() implies (#[trigger] rows.drop_last()[i]).session_id@ == id by {
            assert(rows.drop_last()[i] == rows[i]);
        }
        lemma_of_session_all(rows.drop_last(), id);
        assert(rows.drop_last().push(rows.last()) =~= rows);
        assert(rows[rows.len() - 1].session_id@ == id);
        assert forall|other: Seq<char>| other != id implies #[trigger] of_session(rows, other).len() == 0 by {
            assert(of_session(rows.drop_last(), other).len() == 0);
        }
    }
}

proof fn lemma_all_rows_of_session(
    sessions: Seq<Session>,
    id: Seq<char>,
    leases: Seq<Lease>,
    entries: Seq<TimeEntry>,
    dismissals: Seq<Dismissal>,
    now: int,
    t: Thresholds,
)
    ensures
        (forall|i: int| 0 <= i < sessions.len() ==> (#[trigger] sessions[i]).id@ != id) ==> of_session(
            all_rows(sessions, leases, entries, dismissals, now, t),
            id,
        ).len() == 0,
        forall|k: int|
            0 <= k < sessions.len() && (#[trigger] sessions[k]).id@ == id && (forall|i: int|
                0 <= i < sessions.len() && i != k ==> (#[trigger] sessions[i]).id@ != id) ==> of_session(
                all_rows(sessions, leases, entries, dismissals, now, t),
                id,
            ) == session_rows(sessions[k], leases, entries, dismissals, now, t),
    decreases sessions.len(),
{
    if sessions.len() > 0 {
        let before = sessions.drop_last();
        let last = sessions.last();
        lemma_all_rows_of_session(before, id, leases, entries, dismissals, now, t);
        lemma_of_session_add(
            all_rows(before, leases, entries, dismissals, now, t),
            session_rows(last, leases, entries, dismissals, now, t),
            id,
        );
        lemma_session_rows_own(last, leases, entries, dismissals, now, t);
        let head = of_session(all_rows(before, leases, entries, dismissals, now, t), id);
        let tail = of_session(session_rows(last, leases, entries, dismissals, now, t), id);
        if forall|i: int| 0 <= i < sessions.len() ==> (#[trigger] sessions[i]).id@ != id {
            assert forall|i: int| 0 <= i < before.len() implies (#[trigger] before[i]).id@ != id by {
                assert(before[i] == sessions[i]);
            }
            assert(sessions[sessions.len() - 1].id@ != id);
            assert(head + tail =~= Seq::<Unaccounted>::empty());
        }
        assert forall|k: int|
            0 <= k < sessions.len() && (#[trigger] sessions[k]).id@ == id && (forall|i: int|
                0 <= i < sessions.len() && i != k ==> (#[trigger] sessions[i]).id@ != id) implies of_session(
                all_rows(sessions, leases, entries, dismissals, now, t),
                id,
            ) == session_rows(sessions[k], leases, entries, dismissals, now, t) by {
            if k == sessions.len() - 1 {
                assert forall|i: int| 0 <= i < before.len() implies (#[trigger] before[i]).id@ != id by {
                    assert(before[i] == sessions[i]);
                }
                assert(head + tail =~= tail);
            } else {
                assert(before[k] == sessions[k]);
                assert forall|i: int| 0 <= i < before.len() && i != k implies (#[trigger] before[i]).id@ != id by {
                    assert(before[i] == sessions[i]);
                }
                assert(sessions[sessions.len() - 1].id@ != id);
                assert(tail.len() == 0);
                assert(head + tail =~= head);
            }
        }
    }
}

/// What `unaccounted` answers for one session depends on that session's own
/// entries and dismissals alone: adding entries stamped with other sessions, or
/// dismissals naming them, never clears or changes a row of it. Session ids are
/// distinct, as their files' names are.
pub proof fn lemma_a_session_keeps_its_rows(
    sessions: Seq<Session>,
    k: int,
    leases: Seq<Lease>,
    entries: Seq<TimeEntry>,
    dismissals: Seq<Dismissal>,
    more_entries: Seq<TimeEntry>,
    more_dismissals: Seq<Dismissal>,
    now: int,
    t: Thresholds,
)
    requires
        0 <= k < sessions.len(),
        forall|i: int, j: int| 0 <= i < j < sessions.len() ==> (#[trigger] sessions[i]).id@ != (#[trigger] sessions[j]).id@,
        own_entries(more_entries, sessions[k].id@) == own_entries(entries, sessions[k].id@),
        own_dismissals(more_dismissals, sessions[k].id@) == own_dismissals(dismissals, sessions[k].id@),
    ensures
        of_session(newest_first(all_rows(sessions, leases, entries, dismissals, now, t)), sessions[k].id@) == of_session(
            newest_first(all_rows(sessions, leases, more_entries, more_dismissals, now, t)),
            sessions[k].id@,
        ),
{
    let s = sessions[k];
    let id = s.id@;
    assert forall|i: int| 0 <= i < sessions.len() && i != k implies (#[trigger] sessions[i]).id@ != id by {
        if i < k {
            assert(sessions[i].id@ != sessions[k].id@);
        } else {
            assert(sessions[k].id@ != sessions[i].id@);
        }
    }
    lemma_of_session_newest_first(all_rows(sessions, leases, entries, dismissals, now, t), id);
    lemma_of_session_newest_first(all_rows(sessions, leases, more_entries, more_dismissals, now, t), id);
    lemma_all_rows_of_session(sessions, id, leases, entries, dismissals, now, t);
    lemma_all_rows_of_session(sessions, id, leases, more_entries, more_dismissals, now, t);
    lemma_other_sessions_never_clear_a_row(s, leases, entries, dismissals, now, t);
    lemma_other_sessions_never_clear_a_row(s, leases, more_entries, more_dismissals, now, t);
}

fn cut_at_holes(fragment: (i64, i64), holes: &Vec<(i64, i64)>) -> (r: Vec<(i64, i64)>)
    ensures
        r@ == cut_holes(seq![fragment], holes@),
{
    let mut pieces: Vec<(i64, i64)> = Vec::new();
    pieces.push(fragment);
    let mut i: usize = 0;
    while i < holes.len()
        invariant
            i <= holes.len(),
            pieces@ == cut_holes(seq![fragment], holes@.subrange(0, i as int)),
        decreases holes.len() - i,
    {
        assert(holes@.subrange(0, i + 1).drop_last() =~= holes@.subrange(0, i as int));
        pieces = cut_every(&pieces, holes[i]);
        i += 1;
    }
    assert(holes@.subrange(0, holes@.len() as int) =~= holes@);
    pieces
}

fn active_stretches(fragments: &Vec<(i64, i64)>, at: &Vec<i64>, gap: i64) -> (r: Vec<(i64, i64)>)
    ensures
        r@ == active_spec(fragments@, at@, gap as int),
{
    let mut out: Vec<(i64, i64)> = Vec::new();
    let mut i: usize = 0;
    while i < fragments.len()
        invariant
            i <= fragments.len(),
            out@ == active_spec(fragments@.subrange(0, i as int), at@, gap as int),
        decreases fragments.len() - i,
    {
        assert(fragments@.subrange(0, i + 1).drop_last() =~= fragments@.subrange(0, i as int));
        let f = fragments[i];
        let holes = gaps_over(f.0, f.1, at.as_slice(), gap);
        let pieces = cut_at_holes(f, &holes);
        let ghost before = out@;
        let mut j: usize = 0;
        while j < pieces.len()
            invariant
                j <= pieces.len(),
                out@ == before + pieces@.subrange(0, j as int),
            decreases pieces.len() - j,
        {
            out.push(pieces[j]);
            j += 1;
            assert(out@ =~= before + pieces@.subrange(0, j as int));
        }
        assert(pieces@.subrange(0, pieces@.len() as int) =~= pieces@);
        i += 1;
    }
    assert(fragments@.subrange(0, fragments@.len() as int) =~= fragments@);
    out
}

fn count_between(at: &Vec<i64>, from: i64, to: i64) -> (r: usize)
    ensures
        r == count_in(at@, from as int, to as int),
{
    let mut n: usize = 0;
    let mut i: usize = 0;
    while i < at.len()
        invariant
            i <= at.len(),
            n == count_in(at@.subrange(0, i as int), from as int, to as int),
            n <= i,
        decreases at.len() - i,
    {
        assert(at@.subrange(0, i + 1).drop_last() =~= at@.subrange(0, i as int));
        if at[i] >= from && at[i] < to {
            n += 1;
        }
        i += 1;
    }
    assert(at@.subrange(0, at@.len() as int) =~= at@);
    n
}

fn copy_string(s: &String) -> (r: String)
    ensures
        r == *s,
{
    s.clone()
}

/// The rows of one session, in time order.
fn session_rows_exec(
    session: &Session,
    leases: &[Lease],
    entries: &[TimeEntry],
    dismissals: &[Dismissal],
    now: i64,
    thresholds: Thresholds,
) -> (r: Vec<Unaccounted>)
    requires
        thresholds_ok(thresholds),
        session_ok(*session),
    ensures
        r@ == session_rows(*session, leases@, entries@, dismissals@, now as int, thresholds),
{
    let project = match &session.project {
        Some(p) => p,
        None => {
            return Vec::new();
        },
    };
    let (end, bounded_at) = session_end(session, now, thresholds);
    let stretches = uncovered_by_marks(project.as_str(), session.start, end, leases, now, thresholds);
    let covered = uncovered_by_entries(project.as_str(), session.id.as_str(), stretches, entries, now);
    let fragments = uncovered_by_dismissals(project.as_str(), session.id.as_str(), covered, dismissals);
    let active = if session.subagent_at.len() == 0 {
        fragments
    } else {
        active_stretches(&fragments, &session.subagent_at, thresholds.gap)
    };
    let ghost bounded_spec = session_end_spec(*session, now as int, thresholds).1;
    let mut rows: Vec<Unaccounted> = Vec::new();
    let mut i: usize = 0;
    while i < active.len()
        invariant
            i <= active.len(),
            session.project == Some(*project),
            bounded_spec == session_end_spec(*session, now as int, thresholds).1,
            match bounded_at {
                Some(v) => bounded_spec == Some(v as int),
                None => bounded_spec is None,
            },
            rows@ == rows_of(*session, *project, active@.subrange(0, i as int), end as int, bounded_spec),
        decreases active.len() - i,
    {
        assert(active@.subrange(0, i + 1).drop_last() =~= active@.subrange(0, i as int));
        let (from, to) = active[i];
        if (to as i128) - (from as i128) >= 60 && representable(from) && representable(to) {
            let subagents = if session.subagent_at.len() == 0 {
                session.subagents
            } else {
                count_between(&session.subagent_at, from, to)
            };
            let abandoned = match bounded_at {
                Some(last) => to == end || to == last,
                None => false,
            };
            rows.push(
                Unaccounted {
                    project: copy_string(project),
                    session_id: copy_string(&session.id),
                    start: from,
                    end: to,
                    subagents,
                    abandoned,
                },
            );
        }
        i += 1;
    }
    assert(active@.subrange(0, active@.len() as int) =~= active@);
    rows
}

/// Every session's rows newest first — the trailing fragment of a bounded
/// session is marked abandoned. **Every** uncovered stretch is a row, whatever
/// the session's total: the floor is a warning threshold, applied by
/// [`over_floor`] and by nothing else, or a swept session's remainder would stop
/// being addressable.
pub fn unaccounted(
    sessions: &[Session],
    leases: &[Lease],
    entries: &[TimeEntry],
    dismissals: &[Dismissal],
    now: i64,
    thresholds: Thresholds,
) -> (r: Vec<Unaccounted>)
    requires
        thresholds_ok(thresholds),
        forall|i: int| 0 <= i < sessions@.len() ==> session_ok(#[trigger] sessions@[i]),
    ensures
        r@ == newest_first(all_rows(sessions@, leases@, entries@, dismissals@, now as int, thresholds)),
{
    let mut found: Vec<Unaccounted> = Vec::new();
    let mut i: usize = 0;
    while i < sessions.len()
        invariant
            i <= sessions.len(),
            thresholds_ok(thresholds),
            forall|k: int| 0 <= k < sessions@.len() ==> session_ok(#[trigger] sessions@[k]),
            found@ == all_rows(sessions@.subrange(0, i as int), leases@, entries@, dismissals@, now as int, thresholds),
        decreases sessions.len() - i,
    {
        assert(sessions@.subrange(0, i + 1).drop_last() =~= sessions@.subrange(0, i as int));
        assert(sessions@.subrange(0, i + 1).last() == sessions@[i as int]);
        let mut rows = session_rows_exec(&sessions[i], leases, entries, dismissals, now, thresholds);
        let ghost before = found@;
        let ghost added = rows@;
        let mut j: usize = 0;
        while j < rows.len()
            invariant
                j <= rows.len(),
                rows@ == added,
                found@ == before + added.subrange(0, j as int),
            decreases rows.len() - j,
        {
            let row = rows.remove(j);
            rows.insert(j, copy_row(&row));
            found.push(row);
            j += 1;
            assert(found@ =~= before + added.subrange(0, j as int));
        }
        assert(added.subrange(0, added.len() as int) =~= added);
        i += 1;
    }
    assert(sessions@.subrange(0, sessions@.len() as int) =~= sessions@);
    sort_newest_first(found)
}

fn copy_row(row: &Unaccounted) -> (r: Unaccounted)
    ensures
        r == *row,
{
    Unaccounted {
        project: copy_string(&row.project),
        session_id: copy_string(&row.session_id),
        start: row.start,
        end: row.end,
        subagents: row.subagents,
        abandoned: row.abandoned,
    }
}

fn sort_newest_first(rows: Vec<Unaccounted>) -> (r: Vec<Unaccounted>)
    ensures
        r@ == newest_first(rows@),
{
    let mut sorted: Vec<Unaccounted> = Vec::new();
    let mut rest = rows;
    let ghost all = rest@;
    let mut i: usize = 0;
    let n = rest.len();
    while i < n
        invariant
            i <= n,
            n == all.len(),
            rest@ == all.subrange(i as int, n as int),
            sorted@ == newest_first(all.subrange(0, i as int)),
        decreases n - i,
    {
        assert(all.subrange(0, i + 1).drop_last() =~= all.subrange(0, i as int));
        let row = rest.remove(0);
        assert(row == all[i as int]);
        assert(rest@ =~= all.subrange(i + 1, n as int));
        let mut k: usize = 0;
        assert(sorted@.subrange(0, sorted@.len() as int) =~= sorted@);
        while k < sorted.len() && sorted[k].start >= row.start
            invariant
                k <= sorted.len(),
                newer_prefix(sorted@, row.start) == k + newer_prefix(sorted@.subrange(k as int, sorted@.len() as int), row.start),
            decreases sorted.len() - k,
        {
            let ghost tail = sorted@.subrange(k as int, sorted@.len() as int);
            assert(tail.drop_first() =~= sorted@.subrange(k + 1, sorted@.len() as int));
            k += 1;
        }
        proof {
            let tail = sorted@.subrange(k as int, sorted@.len() as int);
            if k < sorted.len() {
                assert(tail[0] == sorted@[k as int]);
            }
            assert(newer_prefix(tail, row.start) == 0);
        }
        let ghost before = sorted@;
        sorted.insert(k, row);
        assert(sorted@ =~= insert_newest_first(before, all[i as int]));
        i += 1;
    }
    assert(all.subrange(0, n as int) =~= all);
    sorted
}

/// Minutes a row spans, whole and truncated.
pub open spec fn row_minutes(row: Unaccounted) -> int {
    let d = row.end - row.start;
    if d >= 0 {
        d / 60
    } else {
        -((-d) / 60)
    }
}

/// The whole minutes of every row of one session.
pub open spec fn session_total(rows: Seq<Unaccounted>, session: Seq<char>) -> int
    decreases rows.len(),
{
    if rows.len() == 0 {
        0
    } else {
        session_total(rows.drop_last(), session) + (if rows.last().session_id@ == session {
            row_minutes(rows.last())
        } else {
            0
        })
    }
}

/// The rows of every session whose own total reaches `floor`, in order.
pub open spec fn floor_filter(rows: Seq<Unaccounted>, all: Seq<Unaccounted>, floor: int) -> Seq<Unaccounted>
    decreases rows.len(),
{
    if rows.len() == 0 {
        seq![]
    } else {
        let rest = floor_filter(rows.drop_last(), all, floor);
        if session_total(all, rows.last().session_id@) >= floor {
            rest.push(rows.last())
        } else {
            rest
        }
    }
}

fn session_total_exec(rows: &[Unaccounted], session: &String) -> (r: i128)
    ensures
        r == session_total(rows@, session@),
{
    let mut total: i128 = 0;
    let mut i: usize = 0;
    let target = chars_of(session.as_str());
    while i < rows.len()
        invariant
            i <= rows.len(),
            target@ == session@,
            total == session_total(rows@.subrange(0, i as int), session@),
            -(i as int) * 0x0800_0000_0000_0000 <= total <= (i as int) * 0x0800_0000_0000_0000,
        decreases rows.len() - i,
    {
        assert(rows@.subrange(0, i + 1).drop_last() =~= rows@.subrange(0, i as int));
        if chars_eq(&chars_of(rows[i].session_id.as_str()), &target) {
            let d = (rows[i].end as i128) - (rows[i].start as i128);
            let minutes = if d >= 0 {
                d / 60
            } else {
                -((-d) / 60)
            };
            assert(-0x0800_0000_0000_0000 <= minutes <= 0x0800_0000_0000_0000);
            total = total + minutes;
        }
        i += 1;
    }
    assert(rows@.subrange(0, rows@.len() as int) =~= rows@);
    total
}

/// The rows a warning surface shows: those of a session whose **own** uncovered
/// total, in whole minutes, reaches `thresholds.unvouched`. The floor gates the
/// total, never a row.
pub fn over_floor(rows: &[Unaccounted], thresholds: Thresholds) -> (r: Vec<Unaccounted>)
    ensures
        r@ == floor_filter(rows@, rows@, thresholds.unvouched as int),
{
    let mut out: Vec<Unaccounted> = Vec::new();
    let mut i: usize = 0;
    while i < rows.len()
        invariant
            i <= rows.len(),
            out@ == floor_filter(rows@.subrange(0, i as int), rows@, thresholds.unvouched as int),
        decreases rows.len() - i,
    {
        assert(rows@.subrange(0, i + 1).drop_last() =~= rows@.subrange(0, i as int));
        if session_total_exec(rows, &rows[i].session_id) >= thresholds.unvouched as i128 {
            out.push(copy_row(&rows[i]));
        }
        i += 1;
    }
    assert(rows@.subrange(0, rows@.len() as int) =~= rows@);
    out
}

// --- what an audit run does with its rows -----------------------------------------------

/// The rows `--project` keeps: those of the named project, by whole sanitised
/// segments and case-insensitively; every row when no project is named.
pub open spec fn of_project(rows: Seq<Unaccounted>, project: Option<Seq<char>>) -> Seq<Unaccounted>
    decreases rows.len(),
{
    if rows.len() == 0 {
        seq![]
    } else {
        let rest = of_project(rows.drop_last(), project);
        match project {
            Some(p) => if same_project_spec(rows.last().project@, p) {
                rest.push(rows.last())
            } else {
                rest
            },
            None => rest.push(rows.last()),
        }
    }
}

/// The rows of the named project only, in the order given.
pub fn rows_for_project(rows: &Vec<Unaccounted>, project: Option<&str>) -> (r: Vec<Unaccounted>)
    ensures
        r@ == of_project(rows@, match project {
            Some(p) => Some(p@),
            None => None,
        }),
{
    let ghost wanted = match project {
        Some(p) => Some(p@),
        None => None,
    };
    let mut out: Vec<Unaccounted> = Vec::new();
    let mut i: usize = 0;
    while i < rows.len()
        invariant
            i <= rows.len(),
            wanted == match project {
                Some(p) => Some(p@),
                None => None::<Seq<char>>,
            },
            out@ == of_project(rows@.subrange(0, i as int), wanted),
        decreases rows.len() - i,
    {
        assert(rows@.subrange(0, i + 1).drop_last() =~= rows@.subrange(0, i as int));
        let keep = match project {
            Some(p) => same_project(rows[i].project.as_str(), p),
            None => true,
        };
        if keep {
            out.push(copy_row(&rows[i]));
        }
        i += 1;
    }
    assert(rows@.subrange(0, rows@.len() as int) =~= rows@);
    out
}

/// The rows an `--auto-log` run writes: those a warning surface shows whose own
/// length, in whole minutes, is over `after`.
pub open spec fn auto_logged(shown: Seq<Unaccounted>, after: int) -> Seq<Unaccounted>
    decreases shown.len(),
{
    if shown.len() == 0 {
        seq![]
    } else {
        let rest = auto_logged(shown.drop_last(), after);
        if row_minutes(shown.last()) > after {
            rest.push(shown.last())
        } else {
            rest
        }
    }
}

/// The rows an `--auto-log` run writes, from every row it found: over the floor,
/// and longer than `after` minutes. Fragments under the floor are reported but
/// never auto-logged.
pub fn auto_log_rows(rows: &Vec<Unaccounted>, thresholds: Thresholds, after: i64) -> (r: Vec<Unaccounted>)
    ensures
        r@ == auto_logged(floor_filter(rows@, rows@, thresholds.unvouched as int), after as int),
{
    let shown = over_floor(rows.as_slice(), thresholds);
    let mut out: Vec<Unaccounted> = Vec::new();
    let mut i: usize = 0;
    while i < shown.len()
        invariant
            i <= shown.len(),
            out@ == auto_logged(shown@.subrange(0, i as int), after as int),
        decreases shown.len() - i,
    {
        assert(shown@.subrange(0, i + 1).drop_last() =~= shown@.subrange(0, i as int));
        let d = (shown[i].end as i128) - (shown[i].start as i128);
        let minutes = if d >= 0 {
            d / 60
        } else {
            -((-d) / 60)
        };
        if minutes > after as i128 {
            out.push(copy_row(&shown[i]));
        }
        i += 1;
    }
    assert(shown@.subrange(0, shown@.len() as int) =~= shown@);
    out
}

/// Where the row a `resolve` names is: the first of that session starting at that
/// second, the address the audit prints.
pub open spec fn row_index(rows: Seq<Unaccounted>, session: Seq<char>, start: i64) -> Option<int>
    decreases rows.len(),
{
    if rows.len() == 0 {
        None
    } else {
        match row_index(rows.drop_last(), session, start) {
            Some(k) => Some(k),
            None => if rows.last().session_id@ == session && rows.last().start == start {
                Some(rows.len() - 1)
            } else {
                None
            },
        }
    }
}

/// The row a `resolve` covers, or `None` when no row has that address.
pub fn find_row(rows: &Vec<Unaccounted>, session: &str, start: i64) -> (r: Option<usize>)
    ensures
        match r {
            Some(k) => row_index(rows@, session@, start) == Some(k as int),
            None => row_index(rows@, session@, start) is None,
        },
{
    let target = chars_of(session);
    let mut i: usize = 0;
    while i < rows.len()
        invariant
            i <= rows.len(),
            target@ == session@,
            row_index(rows@.subrange(0, i as int), session@, start) is None,
        decreases rows.len() - i,
    {
        assert(rows@.subrange(0, i + 1).drop_last() =~= rows@.subrange(0, i as int));
        if rows[i].start == start && chars_eq(&chars_of(rows[i].session_id.as_str()), &target) {
            proof {
                lemma_row_index_at(rows@, session@, start, i as int);
            }
            return Some(i);
        }
        i += 1;
    }
    assert(rows@.subrange(0, rows@.len() as int) =~= rows@);
    None
}

proof fn lemma_row_index_at(rows: Seq<Unaccounted>, session: Seq<char>, start: i64, i: int)
    requires
        0 <= i < rows.len(),
        row_index(rows.subrange(0, i), session, start) is None,
        rows[i].session_id@ == session && rows[i].start == start,
    ensures
        row_index(rows, session, start) == Some(i),
    decreases rows.len() - i,
{
    if i + 1 == rows.len() {
        assert(rows.drop_last() =~= rows.subrange(0, i));
    } else {
        assert(rows.drop_last().subrange(0, i) =~= rows.subrange(0, i));
        lemma_row_index_at(rows.drop_last(), session, start, i);
    }
}

/// The threshold the `Stop` hook's `--auto-log` writes over: only when the hook
/// asked for it and `agent.auto_log_on_stop` is set, and then the configured
/// `auto_log_after_minutes`.
pub fn stop_hook_threshold(auto_log: bool, on_stop: bool, after: Option<i64>) -> (r: Option<i64>)
    ensures
        r == (if auto_log && on_stop { after } else { None }),
{
    if auto_log && on_stop {
        after
    } else {
        None
    }
}

} // verus!
