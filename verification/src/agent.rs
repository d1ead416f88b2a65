//! The `tt agent` conventions: how a phase is named in messages, how a logged
//! agent entry's description and duration are built, and how `tt agent end`
//! decides between logging a phase and refusing it.

use vstd::prelude::*;
use crate::cli::{ActivityCommands, AgentCommands};
use crate::entry_data::Json;
use crate::marks::{gaps_from, gaps_over, opt_str, MarkRef, Phase, Thresholds};
use crate::text::{
    all_digits, chars_eq, chars_of, decimal, is_ascii_space, parse_i64, parsed_i64, push_all,
    push_str, push_u64, starts_with, string_of, views,
};

verus! {

/// Truncating division by a positive divisor, as Rust's `/` computes it.
pub open spec fn tdiv(a: int, b: int) -> int {
    if a >= 0 {
        a / b
    } else {
        -((-a) / b)
    }
}

/// Minutes rounded **up** to the next `step`, never below `step`; a `step` of 0
/// or less rounds nothing.
pub open spec fn rounded(minutes: int, step: int) -> int {
    if step <= 0 {
        minutes
    } else {
        let r = tdiv(minutes + step - 1, step) * step;
        if r > step {
            r
        } else {
            step
        }
    }
}

/// Round minutes **up** to the next `step` minutes, never below `step`: a ceiling,
/// never nearest. A `step` of 0 or less rounds nothing.
pub fn round_to(minutes: i64, step: i64) -> (r: i64)
    requires
        step <= 0 || minutes + step <= i64::MAX,
    ensures
        r == rounded(minutes as int, step as int),
{
    if step <= 0 {
        return minutes;
    }
    let a = minutes + step - 1;
    let q = a / step;
    assert(q == tdiv(a as int, step as int));
    proof {
        if a >= 0 {
            assert(0 <= q * step <= a) by (nonlinear_arith)
                requires
                    q == (a as int) / (step as int),
                    step > 0,
                    a >= 0,
            ;
        } else {
            let p = (-a) / (step as int);
            assert(0 <= p * step <= -a) by (nonlinear_arith)
                requires
                    p == (-a) / (step as int),
                    step > 0,
                    -a > 0,
            ;
            assert(q * step == -(p * step)) by (nonlinear_arith)
                requires
                    q == -p,
            ;
        }
    }
    let r = q * step;
    if r > step {
        r
    } else {
        step
    }
}

/// The step an agent duration is rounded up to when none is configured: the
/// quarter hour `tt agent item` documents.
pub const DEFAULT_ROUND_MINUTES: i64 = 15;

/// The step in force: the configured one, else the quarter hour.
pub open spec fn step_in_force(configured: Option<i64>) -> int {
    match configured {
        Some(step) => step as int,
        None => DEFAULT_ROUND_MINUTES as int,
    }
}

/// The minutes an agent entry is logged for: rounded up to the configured step,
/// the quarter hour when none is configured (a step of 0 or less rounds nothing);
/// `None` when the rounding would pass what `i64` holds.
pub fn logged_minutes(minutes: i64, configured: Option<i64>) -> (r: Option<i64>)
    ensures
        match r {
            Some(m) => m == rounded(minutes as int, step_in_force(configured)),
            None => step_in_force(configured) > 0 && minutes + step_in_force(configured) > i64::MAX,
        },
{
    let step = match configured {
        Some(s) => s,
        None => DEFAULT_ROUND_MINUTES,
    };
    if step > 0 && minutes > i64::MAX - step {
        return None;
    }
    Some(round_to(minutes, step))
}

/// For whole minutes and a positive step, the rounded value is the smallest
/// multiple of the step that is at least the minutes and at least one step.
pub proof fn lemma_round_is_least_step_multiple(minutes: int, step: int)
    requires
        minutes >= 0,
        step > 0,
    ensures
        rounded(minutes, step) >= minutes,
        rounded(minutes, step) >= step,
        rounded(minutes, step) % step == 0,
        rounded(minutes, step) - step < minutes || rounded(minutes, step) == step,
{
    let q = (minutes + step - 1) / step;
    assert(q * step >= minutes && q * step - step < minutes && (q * step) % step == 0) by (
    nonlinear_arith)
        requires
            q == (minutes + step - 1) / step,
            minutes >= 0,
            step > 0,
    ;
    assert(step % step == 0) by (nonlinear_arith)
        requires
            step > 0,
    ;
}

/// The article a minute count is spoken with: `an` for a number opening on `8`,
/// and for `11` and `18` exactly.
pub open spec fn takes_an(minutes: int) -> bool {
    minutes == 11 || minutes == 18 || starts_with(
        decimal((if minutes < 0 {
            -minutes
        } else {
            minutes
        }) as nat),
        seq!['8'],
    )
}

/// `"a"` or `"an"` for a minute count, read the way it is spoken.
pub fn article(minutes: i64) -> (r: &'static str)
    requires
        minutes != i64::MIN,
    ensures
        r@ == (if takes_an(minutes as int) {
            "an"@
        } else {
            "a"@
        }),
{
    let magnitude: u64 = if minutes < 0 {
        (-minutes) as u64
    } else {
        minutes as u64
    };
    let mut digits: Vec<char> = Vec::new();
    push_u64(&mut digits, magnitude);
    assert(digits@ == decimal(magnitude as nat));
    let opens_on_8 = digits.len() > 0 && digits[0] == '8';
    proof {
        assert(decimal(magnitude as nat).len() > 0) by {
            lemma_decimal_nonempty(magnitude as nat);
        }
        if opens_on_8 {
            assert(digits@.subrange(0, 1) =~= seq!['8']);
        } else if digits@.len() > 0 {
            assert(digits@.subrange(0, 1)[0] == digits@[0]);
        }
    }
    if minutes == 11 || minutes == 18 || opens_on_8 {
        "an"
    } else {
        "a"
    }
}

proof fn lemma_decimal_nonempty(n: nat)
    ensures
        decimal(n).len() > 0,
    decreases n,
{
    if n >= 10 {
        lemma_decimal_nonempty(n / 10);
    }
}

// --- stripping and describing ----------------------------------------------------

/// The summary with every `#` run that begins a word removed, read left to right:
/// the stripped text and whether the next character starts a word.
pub open spec fn strip_scan(s: Seq<char>) -> (Seq<char>, bool)
    decreases s.len(),
{
    if s.len() == 0 {
        (seq![], true)
    } else {
        let (out, at_start) = strip_scan(s.drop_last());
        let c = s.last();
        if c == '#' && at_start {
            (out, true)
        } else {
            (out.push(c), is_ascii_space(c))
        }
    }
}

pub open spec fn stripped(s: Seq<char>) -> Seq<char> {
    strip_scan(s).0
}

/// Strip a `#` run that begins a word, so a summary mentioning "#12" does not
/// become a tag. A **mid-word** `#` is left alone: `C#` and `F#` are real words.
pub fn strip_stray_tags(summary: &str) -> (r: String)
    ensures
        r@ == stripped(summary@),
{
    let cs = chars_of(summary);
    let mut out: Vec<char> = Vec::new();
    let mut at_word_start = true;
    let mut i: usize = 0;
    while i < cs.len()
        invariant
            i <= cs.len(),
            (out@, at_word_start) == strip_scan(cs@.subrange(0, i as int)),
        decreases cs.len() - i,
    {
        assert(cs@.subrange(0, i + 1).drop_last() =~= cs@.subrange(0, i as int));
        let c = cs[i];
        if c == '#' && at_word_start {
        } else {
            at_word_start = c == ' ' || c == '\t' || c == '\n' || c == '\x0C' || c == '\r';
            out.push(c);
        }
        i += 1;
    }
    assert(cs@.subrange(0, cs@.len() as int) =~= cs@);
    string_of(&out)
}

/// The phase vocabulary, in the order the docs list it. The report reads it back
/// off the stored tags; it validates nothing.
pub open spec fn phase_names() -> Seq<Seq<char>> {
    seq!["plan"@, "impl"@, "qa"@, "review"@, "docs"@, "spike"@, "explore"@, "ops"@]
}

/// The phase vocabulary as strings, in order.
pub fn phases() -> (r: Vec<String>)
    ensures
        views(r@) == phase_names(),
{
    let mut out: Vec<String> = Vec::new();
    out.push(String::from_str("plan"));
    out.push(String::from_str("impl"));
    out.push(String::from_str("qa"));
    out.push(String::from_str("review"));
    out.push(String::from_str("docs"));
    out.push(String::from_str("spike"));
    out.push(String::from_str("explore"));
    out.push(String::from_str("ops"));
    assert(views(out@) =~= phase_names());
    out
}

/// Whether a bare tag is one of the phases.
pub fn is_phase(tag: &Vec<char>) -> (r: bool)
    ensures
        r == phase_names().contains(tag@),
{
    let names = phases();
    let mut i: usize = 0;
    while i < names.len()
        invariant
            views(names@) == phase_names(),
            i <= names.len(),
            forall|j: int| 0 <= j < i ==> phase_names()[j] != tag@,
        decreases names.len() - i,
    {
        let n = chars_of(names[i].as_str());
        assert(n@ == phase_names()[i as int]);
        if chars_eq(&n, tag) {
            return true;
        }
        i += 1;
    }
    false
}

/// The description an agent entry is logged with: the stripped summary, then the
/// item tag (none for the `-` sentinel), the phase tag and `#agent`. There is
/// **no bare project tag**: project is a field of its own.
pub open spec fn description_of(
    project: Seq<char>,
    issue: Seq<char>,
    phase: Seq<char>,
    summary: Seq<char>,
) -> Seq<char> {
    stripped(summary) + (if issue != seq!['-'] {
        " #"@ + project + seq!['/'] + issue
    } else {
        seq![]
    }) + " #"@ + phase + " #agent"@
}

pub fn description(project: &str, issue: &str, phase: &str, summary: &str) -> (r: String)
    ensures
        r@ == description_of(project@, issue@, phase@, summary@),
{
    let mut out = chars_of(strip_stray_tags(summary).as_str());
    let issue_chars = chars_of(issue);
    let mut dash: Vec<char> = Vec::new();
    dash.push('-');
    if !chars_eq(&issue_chars, &dash) {
        push_str(&mut out, " #");
        push_str(&mut out, project);
        out.push('/');
        push_all(&mut out, &issue_chars);
    }
    push_str(&mut out, " #");
    push_str(&mut out, phase);
    push_str(&mut out, " #agent");
    string_of(&out)
}

/// The phase as messages name it: `<project>/<issue> <phase>`, `-` included, plus
/// `:<label>` for a labelled mark.
pub open spec fn phase_name_of(mark: MarkRef) -> Seq<char> {
    let name = mark.project@ + seq!['/'] + mark.issue@ + seq![' '] + mark.phase@;
    match opt_str(mark.agent) {
        Some(agent) => name + seq![':'] + agent,
        None => name,
    }
}

pub fn phase_name(mark: MarkRef) -> (r: String)
    ensures
        r@ == phase_name_of(mark),
{
    let mut out = chars_of(mark.project);
    out.push('/');
    push_str(&mut out, mark.issue);
    out.push(' ');
    push_str(&mut out, mark.phase);
    match mark.agent {
        Some(agent) => {
            out.push(':');
            push_str(&mut out, agent);
        },
        None => {},
    }
    string_of(&out)
}

/// The mark the command-line fields address.
pub fn mark_ref<'a>(project: &'a str, issue: &'a str, phase: &'a str, agent: Option<&'a str>) -> (r:
    MarkRef<'a>)
    ensures
        r.project == project,
        r.issue == issue,
        r.phase == phase,
        r.agent == agent,
{
    MarkRef { project, issue, phase, agent }
}

/// A minutes argument: a non-empty run of ASCII digits that fits an `i64`; no
/// sign, no whitespace, no `+`.
pub fn whole_minutes(raw: &str) -> (r: Option<i64>)
    ensures
        r == (if all_digits(raw@) {
            parsed_i64(raw@)
        } else {
            None
        }),
{
    let cs = chars_of(raw);
    let mut i: usize = 0;
    while i < cs.len()
        invariant
            cs@ == raw@,
            i <= cs.len(),
            forall|j: int| 0 <= j < i ==> crate::text::is_digit(#[trigger] cs@[j]),
        decreases cs.len() - i,
    {
        if !crate::text::digit_char(cs[i]) {
            return None;
        }
        i += 1;
    }
    if cs.len() == 0 {
        return None;
    }
    parse_i64(&cs)
}

// --- closing a phase ---------------------------------------------------------------

/// What `tt agent end` does with a phase.
#[derive(Debug)]
pub enum Close {
    /// Log `minutes` (before rounding) ending at `anchor` (`None`: now), record
    /// `idle` on the entry, split it there when `split`, and dismiss `remainder`.
    Log {
        minutes: i64,
        idle: Vec<(i64, i64)>,
        split: bool,
        anchor: Option<i64>,
        remainder: Vec<(i64, i64)>,
    },
    /// Refuse: a flagged silence with nothing said about it. `worst` is the
    /// longest hole as `(minutes, from, to)`, the first of equals.
    Refuse { worst: (i64, i64, i64), measured: i64, trimmed: i64 },
    /// No mark and no explicit minutes: nothing to measure.
    NoMark,
}

/// Where a phase is measured to: its last bare beat, else now; never before its start.
pub open spec fn ended_at(phase: Phase, now: int) -> int {
    let last = if phase.beats@.len() > 0 {
        phase.beats@.last() as int
    } else {
        now
    };
    if last > phase.started {
        last
    } else {
        phase.started as int
    }
}

/// The silences a close judges: one whole-span stretch against the unvouched
/// grace for a phase with no bare beat, else the holes between beats against the
/// gap threshold.
pub open spec fn close_gaps(phase: Phase, now: int, t: Thresholds) -> Seq<(i64, i64)> {
    if phase.beats@.len() == 0 {
        gaps_from(phase.started as int, ended_at(phase, now), seq![], t.unvouched as int)
    } else {
        gaps_from(phase.started as int, ended_at(phase, now), phase.beats@, t.gap as int)
    }
}

/// The whole minutes of a list of stretches, each truncated on its own.
pub open spec fn silent_minutes(gaps: Seq<(i64, i64)>) -> int
    decreases gaps.len(),
{
    if gaps.len() == 0 {
        0
    } else {
        silent_minutes(gaps.drop_last()) + (gaps.last().1 - gaps.last().0) / 60
    }
}

/// The longest hole, `(minutes, from, to)`; the first of equals, and `(0, 0, 0)`
/// when none is longer than zero minutes.
pub open spec fn worst_gap(gaps: Seq<(i64, i64)>) -> (int, int, int)
    decreases gaps.len(),
{
    if gaps.len() == 0 {
        (0, 0, 0)
    } else {
        let w = worst_gap(gaps.drop_last());
        let g = gaps.last();
        let minutes = (g.1 - g.0) / 60;
        if minutes > w.0 {
            (minutes, g.0 as int, g.1 as int)
        } else {
            w
        }
    }
}

pub open spec fn phase_ok(phase: Phase, now: int) -> bool {
    &&& crate::marks::epoch_ok(phase.started as int)
    &&& crate::marks::epoch_ok(now)
    &&& forall|i: int| 0 <= i < phase.beats@.len() ==> crate::marks::epoch_ok(#[trigger] phase.beats@[i] as int)
}

fn silent_total(gaps: &Vec<(i64, i64)>, lo: i64, hi: i64, threshold: i64) -> (r: i64)
    requires
        crate::marks::gaps_well_formed(gaps@, lo as int, hi as int, threshold as int),
        lo <= hi,
        hi - lo <= i64::MAX,
    ensures
        r == silent_minutes(gaps@),
        0 <= r <= (hi - lo) / 60,
{
    let mut total: i64 = 0;
    let mut i: usize = 0;
    while i < gaps.len()
        invariant
            i <= gaps.len(),
            crate::marks::gaps_well_formed(gaps@, lo as int, hi as int, threshold as int),
            lo <= hi,
            hi - lo <= i64::MAX,
            total == silent_minutes(gaps@.subrange(0, i as int)),
            0 <= total,
            i > 0 ==> total * 60 <= gaps@[i - 1].1 - lo,
            i == 0 ==> total == 0,
        decreases gaps.len() - i,
    {
        assert(gaps@.subrange(0, i + 1).drop_last() =~= gaps@.subrange(0, i as int));
        let g = gaps[i];
        assert(lo <= g.0 < g.1 <= hi);
        if i > 0 {
            assert(gaps@[i - 1].1 <= g.0);
        }
        let m = (g.1 - g.0) / 60;
        assert(m * 60 <= g.1 - g.0);
        total = total + m;
        i += 1;
    }
    assert(gaps@.subrange(0, gaps@.len() as int) =~= gaps@);
    proof {
        if gaps@.len() > 0 {
            assert(total * 60 <= hi - lo);
        }
        assert(total <= (hi - lo) / 60) by (nonlinear_arith)
            requires
                total * 60 <= hi - lo,
                total >= 0,
        ;
    }
    total
}

fn copy_pairs(v: &Vec<(i64, i64)>) -> (r: Vec<(i64, i64)>)
    ensures
        r@ == v@,
{
    let mut out: Vec<(i64, i64)> = Vec::new();
    let mut i: usize = 0;
    while i < v.len()
        invariant
            i <= v.len(),
            out@ == v@.subrange(0, i as int),
        decreases v.len() - i,
    {
        out.push(v[i]);
        i += 1;
    }
    out
}

fn worst_of(gaps: &Vec<(i64, i64)>) -> (r: (i64, i64, i64))
    requires
        forall|k: int| 0 <= k < gaps@.len() ==> (#[trigger] gaps@[k]).0 < gaps@[k].1,
    ensures
        (r.0 as int, r.1 as int, r.2 as int) == worst_gap(gaps@),
{
    let mut worst: (i64, i64, i64) = (0, 0, 0);
    let mut i: usize = 0;
    while i < gaps.len()
        invariant
            i <= gaps.len(),
            forall|k: int| 0 <= k < gaps@.len() ==> (#[trigger] gaps@[k]).0 < gaps@[k].1,
            (worst.0 as int, worst.1 as int, worst.2 as int) == worst_gap(gaps@.subrange(0, i as int)),
        decreases gaps.len() - i,
    {
        assert(gaps@.subrange(0, i + 1).drop_last() =~= gaps@.subrange(0, i as int));
        let (from, to) = gaps[i];
        let minutes = (((to as i128) - (from as i128)) / 60) as i64;
        if minutes > worst.0 {
            worst = (minutes, from, to);
        }
        i += 1;
    }
    assert(gaps@.subrange(0, gaps@.len() as int) =~= gaps@);
    worst
}

/// What `tt agent end` does. Explicit minutes win over both flags and read no
/// timestamps beyond stating the mark's head as left uncovered. Otherwise the
/// phase is measured to its last bare beat (now without one); no flagged silence
/// logs the measured minutes, `full` logs them anyway, `trim` logs them split at
/// every flagged hole, and with neither the close is refused.
pub fn plan_close(
    phase: Option<Phase>,
    explicit: Option<i64>,
    full: bool,
    trim: bool,
    now: i64,
    thresholds: Thresholds,
) -> (r: Close)
    requires
        match phase {
            Some(p) => phase_ok(p, now as int),
            None => crate::marks::epoch_ok(now as int),
        },
        match explicit {
            Some(m) => 0 <= m <= i64::MAX / 60,
            None => true,
        },
    ensures
        match explicit {
            Some(m) => match r {
                Close::Log { minutes, idle, split, anchor, remainder } => {
                    &&& minutes == m
                    &&& idle@.len() == 0
                    &&& !split
                    &&& anchor is None
                    &&& remainder@ == match phase {
                        Some(p) => if now - m * 60 > p.started {
                            seq![(p.started, (now - m * 60) as i64)]
                        } else {
                            seq![]
                        },
                        None => seq![],
                    }
                },
                _ => false,
            },
            None => match phase {
                None => r is NoMark,
                Some(p) => {
                    let ended = ended_at(p, now as int);
                    let measured = (ended - p.started) / 60;
                    let gaps = close_gaps(p, now as int, thresholds);
                    let silent = silent_minutes(gaps);
                    let trimmed = if measured - silent > 0 {
                        measured - silent
                    } else {
                        0
                    };
                    if gaps.len() == 0 {
                        r matches Close::Log { minutes, idle, split, anchor, remainder } && minutes
                            == measured && idle@.len() == 0 && !split && anchor == Some(ended as i64)
                            && remainder@.len() == 0
                    } else if full {
                        r matches Close::Log { minutes, idle, split, anchor, remainder } && minutes
                            == measured && idle@ == gaps && !split && anchor == Some(ended as i64)
                            && remainder@.len() == 0
                    } else if trim {
                        r matches Close::Log { minutes, idle, split, anchor, remainder } && minutes
                            == measured && idle@ == gaps && split && anchor == Some(ended as i64)
                            && remainder@ == gaps
                    } else {
                        r matches Close::Refuse { worst, measured: m, trimmed: t } && (
                        worst.0 as int, worst.1 as int, worst.2 as int) == worst_gap(gaps) && m
                            == measured && t == trimmed
                    }
                },
            },
        },
{
    match explicit {
        Some(minutes) => {
            let mut remainder: Vec<(i64, i64)> = Vec::new();
            match &phase {
                Some(p) => {
                    let head_end = now as i128 - minutes as i128 * 60;
                    if head_end > p.started as i128 {
                        remainder.push((p.started, head_end as i64));
                    }
                },
                None => {},
            }
            Close::Log { minutes, idle: Vec::new(), split: false, anchor: None, remainder }
        },
        None => {
            let p = match phase {
                Some(p) => p,
                None => {
                    return Close::NoMark;
                },
            };
            let last = if p.beats.len() > 0 {
                p.beats[p.beats.len() - 1]
            } else {
                now
            };
            let ended = if last > p.started {
                last
            } else {
                p.started
            };
            let measured = (ended - p.started) / 60;
            let (gaps, threshold) = if p.beats.len() == 0 {
                let no_beats: Vec<i64> = Vec::new();
                assert(no_beats@ =~= Seq::<i64>::empty());
                (gaps_over(p.started, ended, no_beats.as_slice(), thresholds.unvouched), thresholds.unvouched)
            } else {
                (gaps_over(p.started, ended, p.beats.as_slice(), thresholds.gap), thresholds.gap)
            };
            if gaps.len() == 0 {
                return Close::Log {
                    minutes: measured,
                    idle: Vec::new(),
                    split: false,
                    anchor: Some(ended),
                    remainder: Vec::new(),
                };
            }
            proof {
                if p.beats@.len() == 0 {
                    crate::marks::lemma_gaps_well_formed(p.started, ended, seq![], threshold);
                } else {
                    crate::marks::lemma_gaps_well_formed(p.started, ended, p.beats@, threshold);
                }
            }
            let silent = silent_total(&gaps, p.started, ended, threshold);
            let trimmed = if measured - silent > 0 {
                measured - silent
            } else {
                0
            };
            if full {
                Close::Log { minutes: measured, idle: gaps, split: false, anchor: Some(ended), remainder: Vec::new() }
            } else if trim {
                let remainder = copy_pairs(&gaps);
                Close::Log { minutes: measured, idle: gaps, split: true, anchor: Some(ended), remainder }
            } else {
                let worst = worst_of(&gaps);
                Close::Refuse { worst, measured, trimmed }
            }
        },
    }
}

/// The whole minutes a close leaves uncovered, as its stderr note counts them.
pub fn remainder_minutes(remainder: &Vec<(i64, i64)>) -> (r: i128)
    requires
        forall|k: int| 0 <= k < remainder@.len() ==> (#[trigger] remainder@[k]).0 <= remainder@[k].1,
        remainder@.len() <= 0x1_0000_0000,
    ensures
        r == silent_minutes(remainder@),
{
    let mut total: i128 = 0;
    let mut i: usize = 0;
    while i < remainder.len()
        invariant
            i <= remainder.len(),
            remainder@.len() <= 0x1_0000_0000,
            forall|k: int| 0 <= k < remainder@.len() ==> (#[trigger] remainder@[k]).0 <= remainder@[k].1,
            total == silent_minutes(remainder@.subrange(0, i as int)),
            0 <= total <= i * 0x0800_0000_0000_0000,
        decreases remainder.len() - i,
    {
        assert(remainder@.subrange(0, i + 1).drop_last() =~= remainder@.subrange(0, i as int));
        let (from, to) = remainder[i];
        total = total + ((to as i128) - (from as i128)) / 60;
        i += 1;
    }
    assert(remainder@.subrange(0, remainder@.len() as int) =~= remainder@);
    total
}

// --- dispatch --------------------------------------------------------------------

/// What one `tt agent` subcommand does first: the handler it reaches, with its
/// arguments read, or a refusal made before anything is read or written.
#[derive(Debug)]
pub enum Step<'a> {
    Begin(MarkRef<'a>),
    Touch(MarkRef<'a>),
    Cancel(MarkRef<'a>),
    List(Option<&'a str>),
    /// Log one finished piece of work for a duration already known.
    Item { project: &'a str, issue: &'a str, phase: &'a str, summary: &'a str, minutes: i64, data: Option<&'a Json> },
    /// Close a marked phase; explicit minutes are read once the close may go on.
    End {
        mark: MarkRef<'a>,
        summary: &'a str,
        minutes: Option<&'a str>,
        full: bool,
        trim: bool,
        session: Option<&'a str>,
        data: Option<&'a Json>,
    },
    /// Cover the row of this (sanitised) session and start.
    Resolve { session: String, start: i64, issue: &'a str, phase: &'a str, summary: &'a str },
    /// Record a dismissal for this (sanitised) session.
    Dismiss { session: String, project: &'a str, start: i64, end: i64, reason: Option<&'a str> },
    Activity(&'a ActivityCommands),
    Audit { auto_log: bool, json: bool, project: Option<&'a str> },
    /// Refused: the message for stderr and the exit status.
    Refuse { message: String, code: i32 },
}

/// Whether a borrowed optional value is the owned one.
pub open spec fn same_data(d: Option<&Json>, data: Option<Json>) -> bool {
    match (d, data) {
        (Some(x), Some(y)) => *x == y,
        (None, None) => true,
        _ => false,
    }
}

pub open spec fn opt_str_of(o: Option<String>) -> Option<Seq<char>> {
    match o {
        Some(s) => Some(s@),
        None => None,
    }
}

/// The refusal for a minutes argument that is not a whole number.
pub open spec fn minutes_refusal(raw: Seq<char>) -> Seq<char> {
    "tt: minutes must be a whole number, got '"@ + raw + "'"@
}

fn as_str_opt(o: &Option<String>) -> (r: Option<&str>)
    ensures
        opt_str(r) == opt_str_of(*o),
{
    match o {
        Some(s) => Some(s.as_str()),
        None => None,
    }
}

/// Run one `tt agent` subcommand's first decision: which handler it reaches and
/// with what, or the refusal its arguments earn. `item` needs a summary and whole
/// minutes, `end` a summary, and a dismissal a span that ends after it starts; a
/// session is addressed by its sanitised key.
pub fn run(command: &AgentCommands) -> (r: Step<'_>)
    ensures
        crate::cli::mark_only(*command) ==> r is Begin || r is Touch || r is Cancel || r is List,
        match command {
            AgentCommands::Begin { project, issue, phase, agent } => r matches Step::Begin(m) && m.project@
                == project@ && m.issue@ == issue@ && m.phase@ == phase@ && opt_str(m.agent) == opt_str_of(*agent),
            AgentCommands::Touch { project, issue, phase, agent } => r matches Step::Touch(m) && m.project@
                == project@ && m.issue@ == issue@ && m.phase@ == phase@ && opt_str(m.agent) == opt_str_of(*agent),
            AgentCommands::Cancel { project, issue, phase, agent } => r matches Step::Cancel(m) && m.project@
                == project@ && m.issue@ == issue@ && m.phase@ == phase@ && opt_str(m.agent) == opt_str_of(*agent),
            AgentCommands::List { project } => r matches Step::List(p) && opt_str(p) == opt_str_of(*project),
            AgentCommands::Item { project, issue, phase, summary, minutes, data } => match (summary, minutes) {
                (Some(s), Some(raw)) => match (if all_digits(raw@) {
                    parsed_i64(raw@)
                } else {
                    None
                }) {
                    Some(m) => r matches Step::Item { project: p, issue: i, phase: ph, summary: su, minutes: mm, data: d }
                        && p@ == project@ && i@ == issue@ && ph@ == phase@ && su@ == s@ && mm == m && same_data(d, *data),
                    None => r matches Step::Refuse { message, code } && message@ == minutes_refusal(raw@) && code == 64,
                },
                _ => r matches Step::Refuse { message, code } && message@
                    == "tt: usage: tt agent item <project> <issue|-> <phase> <summary> <minutes>"@ && code == 64,
            },
            AgentCommands::End { project, issue, phase, summary, minutes, full, trim, agent, session, data } => match summary {
                Some(s) => r matches Step::End { mark, summary: su, minutes: mi, full: f, trim: t, session: se, data: d }
                    && mark.project@ == project@ && mark.issue@ == issue@ && mark.phase@ == phase@ && opt_str(mark.agent)
                    == opt_str_of(*agent) && su@ == s@ && opt_str(mi) == opt_str_of(*minutes) && f == *full && t == *trim
                    && opt_str(se) == opt_str_of(*session) && same_data(d, *data),
                None => r matches Step::Refuse { message, code } && message@
                    == "tt: need a summary: tt agent end <project> <issue|-> <phase> <summary> [minutes]"@ && code == 64,
            },
            AgentCommands::Resolve { session, start, issue, phase, summary } => r matches Step::Resolve {
                session: se,
                start: st,
                issue: i,
                phase: ph,
                summary: su,
            } && se@ == crate::text::sanitise(session@) && st == *start && i@ == issue@ && ph@ == phase@ && su@
                == summary@,
            AgentCommands::Dismiss { session, project, span, reason } => if span.end <= span.start {
                r matches Step::Refuse { message, code } && message@
                    == "tt: a dismissal needs a span that ends after it starts, got "@ + crate::text::int_text(
                    span.start as int,
                ) + seq!['-'] + crate::text::int_text(span.end as int) && code == 64
            } else {
                r matches Step::Dismiss { session: se, project: p, start: a, end: b, reason: re } && se@
                    == crate::text::sanitise(session@) && p@ == project@ && a == span.start && b == span.end && opt_str(
                    re,
                ) == opt_str_of(*reason)
            },
            AgentCommands::Activity(c) => r matches Step::Activity(x) && x == c,
            AgentCommands::Audit { auto_log, json, project } => r matches Step::Audit { auto_log: a, json: j, project: p }
                && a == *auto_log && j == *json && opt_str(p) == opt_str_of(*project),
        },
{
    match command {
        AgentCommands::Begin { project, issue, phase, agent } => Step::Begin(
            mark_ref(project.as_str(), issue.as_str(), phase.as_str(), as_str_opt(agent)),
        ),
        AgentCommands::Touch { project, issue, phase, agent } => Step::Touch(
            mark_ref(project.as_str(), issue.as_str(), phase.as_str(), as_str_opt(agent)),
        ),
        AgentCommands::Cancel { project, issue, phase, agent } => Step::Cancel(
            mark_ref(project.as_str(), issue.as_str(), phase.as_str(), as_str_opt(agent)),
        ),
        AgentCommands::List { project } => Step::List(as_str_opt(project)),
        AgentCommands::Item { project, issue, phase, summary, minutes, data } => {
            match (summary, minutes) {
                (Some(s), Some(raw)) => match whole_minutes(raw.as_str()) {
                    Some(m) => Step::Item {
                        project: project.as_str(),
                        issue: issue.as_str(),
                        phase: phase.as_str(),
                        summary: s.as_str(),
                        minutes: m,
                        data: data.as_ref(),
                    },
                    None => {
                        let mut out: Vec<char> = Vec::new();
                        push_str(&mut out, "tt: minutes must be a whole number, got '");
                        push_str(&mut out, raw.as_str());
                        push_str(&mut out, "'");
                        Step::Refuse { message: string_of(&out), code: 64 }
                    },
                },
                _ => Step::Refuse {
                    message: String::from_str("tt: usage: tt agent item <project> <issue|-> <phase> <summary> <minutes>"),
                    code: 64,
                },
            }
        },
        AgentCommands::End { project, issue, phase, summary, minutes, full, trim, agent, session, data } => {
            match summary {
                Some(s) => Step::End {
                    mark: mark_ref(project.as_str(), issue.as_str(), phase.as_str(), as_str_opt(agent)),
                    summary: s.as_str(),
                    minutes: as_str_opt(minutes),
                    full: *full,
                    trim: *trim,
                    session: as_str_opt(session),
                    data: data.as_ref(),
                },
                None => Step::Refuse {
                    message: String::from_str(
                        "tt: need a summary: tt agent end <project> <issue|-> <phase> <summary> [minutes]",
                    ),
                    code: 64,
                },
            }
        },
        AgentCommands::Resolve { session, start, issue, phase, summary } => Step::Resolve {
            session: crate::text::sanitise_key(session.as_str()),
            start: *start,
            issue: issue.as_str(),
            phase: phase.as_str(),
            summary: summary.as_str(),
        },
        AgentCommands::Dismiss { session, project, span, reason } => {
            if span.end <= span.start {
                let mut out: Vec<char> = Vec::new();
                push_str(&mut out, "tt: a dismissal needs a span that ends after it starts, got ");
                crate::text::push_i64(&mut out, span.start);
                out.push('-');
                crate::text::push_i64(&mut out, span.end);
                Step::Refuse { message: string_of(&out), code: 64 }
            } else {
                Step::Dismiss {
                    session: crate::text::sanitise_key(session.as_str()),
                    project: project.as_str(),
                    start: span.start,
                    end: span.end,
                    reason: as_str_opt(reason),
                }
            }
        },
        AgentCommands::Activity(c) => Step::Activity(c),
        AgentCommands::Audit { auto_log, json, project } => Step::Audit {
            auto_log: *auto_log,
            json: *json,
            project: as_str_opt(project),
        },
    }
}

} // verus!
