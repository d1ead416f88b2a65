//! The arithmetic behind the summary surface: which grain a heat strip uses for a
//! view, how a strip fits its columns, a project's share, and its row key.

use vstd::prelude::*;
use crate::marks::opt_string;
use crate::text::{chars_eq, chars_of, string_of, trim, trim_chars, views};
use crate::clock::{
    add_months, calendar_day, day_of_date, moment_seconds, month_of, month_on, months_after, well_formed, year_of,
    year_on, Moment, MAX_DAY, MIN_DAY,
};
use crate::tracker::{derefs, monday_of, TimeData, TimeEntry, MAX_ENTRIES};
use crate::tui::types::ViewMode;

verus! {

/// The period one heat-strip cell covers.
#[derive(Clone, Copy, Debug, PartialEq, Eq, Structural)]
pub enum Grain {
    Hour,
    Day,
    Week,
    Month,
}

/// The grain a view's strip uses: hours of a day, days of a week or a month,
/// weeks of everything, months of a year.
pub open spec fn grain_of(view: ViewMode) -> Grain {
    match view {
        ViewMode::Day => Grain::Hour,
        ViewMode::Week | ViewMode::Month => Grain::Day,
        ViewMode::All => Grain::Week,
        ViewMode::Year => Grain::Month,
    }
}

impl Grain {
    /// The grain a view's strip uses, as `grain_of` says.
    pub fn for_view(view: ViewMode) -> (r: Grain)
        ensures
            r == grain_of(view),
    {
        match view {
            ViewMode::Day => Grain::Hour,
            ViewMode::Week | ViewMode::Month => Grain::Day,
            ViewMode::All => Grain::Week,
            ViewMode::Year => Grain::Month,
        }
    }

    /// What one bucket is called.
    pub fn unit(self) -> (r: &'static str)
        ensures
            r@ == match self {
                Grain::Hour => "hour"@,
                Grain::Day => "day"@,
                Grain::Week => "week"@,
                Grain::Month => "month"@,
            },
    {
        match self {
            Grain::Hour => "hour",
            Grain::Day => "day",
            Grain::Week => "week",
            Grain::Month => "month",
        }
    }
}

/// How a strip of `buckets` cells fits `available` columns: each cell as wide as
/// the room allows and never narrower than one column, and as many cells as then
/// fit, at most one per bucket. With room for every bucket all are drawn and less
/// than one more column per bucket is left over; without it the strip sheds
/// buckets at the narrowest width and fills the room. No buckets draw nothing.
pub fn strip_cells(available: usize, buckets: usize) -> (r: (usize, usize))
    ensures
        r.0 >= 1,
        r.1 <= buckets,
        r.1 * r.0 <= available,
        buckets == 0 ==> r == (1usize, 0usize),
        buckets > 0 ==> r.0 == (if available / buckets > 1 {
            available / buckets
        } else {
            1
        }),
        buckets > 0 && available >= buckets ==> r.1 == buckets && available - r.1 * r.0 < buckets,
        buckets > 0 && available < buckets ==> r.0 == 1 && r.1 == available,
{
    if buckets == 0 {
        return (1, 0);
    }
    let q = available / buckets;
    let cell_width = if q > 1 {
        q
    } else {
        1
    };
    let fit = available / cell_width;
    let cells = if fit < buckets {
        fit
    } else {
        buckets
    };
    proof {
        assert(fit * cell_width <= available) by (nonlinear_arith)
            requires
                fit == available / cell_width,
                cell_width >= 1,
        ;
        assert(cells * cell_width <= available) by (nonlinear_arith)
            requires
                cells <= fit,
                fit * cell_width <= available,
                cell_width >= 1,
        ;
        if available >= buckets {
            assert(q >= 1) by (nonlinear_arith)
                requires
                    q == available / buckets,
                    available >= buckets,
                    buckets > 0,
            ;
            assert(q * buckets <= available && available < (q + 1) * buckets) by (nonlinear_arith)
                requires
                    q == available / buckets,
                    buckets > 0,
            ;
            assert(fit >= buckets) by (nonlinear_arith)
                requires
                    fit == available / cell_width,
                    cell_width == q,
                    q * buckets <= available,
                    q >= 1,
            ;
            assert(available - buckets * q < buckets) by (nonlinear_arith)
                requires
                    available < (q + 1) * buckets,
            ;
        } else {
            assert(q == 0) by (nonlinear_arith)
                requires
                    q == available / buckets,
                    available < buckets,
                    buckets > 0,
            ;
        }
    }
    (cell_width, cells)
}

/// A part's percentage of a whole, rounded half up, `0` of no whole.
pub open spec fn share_spec(part: int, whole: int) -> int {
    if whole <= 0 {
        0
    } else {
        let p = if part > 0 {
            part
        } else {
            0
        };
        ((p * 200) / whole + 1) / 2
    }
}

/// A project's share of the folded total, in percent, rounded half up in
/// integers; a negative part counts as none, and nothing folded is 0%.
pub fn share_of(part: i64, whole: i64) -> (r: u16)
    requires
        part * 200 <= i64::MAX,
    ensures
        r as int == share_spec(part as int, whole as int) % 65536,
{
    if whole <= 0 {
        return 0;
    }
    let p = if part > 0 {
        part
    } else {
        0
    };
    let s = (p * 200) / whole;
    let x: i64 = (s + 1) / 2;
    assert(x >= 0);
    let r = #[verifier::truncate] (x as u16);
    assert(r == x % 65536) by (bit_vector)
        requires
            r == #[verifier::truncate] (x as u16),
            x >= 0,
    ;
    r
}

/// The summary row an entry belongs to: its trimmed project, or `(no project)`
/// when it has none or only whitespace.
pub open spec fn row_key(project: Option<Seq<char>>) -> Seq<char> {
    match project {
        Some(p) => if trim(p).len() > 0 {
            trim(p)
        } else {
            "(no project)"@
        },
        None => "(no project)"@,
    }
}

pub fn project_key(project: &Option<String>) -> (r: String)
    ensures
        r@ == row_key(opt_string(*project)),
{
    match project {
        Some(p) => {
            let t = trim_chars(&chars_of(p.as_str()));
            if t.len() > 0 {
                return string_of(&t);
            }
        },
        None => {},
    }
    String::from_str("(no project)")
}

// --- heat buckets over a period ---------------------------------------------------------

/// A signed quotient rounded toward zero, as a `chrono` duration counts whole units.
pub open spec fn toward_zero(a: int, b: int) -> int {
    if a >= 0 {
        a / b
    } else {
        -((-a) / b)
    }
}

/// The top of the hour a reading falls in, as seconds on its clock.
pub open spec fn hour_floor(m: Moment) -> int {
    m.day * 86400 + (m.second / 3600) * 3600
}

/// How many grains `start` sits past `anchor`, read off the start alone: hours
/// from the anchor to the top of the start's hour, days between their dates,
/// whole weeks of those days rounded down, or calendar months between them.
pub open spec fn bucket_offset(grain: Grain, anchor: Moment, start: Moment) -> int {
    match grain {
        Grain::Hour => toward_zero(hour_floor(start) - moment_seconds(anchor), 3600),
        Grain::Day => start.day - anchor.day,
        Grain::Week => (start.day - anchor.day) / 7,
        Grain::Month => (year_on(start.day as int) - year_on(anchor.day as int)) * 12 + month_on(start.day as int)
            - month_on(anchor.day as int),
    }
}

/// `d` over a positive `b`, rounded down, for a `d` of either sign.
fn floor_div(d: i64, b: i64) -> (r: i64)
    requires
        0 < b <= 86400,
        -0x1_0000_0000_0000 <= d <= 0x1_0000_0000_0000,
    ensures
        r == d / b,
{
    if d >= 0 {
        d / b
    } else {
        let q = (-d + b - 1) / b;
        proof {
            let r = d + b * q;
            assert(0 <= r < b) by (nonlinear_arith)
                requires
                    q == (-d + b - 1) / (b as int),
                    d < 0,
                    b > 0,
                    r == d + b * q,
            ;
            assert(d == (-q) * b + r) by (nonlinear_arith)
                requires
                    r == d + b * q,
            ;
            vstd::arithmetic::div_mod::lemma_fundamental_div_mod_converse(d as int, b as int, -q, r);
        }
        -q
    }
}

/// How many grains `start` sits past `anchor`. Reads the start alone, never the
/// span, so an entry is never shared between the buckets it runs through.
pub fn bucket_index(grain: Grain, anchor: Moment, start: Moment) -> (r: i64)
    requires
        well_formed(anchor),
        well_formed(start),
    ensures
        r == bucket_offset(grain, anchor, start),
{
    match grain {
        Grain::Hour => {
            let top = start.day as i64 * 86400 + (start.second as i64 / 3600) * 3600;
            let diff = top - (anchor.day as i64 * 86400 + anchor.second as i64);
            if diff >= 0 {
                diff / 3600
            } else {
                -((-diff) / 3600)
            }
        },
        Grain::Day => start.day as i64 - anchor.day as i64,
        Grain::Week => floor_div(start.day as i64 - anchor.day as i64, 7),
        Grain::Month => {
            let years = year_of(start.day) as i64 - year_of(anchor.day) as i64;
            years * 12 + month_of(start.day) as i64 - month_of(anchor.day) as i64
        },
    }
}

/// Midnight of a day.
pub open spec fn midnight(day: int) -> Moment {
    Moment { day: day as i32, second: 0 }
}

/// The earliest of some readings.
pub open spec fn earliest_of(ms: Seq<Moment>) -> Moment
    decreases ms.len(),
{
    if ms.len() <= 1 {
        ms[0]
    } else {
        let before = earliest_of(ms.drop_last());
        if moment_seconds(ms.last()) < moment_seconds(before) { ms.last() } else { before }
    }
}

/// The latest of some readings.
pub open spec fn latest_of(ms: Seq<Moment>) -> Moment
    decreases ms.len(),
{
    if ms.len() <= 1 {
        ms[0]
    } else {
        let before = latest_of(ms.drop_last());
        if moment_seconds(ms.last()) >= moment_seconds(before) { ms.last() } else { before }
    }
}

/// The days of the month that `first` opens, counted off the calendar: up to the
/// same day a month later, or 31 where the calendar ends first.
pub open spec fn month_length(first: int) -> int {
    match months_after(first, 1) {
        Some(next) => next - first,
        None => 31,
    }
}

/// The days of the month `first` opens, counted off the calendar; `first` is the
/// first of its month.
pub fn days_in_month(first: i32) -> (r: usize)
    requires
        MIN_DAY <= first <= MAX_DAY,
    ensures
        r == month_length(first as int),
{
    match add_months(first, 1) {
        Some(next) => (next as i64 - first as i64) as usize,
        None => 31,
    }
}

/// The first bucket's start and how many buckets follow it for a view, or `None`
/// when nothing is folded. The view says which period the strip covers (the 24
/// hours of the selected day, the 7 days of its week, the days of its month, the
/// 12 months of its year), so the strip reads against the period, not against
/// itself; `All` has no bounded period and spans the readings from the Monday of
/// the earliest's week to the latest's. `None` too where the calendar has no first
/// of the selected month or year.
pub open spec fn bucket_span(view: ViewMode, starts: Seq<Moment>, selected: int) -> Option<(Moment, int)> {
    if starts.len() == 0 {
        None
    } else {
        match calendar_day(year_on(selected), month_on(selected), 1) {
            None => None,
            Some(first) => match view {
                ViewMode::Day => Some((midnight(selected), 24)),
                ViewMode::Week => Some((midnight(monday_of(selected)), 7)),
                ViewMode::Month => Some((midnight(first), month_length(first))),
                ViewMode::Year => match calendar_day(year_on(selected), 1, 1) {
                    Some(jan) => Some((midnight(jan), 12)),
                    None => None,
                },
                ViewMode::All => {
                    let anchor = midnight(monday_of(earliest_of(starts).day as int));
                    let n = bucket_offset(Grain::Week, anchor, latest_of(starts)) + 1;
                    Some((anchor, if n > 1 { n } else { 1 }))
                },
            },
        }
    }
}

/// The earliest and the latest of some readings, which are never none.
fn reading_bounds(starts: &Vec<Moment>) -> (r: (Moment, Moment))
    requires
        starts@.len() >= 1,
    ensures
        r.0 == earliest_of(starts@),
        r.1 == latest_of(starts@),
{
    let mut lo = starts[0];
    let mut hi = starts[0];
    let mut k: usize = 1;
    assert(starts@.take(1).last() == starts@[0]);
    while k < starts.len()
        invariant
            1 <= k <= starts@.len(),
            lo == earliest_of(starts@.take(k as int)),
            hi == latest_of(starts@.take(k as int)),
        decreases starts@.len() - k,
    {
        assert(starts@.take(k + 1).drop_last() =~= starts@.take(k as int));
        assert(starts@.take(k + 1).last() == starts@[k as int]);
        let m = starts[k];
        let ms = m.day as i64 * 86400 + m.second as i64;
        if ms < lo.day as i64 * 86400 + lo.second as i64 {
            lo = m;
        }
        if ms >= hi.day as i64 * 86400 + hi.second as i64 {
            hi = m;
        }
        k += 1;
    }
    assert(starts@.take(starts@.len() as int) =~= starts@);
    (lo, hi)
}

proof fn lemma_bounds_among(ms: Seq<Moment>)
    requires
        ms.len() >= 1,
    ensures
        exists|i: int| 0 <= i < ms.len() && ms[i] == earliest_of(ms),
        exists|i: int| 0 <= i < ms.len() && ms[i] == latest_of(ms),
    decreases ms.len(),
{
    if ms.len() > 1 {
        lemma_bounds_among(ms.drop_last());
        let i = choose|i: int| 0 <= i < ms.drop_last().len() && ms.drop_last()[i] == earliest_of(ms.drop_last());
        let j = choose|j: int| 0 <= j < ms.drop_last().len() && ms.drop_last()[j] == latest_of(ms.drop_last());
        assert(ms[i] == ms.drop_last()[i]);
        assert(ms[j] == ms.drop_last()[j]);
        assert(ms[ms.len() - 1] == ms.last());
    } else {
        assert(ms[0] == earliest_of(ms));
    }
}

/// The first bucket's start and how many buckets follow it, as `bucket_span`
/// says, for readings each well formed and each in a week chrono's calendar
/// opens (where finding the Monday would run off it).
pub fn bucket_range(view: ViewMode, starts: &Vec<Moment>, selected: i32) -> (r: Option<(Moment, usize)>)
    requires
        MIN_DAY <= selected <= MAX_DAY,
        monday_of(selected as int) >= MIN_DAY,
        forall|i: int| 0 <= i < starts@.len() ==> well_formed(#[trigger] starts@[i]) && monday_of(starts@[i].day as int) >= MIN_DAY,
    ensures
        match r {
            Some((anchor, count)) => bucket_span(view, starts@, selected as int) == Some((anchor, count as int)),
            None => bucket_span(view, starts@, selected as int) is None,
        },
        r matches Some((anchor, _)) ==> well_formed(anchor),
{
    if starts.len() == 0 {
        return None;
    }
    let (earliest, latest) = reading_bounds(starts);
    proof {
        lemma_bounds_among(starts@);
    }
    let first = match day_of_date(year_of(selected), month_of(selected), 1) {
        Some(d) => d,
        None => return None,
    };
    match view {
        ViewMode::Day => Some((Moment { day: selected, second: 0 }, 24)),
        ViewMode::Week => Some((Moment { day: TimeData::week_start(selected), second: 0 }, 7)),
        ViewMode::Month => Some((Moment { day: first, second: 0 }, days_in_month(first))),
        ViewMode::Year => match day_of_date(year_of(selected), 1, 1) {
            Some(jan) => Some((Moment { day: jan, second: 0 }, 12)),
            None => None,
        },
        ViewMode::All => {
            let anchor = Moment { day: TimeData::week_start(earliest.day), second: 0 };
            let n = bucket_index(Grain::Week, anchor, latest) + 1;
            let count: i64 = if n > 1 { n } else { 1 };
            Some((anchor, count as usize))
        },
    }
}

/// The seconds of the readings among the first `n` that fall `k` grains past the
/// anchor; `secs` holds each reading's seconds.
pub open spec fn bucket_total(grain: Grain, anchor: Moment, starts: Seq<Moment>, secs: Seq<int>, k: int, n: int) -> int
    decreases n,
{
    if n <= 0 {
        0
    } else {
        bucket_total(grain, anchor, starts, secs, k, n - 1) + if bucket_offset(grain, anchor, starts[n - 1]) == k {
            secs[n - 1]
        } else {
            0
        }
    }
}

/// `count` buckets from the anchor, each the seconds of the readings falling in it.
pub open spec fn bucket_row(grain: Grain, anchor: Moment, count: int, starts: Seq<Moment>, secs: Seq<int>) -> Seq<int> {
    Seq::new(count as nat, |k: int| bucket_total(grain, anchor, starts, secs, k, starts.len() as int))
}

pub open spec fn cells(v: Seq<i128>) -> Seq<int> {
    v.map_values(|x: i128| x as int)
}

/// The most a reading's seconds are, either way: a span between two `i64` seconds.
pub open spec fn span_bound(secs: Seq<i128>) -> bool {
    forall|j: int| 0 <= j < secs.len() ==> -0x1_0000_0000_0000_0000 <= #[trigger] secs[j] <= 0x1_0000_0000_0000_0000
}

/// Fold each reading's seconds into the bucket its start falls in; a start before
/// the anchor or past the last bucket folds nowhere.
fn fold_buckets(grain: Grain, anchor: Moment, count: usize, starts: &Vec<Moment>, secs: &Vec<i128>) -> (r: Vec<i128>)
    requires
        well_formed(anchor),
        starts@.len() == secs@.len(),
        starts@.len() <= MAX_ENTRIES,
        span_bound(secs@),
        forall|i: int| 0 <= i < starts@.len() ==> well_formed(#[trigger] starts@[i]),
    ensures
        cells(r@) == bucket_row(grain, anchor, count as int, starts@, cells(secs@)),
{
    let ghost sv = cells(secs@);
    let mut out: Vec<i128> = Vec::new();
    let mut k: usize = 0;
    while k < count
        invariant
            k <= count,
            out@.len() == k,
            forall|x: int| 0 <= x < k ==> #[trigger] out@[x] == 0,
        decreases count - k,
    {
        out.push(0);
        k += 1;
    }
    let mut j: usize = 0;
    while j < starts.len()
        invariant
            well_formed(anchor),
            starts@.len() == secs@.len(),
            starts@.len() <= MAX_ENTRIES,
            span_bound(secs@),
            forall|i: int| 0 <= i < starts@.len() ==> well_formed(#[trigger] starts@[i]),
            sv == cells(secs@),
            j <= starts@.len(),
            out@.len() == count,
            forall|x: int| 0 <= x < count ==> #[trigger] out@[x] == bucket_total(grain, anchor, starts@, sv, x, j as int),
            forall|x: int| 0 <= x < count ==> -0x1_0000_0000_0000_0000 * j <= #[trigger] out@[x] <= 0x1_0000_0000_0000_0000 * j,
        decreases starts@.len() - j,
    {
        let slot = bucket_index(grain, anchor, starts[j]);
        assert(sv[j as int] == secs@[j as int]);
        assert(-0x1_0000_0000_0000_0000 <= secs@[j as int] <= 0x1_0000_0000_0000_0000);
        let ghost before = out@;
        if 0 <= slot && (slot as u64) < count as u64 {
            let at = slot as usize;
            let v = out[at] + secs[j];
            out.set(at, v);
        }
        assert forall|x: int| 0 <= x < count implies #[trigger] out@[x] == bucket_total(grain, anchor, starts@, sv, x, j + 1) by {
            assert(bucket_total(grain, anchor, starts@, sv, x, j + 1) == bucket_total(grain, anchor, starts@, sv, x, j as int)
                + if bucket_offset(grain, anchor, starts@[j as int]) == x { sv[j as int] } else { 0 });
        }
        j += 1;
    }
    assert(cells(out@) =~= bucket_row(grain, anchor, count as int, starts@, sv));
    out
}

/// One row of buckets and the grid they make.
pub struct BucketGrid {
    pub grain: Grain,
    /// The start of bucket 0; each later bucket follows it by one grain.
    pub anchor: Moment,
    /// One bucket list per row it was folded for, index for index, oldest bucket
    /// first, in seconds.
    pub rows: Vec<Vec<i128>>,
}

pub open spec fn grid_cells(rows: Seq<Vec<i128>>) -> Seq<Seq<int>> {
    rows.map_values(|r: Vec<i128>| cells(r@))
}

impl BucketGrid {
    /// Buckets per row; every row carries the same count.
    pub fn len(&self) -> (r: usize)
        ensures
            r == if self.rows@.len() == 0 { 0 } else { self.rows@[0]@.len() },
    {
        if self.rows.len() == 0 {
            0
        } else {
            self.rows[0].len()
        }
    }
}

/// What the open view's heat grid holds for readings `starts` with seconds `secs`:
/// one row of the period's buckets from its anchor, or, with nothing folded, one
/// empty row anchored at the selected day's midnight.
pub open spec fn view_heat(view: ViewMode, starts: Seq<Moment>, secs: Seq<int>, selected: int, grid: BucketGrid) -> bool {
    match bucket_span(view, starts, selected) {
        Some((anchor, count)) => grid.anchor == anchor && grid_cells(grid.rows@) == seq![
            bucket_row(grain_of(view), anchor, count, starts, secs),
        ],
        None => grid.anchor == midnight(selected) && grid_cells(grid.rows@) == seq![Seq::<int>::empty()],
    }
}

/// The open view's period folded into one row of totals, oldest bucket first: a
/// reading's seconds (`secs`, reading for reading) go whole to the bucket holding
/// its start. Nothing folded gives one empty row anchored at the selected day's
/// midnight.
pub fn view_heat_buckets_at(view: ViewMode, starts: &Vec<Moment>, secs: &Vec<i128>, selected: i32) -> (r: BucketGrid)
    requires
        MIN_DAY <= selected <= MAX_DAY,
        monday_of(selected as int) >= MIN_DAY,
        starts@.len() == secs@.len(),
        starts@.len() <= MAX_ENTRIES,
        span_bound(secs@),
        forall|i: int| 0 <= i < starts@.len() ==> well_formed(#[trigger] starts@[i]) && monday_of(starts@[i].day as int) >= MIN_DAY,
    ensures
        r.grain == grain_of(view),
        view_heat(view, starts@, cells(secs@), selected as int, r),
{
    let grain = Grain::for_view(view);
    match bucket_range(view, starts, selected) {
        Some((anchor, count)) => {
            let row = fold_buckets(grain, anchor, count, starts, secs);
            let mut rows: Vec<Vec<i128>> = Vec::new();
            rows.push(row);
            assert(grid_cells(rows@) =~= seq![cells(rows@[0]@)]);
            BucketGrid { grain, anchor, rows }
        },
        None => {
            let mut rows: Vec<Vec<i128>> = Vec::new();
            rows.push(Vec::new());
            assert(cells(rows@[0]@) =~= Seq::<int>::empty());
            assert(grid_cells(rows@) =~= seq![Seq::<int>::empty()]);
            BucketGrid { grain, anchor: Moment { day: selected, second: 0 }, rows }
        },
    }
}

/// Whether an entry is one the heat reads: its start readable on the clock and a
/// week clear of the start of chrono's calendar.
pub open spec fn heat_reads(e: TimeEntry) -> bool {
    crate::clock::readable(e.start_time as int) && e.start_time >= (MIN_DAY + 8) * 86400
}

/// The readings the heat folds for `entries` at the clock reading `now`: for the
/// entries at `idx`, in store order, each start as the wall clock shows it (less
/// than a day from the instant, as any zone shows it) and each length with a
/// running entry measured to `now`. Every entry the heat reads is among them.
pub open spec fn readings_of(entries: Seq<TimeEntry>, idx: Seq<usize>, starts: Seq<Moment>, secs: Seq<int>, now: int) -> bool {
    &&& idx.len() == starts.len()
    &&& starts.len() == secs.len()
    &&& forall|k: int| 0 <= k < idx.len() ==> #[trigger] idx[k] < entries.len()
    &&& forall|k: int, j: int| 0 <= k < j < idx.len() ==> idx[k] < idx[j]
    &&& forall|k: int| 0 <= k < idx.len() ==> entries[idx[k] as int].start_time - 86400 < moment_seconds(#[trigger] starts[k])
        < entries[idx[k] as int].start_time + 86400
    &&& forall|k: int| 0 <= k < idx.len() ==> #[trigger] secs[k] == crate::tracker::length_at(entries[idx[k] as int], now)
    &&& forall|i: usize| i < entries.len() && #[trigger] heat_reads(entries[i as int]) ==> idx.contains(i)
}

/// The row keys of the entries at `idx`.
pub open spec fn keys_at(entries: Seq<TimeEntry>, idx: Seq<usize>) -> Seq<Seq<char>> {
    idx.map_values(|i: usize| row_key(opt_string(entries[i as int].project)))
}

/// The heat's readings of entries by the machine's clock, at the reading `now`.
fn entry_readings(entries: &Vec<&TimeEntry>, now: i64) -> (r: (Vec<usize>, Vec<Moment>, Vec<i128>))
    requires
        entries@.len() <= MAX_ENTRIES,
    ensures
        readings_of(derefs(entries@), r.0@, r.1@, cells(r.2@), now as int),
        r.1@.len() <= entries@.len(),
        span_bound(r.2@),
        forall|x: int| 0 <= x < r.1@.len() ==> well_formed(#[trigger] r.1@[x]) && monday_of(r.1@[x].day as int) >= MIN_DAY,
{
    let ghost es = derefs(entries@);
    let mut idx: Vec<usize> = Vec::new();
    let mut starts: Vec<Moment> = Vec::new();
    let mut secs: Vec<i128> = Vec::new();
    let mut i: usize = 0;
    while i < entries.len()
        invariant
            es == derefs(entries@),
            i <= entries@.len(),
            entries@.len() <= MAX_ENTRIES,
            idx@.len() == starts@.len(),
            starts@.len() == secs@.len(),
            starts@.len() <= i,
            span_bound(secs@),
            forall|x: int| 0 <= x < starts@.len() ==> well_formed(#[trigger] starts@[x]) && monday_of(starts@[x].day as int) >= MIN_DAY,
            forall|k: int| 0 <= k < idx@.len() ==> #[trigger] idx@[k] < i,
            forall|k: int, j: int| 0 <= k < j < idx@.len() ==> idx@[k] < idx@[j],
            forall|k: int| 0 <= k < idx@.len() ==> es[idx@[k] as int].start_time - 86400 < moment_seconds(#[trigger] starts@[k])
                < es[idx@[k] as int].start_time + 86400,
            forall|k: int| 0 <= k < idx@.len() ==> #[trigger] cells(secs@)[k] == crate::tracker::length_at(es[idx@[k] as int], now as int),
            forall|x: usize| x < i && #[trigger] heat_reads(es[x as int]) ==> idx@.contains(x),
        decreases entries@.len() - i,
    {
        let ghost before = idx@;
        let ghost old_cells = cells(secs@);
        assert(es[i as int] == *entries@[i as int]);
        if let Some(m) = crate::clock::local_moment(entries[i].start_time) {
            if m.day >= MIN_DAY + 6 {
                let d = entries[i].duration_at(now);
                idx.push(i);
                starts.push(m);
                secs.push(d);
                assert(idx@[idx@.len() - 1] == i);
                assert forall|k: int| 0 <= k < idx@.len() implies #[trigger] cells(secs@)[k]
                    == crate::tracker::length_at(es[idx@[k] as int], now as int) by {
                    if k < idx@.len() - 1 {
                        assert(cells(secs@)[k] == old_cells[k]);
                        assert(idx@[k] == before[k]);
                    }
                }
                assert forall|x: usize| x < i + 1 && #[trigger] heat_reads(es[x as int]) implies idx@.contains(x) by {
                    if x < i {
                        let k = choose|k: int| 0 <= k < before.len() && before[k] == x;
                        assert(idx@[k] == x);
                    }
                }
            }
        }
        i += 1;
    }
    (idx, starts, secs)
}

/// The open view's heat, as `view_heat_buckets_at` folds it, for entries read on
/// the machine's clock: each entry's start as the wall clock shows it, its seconds
/// with a running one measured to the clock's reading. An entry too near the end
/// of chrono's calendar to be read, or in a week it does not open, is left out.
pub fn view_heat_buckets(entries: &Vec<&TimeEntry>, view: ViewMode, selected: i32) -> (r: BucketGrid)
    requires
        MIN_DAY <= selected <= MAX_DAY,
        monday_of(selected as int) >= MIN_DAY,
        entries@.len() <= MAX_ENTRIES,
    ensures
        r.grain == grain_of(view),
        exists|idx: Seq<usize>, starts: Seq<Moment>, secs: Seq<int>, now: i64|
            #![trigger readings_of(derefs(entries@), idx, starts, secs, now as int), view_heat(view, starts, secs, selected as int, r)]
            0 <= now <= crate::clock::LAST_SECOND && readings_of(derefs(entries@), idx, starts, secs, now as int)
                && view_heat(view, starts, secs, selected as int, r),
{
    let now = crate::clock::now();
    let (idx, starts, secs) = entry_readings(entries, now);
    let r = view_heat_buckets_at(view, &starts, &secs, selected);
    assert(view_heat(view, starts@, cells(secs@), selected as int, r));
    assert(readings_of(derefs(entries@), idx@, starts@, cells(secs@), now as int));
    r
}

// --- the project rows -------------------------------------------------------------------

/// One row of the summary: a project, its time in the scope, its entry count and
/// its share.
pub struct ProjectTotal {
    /// The name as stored, or `(no project)`.
    pub project: String,
    /// Seconds; the caller writes them out.
    pub total: i64,
    /// `human + agent` is `total`, so the columns cannot disagree.
    pub human: i64,
    pub agent: i64,
    pub entries: usize,
    /// Percent of the folded total, rounded, and not fudged to sum to 100.
    pub share: u16,
}

/// The four sums of the first `n` rows: total, human, agent seconds and entries.
pub open spec fn sums(rows: Seq<ProjectTotal>, n: int) -> (int, int, int, int)
    decreases n,
{
    if n <= 0 {
        (0, 0, 0, 0)
    } else {
        let (t, h, a, e) = sums(rows, n - 1);
        let row = rows[n - 1];
        (t + row.total, h + row.human, a + row.agent, e + row.entries)
    }
}

/// Whether every running sum stays within the counters that hold it.
pub open spec fn sums_fit(rows: Seq<ProjectTotal>) -> bool {
    forall|n: int| 0 <= n <= rows.len() ==> {
        let (t, h, a, e) = #[trigger] sums(rows, n);
        &&& i64::MIN <= t <= i64::MAX
        &&& i64::MIN <= h <= i64::MAX
        &&& i64::MIN <= a <= i64::MAX
        &&& e <= usize::MAX
    }
}

/// One row over every project row, on screen or not, named `total`; its share is 0.
pub fn summary_total(rows: &Vec<ProjectTotal>) -> (r: ProjectTotal)
    requires
        sums_fit(rows@),
    ensures
        r.project@ == "total"@,
        (r.total as int, r.human as int, r.agent as int, r.entries as int) == sums(rows@, rows@.len() as int),
        r.share == 0,
{
    let mut total: i64 = 0;
    let mut human: i64 = 0;
    let mut agent: i64 = 0;
    let mut entries: usize = 0;
    let mut n: usize = 0;
    while n < rows.len()
        invariant
            sums_fit(rows@),
            n <= rows@.len(),
            (total as int, human as int, agent as int, entries as int) == sums(rows@, n as int),
        decreases rows@.len() - n,
    {
        let ghost next = sums(rows@, n + 1);
        assert(i64::MIN <= next.0 <= i64::MAX && i64::MIN <= next.1 <= i64::MAX && i64::MIN <= next.2 <= i64::MAX && next.3 <= usize::MAX);
        total = total + rows[n].total;
        human = human + rows[n].human;
        agent = agent + rows[n].agent;
        entries = entries + rows[n].entries;
        n += 1;
    }
    ProjectTotal { project: String::from_str("total"), total, human, agent, entries, share: 0 }
}

/// The leading rows the box has room for.
pub fn visible_project_summary(rows: &[ProjectTotal], visible_rows: usize) -> (r: &[ProjectTotal])
    ensures
        r@ == rows@.subrange(0, if visible_rows < rows@.len() { visible_rows as int } else { rows@.len() as int }),
{
    let shown = if visible_rows < rows.len() { visible_rows } else { rows.len() };
    vstd::slice::slice_subrange(rows, 0, shown)
}

/// The row a project key lands in: the last row of that name.
pub open spec fn row_for(names: Seq<Seq<char>>, key: Seq<char>) -> Option<int>
    decreases names.len(),
{
    if names.len() == 0 {
        None
    } else if names.last() == key {
        Some(names.len() - 1)
    } else {
        row_for(names.drop_last(), key)
    }
}

pub open spec fn row_names(rows: Seq<ProjectTotal>) -> Seq<Seq<char>> {
    rows.map_values(|r: ProjectTotal| r.project@)
}

/// The seconds that row `r` folds: a reading's own where its key lands in `r`, else none.
pub open spec fn masked(secs: Seq<int>, keys: Seq<Seq<char>>, names: Seq<Seq<char>>, r: int) -> Seq<int> {
    Seq::new(secs.len(), |j: int| if row_for(names, keys[j]) == Some(r) { secs[j] } else { 0 })
}

/// What the summary's heat grid holds: one row of the period's buckets per project
/// row, each folding the readings whose key lands in it, or, with nothing folded,
/// an empty row per project row anchored at the selected day's midnight.
pub open spec fn project_heat(
    view: ViewMode,
    rows: Seq<ProjectTotal>,
    keys: Seq<Seq<char>>,
    starts: Seq<Moment>,
    secs: Seq<int>,
    selected: int,
    grid: BucketGrid,
) -> bool {
    match bucket_span(view, starts, selected) {
        Some((anchor, count)) => grid.anchor == anchor && grid_cells(grid.rows@) == Seq::new(
            rows.len(),
            |r: int| bucket_row(grain_of(view), anchor, count, starts, masked(secs, keys, row_names(rows), r)),
        ),
        None => grid.anchor == midnight(selected) && grid_cells(grid.rows@) == Seq::new(rows.len(), |r: int| Seq::<int>::empty()),
    }
}

/// The row each key lands in.
fn rows_of_keys(rows: &Vec<ProjectTotal>, keys: &Vec<String>) -> (r: Vec<Option<usize>>)
    ensures
        r@.len() == keys@.len(),
        forall|j: int| 0 <= j < keys@.len() ==> (match #[trigger] r@[j] {
            Some(x) => Some(x as int),
            None => None,
        }) == row_for(row_names(rows@), keys@[j]@),
{
    let ghost names = row_names(rows@);
    let mut out: Vec<Option<usize>> = Vec::new();
    let mut j: usize = 0;
    while j < keys.len()
        invariant
            names == row_names(rows@),
            j <= keys@.len(),
            out@.len() == j,
            forall|x: int| 0 <= x < j ==> (match #[trigger] out@[x] {
                Some(y) => Some(y as int),
                None => None,
            }) == row_for(names, keys@[x]@),
        decreases keys@.len() - j,
    {
        let key = chars_of(keys[j].as_str());
        let mut found: Option<usize> = None;
        let mut n: usize = rows.len();
        assert(names.take(n as int) =~= names);
        while n > 0 && found.is_none()
            invariant
                names == row_names(rows@),
                n <= rows@.len(),
                found is None ==> row_for(names, key@) == row_for(names.take(n as int), key@),
                found matches Some(x) ==> row_for(names, key@) == Some(x as int),
            decreases n,
        {
            assert(names.take(n as int).drop_last() =~= names.take(n - 1));
            assert(names.take(n as int).last() == rows@[n - 1].project@);
            let name = chars_of(rows[n - 1].project.as_str());
            if chars_eq(&name, &key) {
                found = Some(n - 1);
            }
            n -= 1;
        }
        assert(found is None ==> names.take(n as int) =~= Seq::<Seq<char>>::empty());
        assert(keys@[j as int]@ == key@);
        out.push(found);
        j += 1;
    }
    out
}

/// The seconds row `r` folds, reading for reading.
fn masked_secs(landing: &Vec<Option<usize>>, secs: &Vec<i128>, r: usize) -> (m: Vec<i128>)
    requires
        landing@.len() == secs@.len(),
        span_bound(secs@),
    ensures
        m@.len() == secs@.len(),
        span_bound(m@),
        forall|j: int| 0 <= j < secs@.len() ==> #[trigger] m@[j] == if landing@[j] == Some(r) { secs@[j] } else { 0 },
{
    let mut m: Vec<i128> = Vec::new();
    let mut j: usize = 0;
    while j < secs.len()
        invariant
            landing@.len() == secs@.len(),
            span_bound(secs@),
            j <= secs@.len(),
            m@.len() == j,
            forall|x: int| 0 <= x < j ==> #[trigger] m@[x] == if landing@[x] == Some(r) { secs@[x] } else { 0 },
        decreases secs@.len() - j,
    {
        let v = match landing[j] {
            Some(x) => if x == r { secs[j] } else { 0 },
            None => 0,
        };
        m.push(v);
        j += 1;
    }
    assert forall|x: int| 0 <= x < m@.len() implies -0x1_0000_0000_0000_0000 <= #[trigger] m@[x] <= 0x1_0000_0000_0000_0000 by {
        assert(-0x1_0000_0000_0000_0000 <= secs@[x] <= 0x1_0000_0000_0000_0000);
    }
    m
}

/// The summary's heat: one bucket row per project row, index for index, each
/// folding the readings whose key (`keys`, reading for reading) lands in it, so a
/// row's buckets sum to the time its project started in the period.
pub fn project_buckets_at(
    view: ViewMode,
    rows: &Vec<ProjectTotal>,
    keys: &Vec<String>,
    starts: &Vec<Moment>,
    secs: &Vec<i128>,
    selected: i32,
) -> (r: BucketGrid)
    requires
        MIN_DAY <= selected <= MAX_DAY,
        monday_of(selected as int) >= MIN_DAY,
        keys@.len() == starts@.len(),
        starts@.len() == secs@.len(),
        starts@.len() <= MAX_ENTRIES,
        span_bound(secs@),
        forall|i: int| 0 <= i < starts@.len() ==> well_formed(#[trigger] starts@[i]) && monday_of(starts@[i].day as int) >= MIN_DAY,
    ensures
        r.grain == grain_of(view),
        project_heat(view, rows@, views(keys@), starts@, cells(secs@), selected as int, r),
{
    let grain = Grain::for_view(view);
    let ghost names = row_names(rows@);
    let ghost kv = views(keys@);
    let ghost sv = cells(secs@);
    match bucket_range(view, starts, selected) {
        Some((anchor, count)) => {
            let landing = rows_of_keys(rows, keys);
            let mut out: Vec<Vec<i128>> = Vec::new();
            let mut r: usize = 0;
            while r < rows.len()
                invariant
                    well_formed(anchor),
                    keys@.len() == starts@.len(),
                    starts@.len() == secs@.len(),
                    starts@.len() <= MAX_ENTRIES,
                    span_bound(secs@),
                    forall|i: int| 0 <= i < starts@.len() ==> well_formed(#[trigger] starts@[i]),
                    landing@.len() == keys@.len(),
                    forall|j: int| 0 <= j < keys@.len() ==> (match #[trigger] landing@[j] {
                        Some(x) => Some(x as int),
                        None => None,
                    }) == row_for(names, keys@[j]@),
                    names == row_names(rows@),
                    kv == views(keys@),
                    sv == cells(secs@),
                    r <= rows@.len(),
                    grid_cells(out@) == Seq::new(r as nat, |x: int| bucket_row(grain, anchor, count as int, starts@, masked(sv, kv, names, x))),
                decreases rows@.len() - r,
            {
                let m = masked_secs(&landing, secs, r);
                assert(cells(m@) =~= masked(sv, kv, names, r as int)) by {
                    assert forall|j: int| 0 <= j < m@.len() implies #[trigger] cells(m@)[j] == masked(sv, kv, names, r as int)[j] by {
                        assert(kv[j] == keys@[j]@);
                    }
                }
                let row = fold_buckets(grain, anchor, count, starts, &m);
                let ghost before = grid_cells(out@);
                out.push(row);
                assert(grid_cells(out@) =~= before.push(cells(row@)));
                assert(grid_cells(out@) =~= Seq::new((r + 1) as nat, |x: int| bucket_row(grain, anchor, count as int, starts@, masked(sv, kv, names, x))));
                r += 1;
            }
            BucketGrid { grain, anchor, rows: out }
        },
        None => {
            let mut out: Vec<Vec<i128>> = Vec::new();
            let mut r: usize = 0;
            while r < rows.len()
                invariant
                    r <= rows@.len(),
                    out@.len() == r,
                    grid_cells(out@) == Seq::new(r as nat, |x: int| Seq::<int>::empty()),
                decreases rows@.len() - r,
            {
                let ghost before = grid_cells(out@);
                out.push(Vec::new());
                assert(cells(out@[r as int]@) =~= Seq::<int>::empty());
                assert forall|x: int| 0 <= x < r + 1 implies #[trigger] grid_cells(out@)[x] == Seq::<int>::empty() by {
                    if x < r {
                        assert(grid_cells(out@)[x] == before[x]);
                    }
                }
                assert(grid_cells(out@) =~= Seq::new((r + 1) as nat, |x: int| Seq::<int>::empty()));
                r += 1;
            }
            BucketGrid { grain, anchor: Moment { day: selected, second: 0 }, rows: out }
        },
    }
}

/// The summary's heat, as `project_buckets_at` folds it, for entries read on the
/// machine's clock: each entry's row key from its project, its start as the wall
/// clock shows it, its seconds with a running one measured to the clock's
/// reading. An entry too near the end of chrono's calendar to be read, or in a
/// week it does not open, is left out.
pub fn project_buckets(entries: &Vec<&TimeEntry>, rows: &Vec<ProjectTotal>, view: ViewMode, selected: i32) -> (r: BucketGrid)
    requires
        MIN_DAY <= selected <= MAX_DAY,
        monday_of(selected as int) >= MIN_DAY,
        entries@.len() <= MAX_ENTRIES,
    ensures
        r.grain == grain_of(view),
        exists|idx: Seq<usize>, starts: Seq<Moment>, secs: Seq<int>, now: i64|
            #![trigger readings_of(derefs(entries@), idx, starts, secs, now as int), project_heat(view, rows@, keys_at(derefs(entries@), idx), starts, secs, selected as int, r)]
            0 <= now <= crate::clock::LAST_SECOND && readings_of(derefs(entries@), idx, starts, secs, now as int)
                && project_heat(view, rows@, keys_at(derefs(entries@), idx), starts, secs, selected as int, r),
{
    let now = crate::clock::now();
    let (idx, starts, secs) = entry_readings(entries, now);
    let mut keys: Vec<String> = Vec::new();
    let mut k: usize = 0;
    while k < idx.len()
        invariant
            k <= idx@.len(),
            keys@.len() == k,
            readings_of(derefs(entries@), idx@, starts@, cells(secs@), now as int),
            forall|x: int| 0 <= x < k ==> #[trigger] keys@[x]@ == row_key(opt_string(entries@[idx@[x] as int].project)),
        decreases idx@.len() - k,
    {
        assert(idx@[k as int] < entries@.len());
        assert(derefs(entries@)[idx@[k as int] as int] == *entries@[idx@[k as int] as int]);
        keys.push(project_key(&entries[idx[k]].project));
        k += 1;
    }
    assert(views(keys@) =~= keys_at(derefs(entries@), idx@));
    let r = project_buckets_at(view, rows, &keys, &starts, &secs, selected);
    assert(project_heat(view, rows@, views(keys@), starts@, cells(secs@), selected as int, r));
    r
}

/// When bucket `index` begins: the anchor moved on by that many grains; a month
/// chrono's calendar cannot reach leaves the anchor as it is. The month count is
/// taken as a `u32`, as `Months` holds it.
pub open spec fn bucket_start(grain: Grain, anchor: Moment, index: int) -> Moment {
    match grain {
        Grain::Hour => {
            let secs = moment_seconds(anchor) + index * 3600;
            Moment { day: (secs / 86400) as i32, second: (secs % 86400) as u32 }
        },
        Grain::Day => Moment { day: (anchor.day + index) as i32, second: anchor.second },
        Grain::Week => Moment { day: (anchor.day + 7 * index) as i32, second: anchor.second },
        Grain::Month => match months_after(anchor.day as int, (index as u32) as int) {
            Some(d) => Moment { day: d as i32, second: anchor.second },
            None => anchor,
        },
    }
}

/// The day bucket `index` begins on, for the grains counted in hours and days.
pub open spec fn start_day(grain: Grain, anchor: Moment, index: int) -> int {
    match grain {
        Grain::Hour => (moment_seconds(anchor) + index * 3600) / 86400,
        Grain::Day => anchor.day + index,
        Grain::Week => anchor.day + 7 * index,
        Grain::Month => anchor.day as int,
    }
}

impl BucketGrid {
    /// When bucket `index` begins, for an index whose start chrono's calendar holds
    /// (past it, chrono's own arithmetic would panic).
    pub fn start(&self, index: usize) -> (r: Moment)
        requires
            well_formed(self.anchor),
            MIN_DAY <= start_day(self.grain, self.anchor, index as int) <= MAX_DAY,
        ensures
            r == bucket_start(self.grain, self.anchor, index as int),
            well_formed(r),
    {
        let a = self.anchor;
        match self.grain {
            Grain::Hour => {
                let ghost secs = moment_seconds(a) + index * 3600;
                assert(MIN_DAY * 86400 <= secs < (MAX_DAY + 1) * 86400) by (nonlinear_arith)
                    requires
                        MIN_DAY <= secs / 86400 <= MAX_DAY,
                ;
                let total = a.day as i64 * 86400 + a.second as i64 + index as i64 * 3600;
                let day = floor_div(total, 86400);
                let second = total - day * 86400;
                proof {
                    vstd::arithmetic::div_mod::lemma_fundamental_div_mod(total as int, 86400);
                }
                Moment { day: day as i32, second: second as u32 }
            },
            Grain::Day => Moment { day: (a.day as i64 + index as i64) as i32, second: a.second },
            Grain::Week => Moment { day: (a.day as i64 + 7 * index as i64) as i32, second: a.second },
            Grain::Month => {
                let n = #[verifier::truncate] (index as u32);
                match add_months(a.day, n) {
                    Some(d) => Moment { day: d, second: a.second },
                    None => a,
                }
            },
        }
    }
}

// --- the buckets add up -------------------------------------------------------------------

/// The sum of a row of cells.
pub open spec fn row_sum(row: Seq<int>) -> int
    decreases row.len(),
{
    if row.len() == 0 {
        0
    } else {
        row_sum(row.drop_last()) + row.last()
    }
}

/// The seconds of the first `n` readings whose start falls in one of the `count`
/// buckets from the anchor.
pub open spec fn landed_total(grain: Grain, anchor: Moment, count: int, starts: Seq<Moment>, secs: Seq<int>, n: int) -> int
    decreases n,
{
    if n <= 0 {
        0
    } else {
        let k = bucket_offset(grain, anchor, starts[n - 1]);
        landed_total(grain, anchor, count, starts, secs, n - 1) + if 0 <= k < count { secs[n - 1] } else { 0 }
    }
}

proof fn lemma_row_sum_step(grain: Grain, anchor: Moment, count: int, starts: Seq<Moment>, secs: Seq<int>, n: int, m: int)
    requires
        1 <= n <= starts.len(),
        0 <= m <= count,
    ensures
        row_sum(Seq::new(m as nat, |k: int| bucket_total(grain, anchor, starts, secs, k, n)))
            == row_sum(Seq::new(m as nat, |k: int| bucket_total(grain, anchor, starts, secs, k, n - 1)))
            + if 0 <= bucket_offset(grain, anchor, starts[n - 1]) < m { secs[n - 1] } else { 0 },
    decreases m,
{
    let now = Seq::new(m as nat, |k: int| bucket_total(grain, anchor, starts, secs, k, n));
    let before = Seq::new(m as nat, |k: int| bucket_total(grain, anchor, starts, secs, k, n - 1));
    if m > 0 {
        lemma_row_sum_step(grain, anchor, count, starts, secs, n, m - 1);
        assert(now.drop_last() =~= Seq::new((m - 1) as nat, |k: int| bucket_total(grain, anchor, starts, secs, k, n)));
        assert(before.drop_last() =~= Seq::new((m - 1) as nat, |k: int| bucket_total(grain, anchor, starts, secs, k, n - 1)));
    }
}

proof fn lemma_row_sum_zero(grain: Grain, anchor: Moment, starts: Seq<Moment>, secs: Seq<int>, m: int)
    requires
        0 <= m,
    ensures
        row_sum(Seq::new(m as nat, |k: int| bucket_total(grain, anchor, starts, secs, k, 0))) == 0,
    decreases m,
{
    if m > 0 {
        lemma_row_sum_zero(grain, anchor, starts, secs, m - 1);
        assert(Seq::new(m as nat, |k: int| bucket_total(grain, anchor, starts, secs, k, 0)).drop_last()
            =~= Seq::new((m - 1) as nat, |k: int| bucket_total(grain, anchor, starts, secs, k, 0)));
    }
}

proof fn lemma_row_adds_up(grain: Grain, anchor: Moment, count: int, starts: Seq<Moment>, secs: Seq<int>, n: int)
    requires
        0 <= n <= starts.len(),
        0 <= count,
    ensures
        row_sum(Seq::new(count as nat, |k: int| bucket_total(grain, anchor, starts, secs, k, n)))
            == landed_total(grain, anchor, count, starts, secs, n),
    decreases n,
{
    if n == 0 {
        lemma_row_sum_zero(grain, anchor, starts, secs, count);
    } else {
        lemma_row_adds_up(grain, anchor, count, starts, secs, n - 1);
        lemma_row_sum_step(grain, anchor, count, starts, secs, n, count);
    }
}

/// A bucket row adds up to the seconds of the readings whose start falls in the
/// period: each reading's seconds go whole to one bucket, and a reading before the
/// anchor or past the last bucket to none.
pub proof fn lemma_buckets_add_up(grain: Grain, anchor: Moment, count: int, starts: Seq<Moment>, secs: Seq<int>)
    requires
        0 <= count,
    ensures
        row_sum(bucket_row(grain, anchor, count, starts, secs)) == landed_total(grain, anchor, count, starts, secs, starts.len() as int),
{
    lemma_row_adds_up(grain, anchor, count, starts, secs, starts.len() as int);
}

proof fn lemma_bounds_order(ms: Seq<Moment>)
    requires
        ms.len() >= 1,
    ensures
        forall|i: int| 0 <= i < ms.len() ==> moment_seconds(earliest_of(ms)) <= moment_seconds(#[trigger] ms[i]),
        forall|i: int| 0 <= i < ms.len() ==> moment_seconds(#[trigger] ms[i]) <= moment_seconds(latest_of(ms)),
    decreases ms.len(),
{
    if ms.len() > 1 {
        let rest = ms.drop_last();
        lemma_bounds_order(rest);
        assert forall|i: int| 0 <= i < ms.len() implies moment_seconds(earliest_of(ms)) <= moment_seconds(#[trigger] ms[i])
            && moment_seconds(ms[i]) <= moment_seconds(latest_of(ms)) by {
            if i < ms.len() - 1 {
                assert(ms[i] == rest[i]);
            }
        }
    }
}

proof fn lemma_all_landed(grain: Grain, anchor: Moment, count: int, starts: Seq<Moment>, secs: Seq<int>, n: int)
    requires
        0 <= n <= starts.len(),
        starts.len() == secs.len(),
        forall|i: int| 0 <= i < starts.len() ==> 0 <= #[trigger] bucket_offset(grain, anchor, starts[i]) < count,
    ensures
        landed_total(grain, anchor, count, starts, secs, n) == row_sum(secs.take(n)),
    decreases n,
{
    if n > 0 {
        lemma_all_landed(grain, anchor, count, starts, secs, n - 1);
        assert(secs.take(n).drop_last() =~= secs.take(n - 1));
        assert(bucket_offset(grain, anchor, starts[n - 1]) < count);
    }
}

/// In the everything view the strip runs from the Monday of the earliest start's
/// week through the latest start's week, so every reading lands in a bucket and
/// the buckets add up to all of their seconds.
pub proof fn lemma_everything_lands(starts: Seq<Moment>, secs: Seq<int>, selected: int)
    requires
        starts.len() == secs.len(),
        forall|i: int| 0 <= i < starts.len() ==> well_formed(#[trigger] starts[i]),
        bucket_span(ViewMode::All, starts, selected) is Some,
    ensures
        ({
            let (anchor, count) = bucket_span(ViewMode::All, starts, selected)->Some_0;
            row_sum(bucket_row(Grain::Week, anchor, count, starts, secs)) == row_sum(secs)
        }),
{
    let (anchor, count) = bucket_span(ViewMode::All, starts, selected)->Some_0;
    let lo = earliest_of(starts);
    let hi = latest_of(starts);
    lemma_bounds_order(starts);
    lemma_bounds_among(starts);
    let e = choose|i: int| 0 <= i < starts.len() && starts[i] == lo;
    let l = choose|i: int| 0 <= i < starts.len() && starts[i] == hi;
    assert(well_formed(starts[e]) && well_formed(starts[l]));
    assert(anchor == midnight(monday_of(lo.day as int)));
    assert(anchor.day == monday_of(lo.day as int));
    assert forall|i: int| 0 <= i < starts.len() implies 0 <= #[trigger] bucket_offset(Grain::Week, anchor, starts[i]) < count by {
        let m = starts[i];
        assert(moment_seconds(lo) <= moment_seconds(m) <= moment_seconds(hi));
        assert(lo.day <= m.day <= hi.day);
        assert(anchor.day <= lo.day);
        vstd::arithmetic::div_mod::lemma_div_is_ordered(0, m.day - anchor.day, 7);
        vstd::arithmetic::div_mod::lemma_div_is_ordered(m.day - anchor.day, hi.day - anchor.day, 7);
    }
    lemma_buckets_add_up(Grain::Week, anchor, count, starts, secs);
    lemma_all_landed(Grain::Week, anchor, count, starts, secs, starts.len() as int);
    assert(secs.take(starts.len() as int) =~= secs);
}

} // verus!
