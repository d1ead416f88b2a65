//! The content pane's heat grid as lines of toned text: per band an axis line,
//! then each of its rows drawn `cell_height` lines tall under a gutter of labels.
//! The binary shades each held cell from its seconds and its span.

use vstd::prelude::*;
use crate::marks::spaces;
use crate::text::{chars_of, push_all, push_str};
use crate::tui::cells::Tone;
use crate::tui::heat::{axis_line, gutter_label, gutter_text, label_views, painted, ticks_of};
use crate::tui::surfaces::{line_view, lines_view, Emphasis, StyledSpan};
use crate::marks::push_spaces;

verus! {

/// One band of the grid: an optional title for its opening line, a label per
/// row, a tick per column, and per row and column the seconds a cell holds
/// (`None` for a cell outside the period). `now_column` is today's column and
/// `now_row` the row that carries today, where the rows are times.
pub struct HeatBand {
    pub title: Option<String>,
    pub row_labels: Vec<String>,
    pub column_ticks: Vec<Option<String>>,
    pub cells: Vec<Vec<Option<i64>>>,
    /// The seconds one cell covers.
    pub cell_span: i64,
    pub now_column: Option<usize>,
    pub now_row: Option<usize>,
}

/// A band whose every row has a label.
pub open spec fn band_ok(b: HeatBand) -> bool {
    b.row_labels@.len() >= b.cells@.len()
}

/// How a strip of `buckets` cells fits `available` columns: the cell width, at
/// least one, and how many cells are drawn.
pub open spec fn strip_of(available: int, buckets: int) -> (int, int) {
    if buckets <= 0 {
        (1, 0)
    } else {
        (if available / buckets > 1 {
            available / buckets
        } else {
            1
        }, if available >= buckets {
            buckets
        } else {
            available
        })
    }
}

/// Whether today's marker belongs on this line of `row`: only on the line that
/// names the row, and there on the row that carries today, or where the rows
/// are not times, on the middle one.
pub open spec fn marks_now(b: HeatBand, row: int, named: bool) -> bool {
    named && match b.now_row {
        Some(now) => now == row,
        None => row == b.cells@.len() / 2,
    }
}

/// One cell of a line: blank outside the period; else shaded by what it holds
/// against its span (by the hours held where a cell spans a day or more), with
/// today's marker bold at its left edge on the line that carries it.
pub open spec fn heat_cell(b: HeatBand, row: int, column: int, named: bool, width: int, day_sized: bool) -> (
    Seq<char>,
    Tone,
    Emphasis,
) {
    match b.cells@[row]@[column] {
        None => (spaces(width), Tone::Plain, Emphasis::Normal),
        Some(held) => if b.now_column == Some(column as usize) && marks_now(b, row, named) {
            (
                seq!['\u{25cf}'] + spaces(width - 1),
                Tone::Heat { held, span: b.cell_span, day_sized, today: true },
                Emphasis::Bold,
            )
        } else {
            (spaces(width), Tone::Heat { held, span: b.cell_span, day_sized, today: false }, Emphasis::Normal)
        },
    }
}

/// The cells a row draws: as many as the strip has columns, or the row has cells.
pub open spec fn drawn_cells(b: HeatBand, row: int, columns: int) -> int {
    if columns < b.cells@[row]@.len() {
        columns
    } else {
        b.cells@[row]@.len() as int
    }
}

/// Line `line` of row `row`: the band's title on its opening line, the row's label
/// on the line in the middle of the row, a blank gutter elsewhere; then the cells.
pub open spec fn row_line(
    b: HeatBand,
    gutter: int,
    width: int,
    columns: int,
    cell_height: int,
    first_row: int,
    row: int,
    line: int,
    day_sized: bool,
) -> Seq<(Seq<char>, Tone, Emphasis)> {
    let named = line == cell_height / 2;
    let opens = row == first_row && line == 0;
    let label = if b.title is Some && opens {
        b.title->0@
    } else if named {
        gutter_text(b.row_labels@[row]@, gutter)
    } else {
        spaces(gutter)
    };
    seq![(label, Tone::Inactive, Emphasis::Normal)] + Seq::new(
        drawn_cells(b, row, columns) as nat,
        |c: int| heat_cell(b, row, c, named, width, day_sized),
    )
}

/// The lines of rows `first_row .. first_row + n`, each `cell_height` lines tall.
pub open spec fn row_block(
    b: HeatBand,
    gutter: int,
    width: int,
    columns: int,
    cell_height: int,
    first_row: int,
    n: int,
    day_sized: bool,
) -> Seq<Seq<(Seq<char>, Tone, Emphasis)>>
    decreases n,
{
    if n <= 0 {
        seq![]
    } else {
        row_block(b, gutter, width, columns, cell_height, first_row, n - 1, day_sized) + Seq::new(
            cell_height as nat,
            |l: int| row_line(b, gutter, width, columns, cell_height, first_row, first_row + n - 1, l, day_sized),
        )
    }
}

/// A band's axis: the gutter blank, then its first `columns` ticks over their cells.
pub open spec fn band_axis(b: HeatBand, gutter: int, width: int, columns: int) -> Seq<(Seq<char>, Tone, Emphasis)> {
    let labels = label_views(b.column_ticks@.take(columns));
    seq![(spaces(gutter) + painted(ticks_of(labels, width), ticks_of(labels, width).len() as int, columns * width), Tone::Inactive, Emphasis::Normal)]
}

/// A band's lines: its axis, then its rows from `first_row` on.
pub open spec fn band_lines(b: HeatBand, gutter: int, available: int, cell_height: int, first_row: int, day_sized: bool) -> Seq<
    Seq<(Seq<char>, Tone, Emphasis)>,
> {
    let (width, columns) = strip_of(available, b.column_ticks@.len() as int);
    let shown = if b.cells@.len() > first_row {
        b.cells@.len() - first_row
    } else {
        0
    };
    seq![band_axis(b, gutter, width, columns)] + row_block(b, gutter, width, columns, cell_height, first_row, shown, day_sized)
}

/// The lines of bands `0 .. n`, in order.
pub open spec fn bands_lines(bands: Seq<HeatBand>, n: int, gutter: int, available: int, cell_height: int, first_row: int, day_sized: bool) -> Seq<
    Seq<(Seq<char>, Tone, Emphasis)>,
>
    decreases n,
{
    if n <= 0 {
        seq![]
    } else {
        bands_lines(bands, n - 1, gutter, available, cell_height, first_row, day_sized) + band_lines(
            bands[n - 1],
            gutter,
            available,
            cell_height,
            first_row,
            day_sized,
        )
    }
}

/// How many rows the bands hold.
pub open spec fn rows_in(bands: Seq<HeatBand>, n: int) -> int
    decreases n,
{
    if n <= 0 {
        0
    } else {
        rows_in(bands, n - 1) + bands[n - 1].cells@.len()
    }
}

/// The grid for a box `inner_width` by `inner_height`, its gutter `gutter` wide,
/// each band's rows drawn from `first_row` on. Every band keeps its axis line and
/// the rows share what is left, each at least one line tall; nothing is drawn
/// when no row or no column is left. The lines are cut to the box's height.
pub open spec fn heat_grid_lines(
    bands: Seq<HeatBand>,
    gutter: int,
    inner_width: int,
    inner_height: int,
    first_row: int,
) -> Seq<Seq<(Seq<char>, Tone, Emphasis)>> {
    let available = if inner_width > gutter {
        inner_width - gutter
    } else {
        0
    };
    let total = rows_in(bands, bands.len() as int);
    let rows_total = if total > first_row {
        total - first_row
    } else {
        0
    };
    if rows_total == 0 || available == 0 {
        seq![]
    } else {
        let room = if inner_height > bands.len() {
            inner_height - bands.len()
        } else {
            0
        };
        let cell_height = if room / rows_total > 1 {
            room / rows_total
        } else {
            1
        };
        let day_sized = bands.len() > 0 && bands[0].cell_span >= 86400;
        let all = bands_lines(bands, bands.len() as int, gutter, available, cell_height, first_row, day_sized);
        if all.len() > inner_height {
            all.take(inner_height)
        } else {
            all
        }
    }
}

fn blank(n: usize) -> (r: Vec<char>)
    ensures
        r@ == spaces(n as int),
{
    let mut out: Vec<char> = Vec::new();
    push_spaces(&mut out, n);
    out
}

fn cell_span(b: &HeatBand, row: usize, column: usize, named: bool, width: usize, day_sized: bool) -> (r: StyledSpan)
    requires
        row < b.cells@.len(),
        column < b.cells@[row as int]@.len(),
        width >= 1,
    ensures
        (r.text@, r.tone, r.emphasis) == heat_cell(*b, row as int, column as int, named, width as int, day_sized),
{
    match b.cells[row][column] {
        None => StyledSpan { text: crate::text::string_of(&blank(width)), tone: Tone::Plain, emphasis: Emphasis::Normal },
        Some(held) => {
            let now_row = match b.now_row {
                Some(now) => now == row,
                None => row == b.cells.len() / 2,
            };
            if b.now_column == Some(column) && named && now_row {
                let mut text: Vec<char> = Vec::new();
                text.push('\u{25cf}');
                push_spaces(&mut text, width - 1);
                StyledSpan {
                    text: crate::text::string_of(&text),
                    tone: Tone::Heat { held, span: b.cell_span, day_sized, today: true },
                    emphasis: Emphasis::Bold,
                }
            } else {
                StyledSpan {
                    text: crate::text::string_of(&blank(width)),
                    tone: Tone::Heat { held, span: b.cell_span, day_sized, today: false },
                    emphasis: Emphasis::Normal,
                }
            }
        },
    }
}

fn one_row_line(
    b: &HeatBand,
    gutter: usize,
    width: usize,
    columns: usize,
    cell_height: usize,
    first_row: usize,
    row: usize,
    line: usize,
    day_sized: bool,
) -> (r: Vec<StyledSpan>)
    requires
        band_ok(*b),
        row < b.cells@.len(),
        width >= 1,
        cell_height >= 1,
    ensures
        line_view(r@) == row_line(
            *b,
            gutter as int,
            width as int,
            columns as int,
            cell_height as int,
            first_row as int,
            row as int,
            line as int,
            day_sized,
        ),
{
    let named = line == cell_height / 2;
    let opens = row == first_row && line == 0;
    let label: Vec<char> = match &b.title {
        Some(t) if opens => chars_of(t.as_str()),
        _ => if named {
            chars_of(gutter_label(b.row_labels[row].as_str(), gutter).as_str())
        } else {
            blank(gutter)
        },
    };
    let mut out: Vec<StyledSpan> = Vec::new();
    out.push(StyledSpan { text: crate::text::string_of(&label), tone: Tone::Inactive, emphasis: Emphasis::Normal });
    let n = if columns < b.cells[row].len() {
        columns
    } else {
        b.cells[row].len()
    };
    let ghost want = row_line(
        *b,
        gutter as int,
        width as int,
        columns as int,
        cell_height as int,
        first_row as int,
        row as int,
        line as int,
        day_sized,
    );
    assert(line_view(out@) =~= want.take(1));
    let mut c: usize = 0;
    while c < n
        invariant
            c <= n,
            n == drawn_cells(*b, row as int, columns as int),
            row < b.cells@.len(),
            width >= 1,
            named == (line == cell_height / 2),
            want == row_line(
                *b,
                gutter as int,
                width as int,
                columns as int,
                cell_height as int,
                first_row as int,
                row as int,
                line as int,
                day_sized,
            ),
            want.len() == n + 1,
            line_view(out@) == want.take(c + 1),
        decreases n - c,
    {
        let cell = cell_span(b, row, c, named, width, day_sized);
        let ghost before = out@;
        out.push(cell);
        assert(line_view(out@) =~= line_view(before).push((cell.text@, cell.tone, cell.emphasis)));
        assert(want.take(c + 2) =~= want.take(c + 1).push(want[c + 1]));
        c += 1;
    }
    assert(want.take(n + 1) =~= want);
    out
}

/// The heat grid as lines, for a box `inner_width` by `inner_height` inside its
/// border, a gutter `gutter` wide, and each band's rows drawn from `first_row` on.
pub fn heat_lines(bands: &Vec<HeatBand>, gutter: usize, inner_width: usize, inner_height: usize, first_row: usize) -> (r: Vec<
    Vec<StyledSpan>,
>)
    requires
        forall|i: int| 0 <= i < bands@.len() ==> band_ok(#[trigger] bands@[i]),
    ensures
        lines_view(r@) == heat_grid_lines(bands@, gutter as int, inner_width as int, inner_height as int, first_row as int),
{
    let available: usize = if inner_width > gutter {
        inner_width - gutter
    } else {
        0
    };
    let mut total: u128 = 0;
    let mut i: usize = 0;
    while i < bands.len()
        invariant
            i <= bands@.len(),
            total == rows_in(bands@, i as int),
            total <= i * usize::MAX,
        decreases bands.len() - i,
    {
        total = total + bands[i].cells.len() as u128;
        i += 1;
    }
    let rows_total: u128 = if total > first_row as u128 {
        total - first_row as u128
    } else {
        0
    };
    let ghost want = heat_grid_lines(bands@, gutter as int, inner_width as int, inner_height as int, first_row as int);
    if rows_total == 0 || available == 0 {
        let out: Vec<Vec<StyledSpan>> = Vec::new();
        assert(lines_view(out@) =~= want);
        return out;
    }
    let room: u128 = if inner_height > bands.len() {
        (inner_height - bands.len()) as u128
    } else {
        0
    };
    let q = room / rows_total;
    let cell_height: usize = if q > 1 {
        q as usize
    } else {
        1
    };
    let day_sized = bands.len() > 0 && bands[0].cell_span >= 86400;
    let ghost all = bands_lines(bands@, bands@.len() as int, gutter as int, available as int, cell_height as int, first_row as int, day_sized);
    let mut out: Vec<Vec<StyledSpan>> = Vec::new();
    let mut k: usize = 0;
    while k < bands.len()
        invariant
            k <= bands@.len(),
            forall|i: int| 0 <= i < bands@.len() ==> band_ok(#[trigger] bands@[i]),
            cell_height >= 1,
            available >= 1,
            lines_view(out@) == bands_lines(bands@, k as int, gutter as int, available as int, cell_height as int, first_row as int, day_sized),
        decreases bands.len() - k,
    {
        let b = &bands[k];
        let ghost before = lines_view(out@);
        let buckets = b.column_ticks.len();
        let (width, columns) = crate::tui::summary::strip_cells(available, buckets);
        assert((width as int, columns as int) == strip_of(available as int, buckets as int)) by {
            if buckets > 0 {
                if available >= buckets {
                } else {
                }
            }
        }
        let mut ticks: Vec<Option<String>> = Vec::new();
        let mut t: usize = 0;
        while t < columns
            invariant
                t <= columns,
                columns <= b.column_ticks@.len(),
                label_views(ticks@) == label_views(b.column_ticks@.take(t as int)),
            decreases columns - t,
        {
            let tick = match &b.column_ticks[t] {
                Some(s) => Some(s.clone()),
                None => None,
            };
            let ghost old_ticks = ticks@;
            ticks.push(tick);
            assert(label_views(ticks@) =~= label_views(old_ticks).push(match tick {
                Some(s) => Some(s@),
                None => None,
            }));
            assert(b.column_ticks@.take(t + 1) =~= b.column_ticks@.take(t as int).push(b.column_ticks@[t as int]));
            assert(label_views(b.column_ticks@.take(t + 1)) =~= label_views(b.column_ticks@.take(t as int)).push(
                match b.column_ticks@[t as int] {
                    Some(s) => Some(s@),
                    None => None,
                },
            ));
            t += 1;
        }
        proof {
            assert(columns * width <= available);
        }
        let axis_text = axis_line(&ticks, width);
        let mut axis: Vec<char> = blank(gutter);
        push_str(&mut axis, axis_text.as_str());
        let mut axis_spans: Vec<StyledSpan> = Vec::new();
        axis_spans.push(StyledSpan { text: crate::text::string_of(&axis), tone: Tone::Inactive, emphasis: Emphasis::Normal });
        assert(line_view(axis_spans@) =~= band_axis(*b, gutter as int, width as int, columns as int));
        out.push(axis_spans);
        let ghost with_axis = before.push(band_axis(*b, gutter as int, width as int, columns as int));
        assert(lines_view(out@) =~= with_axis);
        let mut row: usize = first_row;
        while row < b.cells.len()
            invariant
                first_row <= row,
                row <= b.cells@.len() || row == first_row,
                band_ok(*b),
                cell_height >= 1,
                width >= 1,
                lines_view(out@) == with_axis + row_block(
                    *b,
                    gutter as int,
                    width as int,
                    columns as int,
                    cell_height as int,
                    first_row as int,
                    (row - first_row) as int,
                    day_sized,
                ),
            decreases b.cells.len() - row,
        {
            let ghost start = lines_view(out@);
            let mut line: usize = 0;
            while line < cell_height
                invariant
                    line <= cell_height,
                    row < b.cells@.len(),
                    band_ok(*b),
                    cell_height >= 1,
                    width >= 1,
                    lines_view(out@) == start + Seq::new(
                        line as nat,
                        |l: int| row_line(*b, gutter as int, width as int, columns as int, cell_height as int, first_row as int, row as int, l, day_sized),
                    ),
                decreases cell_height - line,
            {
                let spans = one_row_line(b, gutter, width, columns, cell_height, first_row, row, line, day_sized);
                let ghost prev = out@;
                out.push(spans);
                assert(lines_view(out@) =~= lines_view(prev).push(line_view(spans@)));
                assert(lines_view(out@) =~= start + Seq::new(
                    (line + 1) as nat,
                    |l: int| row_line(*b, gutter as int, width as int, columns as int, cell_height as int, first_row as int, row as int, l, day_sized),
                ));
                line += 1;
            }
            assert(row - first_row + 1 == row + 1 - first_row);
            assert(lines_view(out@) =~= with_axis + row_block(
                *b,
                gutter as int,
                width as int,
                columns as int,
                cell_height as int,
                first_row as int,
                (row + 1 - first_row) as int,
                day_sized,
            ));
            row += 1;
        }
        let ghost shown = if b.cells@.len() > first_row { b.cells@.len() - first_row } else { 0 };
        assert(row_block(*b, gutter as int, width as int, columns as int, cell_height as int, first_row as int, shown, day_sized)
            == row_block(*b, gutter as int, width as int, columns as int, cell_height as int, first_row as int, (row - first_row) as int, day_sized));
        assert(lines_view(out@) =~= before + band_lines(*b, gutter as int, available as int, cell_height as int, first_row as int, day_sized));
        k += 1;
    }
    let ghost lv = lines_view(out@);
    assert(lv == all);
    if out.len() > inner_height {
        out.truncate(inner_height);
        assert(lines_view(out@) =~= all.take(inner_height as int));
    }
    out
}

} // verus!
