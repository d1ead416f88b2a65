//! The text a heat surface draws around its cells: the tick axis over them, the
//! row labels in its gutter, and the title that counts what it holds.

use vstd::prelude::*;
use crate::duration::hm_text;
use crate::text::{chars_of, decimal, push_all, push_str, push_u64, string_of};

verus! {

/// The ticks of an axis: each labelled cell's first column and its label, left to right.
pub open spec fn ticks_of(labels: Seq<Option<Seq<char>>>, w: int) -> Seq<(int, Seq<char>)>
    decreases labels.len(),
{
    if labels.len() == 0 {
        seq![]
    } else {
        let before = ticks_of(labels.drop_last(), w);
        match labels.last() {
            Some(t) => before.push(((labels.len() - 1) * w, t)),
            None => before,
        }
    }
}

/// The columns tick `i` may write: up to one short of the next tick, and at least
/// one; the last runs to the end of the axis.
pub open spec fn room_of(ticks: Seq<(int, Seq<char>)>, i: int, len: int) -> int {
    if i + 1 < ticks.len() {
        let r = ticks[i + 1].0 - ticks[i].0 - 1;
        if r < 1 { 1 } else { r }
    } else {
        let r = len - ticks[i].0;
        if r < 0 { 0 } else { r }
    }
}

/// `axis` with `text` written from `col` on, cut to `room` columns.
pub open spec fn paint(axis: Seq<char>, col: int, text: Seq<char>, room: int) -> Seq<char> {
    Seq::new(axis.len(), |c: int| if col <= c && c - col < room && c - col < text.len() { text[c - col] } else { axis[c] })
}

/// A blank axis with the first `n` ticks written over it, in order.
pub open spec fn painted(ticks: Seq<(int, Seq<char>)>, n: int, len: int) -> Seq<char>
    decreases n,
{
    if n <= 0 {
        Seq::new(len as nat, |c: int| ' ')
    } else {
        paint(painted(ticks, n - 1, len), ticks[n - 1].0, ticks[n - 1].1, room_of(ticks, n - 1, len))
    }
}

pub open spec fn label_views(labels: Seq<Option<String>>) -> Seq<Option<Seq<char>>> {
    labels.map_values(|l: Option<String>| match l {
        Some(s) => Some(s@),
        None => None,
    })
}

/// One tick per labelled cell, each written over the cell it belongs to, on an
/// axis as wide as the cells. A tick is cut one column short of the next one, so
/// a dense axis abbreviates instead of running its labels together; the last may
/// run to the end.
pub fn axis_line(labels: &Vec<Option<String>>, cell_width: usize) -> (r: String)
    requires
        cell_width >= 1,
        labels@.len() * cell_width <= usize::MAX,
    ensures
        ({
            let ticks = ticks_of(label_views(labels@), cell_width as int);
            r@ == painted(ticks, ticks.len() as int, labels@.len() * cell_width)
        }),
{
    let ghost lv = label_views(labels@);
    let len = labels.len() * cell_width;
    // The ticks, left to right.
    let mut ticks: Vec<(usize, Vec<char>)> = Vec::new();
    let mut cell: usize = 0;
    assert(lv.take(0) =~= Seq::<Option<Seq<char>>>::empty());
    while cell < labels.len()
        invariant
            lv == label_views(labels@),
            cell <= labels@.len(),
            cell_width >= 1,
            labels@.len() * cell_width <= usize::MAX,
            ticks@.map_values(|t: (usize, Vec<char>)| (t.0 as int, t.1@)) == ticks_of(lv.take(cell as int), cell_width as int),
            forall|i: int| 0 <= i < ticks@.len() ==> #[trigger] ticks@[i].0 + cell_width <= cell * cell_width,
            forall|i: int, j: int| 0 <= i < j < ticks@.len() ==> ticks@[i].0 + cell_width <= ticks@[j].0,
        decreases labels@.len() - cell,
    {
        assert(lv.take(cell + 1).drop_last() =~= lv.take(cell as int));
        assert(lv.take(cell + 1).last() == lv[cell as int]);
        assert(cell * cell_width + cell_width == (cell + 1) * cell_width) by (nonlinear_arith);
        assert((cell + 1) * cell_width <= labels@.len() * cell_width) by (nonlinear_arith)
            requires
                cell < labels@.len(),
        ;
        let ghost tv = ticks@.map_values(|t: (usize, Vec<char>)| (t.0 as int, t.1@));
        match &labels[cell] {
            Some(text) => {
                ticks.push((cell * cell_width, chars_of(text.as_str())));
                assert(ticks@.map_values(|t: (usize, Vec<char>)| (t.0 as int, t.1@)) =~= tv.push(((cell * cell_width) as int, text@)));
            },
            None => {},
        }
        cell += 1;
    }
    assert(lv.take(labels@.len() as int) =~= lv);
    let ghost tv = ticks@.map_values(|t: (usize, Vec<char>)| (t.0 as int, t.1@));
    assert forall|i: int| 0 <= i < ticks@.len() implies #[trigger] ticks@[i].0 < len by {}
    // A blank axis.
    let mut axis: Vec<char> = Vec::new();
    let mut c: usize = 0;
    while c < len
        invariant
            c <= len,
            axis@ == Seq::new(c as nat, |x: int| ' '),
        decreases len - c,
    {
        axis.push(' ');
        assert(axis@ =~= Seq::new((c + 1) as nat, |x: int| ' '));
        c += 1;
    }
    let mut n: usize = 0;
    assert(axis@ =~= painted(tv, 0, len as int));
    while n < ticks.len()
        invariant
            tv == ticks@.map_values(|t: (usize, Vec<char>)| (t.0 as int, t.1@)),
            tv == ticks_of(lv, cell_width as int),
            len == labels@.len() * cell_width,
            cell_width >= 1,
            forall|i: int| 0 <= i < ticks@.len() ==> #[trigger] ticks@[i].0 < len,
            forall|i: int, j: int| 0 <= i < j < ticks@.len() ==> ticks@[i].0 + cell_width <= ticks@[j].0,
            n <= ticks@.len(),
            axis@ == painted(tv, n as int, len as int),
            axis@.len() == len,
        decreases ticks@.len() - n,
    {
        let column = ticks[n].0;
        let room: usize = if n + 1 < ticks.len() {
            let gap = ticks[n + 1].0 - column - 1;
            if gap < 1 { 1 } else { gap }
        } else {
            len - column
        };
        assert(room == room_of(tv, n as int, len as int));
        assert(column + room <= len);
        let ghost before = axis@;
        let text = &ticks[n].1;
        let mut off: usize = 0;
        while off < room && off < text.len()
            invariant
                column + room <= len,
                axis@.len() == len,
                before.len() == len,
                off <= room,
                off <= text@.len(),
                forall|x: int| 0 <= x < len ==> #[trigger] axis@[x] == if column <= x && x - column < off {
                    text@[x - column]
                } else {
                    before[x]
                },
            decreases room - off,
        {
            axis.set(column + off, text[off]);
            off += 1;
        }
        assert(axis@ =~= paint(before, column as int, text@, room as int));
        n += 1;
    }
    string_of(&axis)
}

/// A gutter label padded to `width`, cut to leave a column before the cells.
pub open spec fn gutter_text(text: Seq<char>, width: int) -> Seq<char> {
    let keep = if width - 1 < text.len() { if width >= 1 { width - 1 } else { 0 } } else { text.len() as int };
    let label = text.take(keep);
    label + Seq::new((if width > label.len() { width - label.len() } else { 0 }) as nat, |i: int| ' ')
}

/// A gutter label padded to `width` columns, cut to leave one column before the
/// cells.
pub fn gutter_label(text: &str, width: usize) -> (r: String)
    ensures
        r@ == gutter_text(text@, width as int),
{
    let chars = chars_of(text);
    let keep = if width >= 1 && width - 1 < chars.len() { width - 1 } else if width >= 1 { chars.len() } else { 0 };
    let mut out: Vec<char> = Vec::new();
    let mut i: usize = 0;
    while i < keep
        invariant
            keep <= chars@.len(),
            i <= keep,
            out@ == chars@.take(i as int),
        decreases keep - i,
    {
        out.push(chars[i]);
        assert(out@ =~= chars@.take(i + 1));
        i += 1;
    }
    let ghost label = out@;
    assert(label == text@.take(keep as int));
    assert(gutter_text(text@, width as int) == label + Seq::new((if width > keep { width - keep } else { 0 }) as nat, |x: int| ' '));
    while out.len() < width
        invariant
            label.len() == keep,
            label == text@.take(keep as int),
            gutter_text(text@, width as int) == label + Seq::new((if width > keep { width - keep } else { 0 }) as nat, |x: int| ' '),
            out@.len() >= keep,
            out@.len() <= if width > keep { width as int } else { keep as int },
            out@ == label + Seq::new((out@.len() - keep) as nat, |x: int| ' '),
        decreases width - out.len(),
    {
        out.push(' ');
        assert(out@ =~= label + Seq::new((out@.len() - keep) as nat, |x: int| ' '));
    }
    assert(out@ =~= gutter_text(text@, width as int));
    string_of(&out)
}

/// What a heat block calls itself: its total and how many of its units made it.
pub open spec fn block_title(total: int, active: nat, unit: Seq<char>) -> Seq<char> {
    " "@ + hm_text(total) + " tracked over "@ + decimal(active) + " active "@ + unit + (if active == 1 {
        ""@
    } else {
        "s"@
    }) + " "@
}

/// What a heat block calls itself: ` 3h 0m tracked over 2 active days `.
pub fn heat_block_title(total: i64, active: usize, unit: &str) -> (r: String)
    ensures
        r@ == block_title(total as int, active as nat, unit@),
{
    let mut out: Vec<char> = Vec::new();
    push_str(&mut out, " ");
    let t = chars_of(crate::duration::format(total).as_str());
    push_all(&mut out, &t);
    push_str(&mut out, " tracked over ");
    push_u64(&mut out, active as u64);
    push_str(&mut out, " active ");
    push_str(&mut out, unit);
    if active != 1 {
        push_str(&mut out, "s");
    } else {
        push_str(&mut out, "");
    }
    push_str(&mut out, " ");
    string_of(&out)
}

} // verus!
