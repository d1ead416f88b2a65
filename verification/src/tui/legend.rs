//! The key legend a surface draws on its bottom border: its entries, most useful
//! first, and how many of them fit the border's width.

use ratatui::text::Span;
use vstd::prelude::*;
use crate::text::{chars_of, push_all, push_str, string_of};
use crate::tracker::MAX_ENTRIES;

verus! {

/// The cells a text takes on the terminal, as ratatui measures a span of it.
pub uninterp spec fn display_width(text: Seq<char>) -> nat;

/// `ratatui::text::Span::raw(text).width()`: the unicode width ratatui gives a
/// span holding `text`. Claims that it is the width `display_width` names.
#[verifier::external_body]
fn span_width(text: &str) -> (r: usize)
    ensures
        r == display_width(text@),
{
    Span::raw(text).width()
}

/// Between two entries.
pub open spec fn separator() -> Seq<char> {
    " \u{b7} "@
}

/// What an entry's label span holds.
pub open spec fn label_text(label: Seq<char>) -> Seq<char> {
    ": "@ + label
}

pub open spec fn entry_views(entries: Seq<(String, String, bool)>) -> Seq<(Seq<char>, Seq<char>)> {
    entries.map_values(|e: (String, String, bool)| (e.0@, e.1@))
}

/// The width of the first `k` entries' spans: each key and its label, a separator
/// before every entry but the first.
pub open spec fn entries_width(es: Seq<(Seq<char>, Seq<char>)>, k: int) -> int
    decreases k,
{
    if k <= 0 {
        0
    } else {
        entries_width(es, k - 1) + (if k == 1 { 0 } else { display_width(separator()) as int })
            + display_width(es[k - 1].0) + display_width(label_text(es[k - 1].1))
    }
}

/// The width of the legend line holding the first `k` entries, a space at each end.
pub open spec fn line_width(es: Seq<(Seq<char>, Seq<char>)>, k: int) -> int {
    display_width(" "@) + entries_width(es, k) + display_width(" "@)
}

/// The text of the legend line holding the first `k` entries.
pub open spec fn line_spec(es: Seq<(Seq<char>, Seq<char>)>, k: int) -> Seq<char>
    decreases k,
{
    if k <= 0 {
        " "@
    } else {
        line_spec(es, k - 1) + (if k == 1 { Seq::empty() } else { separator() }) + es[k - 1].0 + label_text(es[k - 1].1)
    }
}

/// The width of the legend line holding the first `k` entries.
fn width_of_first(entries: &Vec<(String, String, bool)>, k: usize) -> (r: u128)
    requires
        k <= entries@.len(),
        entries@.len() <= MAX_ENTRIES,
    ensures
        r == line_width(entry_views(entries@), k as int),
{
    let ghost es = entry_views(entries@);
    let space = span_width(" ");
    let sep = span_width(" \u{b7} ");
    let mut total: u128 = space as u128;
    let mut i: usize = 0;
    while i < k
        invariant
            es == entry_views(entries@),
            k <= entries@.len(),
            entries@.len() <= MAX_ENTRIES,
            i <= k,
            space == display_width(" "@),
            sep == display_width(separator()),
            total == space + entries_width(es, i as int),
            total <= (3 * i + 1) * 0x1_0000_0000_0000_0000,
        decreases k - i,
    {
        if i > 0 {
            total = total + sep as u128;
        }
        let key = span_width(entries[i].0.as_str());
        let mut text: Vec<char> = Vec::new();
        push_str(&mut text, ": ");
        let label = chars_of(entries[i].1.as_str());
        push_all(&mut text, &label);
        let label_width = span_width(string_of(&text).as_str());
        assert(text@ == label_text(es[i as int].1));
        total = total + key as u128 + label_width as u128;
        i += 1;
    }
    total + space as u128
}

/// How many of the legend's entries, `(key, label, accented)` most useful first,
/// fit `width` cells: the most whose line is no wider, the tail shedding one entry
/// at a time; `None` when not even the first fits. Never a clipped line.
pub fn legend(entries: &Vec<(String, String, bool)>, width: u16) -> (r: Option<usize>)
    requires
        entries@.len() <= MAX_ENTRIES,
    ensures
        match r {
            Some(k) => {
                &&& 1 <= k <= entries@.len()
                &&& line_width(entry_views(entries@), k as int) <= width
                &&& forall|j: int| k < j <= entries@.len() ==> line_width(entry_views(entries@), j) > width
            },
            None => forall|j: int| 1 <= j <= entries@.len() ==> line_width(entry_views(entries@), j) > width,
        },
{
    let mut k: usize = entries.len();
    while k >= 1
        invariant
            k <= entries@.len(),
            entries@.len() <= MAX_ENTRIES,
            forall|j: int| k < j <= entries@.len() ==> line_width(entry_views(entries@), j) > width,
        decreases k,
    {
        if width_of_first(entries, k) <= width as u128 {
            return Some(k);
        }
        k -= 1;
    }
    None
}

/// The text of the legend line holding the first `kept` entries: each `key: label`,
/// a separator between two, a space at each end.
pub fn line_text(entries: &Vec<(String, String, bool)>, kept: usize) -> (r: String)
    requires
        kept <= entries@.len(),
    ensures
        r@ == line_spec(entry_views(entries@), kept as int) + " "@,
{
    let ghost es = entry_views(entries@);
    let mut out: Vec<char> = Vec::new();
    out.push(' ');
    proof {
        reveal_strlit(" ");
        assert(out@ =~= " "@);
    }
    let mut i: usize = 0;
    while i < kept
        invariant
            es == entry_views(entries@),
            kept <= entries@.len(),
            i <= kept,
            out@ == line_spec(es, i as int),
        decreases kept - i,
    {
        if i > 0 {
            push_str(&mut out, " \u{b7} ");
        }
        let key = chars_of(entries[i].0.as_str());
        push_all(&mut out, &key);
        push_str(&mut out, ": ");
        let label = chars_of(entries[i].1.as_str());
        push_all(&mut out, &label);
        assert(out@ =~= line_spec(es, i + 1));
        i += 1;
    }
    let ghost body = out@;
    out.push(' ');
    proof {
        reveal_strlit(" ");
        assert(out@ =~= body + " "@);
    }
    string_of(&out)
}

} // verus!
